use rcl::imports::begin_import;

#[test]
fn each_file_is_imported_once() {
    let mut done: Vec<String> = Vec::new();
    assert!(begin_import(&mut done, "core.rcl"));
    assert!(begin_import(&mut done, "math.rcl"));
    assert!(!begin_import(&mut done, "core.rcl"));
    assert_eq!(done, vec!["core.rcl".to_string(), "math.rcl".to_string()]);
}
