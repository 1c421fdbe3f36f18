use rcl::memory::{DecodeError, MemoryImage, StoredEvent};

fn sample() -> MemoryImage {
    MemoryImage {
        basis_dim: 3,
        next_gen: 7,
        next_constraint: 2,
        omega: vec![(1.0f64.to_bits(), 0), (0, (-0.5f64).to_bits())],
        events: vec![
            StoredEvent { id: 1, burden_bits: 1.25f64.to_bits(), depth: 0, label: "let x".to_string() },
            StoredEvent { id: 5, burden_bits: 2.0f64.to_bits(), depth: 1, label: "ünïcode".to_string() },
        ],
    }
}

#[test]
fn layout_of_header() {
    let b = sample().to_bytes();
    assert_eq!(&b[0..8], &3u64.to_le_bytes());
    assert_eq!(&b[8..16], &7u64.to_le_bytes());
    assert_eq!(&b[16..24], &2u64.to_le_bytes());
    assert_eq!(&b[24..32], &2u64.to_le_bytes());
    // header, two vector entries, the event count, two events with labels
    assert_eq!(b.len(), 32 + 32 + 8 + (32 + 5) + (32 + "ünïcode".len()));
}

#[test]
fn roundtrip() {
    let m = sample();
    let back = MemoryImage::from_bytes(&m.to_bytes()).unwrap();
    assert_eq!(back.basis_dim, 3);
    assert_eq!(back.next_gen, 7);
    assert_eq!(back.next_constraint, 2);
    assert_eq!(back.omega, m.omega);
    assert_eq!(back.events.len(), 2);
    assert_eq!(back.events[1].id, 5);
    assert_eq!(f64::from_bits(back.events[0].burden_bits), 1.25);
    assert_eq!(back.events[1].depth, 1);
    assert_eq!(back.events[1].label, "ünïcode");
}

#[test]
fn truncated_input() {
    let b = sample().to_bytes();
    for cut in [0usize, 7, 31, 40, 71, 80, b.len() - 1] {
        assert_eq!(MemoryImage::from_bytes(&b[..cut]).err(), Some(DecodeError::UnexpectedEnd));
    }
}

#[test]
fn invalid_label_reads_as_empty_and_trailing_bytes_are_ignored() {
    let mut b = Vec::new();
    for w in [1u64, 1, 0, 0, 1, 9, 0, 4, 2] {
        b.extend_from_slice(&w.to_le_bytes());
    }
    b.extend_from_slice(&[0xff, 0xfe]);
    b.extend_from_slice(&[1, 2, 3]);
    let m = MemoryImage::from_bytes(&b).unwrap();
    assert_eq!(m.events.len(), 1);
    assert_eq!(m.events[0].id, 9);
    assert_eq!(m.events[0].depth, 4);
    assert_eq!(m.events[0].label, "");
}
