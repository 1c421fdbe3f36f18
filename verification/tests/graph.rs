use rcl::memory::StoredEvent;
use rcl::graph::{set_elements, CausalGraph};
use std::collections::BTreeSet;

fn set(xs: &[u64]) -> BTreeSet<u64> {
    xs.iter().cloned().collect()
}

fn chain() -> CausalGraph {
    let mut g = CausalGraph::new();
    assert_eq!(g.add_event(set(&[])), 1);
    assert_eq!(g.add_event(set(&[1])), 2);
    assert_eq!(g.add_event(set(&[2, 99])), 3);
    g
}

#[test]
fn new_graph_is_empty() {
    let g = CausalGraph::new();
    assert!(g.events.is_empty());
    assert_eq!(g.next_id, 1);
    assert_eq!(g.max_depth(), 0);
    assert_eq!(g.causal_ancestors(1), Vec::<u64>::new());
}

#[test]
fn add_event_numbers_links_and_depths() {
    let g = chain();
    assert_eq!(g.next_id, 4);
    let e1 = &g.events[&1];
    assert_eq!(e1.depth, 0);
    assert!(e1.closure.is_empty());
    let e2 = &g.events[&2];
    assert_eq!(e2.depth, 1);
    assert_eq!(e2.prereqs, set(&[1]));
    assert_eq!(e2.closure, set(&[1]));
    // The unknown prerequisite 99 is kept but adds no depth and no ancestors.
    let e3 = &g.events[&3];
    assert_eq!(e3.depth, 2);
    assert_eq!(e3.prereqs, set(&[2, 99]));
    assert_eq!(e3.closure, set(&[1, 2, 99]));
}

#[test]
fn closure_is_transitive_and_depth_exceeds_prerequisites() {
    let mut g = chain();
    let id = g.add_event(set(&[3, 1]));
    let e = &g.events[&id];
    // Through 3 the new event follows 2 and 1 as well.
    for a in [1u64, 2, 3, 99] {
        assert!(e.closure.contains(&a));
    }
    for p in [3u64, 1] {
        assert!(g.events[&p].depth < e.depth);
    }
    assert_eq!(e.depth, 3);
}

#[test]
fn event_with_only_unknown_prerequisites_has_depth_zero() {
    let mut g = CausalGraph::new();
    let id = g.add_event(set(&[5, 6]));
    assert_eq!(id, 1);
    assert_eq!(g.events[&1].depth, 0);
    assert_eq!(g.events[&1].closure, set(&[5, 6]));
}

#[test]
fn max_depth_of_graph() {
    let g = chain();
    assert_eq!(g.max_depth(), 2);
}

#[test]
fn ancestors_in_increasing_order() {
    let g = chain();
    assert_eq!(g.causal_ancestors(3), vec![1, 2, 99]);
    assert_eq!(g.causal_ancestors(1), Vec::<u64>::new());
    assert_eq!(g.causal_ancestors(42), Vec::<u64>::new());
}

#[test]
fn first_prerequisite_is_the_smallest() {
    let g = chain();
    assert_eq!(g.events[&3].first_prereq(), Some(2));
    assert_eq!(g.events[&2].first_prereq(), Some(1));
    assert_eq!(g.events[&1].first_prereq(), None);
}

#[test]
fn loading_events_moves_the_next_number() {
    let mut g = chain();
    g.load_event(10, 4);
    assert_eq!(g.next_id, 11);
    assert_eq!(g.events[&10].depth, 4);
    assert!(g.events[&10].prereqs.is_empty());
    assert!(g.events[&10].closure.is_empty());
    g.load_event(3, 7);
    assert_eq!(g.next_id, 11);
    assert_eq!(g.events[&3].depth, 7);
    assert!(g.events[&3].closure.is_empty());
    assert_eq!(g.max_depth(), 7);
    // A fresh event gets the next number, which was not in use.
    assert_eq!(g.add_event(set(&[10])), 11);
    assert_eq!(g.events[&11].depth, 5);
}

#[test]
fn numbers_are_fresh_and_increasing() {
    let mut g = CausalGraph::new();
    let mut last = 0;
    for _ in 0..5 {
        let id = g.add_event(set(&[]));
        assert!(id > last);
        last = id;
    }
    assert_eq!(g.events.len(), 5);
}

#[test]
fn set_members_in_order() {
    assert_eq!(set_elements(&set(&[9, 3, 7, 3])), vec![3, 7, 9]);
    assert_eq!(set_elements(&set(&[])), Vec::<u64>::new());
}

#[test]
fn lists_follow_the_least_prerequisite() {
    let g = chain();
    assert_eq!(g.list_of(3), Some(vec![3, 2, 1]));
    assert_eq!(g.list_of(1), Some(vec![1]));
    assert_eq!(g.list_of(0), Some(vec![]));
    // An unknown event ends the list and is part of it.
    assert_eq!(g.list_of(42), Some(vec![42]));
}

#[test]
fn a_list_that_comes_back_has_no_end() {
    let mut g = CausalGraph::new();
    assert_eq!(g.add_event(set(&[2])), 1);
    assert_eq!(g.add_event(set(&[1])), 2);
    assert_eq!(g.list_of(1), None);
    assert_eq!(g.list_of(2), None);
    assert_eq!(g.deepest_event(), Some(2));
    assert_eq!(g.deepest_chain(2), None);
}

#[test]
fn proper_time_walk_takes_the_deepest_prerequisite() {
    let mut g = CausalGraph::new();
    let a = g.add_event(set(&[])); // depth 0
    let b = g.add_event(set(&[a])); // depth 1
    let c = g.add_event(set(&[a])); // depth 1
    let d = g.add_event(set(&[a, c, b])); // depth 2
    assert_eq!(g.deepest_event(), Some(d));
    // b and c are equally deep: the smaller number is taken.
    assert_eq!(g.deepest_prereq(d), Some(b));
    assert_eq!(g.deepest_prereq(a), None);
    assert_eq!(g.deepest_chain(d), Some(vec![d, b, a]));
    assert_eq!(g.deepest_chain(77), Some(vec![]));
}

#[test]
fn depths_are_compared_as_signed_32_bit_keys() {
    let mut g = CausalGraph::new();
    g.load_event(5, 1usize << 31);
    let id = g.add_event(set(&[5]));
    assert_eq!(g.events[&id].depth, (1usize << 31) + 1);
    assert_eq!(g.deepest_event(), Some(id));
    // The key of event 5 is negative, so the walk stops at once.
    assert_eq!(g.deepest_prereq(id), None);
    assert_eq!(g.deepest_chain(id), Some(vec![id]));
}

#[test]
fn flat_graph_has_no_deepest_event() {
    let mut g = CausalGraph::new();
    assert_eq!(g.deepest_event(), None);
    g.add_event(set(&[]));
    g.add_event(set(&[9]));
    assert_eq!(g.deepest_event(), None);
}

#[test]
fn a_whole_load_puts_the_next_number_past_the_largest() {
    let ev = |id: u64, depth: u64| StoredEvent { id, burden_bits: 0, depth, label: String::new() };
    let mut g = CausalGraph::load_saved(&vec![ev(5, 2), ev(3, 1), ev(5, 7)]);
    assert_eq!(g.next_id, 6);
    assert_eq!(g.events.len(), 2);
    assert_eq!(g.events[&5].depth, 7);
    assert_eq!(g.events[&3].depth, 1);
    // A new event overwrites none of the loaded ones.
    assert_eq!(g.add_event(set(&[3])), 6);
    assert_eq!(g.events.len(), 3);
    let empty = CausalGraph::load_saved(&vec![]);
    assert_eq!(empty.next_id, 1);
    assert!(empty.events.is_empty());
}
