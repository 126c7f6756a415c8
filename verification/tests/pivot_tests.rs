use metric_proxy::pivot::{ClientPivot, PivotTable, DEFAULT_FAN};

#[test]
fn first_three_pivots_build_a_binary_tree() {
    let mut t = PivotTable::new(DEFAULT_FAN, "root:1337".to_string());
    // First request: the root has room and takes its first child.
    let p1 = t.pivot("x1:1".to_string()).unwrap();
    assert_eq!(p1, "root:1337");
    // Second request: the root, now partially filled, is preferred and
    // becomes full.
    let p2 = t.pivot("x2:1".to_string()).unwrap();
    assert_eq!(p2, "root:1337");
    // Third request: the root is full, so the first intermediate node wins.
    let p3 = t.pivot("x3:1".to_string()).unwrap();
    assert_eq!(p3, "x1:1");
    // No node ever exceeds the fan-in.
    for c in &t.clients {
        assert!(c.refcount <= DEFAULT_FAN);
        assert_eq!(c.child.len() as u32, c.refcount);
    }
    assert_eq!(t.clients[0].child, vec!["x1:1".to_string(), "x2:1".to_string()]);
    assert_eq!(t.clients[1].child, vec!["x3:1".to_string()]);
}

#[test]
fn every_requester_joins_the_table() {
    let mut t = PivotTable::new(DEFAULT_FAN, "root".to_string());
    t.pivot("a".to_string()).unwrap();
    t.pivot("b".to_string()).unwrap();
    assert_eq!(t.clients.len(), 3);
    assert_eq!(t.clients[1].url, "a");
    assert_eq!(t.clients[2].url, "b");
}

#[test]
fn a_partially_filled_node_is_preferred_over_a_fresh_one() {
    let mut t = PivotTable::new(3, "root".to_string());
    t.pivot("a".to_string()).unwrap();
    // The root has one child and room for two more: it keeps winning until
    // full, instead of spreading children over fresh nodes.
    assert_eq!(t.pivot("b".to_string()).unwrap(), "root");
    assert_eq!(t.pivot("c".to_string()).unwrap(), "root");
    assert_eq!(t.pivot("d".to_string()).unwrap(), "a");
}

#[test]
fn with_fan_in_one_each_node_takes_a_single_child() {
    let mut t = PivotTable::new(1, "root".to_string());
    assert_eq!(t.pivot("a".to_string()).unwrap(), "root");
    assert_eq!(t.pivot("b".to_string()).unwrap(), "a");
    assert_eq!(t.pivot("c".to_string()).unwrap(), "b");
}

#[test]
fn node_accounting() {
    let mut n = ClientPivot::new("me".to_string());
    assert!(n.is_free(2));
    assert!(!n.is_partial(2));
    n.mapto("kid".to_string());
    assert!(n.is_free(2));
    assert!(n.is_partial(2));
    n.mapto("kid2".to_string());
    assert!(!n.is_free(2));
    assert!(!n.is_partial(2));
    assert_eq!(n.refcount, 2);
    assert_eq!(n.child.len(), 2);
}

#[test]
fn edges_enumerates_every_parent_child_pair() {
    let mut t = PivotTable::new(2, "root".to_string());
    t.pivot("a".to_string()).unwrap();
    t.pivot("b".to_string()).unwrap();
    t.pivot("c".to_string()).unwrap();
    let e = t.edges();
    assert_eq!(e.len(), 3);
    assert_eq!(e[0], ("root".to_string(), "a".to_string()));
    assert_eq!(e[1], ("root".to_string(), "b".to_string()));
    assert_eq!(e[2], ("a".to_string(), "c".to_string()));
}
