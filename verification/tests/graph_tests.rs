use parmake::graph::TargetGraph;

fn diamond() -> TargetGraph {
    let mut g = TargetGraph::new();
    assert!(g.add_target("A".to_owned(), vec!["B".to_owned(), "C".to_owned()]));
    assert!(g.add_target("B".to_owned(), vec!["D".to_owned()]));
    assert!(g.add_target("C".to_owned(), vec!["D".to_owned()]));
    assert!(g.add_target("D".to_owned(), vec![]));
    g
}

#[test]
fn lookup_and_default_target() {
    let g = diamond();
    assert_eq!(g.len(), 4);
    assert!(g.has_target(&"A".to_owned()));
    assert!(g.has_target(&"D".to_owned()));
    assert!(!g.has_target(&"missing".to_owned()));
    assert_eq!(g.default_target().unwrap(), "A");
    assert_eq!(g.index_of(&"C".to_owned()), Some(2));
    assert_eq!(g.index_of(&"nope".to_owned()), None);
}

#[test]
fn duplicate_target_rejected() {
    let mut g = TargetGraph::new();
    assert!(g.add_target("A".to_owned(), vec![]));
    assert!(!g.add_target("A".to_owned(), vec!["B".to_owned()]));
    assert_eq!(g.len(), 1);
}

#[test]
fn empty_graph_has_no_default() {
    let g = TargetGraph::new();
    assert!(g.default_target().is_none());
    assert_eq!(g.len(), 0);
}

#[test]
fn closure_check() {
    let g = diamond();
    assert!(g.is_closed());
    let mut bad = TargetGraph::new();
    assert!(bad.add_target("A".to_owned(), vec!["ghost".to_owned()]));
    assert!(!bad.is_closed());
}

#[test]
fn dependency_indices_resolve_names() {
    let g = diamond();
    let idx = g.dep_index_graph();
    assert_eq!(idx.len(), 4);
    assert_eq!(idx[0], vec![1, 2]);
    assert_eq!(idx[1], vec![3]);
    assert_eq!(idx[2], vec![3]);
    assert!(idx[3].is_empty());
}

// A root target absent from the graph is detected before any planning, so
// no recipe can run for it.
#[test]
fn unknown_root_is_rejected_before_planning() {
    let g = diamond();
    let requested = "release".to_owned();
    assert!(!g.has_target(&requested));
}
