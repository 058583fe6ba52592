use parmake::graph::TargetGraph;
use parmake::plan::plan;

fn diamond() -> TargetGraph {
    let mut g = TargetGraph::new();
    assert!(g.add_target("A".to_owned(), vec!["B".to_owned(), "C".to_owned()]));
    assert!(g.add_target("B".to_owned(), vec!["D".to_owned()]));
    assert!(g.add_target("C".to_owned(), vec!["D".to_owned()]));
    assert!(g.add_target("D".to_owned(), vec![]));
    g
}

// The shared node of a diamond is scheduled exactly once.
#[test]
fn diamond_schedules_shared_dependency_once() {
    let g = diamond();
    let order = plan(&g, 0);
    assert_eq!(order.len(), 4);
    let d_count = order.iter().filter(|s| s.target == 3).count();
    assert_eq!(d_count, 1);
    for a in 0..order.len() {
        for b in (a + 1)..order.len() {
            assert_ne!(order[a].target, order[b].target);
        }
    }
}

// Every target's dependencies are registered before the target itself.
#[test]
fn dependencies_precede_dependents() {
    let g = diamond();
    let order = plan(&g, 0);
    let idx = g.dep_index_graph();
    for p in 0..order.len() {
        for d in &idx[order[p].target] {
            let dpos = order.iter().position(|s| s.target == *d).unwrap();
            assert!(dpos < p);
        }
    }
    assert_eq!(order.last().unwrap().target, 0);
}

#[test]
fn chain_depths_follow_first_discovery() {
    let mut g = TargetGraph::new();
    assert!(g.add_target("top".to_owned(), vec!["mid".to_owned()]));
    assert!(g.add_target("mid".to_owned(), vec!["leaf".to_owned()]));
    assert!(g.add_target("leaf".to_owned(), vec![]));
    let order = plan(&g, 0);
    assert_eq!(order.len(), 3);
    assert_eq!((order[0].target, order[0].depth), (2, 2));
    assert_eq!((order[1].target, order[1].depth), (1, 1));
    assert_eq!((order[2].target, order[2].depth), (0, 0));
}

// A diamond keeps the depth of the shared node's first discovery.
#[test]
fn shared_node_keeps_first_discovery_depth() {
    let g = diamond();
    let order = plan(&g, 0);
    let d = order.iter().find(|s| s.target == 3).unwrap();
    assert_eq!(d.depth, 2);
}

// Planning touches only the requested root's closure.
#[test]
fn plan_covers_only_the_requested_closure() {
    let mut g = TargetGraph::new();
    assert!(g.add_target("one".to_owned(), vec![]));
    assert!(g.add_target("two".to_owned(), vec!["one".to_owned()]));
    assert!(g.add_target("stray".to_owned(), vec![]));
    let order = plan(&g, 1);
    assert_eq!(order.len(), 2);
    assert_eq!(order[0].target, 0);
    assert_eq!(order[1].target, 1);
}
