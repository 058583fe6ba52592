use std::sync::{Arc, Mutex};
use std::time::{Duration, Instant};

use async_std::task::{self, block_on, JoinHandle};
use futures::future::{join_all, Shared};
use futures::FutureExt;

use parmake::graph::TargetGraph;
use parmake::plan::plan;

type SharedDone = Shared<JoinHandle<()>>;

// Drives a build the way the runtime does: one task per scheduled unit,
// spawned in plan order, each awaiting its dependencies' shared handles and
// then "running" a recipe that sleeps for `dur`. Returns one event per unit:
// (target, recipe start, recipe finish).
fn run_build(g: &TargetGraph, root: usize, dur: Duration) -> Vec<(usize, Instant, Instant)> {
    let idx = g.dep_index_graph();
    let order = plan(g, root);
    let events: Arc<Mutex<Vec<(usize, Instant, Instant)>>> = Arc::new(Mutex::new(Vec::new()));
    let mut handles: Vec<Option<SharedDone>> = vec![None; g.len()];
    for step in &order {
        let t = step.target;
        let dep_handles: Vec<SharedDone> = idx[t]
            .iter()
            .map(|d| handles[*d].clone().unwrap())
            .collect();
        let ev = events.clone();
        let h = task::spawn(async move {
            join_all(dep_handles).await;
            let started = Instant::now();
            task::sleep(dur).await;
            let finished = Instant::now();
            ev.lock().unwrap().push((t, started, finished));
        });
        handles[t] = Some(h.shared());
    }
    block_on(handles[root].clone().unwrap());
    let out = events.lock().unwrap().clone();
    out
}

// N mutually independent leaves run concurrently, not serially: the whole
// build takes far less than the sum of the individual recipe durations.
#[test]
fn independent_leaves_run_concurrently() {
    let mut g = TargetGraph::new();
    assert!(g.add_target(
        "root".to_owned(),
        vec![
            "l1".to_owned(),
            "l2".to_owned(),
            "l3".to_owned(),
            "l4".to_owned()
        ]
    ));
    for leaf in ["l1", "l2", "l3", "l4"] {
        assert!(g.add_target(leaf.to_owned(), vec![]));
    }
    let begin = Instant::now();
    let events = run_build(&g, 0, Duration::from_millis(300));
    let elapsed = begin.elapsed();
    assert_eq!(events.len(), 5);
    // serial execution would need at least 5 * 300 ms
    assert!(elapsed < Duration::from_millis(900), "build took {:?}", elapsed);
}

// In a diamond, the shared dependency's recipe runs exactly once, and every
// recipe starts only after all of its dependencies' recipes finished.
#[test]
fn diamond_runs_once_and_respects_order() {
    let mut g = TargetGraph::new();
    assert!(g.add_target("A".to_owned(), vec!["B".to_owned(), "C".to_owned()]));
    assert!(g.add_target("B".to_owned(), vec!["D".to_owned()]));
    assert!(g.add_target("C".to_owned(), vec!["D".to_owned()]));
    assert!(g.add_target("D".to_owned(), vec![]));
    let events = run_build(&g, 0, Duration::from_millis(30));
    assert_eq!(events.len(), 4);
    for t in 0..4 {
        assert_eq!(events.iter().filter(|e| e.0 == t).count(), 1);
    }
    let idx = g.dep_index_graph();
    for (t, started, _) in &events {
        for d in &idx[*t] {
            let dep_event = events.iter().find(|e| e.0 == *d).unwrap();
            assert!(dep_event.2 <= *started);
        }
    }
}
