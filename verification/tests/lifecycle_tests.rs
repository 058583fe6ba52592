use parmake::lifecycle::{BuildState, Phase};

fn diamond_deps() -> Vec<Vec<usize>> {
    vec![vec![1, 2], vec![3], vec![3], vec![]]
}

#[test]
fn units_start_only_after_dependencies_complete() {
    let deps = diamond_deps();
    let mut st = BuildState::new(4);
    assert_eq!(st.phase(0), Phase::Queued);
    assert!(!st.deps_completed(&deps, 0));
    assert!(st.deps_completed(&deps, 3));
    st.start(&deps, 3);
    assert_eq!(st.phase(3), Phase::Running);
    assert!(!st.deps_completed(&deps, 1));
    st.complete(3);
    assert_eq!(st.phase(3), Phase::Completed);
    assert!(st.deps_completed(&deps, 1));
    assert!(st.deps_completed(&deps, 2));
    st.start(&deps, 1);
    st.start(&deps, 2);
    assert!(!st.deps_completed(&deps, 0));
    st.complete(1);
    st.complete(2);
    assert!(st.deps_completed(&deps, 0));
    st.start(&deps, 0);
    st.complete(0);
    assert_eq!(st.phase(0), Phase::Completed);
}

#[test]
fn leaves_may_all_run_at_once() {
    let deps: Vec<Vec<usize>> = vec![vec![1, 2, 3], vec![], vec![], vec![]];
    let mut st = BuildState::new(4);
    st.start(&deps, 1);
    st.start(&deps, 2);
    st.start(&deps, 3);
    assert_eq!(st.phase(1), Phase::Running);
    assert_eq!(st.phase(2), Phase::Running);
    assert_eq!(st.phase(3), Phase::Running);
    assert_eq!(st.phase(0), Phase::Queued);
}
