//! The lifecycle of execution units. Every unit moves Queued -> Running ->
//! Completed; a unit may begin running only when every direct dependency has
//! completed, and each transition fires at most once. The state machine is
//! the decision core of the concurrent build: the runtime that drives units
//! concurrently consults it before starting a unit's recipe and after the
//! recipe returns.

use vstd::prelude::*;

verus! {

/// Lifecycle phase of one execution unit.
#[derive(Clone, Copy, Debug, PartialEq, Eq, Structural)]
pub enum Phase {
    Queued,
    Running,
    Completed,
}

/// One lifecycle transition: a unit's recipe starts, or reports completion.
#[derive(Clone, Copy, Debug, PartialEq, Eq, Structural)]
pub enum Action {
    Start(usize),
    Complete(usize),
}

/// The dependency lists, one per unit, as plain sequences.
pub open spec fn dv(d: Seq<Vec<usize>>) -> Seq<Seq<usize>> {
    d.map_values(|v: Vec<usize>| v@)
}

/// Each listed dependency is a valid unit index.
pub open spec fn deps_wf(deps: Seq<Seq<usize>>, n: nat) -> bool {
    deps.len() == n && forall|i: int, k: int|
        0 <= i < deps.len() && 0 <= k < deps[i].len() ==> (#[trigger] deps[i][k]) < n
}

/// The state before any unit has run: everything Queued.
pub open spec fn init_phases(n: nat) -> Seq<Phase> {
    Seq::new(n, |i: int| Phase::Queued)
}

/// All direct dependencies of unit `i` have completed.
pub open spec fn deps_completed_spec(deps: Seq<Seq<usize>>, ph: Seq<Phase>, i: int) -> bool {
    forall|k: int| 0 <= k < deps[i].len() ==> ph[#[trigger] deps[i][k] as int] is Completed
}

/// Whether a transition is allowed in the given state: a recipe starts only
/// from Queued with every dependency Completed, and reports completion only
/// from Running.
pub open spec fn action_ok(deps: Seq<Seq<usize>>, ph: Seq<Phase>, a: Action) -> bool {
    match a {
        Action::Start(i) => i < ph.len() && ph[i as int] is Queued && deps_completed_spec(
            deps,
            ph,
            i as int,
        ),
        Action::Complete(i) => i < ph.len() && ph[i as int] is Running,
    }
}

/// The state after a transition.
pub open spec fn apply_action(ph: Seq<Phase>, a: Action) -> Seq<Phase> {
    match a {
        Action::Start(i) => ph.update(i as int, Phase::Running),
        Action::Complete(i) => ph.update(i as int, Phase::Completed),
    }
}

/// Every transition of the trace is allowed in the state it fires from.
pub open spec fn trace_ok(deps: Seq<Seq<usize>>, ph: Seq<Phase>, tr: Seq<Action>) -> bool
    decreases tr.len(),
{
    tr.len() == 0 || (action_ok(deps, ph, tr[0]) && trace_ok(
        deps,
        apply_action(ph, tr[0]),
        tr.drop_first(),
    ))
}

/// The state a trace ends in.
pub open spec fn run_trace(ph: Seq<Phase>, tr: Seq<Action>) -> Seq<Phase>
    decreases tr.len(),
{
    if tr.len() == 0 {
        ph
    } else {
        run_trace(apply_action(ph, tr[0]), tr.drop_first())
    }
}

/// The shared lifecycle table of all execution units of one build, indexed
/// like the schedule's graph entries.
pub struct BuildState {
    pub phases: Vec<Phase>,
}

impl BuildState {
    /// A build in which no unit has started.
    pub fn new(n: usize) -> (s: BuildState)
        ensures
            s.phases@ == init_phases(n as nat),
    {
        let mut phases: Vec<Phase> = Vec::new();
        let mut i: usize = 0;
        while i < n
            invariant
                phases@.len() == i,
                i <= n,
                forall|t: int| 0 <= t < i ==> phases@[t] is Queued,
            decreases n - i,
        {
            phases.push(Phase::Queued);
            i += 1;
        }
        proof {
            assert(phases@ =~= init_phases(n as nat));
        }
        BuildState { phases }
    }

    /// Lifecycle phase of unit `i`.
    pub fn phase(&self, i: usize) -> (p: Phase)
        requires
            i < self.phases@.len(),
        ensures
            p == self.phases@[i as int],
    {
        self.phases[i]
    }

    /// Whether every direct dependency of unit `i` has completed.
    pub fn deps_completed(&self, deps: &Vec<Vec<usize>>, i: usize) -> (r: bool)
        requires
            i < deps@.len(),
            forall|k: int|
                0 <= k < deps@[i as int]@.len() ==> (#[trigger] deps@[i as int]@[k])
                    < self.phases@.len(),
        ensures
            r == deps_completed_spec(dv(deps@), self.phases@, i as int),
    {
        let row = &deps[i];
        let mut k: usize = 0;
        while k < row.len()
            invariant
                row == &deps@[i as int],
                i < deps@.len(),
                forall|kp: int|
                    0 <= kp < row@.len() ==> (#[trigger] row@[kp]) < self.phases@.len(),
                k <= row@.len(),
                forall|kp: int|
                    0 <= kp < k ==> self.phases@[(#[trigger] row@[kp]) as int] is Completed,
            decreases row@.len() - k,
        {
            let d = row[k];
            match self.phases[d] {
                Phase::Completed => {},
                _ => {
                    proof {
                        assert(dv(deps@)[i as int][k as int] == row@[k as int]);
                    }
                    return false;
                },
            }
            k += 1;
        }
        proof {
            assert forall|kp: int|
                0 <= kp < dv(deps@)[i as int].len() implies self.phases@[(#[trigger] dv(
                deps@,
            )[i as int][kp]) as int] is Completed by {
                assert(dv(deps@)[i as int][kp] == row@[kp]);
            }
        }
        true
    }

    /// Unit `i`'s recipe begins: Queued becomes Running. Allowed only once
    /// every dependency has completed.
    pub fn start(&mut self, deps: &Vec<Vec<usize>>, i: usize)
        requires
            action_ok(dv(deps@), old(self).phases@, Action::Start(i)),
        ensures
            final(self).phases@ == apply_action(old(self).phases@, Action::Start(i)),
    {
        self.phases[i] = Phase::Running;
    }

    /// Unit `i`'s recipe returned: Running becomes Completed.
    pub fn complete(&mut self, i: usize)
        requires
            i < old(self).phases@.len(),
            old(self).phases@[i as int] is Running,
        ensures
            final(self).phases@ == apply_action(old(self).phases@, Action::Complete(i)),
    {
        self.phases[i] = Phase::Completed;
    }
}

/// A valid trace never changes the number of units.
pub proof fn lemma_run_trace_len(deps: Seq<Seq<usize>>, ph: Seq<Phase>, tr: Seq<Action>)
    requires
        trace_ok(deps, ph, tr),
    ensures
        run_trace(ph, tr).len() == ph.len(),
    decreases tr.len(),
{
    if tr.len() == 0 {
    } else {
        let ph1 = apply_action(ph, tr[0]);
        match tr[0] {
            Action::Start(u) => {
                assert(ph1.len() == ph.len());
            },
            Action::Complete(u) => {
                assert(ph1.len() == ph.len());
            },
        }
        lemma_run_trace_len(deps, ph1, tr.drop_first());
    }
}

/// Splitting a valid trace: the prefix is valid, the suffix is valid from
/// the prefix's final state, and running both parts equals running the
/// whole.
pub proof fn lemma_trace_split(
    deps: Seq<Seq<usize>>,
    ph: Seq<Phase>,
    s1: Seq<Action>,
    s2: Seq<Action>,
)
    requires
        trace_ok(deps, ph, s1 + s2),
    ensures
        trace_ok(deps, ph, s1),
        trace_ok(deps, run_trace(ph, s1), s2),
        run_trace(ph, s1 + s2) == run_trace(run_trace(ph, s1), s2),
    decreases s1.len(),
{
    if s1.len() == 0 {
        assert(s1 + s2 =~= s2);
        assert(run_trace(ph, s1) == ph);
    } else {
        let a0 = s1[0];
        assert((s1 + s2)[0] == a0);
        assert((s1 + s2).drop_first() =~= s1.drop_first() + s2);
        lemma_trace_split(deps, apply_action(ph, a0), s1.drop_first(), s2);
    }
}

/// Joining valid traces: a valid trace followed by one valid from its
/// final state is valid as a whole.
pub proof fn lemma_trace_join(
    deps: Seq<Seq<usize>>,
    ph: Seq<Phase>,
    s1: Seq<Action>,
    s2: Seq<Action>,
)
    requires
        trace_ok(deps, ph, s1),
        trace_ok(deps, run_trace(ph, s1), s2),
    ensures
        trace_ok(deps, ph, s1 + s2),
        run_trace(ph, s1 + s2) == run_trace(run_trace(ph, s1), s2),
    decreases s1.len(),
{
    if s1.len() == 0 {
        assert(s1 + s2 =~= s2);
        assert(run_trace(ph, s1) == ph);
    } else {
        let a0 = s1[0];
        assert((s1 + s2)[0] == a0);
        assert((s1 + s2).drop_first() =~= s1.drop_first() + s2);
        lemma_trace_join(deps, apply_action(ph, a0), s1.drop_first(), s2);
    }
}

/// A unit that has left Queued never returns to it.
pub proof fn lemma_left_queued_stays(
    deps: Seq<Seq<usize>>,
    ph: Seq<Phase>,
    tr: Seq<Action>,
    i: int,
)
    requires
        trace_ok(deps, ph, tr),
        0 <= i < ph.len(),
        !(ph[i] is Queued),
    ensures
        !(run_trace(ph, tr)[i] is Queued),
    decreases tr.len(),
{
    if tr.len() == 0 {
    } else {
        lemma_left_queued_stays(deps, apply_action(ph, tr[0]), tr.drop_first(), i);
    }
}

/// Each unit's recipe starts at most once in any valid build trace: two
/// Start transitions for the same unit cannot both be allowed.
pub proof fn lemma_recipe_starts_at_most_once(
    deps: Seq<Seq<usize>>,
    n: nat,
    tr: Seq<Action>,
    m1: int,
    m2: int,
    i: usize,
)
    requires
        trace_ok(deps, init_phases(n), tr),
        0 <= m1 < m2 < tr.len(),
        tr[m1] == Action::Start(i),
    ensures
        tr[m2] != Action::Start(i),
{
    if tr[m2] != Action::Start(i) {
        // nothing to show
    } else {
        lemma_second_start_contradiction(deps, n, tr, m1, m2, i);
    }
}

/// Two Start transitions of one unit cannot both be allowed: after the
/// first, the unit is never Queued again.
proof fn lemma_second_start_contradiction(
    deps: Seq<Seq<usize>>,
    n: nat,
    tr: Seq<Action>,
    m1: int,
    m2: int,
    i: usize,
)
    requires
        trace_ok(deps, init_phases(n), tr),
        0 <= m1 < m2 < tr.len(),
        tr[m1] == Action::Start(i),
        tr[m2] == Action::Start(i),
    ensures
        tr[m2] != Action::Start(i),
{
    let ph_init = init_phases(n);
    let p0 = tr.take(m1);
    let one = seq![Action::Start(i)];
    let p1 = tr.take(m1 + 1);
    let rest = tr.subrange(m1 + 1, tr.len() as int);
    assert(tr =~= p1 + rest);
    lemma_trace_split(deps, ph_init, p1, rest);
    assert(p1 =~= p0 + one);
    lemma_trace_split(deps, ph_init, p0, one);
    let ph0 = run_trace(ph_init, p0);
    lemma_run_trace_len(deps, ph_init, p0);
    assert(one[0] == Action::Start(i));
    assert(action_ok(deps, ph0, Action::Start(i)));
    let pha = apply_action(ph0, Action::Start(i));
    assert(one.drop_first().len() == 0);
    assert(run_trace(ph0, one) == run_trace(apply_action(ph0, one[0]), one.drop_first()));
    assert(run_trace(pha, one.drop_first()) == pha);
    assert(run_trace(ph0, one) == pha);
    let ph1 = run_trace(ph_init, p1);
    assert(ph1 == pha);
    assert(ph1[i as int] is Running);
    let mid = tr.subrange(m1 + 1, m2);
    let tailr = tr.subrange(m2, tr.len() as int);
    assert(rest =~= mid + tailr);
    lemma_trace_split(deps, ph1, mid, tailr);
    let ph2 = run_trace(ph1, mid);
    lemma_left_queued_stays(deps, ph1, mid, i as int);
    assert(!(ph2[i as int] is Queued));
    assert(tailr[0] == tr[m2]);
    assert(action_ok(deps, ph2, Action::Start(i)));
    assert(ph2[i as int] is Queued);
}

/// A unit Completed after a trace, but not before it, had its Complete
/// transition somewhere in that trace.
proof fn lemma_completed_has_complete(
    deps: Seq<Seq<usize>>,
    ph: Seq<Phase>,
    tr: Seq<Action>,
    j: usize,
)
    requires
        trace_ok(deps, ph, tr),
        j < ph.len(),
        !(ph[j as int] is Completed),
        run_trace(ph, tr)[j as int] is Completed,
    ensures
        exists|m: int| 0 <= m < tr.len() && tr[m] == Action::Complete(j),
    decreases tr.len(),
{
    lemma_run_trace_len(deps, ph, tr);
    assert(tr.len() > 0);
    let a0 = tr[0];
    let ph1 = apply_action(ph, a0);
    if a0 == Action::Complete(j) {
        assert(tr[0] == Action::Complete(j));
    } else {
        match a0 {
            Action::Start(u) => {
                assert(!(ph1[j as int] is Completed));
            },
            Action::Complete(u) => {
                assert(u != j);
                assert(!(ph1[j as int] is Completed));
            },
        }
        lemma_completed_has_complete(deps, ph1, tr.drop_first(), j);
        let m = choose|m: int|
            0 <= m < tr.drop_first().len() && tr.drop_first()[m] == Action::Complete(j);
        assert(tr[m + 1] == Action::Complete(j));
    }
}

/// A unit's recipe invocation happens strictly after every direct
/// dependency has reported completion: when `Start(i)` fires, each direct
/// dependency of `i` is Completed, and its Complete transition lies
/// strictly earlier in the trace.
pub proof fn lemma_recipe_after_deps(
    deps: Seq<Seq<usize>>,
    n: nat,
    tr: Seq<Action>,
    m: int,
    i: usize,
)
    requires
        deps_wf(deps, n),
        trace_ok(deps, init_phases(n), tr),
        0 <= m < tr.len(),
        tr[m] == Action::Start(i),
    ensures
        forall|k: int|
            0 <= k < deps[i as int].len() ==> exists|m2: int|
                0 <= m2 < m && tr[m2] == Action::Complete(#[trigger] deps[i as int][k]),
{
    let ph_init = init_phases(n);
    let p = tr.take(m);
    let rest = tr.subrange(m, tr.len() as int);
    assert(tr =~= p + rest);
    lemma_trace_split(deps, ph_init, p, rest);
    let phm = run_trace(ph_init, p);
    lemma_run_trace_len(deps, ph_init, p);
    assert(rest[0] == tr[m]);
    assert(action_ok(deps, phm, Action::Start(i)));
    assert forall|k: int|
        0 <= k < deps[i as int].len() implies exists|m2: int|
            0 <= m2 < m && tr[m2] == Action::Complete(#[trigger] deps[i as int][k]) by {
        let d = deps[i as int][k];
        assert(phm[d as int] is Completed);
        assert(d < n);
        assert(!(ph_init[d as int] is Completed));
        lemma_completed_has_complete(deps, ph_init, p, d);
        let m2 = choose|m2: int| 0 <= m2 < p.len() && p[m2] == Action::Complete(d);
        assert(tr[m2] == Action::Complete(d));
    }
}

/// Every member of `c` names another member among its direct dependencies:
/// `c` is a dependency cycle (or a union of cycles).
pub open spec fn cycle_members(deps: Seq<Seq<usize>>, c: Set<int>) -> bool {
    forall|i: int|
        #[trigger] c.contains(i) ==> 0 <= i < deps.len() && exists|k: int|
            0 <= k < deps[i].len() && c.contains(#[trigger] deps[i][k] as int)
}

/// Members of a dependency cycle never leave Queued: a build over a cyclic
/// graph hangs forever rather than completing or reporting an error, since
/// every member waits on another member.
pub proof fn lemma_cycle_stays_queued(
    deps: Seq<Seq<usize>>,
    c: Set<int>,
    ph: Seq<Phase>,
    tr: Seq<Action>,
)
    requires
        trace_ok(deps, ph, tr),
        cycle_members(deps, c),
        deps.len() == ph.len(),
        forall|i: int| #[trigger] c.contains(i) ==> ph[i] is Queued,
    ensures
        forall|i: int| #[trigger] c.contains(i) ==> run_trace(ph, tr)[i] is Queued,
    decreases tr.len(),
{
    if tr.len() == 0 {
    } else {
        let a0 = tr[0];
        let ph1 = apply_action(ph, a0);
        assert forall|i: int| #[trigger] c.contains(i) implies ph1[i] is Queued by {
            match a0 {
                Action::Start(u) => {
                    if u as int == i {
                        let k = choose|k: int|
                            0 <= k < deps[i].len() && c.contains(#[trigger] deps[i][k] as int);
                        assert(ph[deps[i][k] as int] is Completed);
                        assert(ph[deps[i][k] as int] is Queued);
                        assert(false);
                    }
                },
                Action::Complete(u) => {
                    if u as int == i {
                        assert(ph[i] is Running);
                        assert(false);
                    }
                },
            }
        }
        lemma_cycle_stays_queued(deps, c, ph1, tr.drop_first());
    }
}

/// Units without dependencies are mutually independent: from a state where
/// they are all Queued they may all start, one after another, before
/// anything completes — nothing serializes them.
pub proof fn lemma_leaves_start_together(
    deps: Seq<Seq<usize>>,
    ph: Seq<Phase>,
    leaves: Seq<usize>,
)
    requires
        deps.len() == ph.len(),
        forall|a: int, b: int| 0 <= a < b < leaves.len() ==> leaves[a] != leaves[b],
        forall|a: int|
            0 <= a < leaves.len() ==> (#[trigger] leaves[a]) < ph.len() && deps[
                leaves[a] as int].len() == 0 && ph[leaves[a] as int] is Queued,
    ensures
        trace_ok(deps, ph, leaves.map_values(|l: usize| Action::Start(l))),
    decreases leaves.len(),
{
    if leaves.len() == 0 {
    } else {
        let l0 = leaves[0];
        let tr = leaves.map_values(|l: usize| Action::Start(l));
        assert(tr[0] == Action::Start(l0));
        assert(action_ok(deps, ph, Action::Start(l0)));
        let ph1 = apply_action(ph, Action::Start(l0));
        let tail = leaves.drop_first();
        assert(tr.drop_first() =~= tail.map_values(|l: usize| Action::Start(l)));
        assert forall|a: int|
            0 <= a < tail.len() implies (#[trigger] tail[a]) < ph1.len() && deps[
            tail[a] as int].len() == 0 && ph1[tail[a] as int] is Queued by {
            assert(tail[a] == leaves[a + 1]);
            assert(leaves[a + 1] != l0);
        }
        assert forall|a: int, b: int| 0 <= a < b < tail.len() implies tail[a] != tail[b] by {
            assert(tail[a] == leaves[a + 1]);
            assert(tail[b] == leaves[b + 1]);
        }
        lemma_leaves_start_together(deps, ph1, tail);
    }
}

} // verus!
