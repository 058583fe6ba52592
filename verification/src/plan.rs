//! The scheduler's planning pass: a memoized expansion of the dependency
//! graph from a root target. Every dependency of a target is requested
//! before the target itself is registered, and a target already registered
//! is never registered again, so a diamond-shaped graph yields exactly one
//! execution unit for the shared dependency. The walk uses an explicit
//! stack so that deep chains do not exhaust the call stack. On a cyclic
//! graph the walk never finishes: cycles are an unchecked precondition
//! violation, not a diagnosed error.

use vstd::prelude::*;
use crate::graph::TargetGraph;
use crate::lifecycle::Action;
use crate::lifecycle::action_ok;
use crate::lifecycle::apply_action;
use crate::lifecycle::deps_completed_spec;
use crate::lifecycle::init_phases;
use crate::lifecycle::lemma_run_trace_len;
use crate::lifecycle::lemma_trace_join;
use crate::lifecycle::run_trace;
use crate::lifecycle::trace_ok;

verus! {

/// One scheduled execution unit: the graph entry index of its target, and
/// the depth at which the planner first discovered it (kept only for
/// presentation).
#[derive(Clone, Copy, Debug, PartialEq, Eq, Structural)]
pub struct PlanStep {
    pub target: usize,
    pub depth: usize,
}

/// A frame of the planner's explicit traversal stack: a node whose first
/// `next_dep` dependencies have already been requested.
#[derive(Clone, Copy)]
struct Frame {
    node: usize,
    depth: usize,
    next_dep: usize,
}

/// Whether target index `t` already appears in the schedule.
pub open spec fn scheduled(order: Seq<PlanStep>, t: int) -> bool {
    exists|p: int| 0 <= p < order.len() && order[p].target == t
}

/// Whether dependency `k` of target `t` is matched by a scheduled entry of
/// the same name.
pub open spec fn dep_covered(g: TargetGraph, order: Seq<PlanStep>, t: int, k: int) -> bool {
    exists|q: int|
        0 <= q < order.len() && (#[trigger] order[q]).target < g.spec_len() && g.name_at(
            order[q].target as int,
        ) == g.deps_at(t)[k]
}

/// Whether dependency `k` of entry `p`'s target is matched by an entry
/// strictly earlier than `p`.
pub open spec fn dep_matched_before(g: TargetGraph, order: Seq<PlanStep>, p: int, k: int) -> bool {
    exists|q: int|
        0 <= q < p && (#[trigger] order[q]).target < g.spec_len() && g.name_at(
            order[q].target as int,
        ) == g.deps_at(order[p].target as int)[k]
}

/// Every dependency of entry `p`'s target is matched by an earlier entry.
pub open spec fn deps_before(g: TargetGraph, order: Seq<PlanStep>, p: int) -> bool {
    forall|k: int|
        0 <= k < g.deps_at(order[p].target as int).len() ==> #[trigger] dep_matched_before(
            g,
            order,
            p,
            k,
        )
}

/// `b` is reachable from `a` along at most `fuel` dependency edges.
pub open spec fn reaches(g: TargetGraph, a: int, b: int, fuel: nat) -> bool
    decreases fuel,
{
    a == b || (fuel > 0 && exists|k: int, j: int|
        0 <= k < g.deps_at(a).len() && 0 <= j < g.spec_len() && g.name_at(j) == g.deps_at(a)[k]
            && reaches(g, j, b, (fuel - 1) as nat))
}

/// `b` lies in the dependency closure of `a`.
pub open spec fn reachable(g: TargetGraph, a: int, b: int) -> bool {
    exists|fuel: nat| reaches(g, a, b, fuel)
}

/// Target `t` names the target at entry `j` among its direct dependencies.
pub open spec fn has_edge(g: TargetGraph, t: int, j: int) -> bool {
    exists|k: int| 0 <= k < g.deps_at(t).len() && g.name_at(j) == #[trigger] g.deps_at(t)[k]
}

/// No dependency edge closes a loop: a direct dependency never reaches back
/// to its dependent. A graph violating this makes the build hang instead of
/// finishing, so it is a precondition of planning, not a diagnosed error.
pub open spec fn acyclic(g: TargetGraph) -> bool {
    forall|t: int, j: int|
        0 <= t < g.spec_len() && 0 <= j < g.spec_len() && #[trigger] has_edge(g, t, j)
            ==> !reachable(g, j, t)
}

/// Dependencies of this frame's node that are still to be requested.
spec fn frame_rem(g: TargetGraph, f: Frame) -> nat {
    if f.next_dep <= g.deps_at(f.node as int).len() {
        (g.deps_at(f.node as int).len() - f.next_dep) as nat
    } else {
        0
    }
}

/// Dependencies still to be requested anywhere on the stack.
spec fn rem_sum(g: TargetGraph, stack: Seq<Frame>) -> nat
    decreases stack.len(),
{
    if stack.len() == 0 {
        0
    } else {
        rem_sum(g, stack.drop_last()) + frame_rem(g, stack.last())
    }
}

/// How many entries of the memo table are still unset.
spec fn unpushed_count(p: Seq<bool>) -> nat
    decreases p.len(),
{
    if p.len() == 0 {
        0
    } else {
        unpushed_count(p.drop_last()) + if p.last() {
            0nat
        } else {
            1nat
        }
    }
}

/// Setting an unset entry lowers the count of unset entries by one.
proof fn lemma_unpushed_update(p: Seq<bool>, i: int)
    requires
        0 <= i < p.len(),
        !p[i],
    ensures
        unpushed_count(p.update(i, true)) + 1 == unpushed_count(p),
    decreases p.len(),
{
    if i == p.len() - 1 {
        assert(p.update(i, true).drop_last() =~= p.drop_last());
        assert(p.update(i, true).last());
    } else {
        lemma_unpushed_update(p.drop_last(), i);
        assert(p.update(i, true).drop_last() =~= p.drop_last().update(i, true));
        assert(p.update(i, true).last() == p.last());
    }
}

/// The stack is a dependency path: each frame's node reaches every node
/// above it.
proof fn lemma_stack_path(g: TargetGraph, stack: Seq<Frame>, s1: int, s2: int)
    requires
        forall|s: int| 0 <= s < stack.len() ==> (#[trigger] stack[s]).node < g.spec_len(),
        forall|s: int|
            0 <= s && s + 1 < stack.len() ==> #[trigger] has_edge(
                g,
                stack[s].node as int,
                stack[s + 1].node as int,
            ),
        0 <= s1 <= s2 < stack.len(),
    ensures
        reaches(g, stack[s1].node as int, stack[s2].node as int, (s2 - s1) as nat),
    decreases s2 - s1,
{
    if s1 == s2 {
    } else {
        lemma_stack_path(g, stack, s1, s2 - 1);
        let sp = s2 - 1;
        assert(has_edge(g, stack[sp].node as int, stack[sp + 1].node as int));
        lemma_reaches_step(
            g,
            stack[s1].node as int,
            stack[s2 - 1].node as int,
            stack[s2].node as int,
            (s2 - 1 - s1) as nat,
        );
    }
}

/// Appending one dependency edge to a reachability path.
proof fn lemma_reaches_step(g: TargetGraph, a: int, b: int, c: int, fuel: nat)
    requires
        reaches(g, a, b, fuel),
        0 <= c < g.spec_len(),
        exists|k: int| 0 <= k < g.deps_at(b).len() && g.name_at(c) == #[trigger] g.deps_at(b)[k],
    ensures
        reaches(g, a, c, (fuel + 1) as nat),
    decreases fuel,
{
    let k0 = choose|k: int|
        0 <= k < g.deps_at(b).len() && g.name_at(c) == #[trigger] g.deps_at(b)[k];
    if a == b {
        assert(reaches(g, c, c, fuel));
        assert(0 <= k0 < g.deps_at(a).len() && 0 <= c < g.spec_len() && g.name_at(c)
            == g.deps_at(a)[k0] && reaches(g, c, c, fuel));
    } else {
        let (k1, j1) = choose|k: int, j: int|
            0 <= k < g.deps_at(a).len() && 0 <= j < g.spec_len() && g.name_at(j) == g.deps_at(
                a,
            )[k] && reaches(g, j, b, (fuel - 1) as nat);
        lemma_reaches_step(g, j1, b, c, (fuel - 1) as nat);
        assert(0 <= k1 < g.deps_at(a).len() && 0 <= j1 < g.spec_len() && g.name_at(j1)
            == g.deps_at(a)[k1] && reaches(g, j1, c, ((fuel + 1) - 1) as nat));
    }
}

/// A scheduled target stays scheduled when an entry is appended, and the new
/// entry's target becomes scheduled.
proof fn lemma_scheduled_push(order: Seq<PlanStep>, step: PlanStep, t: int)
    ensures
        scheduled(order.push(step), t) <==> (scheduled(order, t) || step.target == t),
{
    if scheduled(order, t) {
        let p = choose|p: int| 0 <= p < order.len() && order[p].target == t;
        assert(order.push(step)[p] == order[p]);
        assert(scheduled(order.push(step), t));
    }
    if step.target == t {
        assert(order.push(step)[order.len() as int].target == t);
        assert(scheduled(order.push(step), t));
    }
    if scheduled(order.push(step), t) && step.target != t {
        let p = choose|p: int| 0 <= p < order.push(step).len() && order.push(step)[p].target == t;
        assert(p < order.len());
        assert(order.push(step)[p] == order[p]);
        assert(scheduled(order, t));
    }
}

/// Dependency coverage survives appending an entry to the schedule.
proof fn lemma_dep_covered_push(
    g: TargetGraph,
    order: Seq<PlanStep>,
    step: PlanStep,
    t: int,
    k: int,
)
    requires
        dep_covered(g, order, t, k),
    ensures
        dep_covered(g, order.push(step), t, k),
{
    let q = choose|q: int|
        0 <= q < order.len() && (#[trigger] order[q]).target < g.spec_len() && g.name_at(
            order[q].target as int,
        ) == g.deps_at(t)[k];
    assert(order.push(step)[q] == order[q]);
    assert(dep_covered(g, order.push(step), t, k));
}

/// An entry whose dependencies were already matched earlier keeps that
/// property when a further entry is appended.
proof fn lemma_deps_before_push(g: TargetGraph, order: Seq<PlanStep>, step: PlanStep, p: int)
    requires
        0 <= p < order.len(),
        deps_before(g, order, p),
    ensures
        deps_before(g, order.push(step), p),
{
    assert(order.push(step)[p] == order[p]);
    let t = order[p].target as int;
    assert forall|k: int|
        0 <= k < g.deps_at(order.push(step)[p].target as int).len() implies dep_matched_before(
        g,
        order.push(step),
        p,
        k,
    ) by {
        assert(dep_matched_before(g, order, p, k));
        let q = choose|q: int|
            0 <= q < p && (#[trigger] order[q]).target < g.spec_len() && g.name_at(
                order[q].target as int,
            ) == g.deps_at(order[p].target as int)[k];
        assert(order.push(step)[q] == order[q]);
        assert(g.name_at(order.push(step)[q].target as int) == g.deps_at(
            order.push(step)[p].target as int,
        )[k]);
    }
}

/// The first `next_dep` dependencies of frame `s`'s node are each matched by
/// a scheduled entry, except that the most recently requested one may still
/// be in flight as the frame directly above.
spec fn frame_deps_ok(g: TargetGraph, order: Seq<PlanStep>, stack: Seq<Frame>, s: int) -> bool {
    forall|k: int|
        0 <= k < stack[s].next_dep ==> #[trigger] dep_covered(g, order, stack[s].node as int, k)
            || (s + 1 < stack.len() && stack[s + 1].node < g.spec_len() && g.name_at(
            stack[s + 1].node as int,
        ) == g.deps_at(stack[s].node as int)[k])
}

/// Expands the dependency graph from the target at entry `root`, requesting
/// every dependency of a target before the target itself and never
/// requesting a target twice. The result is the registration order of the
/// execution units: each unit's dependencies precede it, the shared node of
/// a diamond appears exactly once, only targets in `root`'s dependency
/// closure appear, and `root` itself is scheduled.
pub fn plan(g: &TargetGraph, root: usize) -> (order: Vec<PlanStep>)
    requires
        g.closed(),
        acyclic(*g),
        root < g.spec_len(),
    ensures
        forall|p: int| 0 <= p < order@.len() ==> (#[trigger] order@[p]).target < g.spec_len(),
        forall|p: int, q: int|
            0 <= p < q < order@.len() ==> order@[p].target != order@[q].target,
        forall|p: int| 0 <= p < order@.len() ==> deps_before(*g, order@, p),
        scheduled(order@, root as int),
        order@.len() > 0,
        order@[order@.len() - 1].target == root,
        order@[order@.len() - 1].depth == 0,
        forall|p: int|
            0 <= p < order@.len() ==> reachable(*g, root as int, (#[trigger] order@[p]).target as int),
{
    let n = g.len();
    let mut registered: Vec<bool> = Vec::new();
    let mut pushed: Vec<bool> = Vec::new();
    let mut i: usize = 0;
    while i < n
        invariant
            registered@.len() == i,
            pushed@.len() == i,
            i <= n,
            forall|t: int| 0 <= t < i ==> !(#[trigger] registered@[t]),
            forall|t: int| 0 <= t < i ==> !(#[trigger] pushed@[t]),
        decreases n - i,
    {
        registered.push(false);
        pushed.push(false);
        i += 1;
    }
    let mut order: Vec<PlanStep> = Vec::new();
    let mut stack: Vec<Frame> = Vec::new();
    stack.push(Frame { node: root, depth: 0, next_dep: 0 });
    pushed[root] = true;
    proof {
        assert(reaches(*g, root as int, root as int, 0));
        assert(stack@[0].node == root);
        assert forall|t: int|
            0 <= t < n && #[trigger] pushed@[t] implies registered@[t] || exists|s: int|
                0 <= s < stack@.len() && (#[trigger] stack@[s]).node == t by {
            assert(t == root as int);
            assert(stack@[0].node == t);
        }
    }
    while stack.len() > 0
        invariant
            g.closed(),
            root < g.spec_len(),
            n == g.spec_len(),
            registered@.len() == n,
            forall|t: int| 0 <= t < n ==> #[trigger] registered@[t] == scheduled(order@, t),
            forall|p: int| 0 <= p < order@.len() ==> (#[trigger] order@[p]).target < n,
            forall|p: int, q: int|
                0 <= p < q < order@.len() ==> order@[p].target != order@[q].target,
            forall|p: int| 0 <= p < order@.len() ==> #[trigger] deps_before(*g, order@, p),
            forall|p: int|
                0 <= p < order@.len() ==> reachable(
                    *g,
                    root as int,
                    (#[trigger] order@[p]).target as int,
                ),
            forall|s: int| 0 <= s < stack@.len() ==> (#[trigger] stack@[s]).node < n,
            forall|s: int|
                0 <= s < stack@.len() ==> (#[trigger] stack@[s]).next_dep <= g.deps_at(
                    stack@[s].node as int,
                ).len(),
            forall|s: int| 0 <= s < stack@.len() ==> (#[trigger] stack@[s]).depth <= s,
            forall|s: int| 0 <= s < stack@.len() ==> #[trigger] frame_deps_ok(*g, order@, stack@, s),
            forall|s: int|
                0 <= s < stack@.len() ==> reachable(
                    *g,
                    root as int,
                    (#[trigger] stack@[s]).node as int,
                ),
            scheduled(order@, root as int) || exists|s: int|
                0 <= s < stack@.len() && (#[trigger] stack@[s]).node == root,
            acyclic(*g),
            pushed@.len() == n,
            forall|t: int| 0 <= t < n && #[trigger] registered@[t] ==> pushed@[t],
            forall|s: int|
                0 <= s < stack@.len() ==> pushed@[(#[trigger] stack@[s]).node as int],
            forall|t: int|
                0 <= t < n && #[trigger] pushed@[t] ==> registered@[t] || exists|s: int|
                    0 <= s < stack@.len() && (#[trigger] stack@[s]).node == t,
            forall|s: int|
                0 <= s && s + 1 < stack@.len() ==> #[trigger] has_edge(
                    *g,
                    stack@[s].node as int,
                    stack@[s + 1].node as int,
                ),
            stack@.len() > 0 ==> stack@[0].node == root && stack@[0].depth == 0,
            forall|s1: int, s2: int|
                0 <= s1 < s2 < stack@.len() ==> stack@[s1].node != stack@[s2].node,
            forall|s: int| 0 <= s < stack@.len() ==> !registered@[(#[trigger] stack@[s]).node as int],
            scheduled(order@, root as int) ==> stack@.len() == 0,
            scheduled(order@, root as int) ==> order@.len() > 0 && order@[order@.len()
                - 1].target == root && order@[order@.len() - 1].depth == 0,
        decreases unpushed_count(pushed@), rem_sum(*g, stack@), stack@.len(),
    {
        let l0 = stack.len();
        let ghost old_stack = stack@;
        let ghost old_order = order@;
        let ghost old_pushed = pushed@;
        let f = stack.pop().unwrap();
        proof {
            assert(f == old_stack[l0 - 1]);
            assert(stack@ == old_stack.subrange(0, l0 - 1));
            assert forall|s: int| 0 <= s < stack@.len() implies stack@[s] == old_stack[s] by {}
            // a node on the stack is never registered, so this frame's
            // target is still pending
            assert(!registered@[f.node as int]);
        }
        let deps_row = g.dependencies_of(f.node);
        let dlen = deps_row.len();
        proof {
            assert(deps_row@.map_values(|s: String| s@) == g.deps_at(f.node as int));
            assert(dlen == g.deps_at(f.node as int).len());
        }
        if f.next_dep < dlen {
            let dname = &deps_row[f.next_dep];
            proof {
                assert(g.deps_at(f.node as int)[f.next_dep as int] == deps_row@[
                    f.next_dep as int]@);
                assert(g.spec_has(dname@));
            }
            let j_opt = g.index_of(dname);
            stack.push(
                Frame { node: f.node, depth: f.depth, next_dep: f.next_dep + 1 },
            );
            proof {
                let base = old_stack.drop_last();
                assert(stack@.drop_last() =~= base);
                assert(rem_sum(*g, stack@) == rem_sum(*g, base) + frame_rem(
                    *g,
                    stack@.last(),
                ));
                assert(frame_rem(*g, stack@.last()) + 1 == frame_rem(*g, f));
                assert(rem_sum(*g, old_stack) == rem_sum(*g, base) + frame_rem(*g, f));
            }
            match j_opt {
                Some(j) => {
                    proof {
                        assert(g.name_at(j as int) == g.deps_at(f.node as int)[
                            f.next_dep as int]);
                        assert(has_edge(*g, f.node as int, j as int));
                    }
                    if !registered[j] {
                        proof {
                            // the dependency cannot already sit on the
                            // traversal path: that would close a cycle
                            if old_pushed[j as int] {
                                let sw = choose|s: int|
                                    0 <= s < old_stack.len() && (#[trigger] old_stack[
                                        s]).node == j;
                                lemma_stack_path(*g, old_stack, sw, l0 - 1);
                                assert(reaches(
                                    *g,
                                    j as int,
                                    f.node as int,
                                    (l0 - 1 - sw) as nat,
                                ));
                                assert(reachable(*g, j as int, f.node as int));
                                assert(false);
                            }
                        }
                        pushed[j] = true;
                        stack.push(Frame { node: j, depth: f.depth + 1, next_dep: 0 });
                        proof {
                            lemma_unpushed_update(old_pushed, j as int);
                            assert(stack@[l0 as int].node == j);
                            assert(has_edge(
                                *g,
                                stack@[l0 - 1].node as int,
                                stack@[l0 as int].node as int,
                            ));
                            let fuel = choose|fuel: nat|
                                reaches(*g, root as int, f.node as int, fuel);
                            lemma_reaches_step(
                                *g,
                                root as int,
                                f.node as int,
                                j as int,
                                fuel,
                            );
                            assert(reachable(*g, root as int, j as int));
                        }
                    } else {
                        proof {
                            assert(scheduled(order@, j as int));
                            let pw = choose|p: int|
                                0 <= p < order@.len() && (#[trigger] order@[p]).target
                                    == j as int;
                            assert(dep_covered(
                                *g,
                                order@,
                                f.node as int,
                                f.next_dep as int,
                            ));
                        }
                    }
                },
                None => {
                    proof {
                        assert(false);
                    }
                },
            }
            proof {
                let news = stack@;
                assert(news[l0 - 1].node == f.node);
                assert forall|s: int|
                    0 <= s < news.len() implies #[trigger] frame_deps_ok(
                    *g,
                    order@,
                    news,
                    s,
                ) by {
                    if s < l0 - 1 {
                        assert(news[s] == old_stack[s]);
                        assert(frame_deps_ok(*g, order@, old_stack, s));
                        assert forall|k: int|
                            0 <= k < news[s].next_dep implies #[trigger] dep_covered(
                            *g,
                            order@,
                            news[s].node as int,
                            k,
                        ) || (s + 1 < news.len() && news[s + 1].node < g.spec_len()
                            && g.name_at(news[s + 1].node as int) == g.deps_at(
                            news[s].node as int,
                        )[k]) by {
                            if !dep_covered(*g, order@, old_stack[s].node as int, k) {
                                assert(s + 1 < old_stack.len());
                                if s + 1 < l0 - 1 {
                                    assert(news[s + 1] == old_stack[s + 1]);
                                } else {
                                    assert(s + 1 == l0 - 1);
                                    assert(old_stack[s + 1].node == f.node);
                                    assert(news[s + 1].node == f.node);
                                }
                            }
                        }
                    } else if s == l0 - 1 {
                        assert(frame_deps_ok(*g, order@, old_stack, s));
                        assert forall|k: int|
                            0 <= k < news[s].next_dep implies #[trigger] dep_covered(
                            *g,
                            order@,
                            news[s].node as int,
                            k,
                        ) || (s + 1 < news.len() && news[s + 1].node < g.spec_len()
                            && g.name_at(news[s + 1].node as int) == g.deps_at(
                            news[s].node as int,
                        )[k]) by {
                            if k < f.next_dep {
                                assert(!(s + 1 < old_stack.len()));
                                assert(dep_covered(*g, order@, f.node as int, k));
                            } else {
                                assert(k == f.next_dep);
                                if s + 1 < news.len() {
                                    assert(g.name_at(news[s + 1].node as int) == g.deps_at(
                                        f.node as int,
                                    )[k]);
                                } else {
                                    assert(dep_covered(*g, order@, f.node as int, k));
                                }
                            }
                        }
                    } else {
                        assert(news[s].next_dep == 0);
                    }
                }
                // the stack remains a dependency path
                assert forall|s: int|
                    0 <= s && s + 1 < news.len() implies #[trigger] has_edge(
                    *g,
                    news[s].node as int,
                    news[s + 1].node as int,
                ) by {
                    if s + 1 < l0 - 1 {
                        assert(news[s] == old_stack[s]);
                        assert(news[s + 1] == old_stack[s + 1]);
                        assert(has_edge(
                            *g,
                            old_stack[s].node as int,
                            old_stack[s + 1].node as int,
                        ));
                    } else if s + 1 == l0 - 1 {
                        assert(news[s] == old_stack[s]);
                        assert(old_stack[s + 1].node == f.node);
                        assert(has_edge(
                            *g,
                            old_stack[s].node as int,
                            old_stack[s + 1].node as int,
                        ));
                    } else {
                        assert(s + 1 == l0);
                        assert(news[s].node == f.node);
                    }
                }
                // every stack node is marked in the memo of pushed nodes
                assert forall|s: int|
                    0 <= s < news.len() implies pushed@[(#[trigger] news[s]).node as int] by {
                    if s < l0 - 1 {
                        assert(news[s] == old_stack[s]);
                        assert(old_pushed[old_stack[s].node as int]);
                    } else if s == l0 - 1 {
                        assert(old_pushed[f.node as int]);
                    }
                }
                // a pushed node is registered or still on the stack
                assert forall|t: int|
                    0 <= t < n && #[trigger] pushed@[t] implies registered@[t] || exists|
                        s: int,
                    |
                        0 <= s < news.len() && (#[trigger] news[s]).node == t by {
                    if !registered@[t] {
                        if old_pushed[t] {
                            let sw = choose|s: int|
                                0 <= s < old_stack.len() && (#[trigger] old_stack[s]).node
                                    == t;
                            if sw < l0 - 1 {
                                assert(news[sw].node == t);
                            } else {
                                assert(news[l0 - 1].node == t);
                            }
                        } else {
                            assert(news.len() == l0 + 1);
                            assert(news[l0 as int].node == t);
                        }
                    }
                }
                // the root is still scheduled or on the stack
                if !scheduled(order@, root as int) {
                    let sw = choose|s: int|
                        0 <= s < old_stack.len() && (#[trigger] old_stack[s]).node == root;
                    if sw < l0 - 1 {
                        assert(news[sw].node == root);
                    } else {
                        assert(news[l0 - 1].node == root);
                    }
                }
                // the bottom frame still belongs to the root
                if l0 - 1 == 0 {
                    assert(news[0].node == f.node);
                    assert(old_stack[0].node == root);
                    assert(news[0].depth == f.depth);
                    assert(old_stack[0].depth == 0);
                } else {
                    assert(news[0] == old_stack[0]);
                }
                // each node still appears on at most one frame
                assert forall|s1: int, s2: int|
                    0 <= s1 < s2 < news.len() implies news[s1].node != news[s2].node by {
                    if s1 < l0 - 1 {
                        assert(news[s1] == old_stack[s1]);
                    } else {
                        assert(news[s1].node == f.node);
                    }
                    if s2 < l0 - 1 {
                        assert(news[s2] == old_stack[s2]);
                    } else if s2 == l0 - 1 {
                        assert(news[s2].node == f.node);
                    } else {
                        // the freshly pushed child was never pushed before
                        assert(s2 == l0);
                        assert(!old_pushed[news[s2].node as int]);
                        assert(old_pushed[old_stack[s1].node as int]);
                    }
                }
                // no frame's node is registered
                assert forall|s: int|
                    0 <= s < news.len() implies !registered@[(
                #[trigger] news[s]).node as int] by {
                    if s < l0 - 1 {
                        assert(news[s] == old_stack[s]);
                    } else if s == l0 - 1 {
                        assert(news[s].node == f.node);
                    }
                }
                // the root is not scheduled while its frame remains
                assert(!scheduled(order@, root as int));
            }
        } else {
            registered[f.node] = true;
            let ghost pre_order = order@;
            order.push(PlanStep { target: f.node, depth: f.depth });
            proof {
                let step = (PlanStep { target: f.node, depth: f.depth });
                assert(order@ == pre_order.push(step));
                let plen = pre_order.len() as int;
                assert(order@[plen] == step);
                // the popped frame had requested every dependency, and,
                // being on top, had no frame above: all are covered
                assert(frame_deps_ok(*g, pre_order, old_stack, l0 - 1));
                assert forall|k: int|
                    0 <= k < g.deps_at(f.node as int).len() implies #[trigger] dep_covered(
                    *g,
                    pre_order,
                    f.node as int,
                    k,
                ) by {
                    assert(!(l0 - 1 + 1 < old_stack.len()));
                }
                // sync of the memo table with the schedule
                assert forall|t: int|
                    0 <= t < n implies #[trigger] registered@[t] == scheduled(order@, t) by {
                    lemma_scheduled_push(pre_order, step, t);
                }
                // the new entry was not scheduled before
                assert(!scheduled(pre_order, f.node as int));
                assert forall|p: int, q: int|
                    0 <= p < q < order@.len() implies order@[p].target != order@[q].target by {
                    if q < plen {
                        assert(order@[p] == pre_order[p]);
                        assert(order@[q] == pre_order[q]);
                    } else {
                        assert(order@[p] == pre_order[p]);
                        if order@[p].target == f.node {
                            assert(scheduled(pre_order, f.node as int));
                        }
                    }
                }
                // dependency-before-dependent for every entry
                assert forall|p: int|
                    0 <= p < order@.len() implies #[trigger] deps_before(*g, order@, p) by {
                    if p < plen {
                        lemma_deps_before_push(*g, pre_order, step, p);
                    } else {
                        assert forall|k: int|
                            0 <= k < g.deps_at(order@[p].target as int).len()
                                implies #[trigger] dep_matched_before(*g, order@, p, k) by {
                            assert(dep_covered(*g, pre_order, f.node as int, k));
                            let q = choose|q: int|
                                0 <= q < pre_order.len() && (#[trigger] pre_order[q]).target
                                    < g.spec_len() && g.name_at(pre_order[q].target as int)
                                    == g.deps_at(f.node as int)[k];
                            assert(order@[q] == pre_order[q]);
                        }
                    }
                }
                // reachability of every entry
                assert forall|p: int|
                    0 <= p < order@.len() implies reachable(
                    *g,
                    root as int,
                    (#[trigger] order@[p]).target as int,
                ) by {
                    if p < plen {
                        assert(order@[p] == pre_order[p]);
                        assert(reachable(*g, root as int, pre_order[p].target as int));
                    } else {
                        assert(reachable(*g, root as int, f.node as int));
                    }
                }
                // frames below keep their coverage
                assert forall|s: int|
                    0 <= s < stack@.len() implies #[trigger] frame_deps_ok(
                    *g,
                    order@,
                    stack@,
                    s,
                ) by {
                    assert(frame_deps_ok(*g, pre_order, old_stack, s));
                    assert forall|k: int|
                        0 <= k < stack@[s].next_dep implies #[trigger] dep_covered(
                        *g,
                        order@,
                        stack@[s].node as int,
                        k,
                    ) || (s + 1 < stack@.len() && stack@[s + 1].node < g.spec_len()
                        && g.name_at(stack@[s + 1].node as int) == g.deps_at(
                        stack@[s].node as int,
                    )[k]) by {
                        if dep_covered(*g, pre_order, old_stack[s].node as int, k) {
                            lemma_dep_covered_push(
                                *g,
                                pre_order,
                                step,
                                old_stack[s].node as int,
                                k,
                            );
                        } else {
                            if s + 1 < old_stack.len() && s + 1 == stack@.len() {
                                assert(old_stack[s + 1] == f);
                                assert(g.name_at(f.node as int) == g.deps_at(
                                    stack@[s].node as int,
                                )[k]);
                                assert(scheduled(order@, f.node as int));
                                let pw = choose|p: int|
                                    0 <= p < order@.len() && order@[p].target == f.node as int;
                                assert(dep_covered(*g, order@, stack@[s].node as int, k));
                            } else {
                                assert(s + 1 < stack@.len());
                                assert(stack@[s + 1] == old_stack[s + 1]);
                            }
                        }
                    }
                }
                // the root is either newly scheduled or still on the stack
                if f.node == root {
                    assert(scheduled(order@, root as int));
                } else if !scheduled(order@, root as int) {
                    lemma_scheduled_push(pre_order, step, root as int);
                    assert(!scheduled(pre_order, root as int));
                    let sw = choose|s: int|
                        0 <= s < old_stack.len() && (#[trigger] old_stack[s]).node == root;
                    assert(sw < stack@.len());
                }
                // registration keeps the memo invariants
                assert forall|t: int|
                    0 <= t < n && #[trigger] registered@[t] implies pushed@[t] by {
                    if t == f.node as int {
                        assert(old_pushed[f.node as int]);
                    }
                }
                assert forall|t: int|
                    0 <= t < n && #[trigger] pushed@[t] implies registered@[t] || exists|
                        s: int,
                    |
                        0 <= s < stack@.len() && (#[trigger] stack@[s]).node == t by {
                    if !registered@[t] {
                        let sw = choose|s: int|
                            0 <= s < old_stack.len() && (#[trigger] old_stack[s]).node == t;
                        assert(sw != l0 - 1);
                        assert(stack@[sw].node == t);
                    }
                }
                // the traversal measure shrinks with the stack
                assert(old_stack.drop_last() =~= stack@);
                assert(frame_rem(*g, f) == 0);
                assert(rem_sum(*g, old_stack) == rem_sum(*g, stack@) + frame_rem(*g, f));
                // the root's frame sits at the bottom: registering the
                // root empties the stack and puts it last in the order
                assert(!scheduled(pre_order, root as int));
                if f.node == root {
                    assert(old_stack[0].node == root);
                    if l0 - 1 > 0 {
                        assert(old_stack[0].node != old_stack[l0 - 1].node);
                        assert(false);
                    }
                    assert(stack@.len() == 0);
                    assert(order@[order@.len() - 1].target == root);
                    assert(f.depth == 0);
                } else {
                    lemma_scheduled_push(pre_order, step, root as int);
                    assert(!scheduled(order@, root as int));
                }
                // remaining frames keep their nodes unregistered
                assert forall|s: int|
                    0 <= s < stack@.len() implies !registered@[(
                #[trigger] stack@[s]).node as int] by {
                    assert(stack@[s] == old_stack[s]);
                    assert(old_stack[s].node != f.node);
                }
            }
        }

    }
    proof {
        assert(stack@.len() == 0);
    }
    order
}

/// The serial execution of a schedule: each unit's recipe starts and
/// completes before the next unit's, in registration order.
pub open spec fn serial_trace(order: Seq<PlanStep>) -> Seq<Action>
    decreases order.len(),
{
    if order.len() == 0 {
        Seq::empty()
    } else {
        serial_trace(order.drop_last()) + seq![
            Action::Start(order.last().target),
            Action::Complete(order.last().target),
        ]
    }
}

/// The dependency lists rewritten as entry indices agree with the graph.
pub open spec fn index_graph_of(g: TargetGraph, deps: Seq<Seq<usize>>) -> bool {
    deps.len() == g.spec_len() && (forall|i: int|
        0 <= i < deps.len() ==> (#[trigger] deps[i]).len() == g.deps_at(i).len()) && (forall|
        i: int,
        k: int,
    |
        0 <= i < deps.len() && 0 <= k < deps[i].len() ==> (#[trigger] deps[i][k]) < g.spec_len()
            && g.name_at(deps[i][k] as int) == g.deps_at(i)[k])
}

/// A schedule of distinct, valid targets, each with its dependencies
/// scheduled earlier — what the planner produces.
pub open spec fn schedule_ok(g: TargetGraph, order: Seq<PlanStep>) -> bool {
    (forall|p: int| 0 <= p < order.len() ==> (#[trigger] order[p]).target < g.spec_len()) && (
    forall|p: int, q: int|
        0 <= p < q < order.len() ==> order[p].target != order[q].target) && (forall|p: int|
        0 <= p < order.len() ==> #[trigger] deps_before(g, order, p))
}

/// The schedule admits a complete run: executing the units serially in
/// registration order is a valid lifecycle trace, after which every
/// scheduled unit is Completed and every other unit is still Queued. A
/// planned build can therefore always be driven to completion.
pub proof fn lemma_schedule_admits_complete_run(
    g: TargetGraph,
    deps: Seq<Seq<usize>>,
    order: Seq<PlanStep>,
)
    requires
        g.well_formed(),
        index_graph_of(g, deps),
        schedule_ok(g, order),
    ensures
        trace_ok(deps, init_phases(g.spec_len()), serial_trace(order)),
        forall|t: int|
            0 <= t < g.spec_len() ==> (run_trace(init_phases(g.spec_len()), serial_trace(order))[t]
                is Completed <==> scheduled(order, t)),
        forall|t: int|
            0 <= t < g.spec_len() && !scheduled(order, t) ==> run_trace(
                init_phases(g.spec_len()),
                serial_trace(order),
            )[t] is Queued,
    decreases order.len(),
{
    let n = g.spec_len();
    let init = init_phases(n);
    if order.len() == 0 {
        assert(serial_trace(order).len() == 0);
        assert(run_trace(init, serial_trace(order)) == init);
    } else {
        let prev = order.drop_last();
        let last = order.last();
        let t0 = last.target;
        assert(order =~= prev.push(last));
        // the prefix is itself a valid schedule
        assert forall|p: int| 0 <= p < prev.len() implies (#[trigger] prev[p]).target
            < g.spec_len() by {
            assert(prev[p] == order[p]);
        }
        assert forall|p: int, q: int|
            0 <= p < q < prev.len() implies prev[p].target != prev[q].target by {
            assert(prev[p] == order[p]);
            assert(prev[q] == order[q]);
        }
        assert forall|p: int| 0 <= p < prev.len() implies #[trigger] deps_before(g, prev, p) by {
            assert(deps_before(g, order, p));
            assert(prev[p] == order[p]);
            assert forall|k: int|
                0 <= k < g.deps_at(prev[p].target as int).len() implies #[trigger] dep_matched_before(
                g,
                prev,
                p,
                k,
            ) by {
                assert(dep_matched_before(g, order, p, k));
                let q = choose|q: int|
                    0 <= q < p && (#[trigger] order[q]).target < g.spec_len() && g.name_at(
                        order[q].target as int,
                    ) == g.deps_at(order[p].target as int)[k];
                assert(prev[q] == order[q]);
            }
        }
        assert(schedule_ok(g, prev));
        lemma_schedule_admits_complete_run(g, deps, prev);
        let s1 = serial_trace(prev);
        let ph1 = run_trace(init, s1);
        lemma_run_trace_len(deps, init, s1);
        // the last unit is still Queued, and its dependencies are Completed
        if scheduled(prev, t0 as int) {
            let q = choose|q: int| 0 <= q < prev.len() && prev[q].target == t0 as int;
            assert(order[q].target == t0);
            assert(order[order.len() - 1].target == t0);
            assert(false);
        }
        assert(ph1[t0 as int] is Queued);
        assert forall|k: int|
            0 <= k < deps[t0 as int].len() implies ph1[#[trigger] deps[t0 as int][k] as int]
            is Completed by {
            let d = deps[t0 as int][k];
            assert(g.name_at(d as int) == g.deps_at(t0 as int)[k]);
            assert(deps_before(g, order, order.len() - 1));
            assert(order[order.len() - 1].target == t0);
            assert(dep_matched_before(g, order, order.len() - 1, k));
            let q = choose|q: int|
                0 <= q < order.len() - 1 && (#[trigger] order[q]).target < g.spec_len()
                    && g.name_at(order[q].target as int) == g.deps_at(
                    order[order.len() - 1].target as int,
                )[k];
            if order[q].target != d {
                let a = order[q].target as int;
                let b = d as int;
                if a < b {
                    assert(g.name_at(a) != g.name_at(b));
                } else {
                    assert(g.name_at(b) != g.name_at(a));
                }
                assert(false);
            }
            assert(prev[q] == order[q]);
            assert(scheduled(prev, d as int));
        }
        assert(deps_completed_spec(deps, ph1, t0 as int));
        // the two transitions of the last unit form a valid tail
        let s2 = seq![Action::Start(t0), Action::Complete(t0)];
        assert(s2[0] == Action::Start(t0));
        assert(s2[1] == Action::Complete(t0));
        let pha = apply_action(ph1, Action::Start(t0));
        let phb = apply_action(pha, Action::Complete(t0));
        assert(action_ok(deps, ph1, s2[0]));
        assert(s2.drop_first() =~= seq![Action::Complete(t0)]);
        assert(pha[t0 as int] is Running);
        assert(action_ok(deps, pha, Action::Complete(t0)));
        assert(seq![Action::Complete(t0)].drop_first().len() == 0);
        assert(s2.drop_first().len() == 1);
        assert(s2.drop_first()[0] == Action::Complete(t0));
        assert(s2.drop_first().drop_first().len() == 0);
        assert(trace_ok(deps, apply_action(pha, s2.drop_first()[0]), s2.drop_first().drop_first()));
        assert(trace_ok(deps, pha, s2.drop_first()));
        assert(trace_ok(deps, ph1, s2));
        assert(run_trace(pha, s2.drop_first()) == run_trace(phb, seq![
            Action::Complete(t0),
        ].drop_first()));
        assert(run_trace(ph1, s2) == phb);
        lemma_trace_join(deps, init, s1, s2);
        assert(serial_trace(order) =~= s1 + s2);
        let phf = run_trace(init, serial_trace(order));
        assert(phf == phb);
        // final characterization of every unit
        assert forall|t: int|
            0 <= t < n implies (phf[t] is Completed <==> scheduled(order, t)) by {
            lemma_scheduled_push(prev, last, t);
            if t == t0 as int {
                assert(phf[t] is Completed);
                assert(scheduled(order, t));
            } else {
                assert(phf[t] == ph1[t]);
            }
        }
        assert forall|t: int| 0 <= t < n && !scheduled(order, t) implies phf[t] is Queued by {
            lemma_scheduled_push(prev, last, t);
            assert(t != t0 as int);
            assert(phf[t] == ph1[t]);
        }
    }
}

} // verus!
