//! The target graph: an immutable mapping from a target's name to the ordered
//! list of its direct dependencies. Entries keep insertion order, and the
//! first entry inserted is the default target.

use vstd::prelude::*;

verus! {

/// One build target: its name and the ordered names of its direct
/// dependencies.
pub struct Target {
    pub name: String,
    pub deps: Vec<String>,
}

/// A read-only mapping from target name to ordered dependency names, built
/// once before scheduling begins. Names are unique; entry order is insertion
/// order.
pub struct TargetGraph {
    pub targets: Vec<Target>,
}

impl TargetGraph {
    /// Number of targets in the graph.
    pub open spec fn spec_len(self) -> nat {
        self.targets@.len()
    }

    /// Name of the target at entry `i`.
    pub open spec fn name_at(self, i: int) -> Seq<char> {
        self.targets@[i].name@
    }

    /// Dependency names of the target at entry `i`, in order.
    pub open spec fn deps_at(self, i: int) -> Seq<Seq<char>> {
        self.targets@[i].deps@.map_values(|d: String| d@)
    }

    /// Whether some entry carries this name.
    pub open spec fn spec_has(self, name: Seq<char>) -> bool {
        exists|i: int| 0 <= i < self.spec_len() && self.name_at(i) == name
    }

    /// Names are pairwise distinct.
    pub open spec fn well_formed(self) -> bool {
        forall|i: int, j: int|
            0 <= i < j < self.spec_len() ==> self.name_at(i) != self.name_at(j)
    }

    /// Every dependency named anywhere in the graph is itself a target.
    pub open spec fn closed(self) -> bool {
        forall|i: int, k: int|
            0 <= i < self.spec_len() && 0 <= k < self.deps_at(i).len()
                ==> self.spec_has(#[trigger] self.deps_at(i)[k])
    }

    /// An empty graph.
    pub fn new() -> (g: TargetGraph)
        ensures
            g.spec_len() == 0,
            g.well_formed(),
            g.closed(),
    {
        TargetGraph { targets: Vec::new() }
    }

    /// Number of targets.
    pub fn len(&self) -> (n: usize)
        ensures
            n == self.spec_len(),
    {
        self.targets.len()
    }

    /// Whether `name` is a target of this graph.
    pub fn has_target(&self, name: &String) -> (r: bool)
        ensures
            r == self.spec_has(name@),
    {
        let mut i: usize = 0;
        while i < self.targets.len()
            invariant
                0 <= i <= self.spec_len(),
                forall|j: int| 0 <= j < i ==> self.name_at(j) != name@,
            decreases self.spec_len() - i,
        {
            if self.targets[i].name == *name {
                proof {
                    assert(self.name_at(i as int) == name@);
                }
                return true;
            }
            i += 1;
        }
        false
    }

    /// Entry index of the target named `name`, if any.
    pub fn index_of(&self, name: &String) -> (r: Option<usize>)
        ensures
            match r {
                Some(i) => i < self.spec_len() && self.name_at(i as int) == name@,
                None => !self.spec_has(name@),
            },
    {
        let mut i: usize = 0;
        while i < self.targets.len()
            invariant
                0 <= i <= self.spec_len(),
                forall|j: int| 0 <= j < i ==> self.name_at(j) != name@,
            decreases self.spec_len() - i,
        {
            if self.targets[i].name == *name {
                return Some(i);
            }
            i += 1;
        }
        None
    }

    /// Name of the target at entry `i`.
    pub fn name_of(&self, i: usize) -> (n: &String)
        requires
            i < self.spec_len(),
        ensures
            n@ == self.name_at(i as int),
    {
        &self.targets[i].name
    }

    /// Ordered direct dependencies of the target at entry `i`.
    pub fn dependencies_of(&self, i: usize) -> (d: &Vec<String>)
        requires
            i < self.spec_len(),
        ensures
            d@.map_values(|s: String| s@) == self.deps_at(i as int),
    {
        &self.targets[i].deps
    }

    /// The default target: the first one inserted, if the graph is non-empty.
    pub fn default_target(&self) -> (r: Option<&String>)
        ensures
            r is None <==> self.spec_len() == 0,
            r matches Some(n) ==> self.spec_len() > 0 && n@ == self.name_at(0),
    {
        if self.targets.len() == 0 {
            None
        } else {
            Some(&self.targets[0].name)
        }
    }

    /// Appends a target. A name already present is rejected, so names stay
    /// unique and earlier entries keep their positions.
    pub fn add_target(&mut self, name: String, deps: Vec<String>) -> (added: bool)
        requires
            old(self).well_formed(),
        ensures
            final(self).well_formed(),
            added == !old(self).spec_has(name@),
            added ==> final(self).targets@ == old(self).targets@.push(
                (Target { name, deps }),
            ),
            !added ==> final(self).targets@ == old(self).targets@,
    {
        if self.has_target(&name) {
            return false;
        }
        let ghost gname = name@;
        let ghost olds = self.targets@;
        self.targets.push(Target { name, deps });
        proof {
            assert forall|i: int, j: int|
                0 <= i < j < self.spec_len() implies self.name_at(i) != self.name_at(j) by {
                assert(self.targets@[i] == olds[i]);
                assert(self.name_at(i) == old(self).name_at(i));
                if j < olds.len() {
                    assert(self.targets@[j] == olds[j]);
                    assert(self.name_at(j) == old(self).name_at(j));
                    assert(old(self).name_at(i) != old(self).name_at(j));
                } else {
                    assert(self.targets@[j].name@ == gname);
                    assert(old(self).name_at(i) != gname);
                }
            }
        }
        true
    }

    /// Whether every dependency named in the graph is itself a target.
    pub fn is_closed(&self) -> (r: bool)
        ensures
            r == self.closed(),
    {
        let mut i: usize = 0;
        while i < self.targets.len()
            invariant
                0 <= i <= self.spec_len(),
                forall|ip: int, k: int|
                    0 <= ip < i && 0 <= k < self.deps_at(ip).len()
                        ==> self.spec_has(#[trigger] self.deps_at(ip)[k]),
            decreases self.spec_len() - i,
        {
            let deps = &self.targets[i].deps;
            let mut k: usize = 0;
            while k < deps.len()
                invariant
                    0 <= i < self.spec_len(),
                    deps == &self.targets@[i as int].deps,
                    0 <= k <= self.deps_at(i as int).len(),
                    forall|kp: int|
                        0 <= kp < k ==> self.spec_has(#[trigger] self.deps_at(i as int)[kp]),
                decreases deps@.len() - k,
            {
                if !self.has_target(&deps[k]) {
                    proof {
                        assert(self.deps_at(i as int)[k as int] == deps@[k as int]@);
                    }
                    return false;
                }
                k += 1;
            }
            i += 1;
        }
        true
    }

    /// The dependency lists of every target, rewritten as entry indices, in
    /// the same order. Requires a closed graph so that every name resolves.
    pub fn dep_index_graph(&self) -> (idx: Vec<Vec<usize>>)
        requires
            self.closed(),
        ensures
            idx@.len() == self.spec_len(),
            forall|i: int|
                0 <= i < self.spec_len() ==> #[trigger] idx@[i]@.len() == self.deps_at(
                    i,
                ).len(),
            forall|i: int, k: int|
                0 <= i < self.spec_len() && 0 <= k < idx@[i]@.len()
                    ==> #[trigger] idx@[i]@[k] < self.spec_len() && self.name_at(
                    idx@[i]@[k] as int,
                ) == self.deps_at(i)[k],
    {
        let mut idx: Vec<Vec<usize>> = Vec::new();
        let mut i: usize = 0;
        while i < self.targets.len()
            invariant
                0 <= i <= self.spec_len(),
                self.closed(),
                idx@.len() == i,
                forall|ip: int|
                    0 <= ip < i ==> #[trigger] idx@[ip]@.len() == self.deps_at(ip).len(),
                forall|ip: int, k: int|
                    0 <= ip < i && 0 <= k < idx@[ip]@.len()
                        ==> #[trigger] idx@[ip]@[k] < self.spec_len() && self.name_at(
                        idx@[ip]@[k] as int,
                    ) == self.deps_at(ip)[k],
            decreases self.spec_len() - i,
        {
            let deps = &self.targets[i].deps;
            let mut row: Vec<usize> = Vec::new();
            let mut k: usize = 0;
            while k < deps.len()
                invariant
                    0 <= i < self.spec_len(),
                    self.closed(),
                    deps == &self.targets@[i as int].deps,
                    0 <= k <= self.deps_at(i as int).len(),
                    row@.len() == k,
                    forall|kp: int|
                        0 <= kp < k ==> #[trigger] row@[kp] < self.spec_len() && self.name_at(
                            row@[kp] as int,
                        ) == self.deps_at(i as int)[kp],
                decreases deps@.len() - k,
            {
                proof {
                    assert(self.deps_at(i as int)[k as int] == deps@[k as int]@);
                    assert(self.spec_has(self.deps_at(i as int)[k as int]));
                }
                match self.index_of(&deps[k]) {
                    Some(j) => {
                        row.push(j);
                    },
                    None => {
                        proof {
                            assert(false);
                        }
                    },
                }
                k += 1;
            }
            idx.push(row);
            i += 1;
        }
        idx
    }
}

} // verus!
