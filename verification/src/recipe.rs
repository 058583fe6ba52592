//! Construction of the external build tool's invocation for one target. The
//! tool is told, not asked to rediscover, which dependencies were already
//! resolved: each one is passed as pre-handled alongside the description
//! file and the target itself.

use vstd::prelude::*;

verus! {

/// Entries `3 + 2k` and `4 + 2k` of the argument vector hand dependency
/// `k` to the external tool as already handled.
pub open spec fn dep_args_ok(args: Seq<String>, deps: Seq<String>, kp: int) -> bool {
    args[3 + 2 * kp]@ == "-o"@ && args[4 + 2 * kp]@ == deps[kp]@
}

/// The argument vector for building `target` from `makefile_path`: the
/// description file, the target, and each resolved dependency marked as
/// already handled.
pub fn recipe_args(makefile_path: &String, target: &String, deps: &Vec<String>) -> (args: Vec<
    String,
>)
    ensures
        args@.len() == 3 + 2 * deps@.len(),
        args@[0]@ == "-f"@,
        args@[1]@ == makefile_path@,
        args@[2]@ == target@,
        forall|k: int| 0 <= k < deps@.len() ==> #[trigger] dep_args_ok(args@, deps@, k),
{
    let mut args: Vec<String> = Vec::new();
    args.push("-f".to_owned());
    args.push(makefile_path.clone());
    args.push(target.clone());
    let mut k: usize = 0;
    while k < deps.len()
        invariant
            k <= deps@.len(),
            args@.len() == 3 + 2 * k,
            args@[0]@ == "-f"@,
            args@[1]@ == makefile_path@,
            args@[2]@ == target@,
            forall|kp: int| 0 <= kp < k ==> #[trigger] dep_args_ok(args@, deps@, kp),
        decreases deps@.len() - k,
    {
        let marker = "-o".to_owned();
        let dep = deps[k].clone();
        let ghost marker_view = marker@;
        let ghost dep_view = dep@;
        let ghost pre = args@;
        args.push(marker);
        let ghost mid = args@;
        args.push(dep);
        proof {
            reveal_strlit("-f");
            reveal_strlit("-o");
            assert forall|kp: int|
                0 <= kp < k + 1 implies #[trigger] dep_args_ok(args@, deps@, kp) by {
                if kp < k {
                    assert(args@ == mid.push(dep));
                    assert(mid == pre.push(marker));
                    assert(args@[3 + 2 * kp] == mid[3 + 2 * kp]);
                    assert(mid[3 + 2 * kp] == pre[3 + 2 * kp]);
                    assert(args@[4 + 2 * kp] == mid[4 + 2 * kp]);
                    assert(mid[4 + 2 * kp] == pre[4 + 2 * kp]);
                    assert(dep_args_ok(pre, deps@, kp));
                    assert(pre[4 + 2 * kp]@ == deps@[kp]@);
                    assert(pre[3 + 2 * kp]@ == "-o"@);
                } else {
                    assert(3 + 2 * kp == pre.len());
                    assert(args@[3 + 2 * kp] == mid[3 + 2 * kp]);
                    assert(mid[3 + 2 * kp]@ == marker_view);
                    assert(marker_view == "-o"@);
                    assert(args@[4 + 2 * kp]@ == dep_view);
                    assert(dep_view == deps@[kp]@);
                }
            }
            assert(args@[0] == pre[0]);
            assert(args@[1] == pre[1]);
            assert(args@[2] == pre[2]);
        }
        k += 1;
    }
    args
}

} // verus!
