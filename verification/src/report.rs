//! Presentation of the progress display: one indicator per execution unit,
//! whose glyphs, counters and label follow the unit's lifecycle phase, and
//! whose label carries an indentation marker for the depth at which the
//! planner first discovered the target. All of it is derived state; none of
//! it feeds back into scheduling.

use vstd::prelude::*;
use crate::lifecycle::Phase;

verus! {

/// The indentation marker for a unit first discovered at `depth`.
pub open spec fn spec_indent(depth: nat) -> Seq<char>
    decreases depth,
{
    if depth == 0 {
        Seq::empty()
    } else if depth == 1 {
        seq!['\u{21b1}', ' ']
    } else {
        seq![' '] + spec_indent((depth - 1) as nat)
    }
}

/// The indicator label of a unit: its indentation marker, then its name.
pub open spec fn spec_label(depth: nat, name: Seq<char>) -> Seq<char> {
    spec_indent(depth) + name
}

/// Builds the indicator label for `name` as first discovered at `depth`.
pub fn indent_label(depth: usize, name: &String) -> (label: String)
    ensures
        label@ == spec_label(depth as nat, name@),
{
    let mut label = String::new();
    let mut d: usize = depth;
    while d > 1
        invariant
            d <= depth,
            depth > 0 ==> d >= 1,
            label@ + spec_indent(d as nat) == spec_indent(depth as nat),
        decreases d,
    {
        label.append(" ");
        proof {
            reveal_strlit(" ");
            assert(spec_indent(d as nat) == seq![' '] + spec_indent((d - 1) as nat));
            assert((label@ + spec_indent((d - 1) as nat)) =~= (label@.drop_last() + spec_indent(
                d as nat,
            )));
        }
        d -= 1;
    }
    if d == 1 {
        label.append("\u{21b1} ");
        proof {
            reveal_strlit("\u{21b1} ");
            assert(("\u{21b1} ")@ =~= seq!['\u{21b1}', ' ']);
            assert(label@ =~= spec_indent(depth as nat));
        }
    } else {
        proof {
            assert(depth == 0);
            assert(label@ =~= spec_indent(depth as nat));
        }
    }
    label.append(name.as_str());
    proof {
        assert(label@ == spec_label(depth as nat, name@));
    }
    label
}

/// The indicator position that displays a unit's phase: queued, running,
/// or completed.
pub fn phase_position(p: Phase) -> (v: u64)
    ensures
        p is Queued ==> v == 0,
        p is Running ==> v == 1,
        p is Completed ==> v == 2,
{
    match p {
        Phase::Queued => 0,
        Phase::Running => 1,
        Phase::Completed => 2,
    }
}

/// The indicator style template for a unit's phase: a waiting glyph before
/// dependencies resolve, a spinner with a ticking elapsed counter while the
/// recipe runs, and a checkmark with the frozen time once it returns.
pub fn phase_template(p: Phase) -> (t: &'static str)
    ensures
        p is Queued ==> t@ == ("\u{23f3}|   \u{22ef} | {prefix:20}")@,
        p is Running ==> t@ == ("{spinner} | {elapsed:>03} | {prefix:20}")@,
        p is Completed ==> t@ == ("\u{2705}| {elapsed:>03} | {prefix:20}")@,
{
    match p {
        Phase::Queued => "\u{23f3}|   \u{22ef} | {prefix:20}",
        Phase::Running => "{spinner} | {elapsed:>03} | {prefix:20}",
        Phase::Completed => "\u{2705}| {elapsed:>03} | {prefix:20}",
    }
}

} // verus!
