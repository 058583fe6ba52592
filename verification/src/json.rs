//! Serialization of the target graph as a JSON object: keys are target
//! names in insertion order, values are the ordered arrays of dependency
//! names. The exact text of the output is pinned down character by
//! character, including the escaping of names.

use vstd::prelude::*;
use crate::graph::TargetGraph;

verus! {

/// The hexadecimal digit for a value below sixteen.
pub open spec fn hex_digit(n: int) -> char {
    if n == 0 {
        '0'
    } else if n == 1 {
        '1'
    } else if n == 2 {
        '2'
    } else if n == 3 {
        '3'
    } else if n == 4 {
        '4'
    } else if n == 5 {
        '5'
    } else if n == 6 {
        '6'
    } else if n == 7 {
        '7'
    } else if n == 8 {
        '8'
    } else if n == 9 {
        '9'
    } else if n == 10 {
        'a'
    } else if n == 11 {
        'b'
    } else if n == 12 {
        'c'
    } else if n == 13 {
        'd'
    } else if n == 14 {
        'e'
    } else {
        'f'
    }
}

/// How one character appears inside a JSON string: quotes and backslashes
/// are escaped, common control characters use their short escapes, other
/// control characters use a universal escape, everything else stands as is.
pub open spec fn escaped_char(c: char) -> Seq<char> {
    if c == '"' {
        seq!['\\', '"']
    } else if c == '\\' {
        seq!['\\', '\\']
    } else if c == '\n' {
        seq!['\\', 'n']
    } else if c == '\r' {
        seq!['\\', 'r']
    } else if c == '\t' {
        seq!['\\', 't']
    } else if (c as u32) < 32 {
        seq!['\\', 'u', '0', '0', hex_digit((c as u32) as int / 16), hex_digit(
            (c as u32) as int % 16,
        )]
    } else {
        seq![c]
    }
}

/// A whole string's characters, escaped in order.
pub open spec fn escaped(s: Seq<char>) -> Seq<char>
    decreases s.len(),
{
    if s.len() == 0 {
        Seq::empty()
    } else {
        escaped(s.drop_last()) + escaped_char(s.last())
    }
}

/// A JSON string literal: the escaped characters between quotes.
pub open spec fn quoted(s: Seq<char>) -> Seq<char> {
    seq!['"'] + escaped(s) + seq!['"']
}

/// The comma-separated JSON string literals of a dependency list.
pub open spec fn dep_items(deps: Seq<Seq<char>>) -> Seq<char>
    decreases deps.len(),
{
    if deps.len() == 0 {
        Seq::empty()
    } else if deps.len() == 1 {
        quoted(deps[0])
    } else {
        dep_items(deps.drop_last()) + seq![','] + quoted(deps.last())
    }
}

/// A dependency list as a JSON array.
pub open spec fn dep_list_json(deps: Seq<Seq<char>>) -> Seq<char> {
    seq!['['] + dep_items(deps) + seq![']']
}

/// One graph entry as a JSON member: the name, a colon, the dependencies.
pub open spec fn entry_json(name: Seq<char>, deps: Seq<Seq<char>>) -> Seq<char> {
    quoted(name) + seq![':'] + dep_list_json(deps)
}

/// The first `m` graph entries as comma-separated JSON members.
pub open spec fn graph_items(g: TargetGraph, m: int) -> Seq<char>
    decreases m,
{
    if m <= 0 {
        Seq::empty()
    } else if m == 1 {
        entry_json(g.name_at(0), g.deps_at(0))
    } else {
        graph_items(g, m - 1) + seq![','] + entry_json(g.name_at(m - 1), g.deps_at(m - 1))
    }
}

/// The whole graph as a JSON object.
pub open spec fn graph_json(g: TargetGraph) -> Seq<char> {
    seq!['{'] + graph_items(g, g.spec_len() as int) + seq!['}']
}

/// Relies on String::push: it appends exactly the given character.
#[verifier::external_body]
fn push_char(out: &mut String, c: char)
    ensures
        final(out)@ == old(out)@.push(c),
{
    out.push(c);
}

/// Appends the hexadecimal digit of a value below sixteen.
fn push_hex_digit(out: &mut String, n: u32)
    requires
        n < 16,
    ensures
        final(out)@ == old(out)@.push(hex_digit(n as int)),
{
    if n == 0 {
        push_char(out, '0');
    } else if n == 1 {
        push_char(out, '1');
    } else if n == 2 {
        push_char(out, '2');
    } else if n == 3 {
        push_char(out, '3');
    } else if n == 4 {
        push_char(out, '4');
    } else if n == 5 {
        push_char(out, '5');
    } else if n == 6 {
        push_char(out, '6');
    } else if n == 7 {
        push_char(out, '7');
    } else if n == 8 {
        push_char(out, '8');
    } else if n == 9 {
        push_char(out, '9');
    } else if n == 10 {
        push_char(out, 'a');
    } else if n == 11 {
        push_char(out, 'b');
    } else if n == 12 {
        push_char(out, 'c');
    } else if n == 13 {
        push_char(out, 'd');
    } else if n == 14 {
        push_char(out, 'e');
    } else {
        push_char(out, 'f');
    }
}

/// Appends one character in its escaped form.
fn push_escaped_char(out: &mut String, c: char)
    ensures
        final(out)@ == old(out)@ + escaped_char(c),
{
    let ghost start = out@;
    if c == '"' {
        push_char(out, '\\');
        push_char(out, '"');
    } else if c == '\\' {
        push_char(out, '\\');
        push_char(out, '\\');
    } else if c == '\n' {
        push_char(out, '\\');
        push_char(out, 'n');
    } else if c == '\r' {
        push_char(out, '\\');
        push_char(out, 'r');
    } else if c == '\t' {
        push_char(out, '\\');
        push_char(out, 't');
    } else {
        let u = c as u32;
        if u < 32 {
            push_char(out, '\\');
            push_char(out, 'u');
            push_char(out, '0');
            push_char(out, '0');
            push_hex_digit(out, u / 16);
            push_hex_digit(out, u % 16);
        } else {
            push_char(out, c);
        }
    }
    proof {
        assert(out@ =~= start + escaped_char(c));
    }
}

/// Appends a name as a JSON string literal.
fn push_quoted(out: &mut String, name: &String)
    ensures
        final(out)@ == old(out)@ + quoted(name@),
{
    let ghost start = out@;
    push_char(out, '"');
    let s = name.as_str();
    let n = s.unicode_len();
    let mut i: usize = 0;
    while i < n
        invariant
            n == s@.len(),
            s@ == name@,
            i <= n,
            out@ == start + seq!['"'] + escaped(s@.take(i as int)),
        decreases n - i,
    {
        let c = s.get_char(i);
        push_escaped_char(out, c);
        proof {
            assert(s@.take(i + 1).drop_last() =~= s@.take(i as int));
            assert(s@.take(i + 1).last() == c);
            assert(escaped(s@.take(i + 1)) == escaped(s@.take(i as int)) + escaped_char(c));
            assert(out@ =~= start + seq!['"'] + escaped(s@.take(i + 1)));
        }
        i += 1;
    }
    push_char(out, '"');
    proof {
        assert(s@.take(n as int) =~= name@);
        assert(out@ =~= start + quoted(name@));
    }
}

/// Appends a dependency list as a JSON array.
fn push_dep_list(out: &mut String, deps: &Vec<String>)
    ensures
        final(out)@ == old(out)@ + dep_list_json(deps@.map_values(|d: String| d@)),
{
    let ghost start = out@;
    let ghost dv = deps@.map_values(|d: String| d@);
    push_char(out, '[');
    let mut k: usize = 0;
    while k < deps.len()
        invariant
            dv == deps@.map_values(|d: String| d@),
            k <= deps@.len(),
            out@ == start + seq!['['] + dep_items(dv.take(k as int)),
        decreases deps@.len() - k,
    {
        if k > 0 {
            push_char(out, ',');
        }
        push_quoted(out, &deps[k]);
        proof {
            assert(dv.take(k + 1).drop_last() =~= dv.take(k as int));
            assert(dv.take(k + 1).last() == dv[k as int]);
            assert(dv[k as int] == deps@[k as int]@);
            if k == 0 {
                assert(dep_items(dv.take(1)) == quoted(dv[0]));
                assert(out@ =~= start + seq!['['] + dep_items(dv.take(1)));
            } else {
                assert(dep_items(dv.take(k + 1)) == dep_items(dv.take(k as int)) + seq![',']
                    + quoted(dv[k as int]));
                assert(out@ =~= start + seq!['['] + dep_items(dv.take(k + 1)));
            }
        }
        k += 1;
    }
    push_char(out, ']');
    proof {
        assert(dv.take(deps@.len() as int) =~= dv);
        assert(out@ =~= start + dep_list_json(dv));
    }
}

/// Serializes the graph: a JSON object whose keys are the target names in
/// insertion order and whose values are the ordered dependency-name arrays.
pub fn graph_to_json(g: &TargetGraph) -> (out: String)
    ensures
        out@ == graph_json(*g),
{
    let mut out = String::new();
    push_char(&mut out, '{');
    let n = g.len();
    let mut i: usize = 0;
    while i < n
        invariant
            n == g.spec_len(),
            i <= n,
            out@ == seq!['{'] + graph_items(*g, i as int),
        decreases n - i,
    {
        if i > 0 {
            push_char(&mut out, ',');
        }
        push_quoted(&mut out, g.name_of(i));
        push_char(&mut out, ':');
        let drow = g.dependencies_of(i);
        push_dep_list(&mut out, drow);
        proof {
            assert(drow@.map_values(|d: String| d@) == g.deps_at(i as int));
            if i == 0 {
                assert(graph_items(*g, 1) == entry_json(g.name_at(0), g.deps_at(0)));
                assert(out@ =~= seq!['{'] + graph_items(*g, 1));
            } else {
                assert(graph_items(*g, i + 1) == graph_items(*g, i as int) + seq![',']
                    + entry_json(g.name_at(i as int), g.deps_at(i as int)));
                assert(out@ =~= seq!['{'] + graph_items(*g, i + 1));
            }
        }
        i += 1;
    }
    push_char(&mut out, '}');
    proof {
        assert(out@ =~= graph_json(*g));
    }
    out
}

} // verus!
