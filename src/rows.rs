//! Cells of one row of the entry list.

use vstd::prelude::*;
use crate::text::push_char;

verus! {

/// The text after the last `:`, or all of it when there is none.
pub open spec fn last_segment(s: Seq<char>) -> Seq<char>
    decreases s.len(),
{
    if s.len() == 0 {
        Seq::empty()
    } else if s.last() == ':' {
        Seq::empty()
    } else {
        last_segment(s.drop_last()).push(s.last())
    }
}

/// The index of the first `:` from `i`, or the length.
pub open spec fn colon_from(s: Seq<char>, i: int) -> int
    decreases s.len() - i,
{
    if i < 0 || i >= s.len() {
        s.len() as int
    } else if s[i] == ':' {
        i
    } else {
        colon_from(s, i + 1)
    }
}

/// The text before the first `:`, or all of it when there is none.
pub open spec fn first_segment(s: Seq<char>) -> Seq<char> {
    s.take(colon_from(s, 0))
}

pub open spec fn ascii_lower(c: char) -> char {
    if 'A' <= c && c <= 'Z' {
        ((c as u32) + 32) as char
    } else {
        c
    }
}

/// Equal up to ASCII case.
pub open spec fn eq_ignore_ascii_case(a: Seq<char>, b: Seq<char>) -> bool {
    a.len() == b.len() && forall|i: int| 0 <= i < a.len() ==> ascii_lower(#[trigger] a[i]) == ascii_lower(b[i])
}

fn lower(c: char) -> (r: char)
    ensures
        r == ascii_lower(c),
{
    if 'A' <= c && c <= 'Z' {
        ((c as u8) + 32) as char
    } else {
        c
    }
}

fn segments(key: &str) -> (r: (String, Vec<char>))
    ensures
        r.0@ == last_segment(key@),
        r.1@ == first_segment(key@),
{
    let mut edid = String::new();
    let mut first: Vec<char> = Vec::new();
    let mut seen_colon = false;
    for c in it: key.chars()
        invariant
            it.seq() == key@,
            edid@ == last_segment(key@.take(it.index())),
            !seen_colon ==> first@ == key@.take(it.index()) && colon_from(key@, 0) == colon_from(key@, it.index()),
            seen_colon ==> first@ == first_segment(key@),
    {
        let ghost k = it.index();
        proof {
            assert(key@[k] == c);
            assert(key@.take(k + 1).drop_last() =~= key@.take(k));
            assert(key@.take(k + 1).last() == c);
        }
        if c == ':' {
            seen_colon = true;
            edid = String::new();
        } else {
            if !seen_colon {
                first.push(c);
                proof {
                    assert(first@ =~= key@.take(k + 1));
                }
            }
            push_char(&mut edid, c);
        }
    }
    proof {
        assert(key@.take(key@.len() as int) =~= key@);
    }
    (edid, first)
}

fn is_plugin_prefix(first: &Vec<char>) -> (r: bool)
    ensures
        r == eq_ignore_ascii_case(first@, "plugin"@),
{
    proof {
        reveal_strlit("plugin");
    }
    let plugin: [char; 6] = ['p', 'l', 'u', 'g', 'i', 'n'];
    proof {
        assert("plugin"@ =~= plugin@);
    }
    if first.len() != 6 {
        return false;
    }
    let mut same = true;
    for i in 0..6usize
        invariant
            first@.len() == 6,
            "plugin"@ == plugin@,
            same == forall|x: int| 0 <= x < i ==> ascii_lower(#[trigger] first@[x]) == ascii_lower(plugin@[x]),
    {
        if lower(first[i]) != lower(plugin[i]) {
            same = false;
        }
    }
    same
}

/// The cells of a row: the key's last segment, the record label (`REC FULL`
/// for keys under `plugin`, `WEAP FULL` otherwise), and `T` when translated or
/// `-` when not.
pub fn row_fields(key: &str, target_text: &str) -> (r: (String, &'static str, &'static str))
    ensures
        r.0@ == last_segment(key@),
        r.1@ == if eq_ignore_ascii_case(first_segment(key@), "plugin"@) {
            "REC FULL"@
        } else {
            "WEAP FULL"@
        },
        r.2@ == if target_text@.len() == 0 {
            "-"@
        } else {
            "T"@
        },
{
    let (edid, first) = segments(key);
    let record_id = if is_plugin_prefix(&first) { "REC FULL" } else { "WEAP FULL" };
    let ld = if target_text.is_empty() { "-" } else { "T" };
    (edid, record_id, ld)
}

} // verus!
