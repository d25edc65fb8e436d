//! Text primitives taken from std, and the checks built on them.

use vstd::prelude::*;
use vstd::string::StrSliceExecFns;
use vstd::utf8::{valid_utf8, decode_utf8, encode_utf8};

verus! {

/// Relies on `std::str::from_utf8`: it accepts exactly the well-formed UTF-8
/// byte strings and decodes them.
#[verifier::external_body]
pub(crate) fn utf8_to_string(b: &[u8]) -> (r: Option<String>)
    ensures
        r is Some <==> valid_utf8(b@),
        r matches Some(s) ==> s@ == decode_utf8(b@),
{
    std::str::from_utf8(b).ok().map(|s| s.to_string())
}


/// Relies on `String::push`: it appends the char.
#[verifier::external_body]
pub(crate) fn push_char(s: &mut String, c: char)
    ensures
        final(s)@ == old(s)@.push(c),
{
    s.push(c);
}


/// `n` occurs as a contiguous run inside `h`.
pub open spec fn occurs_in(h: Seq<u8>, n: Seq<u8>) -> bool {
    exists|i: int| 0 <= i <= h.len() - n.len() && #[trigger] h.subrange(i, i + n.len()) == n
}

/// Substring search over the UTF-8 bytes of two texts.
pub fn contains_text(h: &str, n: &str) -> (r: bool)
    ensures
        r == occurs_in(encode_utf8(h@), encode_utf8(n@)),
{
    let hb = h.as_bytes();
    let nb = n.as_bytes();
    if nb.len() > hb.len() {
        return false;
    }
    let hlen = hb.len();
    let last = hlen - nb.len();
    let mut i: usize = 0;
    while i <= last
        invariant
            last == hb@.len() - nb@.len(),
            hlen == hb@.len(),
            hb@ == encode_utf8(h@),
            nb@ == encode_utf8(n@),
            forall|i2: int| 0 <= i2 < i ==> #[trigger] hb@.subrange(i2, i2 + nb@.len()) != nb@,
        decreases last + 1 - i,
    {
        let mut j: usize = 0;
        while j < nb.len() && hb[i + j] == nb[j]
            invariant
                i <= last,
                last == hb@.len() - nb@.len(),
                hlen == hb@.len(),
                j <= nb@.len(),
                forall|j2: int| 0 <= j2 < j ==> hb@[i + j2] == nb@[j2],
            decreases nb@.len() - j,
        {
            j = j + 1;
        }
        if j == nb.len() {
            assert(hb@.subrange(i as int, i + nb@.len()) =~= nb@);
            return true;
        }
        assert(hb@.subrange(i as int, i + nb@.len())[j as int] != nb@[j as int]);
        i = i + 1;
    }
    false
}


/// Unicode's `White_Space` property: tab through carriage return, space,
/// next line, no-break space, ogham space mark, the spaces U+2000 to U+200A,
/// line and paragraph separators, narrow no-break space, medium mathematical
/// space and ideographic space.
pub open spec fn whitespace(c: char) -> bool {
    let v = c as u32;
    (0x09 <= v && v <= 0x0d) || v == 0x20 || v == 0x85 || v == 0xa0 || v == 0x1680 || (0x2000 <= v
        && v <= 0x200a) || v == 0x2028 || v == 0x2029 || v == 0x202f || v == 0x205f || v == 0x3000
}

/// `char::is_whitespace`, stated by the code points it accepts.
pub fn is_whitespace(c: char) -> (r: bool)
    ensures
        r == whitespace(c),
{
    let v = c as u32;
    (0x09 <= v && v <= 0x0d) || v == 0x20 || v == 0x85 || v == 0xa0 || v == 0x1680 || (0x2000 <= v
        && v <= 0x200a) || v == 0x2028 || v == 0x2029 || v == 0x202f || v == 0x205f || v == 0x3000
}

/// Every char is white space: what trims to nothing.
pub open spec fn blank(s: Seq<char>) -> bool {
    forall|i: int| 0 <= i < s.len() ==> whitespace(#[trigger] s[i])
}

pub fn is_blank(s: &str) -> (r: bool)
    ensures
        r == blank(s@),
{
    for c in it: s.chars()
        invariant
            it.seq() == s@,
            forall|i: int| 0 <= i < it.index() ==> whitespace(#[trigger] s@[i]),
    {
        if !is_whitespace(c) {
            proof {
                assert(s@[it.index()] == c);
            }
            return false;
        }
    }
    true
}

/// The first line break at or after `i`, or the length.
pub open spec fn line_end(s: Seq<char>, i: int) -> int
    decreases s.len() - i,
{
    if i < 0 || i >= s.len() {
        s.len() as int
    } else if s[i] == '\n' {
        i
    } else {
        line_end(s, i + 1)
    }
}

/// A line without its carriage return.
pub open spec fn strip_cr(l: Seq<char>) -> Seq<char> {
    if l.len() > 0 && l.last() == '\r' {
        l.drop_last()
    } else {
        l
    }
}

/// The lines of `s` from `i` on, as `str::lines` yields them: split at line
/// feeds, a carriage return before one dropped, no empty line after a final
/// line feed.
pub open spec fn lines_from(s: Seq<char>, i: int) -> Seq<Seq<char>>
    decreases s.len() - i,
{
    if i < 0 || i >= s.len() {
        Seq::empty()
    } else {
        let e = line_end(s, i);
        if e < i || e > s.len() {
            Seq::empty()
        } else if e == s.len() {
            seq![strip_cr(s.subrange(i, e))]
        } else {
            seq![strip_cr(s.subrange(i, e))] + lines_from(s, e + 1)
        }
    }
}

proof fn lemma_line_end_range(s: Seq<char>, i: int)
    requires
        0 <= i <= s.len(),
    ensures
        i <= line_end(s, i) <= s.len(),
    decreases s.len() - i,
{
    if i < s.len() && s[i] != '\n' {
        lemma_line_end_range(s, i + 1);
    }
}

/// The lines of a text.
pub fn split_lines(s: &str) -> (r: Vec<String>)
    ensures
        r@.map_values(|x: String| x@) == lines_from(s@, 0),
{
    let mut out: Vec<String> = Vec::new();
    let mut cur = String::new();
    let ghost mut start: int = 0;
    for c in it: s.chars()
        invariant
            it.seq() == s@,
            0 <= start <= it.index(),
            cur@ == s@.subrange(start, it.index()),
            forall|k: int| start <= k < it.index() ==> s@[k] != '\n',
            out@.map_values(|x: String| x@) + lines_from(s@, start) == lines_from(s@, 0),
    {
        let ghost k = it.index();
        proof {
            assert(s@[k] == c);
            lemma_line_end_range(s@, start);
        }
        if c == '\n' {
            proof {
                assert(line_end(s@, start) == k) by {
                    lemma_line_end_skip(s@, start, k);
                }
                let l = strip_cr(s@.subrange(start, k));
                let before = out@.map_values(|x: String| x@);
                if k + 1 == s@.len() {
                    assert(lines_from(s@, k + 1) == Seq::<Seq<char>>::empty());
                    assert(seq![l] + lines_from(s@, k + 1) =~= seq![l]);
                }
                assert(lines_from(s@, start) == seq![l] + lines_from(s@, k + 1));
                assert(before + (seq![l] + lines_from(s@, k + 1)) =~= before.push(l) + lines_from(s@, k + 1));
            }
            let line = strip_cr_string(cur);
            let ghost before = out@;
            out.push(line);
            proof {
                assert(out@.map_values(|x: String| x@) =~= before.map_values(|x: String| x@).push(line@));
                start = k + 1;
            }
            cur = String::new();
        } else {
            push_char(&mut cur, c);
            proof {
                assert(cur@ =~= s@.subrange(start, k + 1));
            }
        }
    }
    proof {
        assert(s@.subrange(start, s@.len() as int) == cur@);
    }
    if !cur.as_str().is_empty() {
        proof {
            lemma_line_end_skip(s@, start, s@.len() as int);
            let l = strip_cr(cur@);
            let before = out@.map_values(|x: String| x@);
            assert(lines_from(s@, start) == seq![l]);
            assert(before + seq![l] =~= before.push(l));
        }
        let line = strip_cr_string(cur);
        let ghost before = out@;
        out.push(line);
        proof {
            assert(out@.map_values(|x: String| x@) =~= before.map_values(|x: String| x@).push(line@));
        }
    } else {
        proof {
            assert(out@.map_values(|x: String| x@) + Seq::<Seq<char>>::empty() =~= out@.map_values(|x: String| x@));
        }
    }
    out
}

proof fn lemma_line_end_skip(s: Seq<char>, i: int, k: int)
    requires
        0 <= i <= k <= s.len(),
        forall|j: int| i <= j < k ==> s[j] != '\n',
        k == s.len() || s[k] == '\n',
    ensures
        line_end(s, i) == k,
    decreases k - i,
{
    if i < k {
        lemma_line_end_skip(s, i + 1, k);
    }
}

fn strip_cr_string(line: String) -> (r: String)
    ensures
        r@ == strip_cr(line@),
{
    let len = line.as_str().unicode_len();
    if len == 0 {
        return line;
    }
    let last = line.as_str().get_char(len - 1);
    if last != '\r' {
        return line;
    }
    let mut out = String::new();
    let mut idx: usize = 0;
    for c in it: line.as_str().chars()
        invariant
            it.seq() == line@,
            len as int == line@.len(),
            len > 0,
            idx as int == it.index(),
            idx <= len,
            out@ == line@.take(if it.index() < len - 1 { it.index() } else { len - 1 }),
    {
        let ghost k = it.index();
        if idx < len - 1 {
            proof {
                assert(line@[k] == c);
                assert(line@.take(k + 1) =~= line@.take(k).push(c));
            }
            push_char(&mut out, c);
        }
        idx = idx + 1;
    }
    proof {
        assert(line@.take(len - 1) =~= line@.drop_last());
    }
    out
}


/// The chars of a text, for indexing.
pub fn chars_of(s: &str) -> (r: Vec<char>)
    ensures
        r@ == s@,
{
    let mut out: Vec<char> = Vec::new();
    for c in it: s.chars()
        invariant
            it.seq() == s@,
            out@ == s@.take(it.index()),
    {
        proof {
            assert(s@[it.index()] == c);
            assert(s@.take(it.index() + 1) =~= out@.push(c));
        }
        out.push(c);
    }
    proof {
        assert(s@.take(s@.len() as int) =~= s@);
    }
    out
}


/// The first index from `i` where `pat` occurs in `h`, or `h.len()`.
pub open spec fn find_at(h: Seq<u8>, pat: Seq<u8>, i: int) -> int
    decreases h.len() - i,
{
    if i < 0 || i >= h.len() || i + pat.len() > h.len() {
        h.len() as int
    } else if h.subrange(i, i + pat.len() as int) == pat {
        i
    } else {
        find_at(h, pat, i + 1)
    }
}

pub proof fn lemma_find_at_range(h: Seq<u8>, pat: Seq<u8>, i: int)
    requires
        0 <= i,
    ensures
        (i <= find_at(h, pat, i) && find_at(h, pat, i) + pat.len() <= h.len()) || find_at(h, pat, i) == h.len(),
    decreases h.len() - i,
{
    if i < h.len() && i + pat.len() <= h.len() && h.subrange(i, i + pat.len() as int) != pat {
        lemma_find_at_range(h, pat, i + 1);
    }
}

/// Searches `h` for `pat` from `from`.
pub fn find_bytes(h: &[u8], pat: &[u8], from: usize) -> (r: usize)
    ensures
        r == find_at(h@, pat@, from as int),
{
    let n = h.len();
    let m = pat.len();
    let mut i = from;
    while i < n && m <= n - i
        invariant
            n == h@.len(),
            m == pat@.len(),
            from <= i,
            find_at(h@, pat@, from as int) == find_at(h@, pat@, i as int),
        decreases n + 1 - i,
    {
        let mut j: usize = 0;
        while j < m && h[i + j] == pat[j]
            invariant
                n == h@.len(),
                m == pat@.len(),
                i + m <= n,
                j <= m,
                forall|k: int| 0 <= k < j ==> h@[i + k] == pat@[k],
            decreases m - j,
        {
            j = j + 1;
        }
        if j == m {
            assert(h@.subrange(i as int, i + m) =~= pat@);
            return i;
        }
        assert(h@.subrange(i as int, i + m)[j as int] != pat@[j as int]);
        i = i + 1;
    }
    n
}

/// Relies on `char::from_u32`: it yields the char of a Unicode scalar value
/// and `None` for surrogates and values past `0x10FFFF`.
#[verifier::external_body]
pub(crate) fn char_from_u32(v: u32) -> (r: Option<char>)
    ensures
        r is Some <==> (v < 0xD800 || (0xDFFF < v && v <= 0x10FFFF)),
        r matches Some(c) ==> c as u32 == v,
{
    char::from_u32(v)
}

} // verus!
