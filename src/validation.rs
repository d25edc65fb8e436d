//! Checks that a translation keeps the placeholders and alias tags of its source.

use vstd::prelude::*;
use vstd::utf8::encode_utf8;

verus! {

#[derive(Debug, Clone, Copy, PartialEq, Eq, Structural)]
pub enum Severity {
    Info,
    Warn,
    Error,
}

#[derive(Debug, Clone, PartialEq, Eq)]
pub struct ValidationIssue {
    pub entry_key: String,
    pub severity: Severity,
    pub rule_id: String,
    pub message: String,
}

impl ValidationIssue {
    fn placeholder_mismatch(entry_key: &str) -> (r: Self)
        ensures
            r.entry_key@ == entry_key@,
            r.severity == Severity::Error,
            r.rule_id@ == "placeholder.braced.mismatch"@,
    {
        ValidationIssue {
            entry_key: entry_key.to_owned(),
            severity: Severity::Error,
            rule_id: "placeholder.braced.mismatch".to_owned(),
            message: "Braced placeholders do not match between source and target.".to_owned(),
        }
    }

    fn printf_placeholder_mismatch(entry_key: &str) -> (r: Self)
        ensures
            r.entry_key@ == entry_key@,
            r.severity == Severity::Error,
            r.rule_id@ == "placeholder.printf.mismatch"@,
    {
        ValidationIssue {
            entry_key: entry_key.to_owned(),
            severity: Severity::Error,
            rule_id: "placeholder.printf.mismatch".to_owned(),
            message: "Printf-style placeholders do not match between source and target.".to_owned(),
        }
    }

    fn alias_tag_mismatch(entry_key: &str) -> (r: Self)
        ensures
            r.entry_key@ == entry_key@,
            r.severity == Severity::Error,
            r.rule_id@ == "alias.tag.mismatch"@,
    {
        ValidationIssue {
            entry_key: entry_key.to_owned(),
            severity: Severity::Error,
            rule_id: "alias.tag.mismatch".to_owned(),
            message: "Alias tags do not match between source and target.".to_owned(),
        }
    }
}

pub type Tokens = Seq<Seq<u8>>;

/// How often `v` occurs among the first `n` tokens.
pub open spec fn occ(s: Tokens, v: Seq<u8>, n: int) -> nat
    decreases n,
{
    if n <= 0 {
        0
    } else {
        occ(s, v, n - 1) + if s[n - 1] == v {
            1nat
        } else {
            0nat
        }
    }
}

/// The same tokens, each as often, in any order.
pub open spec fn same_tokens(a: Tokens, b: Tokens) -> bool {
    forall|v: Seq<u8>| occ(a, v, a.len() as int) == occ(b, v, b.len() as int)
}

pub open spec fn is_digit(c: u8) -> bool {
    0x30 <= c <= 0x39
}

/// The first index from `k` that is not an ASCII digit.
pub open spec fn digits_end(b: Seq<u8>, k: int) -> int
    decreases b.len() - k,
{
    if k < 0 || k >= b.len() || !is_digit(b[k]) {
        k
    } else {
        digits_end(b, k + 1)
    }
}

/// `{digits}` placeholders from byte `i` on.
pub open spec fn braced_from(b: Seq<u8>, i: int) -> Tokens
    decreases b.len() - i,
{
    if i < 0 || i >= b.len() {
        Seq::empty()
    } else if b[i] == 0x7b {
        let j = digits_end(b, i + 1);
        if j > i + 1 && j < b.len() && b[j] == 0x7d {
            seq![b.subrange(i, j + 1)] + braced_from(b, j + 1)
        } else {
            braced_from(b, i + 1)
        }
    } else {
        braced_from(b, i + 1)
    }
}

/// `%s` and `%d` placeholders from byte `i` on; `%%` is a literal percent.
pub open spec fn printf_from(b: Seq<u8>, i: int) -> Tokens
    decreases b.len() - i,
{
    if i < 0 || i + 1 >= b.len() {
        Seq::empty()
    } else if b[i] == 0x25 && b[i + 1] == 0x25 {
        printf_from(b, i + 2)
    } else if b[i] == 0x25 && (b[i + 1] == 0x73 || b[i + 1] == 0x64) {
        seq![b.subrange(i, i + 2)] + printf_from(b, i + 2)
    } else {
        printf_from(b, i + 1)
    }
}

pub open spec fn alias_open() -> Seq<u8> {
    seq![0x3cu8, 0x41u8, 0x6cu8, 0x69u8, 0x61u8, 0x73u8, 0x3du8]
}

/// The first index from `k` where `<Alias=` starts, or `b.len()`.
pub open spec fn alias_at(b: Seq<u8>, k: int) -> int
    decreases b.len() - k,
{
    if k < 0 || k + 7 > b.len() {
        b.len() as int
    } else if b.subrange(k, k + 7) == alias_open() {
        k
    } else {
        alias_at(b, k + 1)
    }
}

/// The first `>` from `k`, or `b.len()`.
pub open spec fn close_at(b: Seq<u8>, k: int) -> int
    decreases b.len() - k,
{
    if k < 0 || k >= b.len() {
        b.len() as int
    } else if b[k] == 0x3e {
        k
    } else {
        close_at(b, k + 1)
    }
}

/// The names of `<Alias=name>` tags from byte `p` on; an unclosed tag ends the scan.
pub open spec fn alias_from(b: Seq<u8>, p: int) -> Tokens
    decreases b.len() - p,
{
    let s = alias_at(b, p);
    if p < 0 || s + 7 > b.len() || s < p {
        Seq::empty()
    } else {
        let e = close_at(b, s + 7);
        if e >= b.len() || e < s + 7 {
            Seq::empty()
        } else {
            seq![b.subrange(s + 7, e)] + alias_from(b, e + 1)
        }
    }
}

pub open spec fn token_views(v: Seq<Vec<u8>>) -> Tokens {
    v.map_values(|t: Vec<u8>| t@)
}

fn extract_braced_placeholders(text: &str) -> (r: Vec<Vec<u8>>)
    ensures
        token_views(r@) == braced_from(encode_utf8(text@), 0),
{
    let b = text.as_bytes();
    let n = b.len();
    let mut out: Vec<Vec<u8>> = Vec::new();
    let mut i: usize = 0;
    while i < n
        invariant
            n == b@.len(),
            i <= n,
            b@ == encode_utf8(text@),
            token_views(out@) + braced_from(b@, i as int) == braced_from(b@, 0),
        decreases n - i,
    {
        if b[i] == 0x7b {
            let mut j = i + 1;
            while j < n && 0x30 <= b[j] && b[j] <= 0x39
                invariant
                    n == b@.len(),
                    i < j <= n,
                    digits_end(b@, i + 1) == digits_end(b@, j as int),
                decreases n - j,
            {
                j = j + 1;
            }
            if j > i + 1 && j < n && b[j] == 0x7d {
                let ghost before = token_views(out@);
                let tok = vstd::slice::slice_to_vec(vstd::slice::slice_subrange(b, i, j + 1));
                out.push(tok);
                proof {
                    assert(token_views(out@) =~= before.push(b@.subrange(i as int, j + 1)));
                    assert(before.push(b@.subrange(i as int, j + 1)) + braced_from(b@, j + 1) =~= before
                        + (seq![b@.subrange(i as int, j + 1)] + braced_from(b@, j + 1)));
                }
                i = j + 1;
                continue;
            }
        }
        i = i + 1;
    }
    proof {
        assert(token_views(out@) + Seq::<Seq<u8>>::empty() =~= token_views(out@));
    }
    out
}

fn extract_printf_placeholders(text: &str) -> (r: Vec<Vec<u8>>)
    ensures
        token_views(r@) == printf_from(encode_utf8(text@), 0),
{
    let b = text.as_bytes();
    let n = b.len();
    let mut out: Vec<Vec<u8>> = Vec::new();
    let mut i: usize = 0;
    while n > 0 && i < n - 1
        invariant
            n == b@.len(),
            b@ == encode_utf8(text@),
            token_views(out@) + printf_from(b@, i as int) == printf_from(b@, 0),
        decreases n - i,
    {
        if b[i] == 0x25 {
            let next = b[i + 1];
            if next == 0x25 {
                i = i + 2;
                continue;
            }
            if next == 0x73 || next == 0x64 {
                let ghost before = token_views(out@);
                let tok = vstd::slice::slice_to_vec(vstd::slice::slice_subrange(b, i, i + 2));
                out.push(tok);
                proof {
                    assert(token_views(out@) =~= before.push(b@.subrange(i as int, i + 2)));
                    assert(before.push(b@.subrange(i as int, i + 2)) + printf_from(b@, i + 2) =~= before
                        + (seq![b@.subrange(i as int, i + 2)] + printf_from(b@, i + 2)));
                }
                i = i + 2;
                continue;
            }
        }
        i = i + 1;
    }
    proof {
        assert(token_views(out@) + Seq::<Seq<u8>>::empty() =~= token_views(out@));
    }
    out
}

fn find_alias_open(b: &[u8], from: usize) -> (r: usize)
    requires
        from <= b@.len(),
    ensures
        r == alias_at(b@, from as int),
{
    let n = b.len();
    let mut k = from;
    while n >= 7 && k <= n - 7
        invariant
            n == b@.len(),
            from <= k,
            alias_at(b@, from as int) == alias_at(b@, k as int),
        decreases n - k,
    {
        if b[k] == 0x3c && b[k + 1] == 0x41 && b[k + 2] == 0x6c && b[k + 3] == 0x69 && b[k + 4] == 0x61
            && b[k + 5] == 0x73 && b[k + 6] == 0x3d {
            proof {
                assert(b@.subrange(k as int, k + 7) =~= alias_open());
            }
            return k;
        }
        proof {
            if b@.subrange(k as int, k + 7) == alias_open() {
                assert(b@.subrange(k as int, k + 7)[0] == alias_open()[0]);
                assert(b@.subrange(k as int, k + 7)[1] == alias_open()[1]);
                assert(b@.subrange(k as int, k + 7)[2] == alias_open()[2]);
                assert(b@.subrange(k as int, k + 7)[3] == alias_open()[3]);
                assert(b@.subrange(k as int, k + 7)[4] == alias_open()[4]);
                assert(b@.subrange(k as int, k + 7)[5] == alias_open()[5]);
                assert(b@.subrange(k as int, k + 7)[6] == alias_open()[6]);
            }
        }
        k = k + 1;
    }
    n
}

fn find_close(b: &[u8], from: usize) -> (r: usize)
    requires
        from <= b@.len(),
    ensures
        r == close_at(b@, from as int),
{
    let n = b.len();
    let mut k = from;
    while k < n && b[k] != 0x3e
        invariant
            n == b@.len(),
            from <= k <= n,
            close_at(b@, from as int) == close_at(b@, k as int),
        decreases n - k,
    {
        k = k + 1;
    }
    k
}

proof fn lemma_alias_at_range(b: Seq<u8>, k: int)
    requires
        0 <= k,
    ensures
        k <= alias_at(b, k) || alias_at(b, k) == b.len(),
        alias_at(b, k) <= b.len(),
    decreases b.len() - k,
{
    if k + 7 <= b.len() && b.subrange(k, k + 7) != alias_open() {
        lemma_alias_at_range(b, k + 1);
    }
}

proof fn lemma_close_at_range(b: Seq<u8>, k: int)
    requires
        0 <= k,
    ensures
        k <= close_at(b, k) <= b.len() || close_at(b, k) == b.len(),
    decreases b.len() - k,
{
    if k < b.len() && b[k] != 0x3e {
        lemma_close_at_range(b, k + 1);
    }
}

fn extract_alias_tags(text: &str) -> (r: Vec<Vec<u8>>)
    ensures
        token_views(r@) == alias_from(encode_utf8(text@), 0),
{
    let b = text.as_bytes();
    let n = b.len();
    let mut out: Vec<Vec<u8>> = Vec::new();
    let mut p: usize = 0;
    loop
        invariant
            n == b@.len(),
            p <= n,
            b@ == encode_utf8(text@),
            token_views(out@) + alias_from(b@, p as int) == alias_from(b@, 0),
        decreases n - p,
    {
        let s = find_alias_open(b, p);
        proof {
            lemma_alias_at_range(b@, p as int);
        }
        if s > n || n - s < 7 || s < p {
            proof {
                assert(token_views(out@) + Seq::<Seq<u8>>::empty() =~= token_views(out@));
            }
            return out;
        }
        let e = find_close(b, s + 7);
        proof {
            lemma_close_at_range(b@, s + 7);
        }
        if e >= n || e < s + 7 {
            proof {
                assert(token_views(out@) + Seq::<Seq<u8>>::empty() =~= token_views(out@));
            }
            return out;
        }
        let ghost before = token_views(out@);
        let tok = vstd::slice::slice_to_vec(vstd::slice::slice_subrange(b, s + 7, e));
        out.push(tok);
        proof {
            assert(token_views(out@) =~= before.push(b@.subrange(s + 7, e as int)));
            assert(before.push(b@.subrange(s + 7, e as int)) + alias_from(b@, e + 1) =~= before + (seq![
                b@.subrange(s + 7, e as int),
            ] + alias_from(b@, e + 1)));
        }
        p = e + 1;
    }
}

fn bytes_equal(a: &Vec<u8>, b: &Vec<u8>) -> (r: bool)
    ensures
        r == (a@ == b@),
{
    if a.len() != b.len() {
        return false;
    }
    let n = a.len();
    for i in 0..n
        invariant
            n == a@.len(),
            n == b@.len(),
            forall|k: int| 0 <= k < i ==> a@[k] == b@[k],
    {
        if a[i] != b[i] {
            return false;
        }
    }
    assert(a@ =~= b@);
    true
}

fn count_of(s: &Vec<Vec<u8>>, v: &Vec<u8>) -> (r: usize)
    ensures
        r == occ(token_views(s@), v@, s@.len() as int),
{
    let n = s.len();
    let mut c: usize = 0;
    for i in 0..n
        invariant
            n == s@.len(),
            c == occ(token_views(s@), v@, i as int),
            c <= i,
    {
        if bytes_equal(&s[i], v) {
            c = c + 1;
        }
    }
    c
}

proof fn lemma_occ_absent(s: Tokens, v: Seq<u8>, n: int)
    requires
        0 <= n <= s.len(),
        forall|i: int| 0 <= i < n ==> s[i] != v,
    ensures
        occ(s, v, n) == 0,
    decreases n,
{
    if n > 0 {
        lemma_occ_absent(s, v, n - 1);
    }
}

/// Whether two token lists hold the same tokens, each as often.
fn same_token_counts(a: &Vec<Vec<u8>>, b: &Vec<Vec<u8>>) -> (r: bool)
    ensures
        r == same_tokens(token_views(a@), token_views(b@)),
{
    let ghost ta = token_views(a@);
    let ghost tb = token_views(b@);
    let na = a.len();
    let nb = b.len();
    for i in 0..na
        invariant
            na == a@.len(),
            ta == token_views(a@),
            tb == token_views(b@),
            forall|k: int| 0 <= k < i ==> occ(ta, #[trigger] ta[k], ta.len() as int) == occ(tb, ta[k], tb.len() as int),
    {
        if count_of(a, &a[i]) != count_of(b, &a[i]) {
            proof {
                assert(ta[i as int] == a@[i as int]@);
                let v = ta[i as int];
                assert(occ(ta, v, ta.len() as int) != occ(tb, v, tb.len() as int));
                assert(!same_tokens(ta, tb));
            }
            return false;
        }
        proof {
            assert(ta[i as int] == a@[i as int]@);
        }
    }
    for i in 0..nb
        invariant
            nb == b@.len(),
            na == a@.len(),
            ta == token_views(a@),
            tb == token_views(b@),
            forall|k: int| 0 <= k < na ==> occ(ta, #[trigger] ta[k], ta.len() as int) == occ(tb, ta[k], tb.len() as int),
            forall|k: int| 0 <= k < i ==> occ(ta, #[trigger] tb[k], ta.len() as int) == occ(tb, tb[k], tb.len() as int),
    {
        if count_of(a, &b[i]) != count_of(b, &b[i]) {
            proof {
                assert(tb[i as int] == b@[i as int]@);
                let v = tb[i as int];
                assert(occ(ta, v, ta.len() as int) != occ(tb, v, tb.len() as int));
                assert(!same_tokens(ta, tb));
            }
            return false;
        }
        proof {
            assert(tb[i as int] == b@[i as int]@);
        }
    }
    proof {
        assert forall|v: Seq<u8>| occ(ta, v, ta.len() as int) == occ(tb, v, tb.len() as int) by {
            if exists|k: int| 0 <= k < ta.len() && ta[k] == v {
                let k = choose|k: int| 0 <= k < ta.len() && ta[k] == v;
                assert(occ(ta, ta[k], ta.len() as int) == occ(tb, ta[k], tb.len() as int));
            } else if exists|k: int| 0 <= k < tb.len() && tb[k] == v {
                let k = choose|k: int| 0 <= k < tb.len() && tb[k] == v;
                assert(occ(ta, tb[k], ta.len() as int) == occ(tb, tb[k], tb.len() as int));
            } else {
                lemma_occ_absent(ta, v, ta.len() as int);
                lemma_occ_absent(tb, v, tb.len() as int);
            }
        }
    }
    true
}

/// One issue when source and target differ in their `{n}` placeholders (as a
/// multiset), none otherwise.
pub fn validate_braced_placeholders(entry_key: &str, source_text: &str, target_text: &str) -> (r: Vec<
    ValidationIssue,
>)
    ensures
        same_tokens(braced_from(encode_utf8(source_text@), 0), braced_from(encode_utf8(target_text@), 0))
            ==> r@.len() == 0,
        !same_tokens(braced_from(encode_utf8(source_text@), 0), braced_from(encode_utf8(target_text@), 0))
            ==> r@.len() == 1 && r@[0].entry_key@ == entry_key@ && r@[0].severity == Severity::Error
            && r@[0].rule_id@ == "placeholder.braced.mismatch"@,
{
    let source = extract_braced_placeholders(source_text);
    let target = extract_braced_placeholders(target_text);
    if same_token_counts(&source, &target) {
        Vec::new()
    } else {
        let mut v = Vec::new();
        v.push(ValidationIssue::placeholder_mismatch(entry_key));
        v
    }
}

/// One issue when source and target differ in their `%s`/`%d` placeholders
/// (as a multiset), none otherwise.
pub fn validate_printf_placeholders(entry_key: &str, source_text: &str, target_text: &str) -> (r: Vec<
    ValidationIssue,
>)
    ensures
        same_tokens(printf_from(encode_utf8(source_text@), 0), printf_from(encode_utf8(target_text@), 0))
            ==> r@.len() == 0,
        !same_tokens(printf_from(encode_utf8(source_text@), 0), printf_from(encode_utf8(target_text@), 0))
            ==> r@.len() == 1 && r@[0].entry_key@ == entry_key@ && r@[0].severity == Severity::Error
            && r@[0].rule_id@ == "placeholder.printf.mismatch"@,
{
    let source = extract_printf_placeholders(source_text);
    let target = extract_printf_placeholders(target_text);
    if same_token_counts(&source, &target) {
        Vec::new()
    } else {
        let mut v = Vec::new();
        v.push(ValidationIssue::printf_placeholder_mismatch(entry_key));
        v
    }
}

/// One issue when source and target differ in their `<Alias=...>` tags (as a
/// multiset), none otherwise.
pub fn validate_alias_tags(entry_key: &str, source_text: &str, target_text: &str) -> (r: Vec<
    ValidationIssue,
>)
    ensures
        same_tokens(alias_from(encode_utf8(source_text@), 0), alias_from(encode_utf8(target_text@), 0))
            ==> r@.len() == 0,
        !same_tokens(alias_from(encode_utf8(source_text@), 0), alias_from(encode_utf8(target_text@), 0))
            ==> r@.len() == 1 && r@[0].entry_key@ == entry_key@ && r@[0].severity == Severity::Error
            && r@[0].rule_id@ == "alias.tag.mismatch"@,
{
    let source = extract_alias_tags(source_text);
    let target = extract_alias_tags(target_text);
    if same_token_counts(&source, &target) {
        Vec::new()
    } else {
        let mut v = Vec::new();
        v.push(ValidationIssue::alias_tag_mismatch(entry_key));
        v
    }
}

} // verus!
