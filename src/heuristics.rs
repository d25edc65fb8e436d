//! Ranking suggestion candidates against a query text.

use vstd::prelude::*;
use vstd::utf8::encode_utf8;
use crate::text::{contains_text, occurs_in};
use crate::search::string_views;

verus! {

/// 2 for the query itself, 1 when one text holds the other, 0 otherwise.
pub open spec fn tier(q: Seq<char>, c: Seq<char>) -> int {
    if c == q {
        2
    } else if occurs_in(encode_utf8(c), encode_utf8(q)) || occurs_in(encode_utf8(q), encode_utf8(c)) {
        1
    } else {
        0
    }
}

/// How often byte `b` occurs in `s`, counted up to `u16::MAX`.
pub open spec fn byte_count(s: Seq<u8>, b: u8, n: int) -> u16
    decreases n,
{
    if n <= 0 {
        0
    } else {
        let prev = byte_count(s, b, n - 1);
        if s[n - 1] == b {
            prev.saturating_add(1)
        } else {
            prev
        }
    }
}

pub open spec fn min16(a: u16, b: u16) -> int {
    if a < b {
        a as int
    } else {
        b as int
    }
}

/// The bytes two texts share, counting each byte value as often as both hold it.
pub open spec fn overlap(q: Seq<u8>, c: Seq<u8>, k: int) -> int
    decreases k,
{
    if k <= 0 {
        0
    } else {
        overlap(q, c, k - 1) + min16(byte_count(q, (k - 1) as u8, q.len() as int), byte_count(c, (k - 1) as u8, c.len() as int))
    }
}

/// The score a candidate is ranked by within its tier.
pub open spec fn score(q: Seq<char>, c: Seq<char>) -> int {
    if tier(q, c) == 0 {
        overlap(encode_utf8(q), encode_utf8(c), 256)
    } else {
        0
    }
}

/// Candidate `i` ranks before candidate `j`: higher tier, then higher score,
/// then earlier position.
pub open spec fn ranks_before(q: Seq<char>, cs: Seq<Seq<char>>, i: int, j: int) -> bool {
    let ti = tier(q, cs[i]);
    let tj = tier(q, cs[j]);
    let si = score(q, cs[i]);
    let sj = score(q, cs[j]);
    ti > tj || (ti == tj && (si > sj || (si == sj && i < j)))
}

fn byte_counts(s: &[u8]) -> (r: Vec<u16>)
    ensures
        r@.len() == 256,
        forall|b: int| 0 <= b < 256 ==> #[trigger] r@[b] == byte_count(s@, b as u8, s@.len() as int),
{
    let mut counts: Vec<u16> = Vec::new();
    for b in 0..256usize
        invariant
            counts@.len() == b,
            forall|k: int| 0 <= k < b ==> counts@[k] == 0,
    {
        counts.push(0);
    }
    let n = s.len();
    for i in 0..n
        invariant
            n == s@.len(),
            counts@.len() == 256,
            forall|b: int| 0 <= b < 256 ==> #[trigger] counts@[b] == byte_count(s@, b as u8, i as int),
    {
        let b = s[i] as usize;
        let v = counts[b].saturating_add(1);
        counts[b] = v;
        proof {
            assert forall|k: int| 0 <= k < 256 implies #[trigger] counts@[k] == byte_count(s@, k as u8, i + 1) by {
                if k == b {
                    assert((k as u8) == s@[i as int]);
                } else {
                    assert((k as u8) != s@[i as int]);
                }
            }
        }
    }
    counts
}

fn similarity_score(query: &str, candidate: &str) -> (r: usize)
    ensures
        r == overlap(encode_utf8(query@), encode_utf8(candidate@), 256),
{
    let q = byte_counts(query.as_bytes());
    let c = byte_counts(candidate.as_bytes());
    let mut total: usize = 0;
    for k in 0..256usize
        invariant
            q@.len() == 256,
            c@.len() == 256,
            forall|b: int| 0 <= b < 256 ==> #[trigger] q@[b] == byte_count(encode_utf8(query@), b as u8, encode_utf8(query@).len() as int),
            forall|b: int| 0 <= b < 256 ==> #[trigger] c@[b] == byte_count(encode_utf8(candidate@), b as u8, encode_utf8(candidate@).len() as int),
            total == overlap(encode_utf8(query@), encode_utf8(candidate@), k as int),
            total <= k * 65535,
    {
        let a = q[k];
        let b = c[k];
        let m = if a < b { a } else { b };
        total = total + m as usize;
    }
    total
}

fn tier_of(query: &String, candidate: &String) -> (r: u8)
    ensures
        r as int == tier(query@, candidate@),
{
    if *candidate == *query {
        2
    } else if contains_text(candidate.as_str(), query.as_str()) || contains_text(query.as_str(), candidate.as_str()) {
        1
    } else {
        0
    }
}

/// The candidates from best to worst match: the query itself first, then
/// texts that hold it or that it holds, then the rest by shared bytes; ties
/// keep their order.
pub fn rank_candidates(query: &str, candidates: &[String]) -> (r: Vec<String>)
    ensures
        r@.len() == candidates@.len(),
        exists|p: Seq<int>|
            #![trigger p.len()]
            p.len() == candidates@.len() && (forall|j: int| 0 <= j < p.len() ==> 0 <= #[trigger] p[j] < p.len())
                && (forall|a: int, b: int| 0 <= a < b < p.len() ==> p[a] != p[b])
                && (forall|j: int| 0 <= j < p.len() ==> (#[trigger] r@[j])@ == candidates@[p[j]]@)
                && (forall|a: int, b: int|
                0 <= a < b < p.len() ==> ranks_before(query@, string_views(candidates@), p[a], p[b])),
{
    let ghost cs = string_views(candidates@);
    let q = query.to_owned();
    let n = candidates.len();
    let mut tiers: Vec<u8> = Vec::new();
    let mut scores: Vec<usize> = Vec::new();
    for i in 0..n
        invariant
            n == candidates@.len(),
            cs == string_views(candidates@),
            q@ == query@,
            tiers@.len() == i,
            scores@.len() == i,
            forall|k: int| 0 <= k < i ==> #[trigger] tiers@[k] as int == tier(query@, cs[k]),
            forall|k: int| 0 <= k < i ==> #[trigger] scores@[k] as int == score(query@, cs[k]),
    {
        let t = tier_of(&q, &candidates[i]);
        let s = if t == 0 { similarity_score(query, candidates[i].as_str()) } else { 0 };
        tiers.push(t);
        scores.push(s);
    }
    let mut used: Vec<bool> = Vec::new();
    for i in 0..n
        invariant
            used@.len() == i,
            forall|k: int| 0 <= k < i ==> !#[trigger] used@[k],
    {
        used.push(false);
    }
    let mut out: Vec<String> = Vec::new();
    let ghost mut p: Seq<int> = Seq::empty();
    for round in 0..n
        invariant
            n == candidates@.len(),
            cs == string_views(candidates@),
            tiers@.len() == n,
            scores@.len() == n,
            used@.len() == n,
            forall|k: int| 0 <= k < n ==> #[trigger] tiers@[k] as int == tier(query@, cs[k]),
            forall|k: int| 0 <= k < n ==> #[trigger] scores@[k] as int == score(query@, cs[k]),
            p.len() == round,
            out@.len() == round,
            forall|j: int| 0 <= j < p.len() ==> 0 <= #[trigger] p[j] < n,
            forall|a: int, b: int| 0 <= a < b < p.len() ==> p[a] != p[b],
            forall|j: int| 0 <= j < p.len() ==> (#[trigger] out@[j])@ == candidates@[p[j]]@,
            forall|k: int| 0 <= k < n ==> (#[trigger] used@[k] <==> exists|j: int| 0 <= j < p.len() && p[j] == k),
            forall|a: int, b: int| 0 <= a < b < p.len() ==> ranks_before(query@, cs, p[a], p[b]),
            forall|j: int, k: int| 0 <= j < p.len() && 0 <= k < n && !used@[k] ==> ranks_before(query@, cs, p[j], k),
    {
        proof {
            assert(exists|k: int| 0 <= k < n && !used@[k]) by {
                if forall|k: int| 0 <= k < n ==> used@[k] {
                    lemma_pigeon(p, n as int);
                    let k = choose|k: int| 0 <= k < n && !#[trigger] p.contains(k);
                    assert(used@[k]);
                    let j = choose|j: int| 0 <= j < p.len() && p[j] == k;
                    assert(p.contains(k));
                }
            }
        }
        let mut best: usize = n;
        for k in 0..n
            invariant
                n == candidates@.len(),
                cs == string_views(candidates@),
                tiers@.len() == n,
                scores@.len() == n,
                used@.len() == n,
                forall|x: int| 0 <= x < n ==> #[trigger] tiers@[x] as int == tier(query@, cs[x]),
                forall|x: int| 0 <= x < n ==> #[trigger] scores@[x] as int == score(query@, cs[x]),
                best == n || (best < k && !used@[best as int]),
                best == n ==> forall|x: int| 0 <= x < k ==> used@[x],
                best < n ==> forall|x: int| 0 <= x < k && !used@[x] && x != best ==> ranks_before(query@, cs, best as int, x),
        {
            if !used[k] {
                if best == n {
                    best = k;
                } else {
                    let better = tiers[k] > tiers[best] || (tiers[k] == tiers[best] && scores[k] > scores[best]);
                    if better {
                        proof {
                            assert forall|x: int| 0 <= x < k + 1 && !used@[x] && x != k implies ranks_before(query@, cs, k as int, x) by {
                                if x != best {
                                    assert(ranks_before(query@, cs, best as int, x));
                                }
                            }
                        }
                        best = k;
                    }
                }
            }
        }
        proof {
            if best == n {
                let k = choose|k: int| 0 <= k < n && !used@[k];
                assert(used@[k]);
            }
        }
        let ghost pre_used = used@;
        used.set(best, true);
        out.push(candidates[best].clone());
        proof {
            let old_p = p;
            p = p.push(best as int);
            assert forall|k: int| 0 <= k < n implies (#[trigger] used@[k] <==> exists|j: int| 0 <= j < p.len() && p[j] == k) by {
                if k == best {
                    assert(p[p.len() - 1] == k);
                } else {
                    if used@[k] {
                        assert(pre_used[k]);
                        let j = choose|j: int| 0 <= j < old_p.len() && old_p[j] == k;
                        assert(p[j] == k);
                    }
                    if exists|j: int| 0 <= j < p.len() && p[j] == k {
                        let j = choose|j: int| 0 <= j < p.len() && p[j] == k;
                        assert(j < old_p.len());
                        assert(old_p[j] == k);
                    }
                }
            }
            assert forall|a: int, b: int| 0 <= a < b < p.len() implies p[a] != p[b] by {
                if b == p.len() - 1 {
                    assert(pre_used[p[a]]) by {
                        assert(old_p[a] == p[a]);
                    }
                }
            }
            assert forall|a: int, b: int| 0 <= a < b < p.len() implies ranks_before(query@, cs, p[a], p[b]) by {
                if b == p.len() - 1 {
                    assert(old_p[a] == p[a]);
                }
            }
            assert forall|j: int, k: int| 0 <= j < p.len() && 0 <= k < n && !used@[k] implies ranks_before(query@, cs, p[j], k) by {
                if j < old_p.len() {
                    assert(old_p[j] == p[j]);
                }
            }
            assert forall|j: int| 0 <= j < p.len() implies (#[trigger] out@[j])@ == candidates@[p[j]]@ by {
                if j < old_p.len() {
                    assert(old_p[j] == p[j]);
                }
            }
        }
    }
    out
}

pub(crate) proof fn lemma_pigeon(p: Seq<int>, n: int)
    requires
        p.len() < n,
        forall|j: int| 0 <= j < p.len() ==> 0 <= #[trigger] p[j] < n,
    ensures
        exists|k: int| 0 <= k < n && !#[trigger] p.contains(k),
{
    let s = p.to_set();
    vstd::set_lib::lemma_int_range(0, n);
    assert(s.subset_of(vstd::set_lib::set_int_range(0, n)));
    p.lemma_cardinality_of_set();
    vstd::set_lib::lemma_len_subset(s, vstd::set_lib::set_int_range(0, n));
    if forall|k: int| 0 <= k < n ==> #[trigger] p.contains(k) {
        assert(vstd::set_lib::set_int_range(0, n).subset_of(s)) by {
            assert forall|k: int| vstd::set_lib::set_int_range(0, n).contains(k) implies s.contains(k) by {
                assert(p.contains(k));
            }
        }
        vstd::set_lib::lemma_len_subset(vstd::set_lib::set_int_range(0, n), s);
    }
}

} // verus!
