//! A fallback over raw plugin bytes: null-terminated text runs, and
//! same-place byte replacements.

use vstd::prelude::*;
use vstd::utf8::{valid_utf8, decode_utf8, encode_utf8};
use crate::extract::{looks_like_text, looks_like_text_spec};
use crate::strings::nul_from;
use crate::text::utf8_to_string;

verus! {

/// A text run found in the bytes: where it starts, how many bytes it spans.
#[derive(Debug, Clone, PartialEq, Eq)]
pub struct ExtractedText {
    pub offset: usize,
    pub length: usize,
    pub text: String,
}

#[derive(Debug, Clone, Copy, PartialEq, Eq, Structural)]
pub enum PluginBinaryError {
    InvalidUtf8,
    LengthMismatch,
}

pub type RunV = (int, int, Seq<char>);

pub open spec fn run_views(s: Seq<ExtractedText>) -> Seq<RunV> {
    s.map_values(|e: ExtractedText| (e.offset as int, e.length as int, e.text@))
}

/// The text runs from `start` on: each run ends at a null byte; a run counts
/// when it has at least `min_len` bytes of UTF-8 that looks like text. Bytes
/// after the last null are no run.
pub open spec fn runs_from(b: Seq<u8>, start: int, min_len: int) -> Seq<RunV>
    decreases b.len() - start,
{
    if start < 0 || start >= b.len() {
        Seq::empty()
    } else {
        let end = nul_from(b, start, b.len() as int);
        if end >= b.len() || end < start {
            Seq::empty()
        } else {
            let slice = b.subrange(start, end);
            let rest = runs_from(b, end + 1, min_len);
            if slice.len() >= min_len && valid_utf8(slice) && looks_like_text_spec(decode_utf8(slice)) {
                seq![(start, end - start, decode_utf8(slice))] + rest
            } else {
                rest
            }
        }
    }
}

proof fn lemma_nul_from_range(b: Seq<u8>, i: int, end: int)
    requires
        0 <= i <= end,
    ensures
        i <= nul_from(b, i, end) <= end,
    decreases end - i,
{
    if i < end {
        lemma_nul_from_range(b, i + 1, end);
    }
}

/// Every null-terminated run of at least `min_len` bytes that reads as text.
pub fn extract_null_terminated_utf8(bytes: &[u8], min_len: usize) -> (r: Vec<ExtractedText>)
    ensures
        run_views(r@) == runs_from(bytes@, 0, min_len as int),
{
    let mut results: Vec<ExtractedText> = Vec::new();
    let mut start: usize = 0;
    let n = bytes.len();
    while start < n
        invariant
            n == bytes@.len(),
            start <= n,
            run_views(results@) + runs_from(bytes@, start as int, min_len as int) == runs_from(
                bytes@,
                0,
                min_len as int,
            ),
        decreases n - start,
    {
        let mut end = start;
        while end < n && bytes[end] != 0
            invariant
                n == bytes@.len(),
                start <= end <= n,
                nul_from(bytes@, start as int, n as int) == nul_from(bytes@, end as int, n as int),
            decreases n - end,
        {
            end = end + 1;
        }
        if end >= n {
            proof {
                assert(run_views(results@) + Seq::<RunV>::empty() =~= run_views(results@));
            }
            return results;
        }
        proof {
            lemma_nul_from_range(bytes@, start as int, n as int);
        }
        let slice = vstd::slice::slice_subrange(bytes, start, end);
        let ghost before = run_views(results@);
        if end - start >= min_len {
            match utf8_to_string(slice) {
                Some(text) => {
                    if looks_like_text(text.as_str()) {
                        results.push(ExtractedText { offset: start, length: end - start, text });
                        proof {
                            let x = (start as int, (end - start) as int, decode_utf8(slice@));
                            assert(run_views(results@) =~= before.push(x));
                            assert(before.push(x) + runs_from(bytes@, end + 1, min_len as int)
                                =~= before + (seq![x] + runs_from(bytes@, end + 1, min_len as int)));
                        }
                    }
                },
                None => {},
            }
        }
        start = end + 1;
    }
    proof {
        assert(run_views(results@) + Seq::<RunV>::empty() =~= run_views(results@));
    }
    results
}

/// `b` with `t` written over it from `off`.
pub open spec fn overwrite(b: Seq<u8>, off: int, t: Seq<u8>) -> Seq<u8> {
    b.subrange(0, off) + t + b.subrange(off + t.len(), b.len() as int)
}

/// The bytes after the first `k` replacements, when each fitted.
pub open spec fn replaced(b: Seq<u8>, reps: Seq<(usize, &str)>, k: int) -> Seq<u8>
    decreases k,
{
    if k <= 0 {
        b
    } else {
        overwrite(replaced(b, reps, k - 1), reps[k - 1].0 as int, encode_utf8(reps[k - 1].1@))
    }
}

pub open spec fn fits_at(b: Seq<u8>, off: int, t: Seq<u8>) -> bool {
    off + t.len() <= b.len()
}

/// Writes each replacement's text over the bytes at its offset, in order; the
/// first one that would run past the end stops the work with `LengthMismatch`,
/// the ones before it applied.
pub fn apply_inplace_replacements(bytes: &mut Vec<u8>, replacements: &[(usize, &str)]) -> (r: Result<
    (),
    PluginBinaryError,
>)
    ensures
        final(bytes)@.len() == old(bytes)@.len(),
        r is Ok ==> final(bytes)@ == replaced(old(bytes)@, replacements@, replacements@.len() as int)
            && forall|k: int|
            0 <= k < replacements@.len() ==> fits_at(
                replaced(old(bytes)@, replacements@, k),
                replacements@[k].0 as int,
                encode_utf8(replacements@[k].1@),
            ),
        r matches Err(e) ==> e == PluginBinaryError::LengthMismatch && exists|k: int|
            0 <= k < replacements@.len() && final(bytes)@ == replaced(old(bytes)@, replacements@, k)
                && !fits_at(
                final(bytes)@,
                replacements@[k].0 as int,
                encode_utf8(replacements@[k].1@),
            ),
{
    let ghost orig = bytes@;
    let n = replacements.len();
    for k in 0..n
        invariant
            n == replacements@.len(),
            orig == old(bytes)@,
            bytes@.len() == orig.len(),
            bytes@ == replaced(orig, replacements@, k as int),
            forall|k2: int|
                0 <= k2 < k ==> fits_at(
                    replaced(orig, replacements@, k2),
                    replacements@[k2].0 as int,
                    encode_utf8(replacements@[k2].1@),
                ),
    {
        let (offset, text) = replacements[k];
        let nb = text.as_bytes();
        if offset > bytes.len() || nb.len() > bytes.len() - offset {
            return Err(PluginBinaryError::LengthMismatch);
        }
        let ghost pre = bytes@;
        let m = nb.len();
        let blen = bytes.len();
        for j in 0..m
            invariant
                m == nb@.len(),
                blen == bytes@.len(),
                offset + m <= pre.len(),
                bytes@.len() == pre.len(),
                forall|x: int| 0 <= x < offset ==> bytes@[x] == pre[x],
                forall|x: int| offset + j <= x < pre.len() ==> bytes@[x] == pre[x],
                forall|x: int| 0 <= x < j ==> bytes@[offset + x] == nb@[x],
        {
            bytes[offset + j] = nb[j];
        }
        proof {
            assert(bytes@ =~= overwrite(pre, offset as int, nb@));
        }
    }
    Ok(())
}

} // verus!
