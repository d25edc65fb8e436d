//! Source-change tracking: a translation whose source text changed needs review.

use vstd::prelude::*;
use vstd::utf8::encode_utf8;

verus! {

pub const FNV_OFFSET: u64 = 0xcbf29ce484222325;
pub const FNV_PRIME: u64 = 0x100000001b3;

#[derive(Debug, Clone, Copy, PartialEq, Eq, Structural)]
pub enum EntryStatus {
    Untranslated,
    Draft,
    Reviewed,
    NeedsReview,
    Error,
}

#[derive(Debug, Clone, PartialEq, Eq)]
pub struct DiffEntry {
    pub key: String,
    pub source_text: String,
    pub target_text: String,
    pub status: EntryStatus,
    pub source_hash: u64,
}

/// 64-bit FNV-1a over bytes.
pub open spec fn fnv1a(b: Seq<u8>) -> u64
    decreases b.len(),
{
    if b.len() == 0 {
        FNV_OFFSET
    } else {
        (fnv1a(b.drop_last()) ^ (b.last() as u64)).wrapping_mul(FNV_PRIME)
    }
}

/// The 64-bit FNV-1a hash of the text's UTF-8 bytes.
pub fn hash_source(text: &str) -> (r: u64)
    ensures
        r == fnv1a(encode_utf8(text@)),
{
    let bytes = text.as_bytes();
    let mut hash: u64 = FNV_OFFSET;
    let n = bytes.len();
    for i in 0..n
        invariant
            n == bytes@.len(),
            bytes@ == encode_utf8(text@),
            hash == fnv1a(bytes@.take(i as int)),
    {
        proof {
            assert(bytes@.take(i + 1).drop_last() =~= bytes@.take(i as int));
        }
        hash = (hash ^ (bytes[i] as u64)).wrapping_mul(FNV_PRIME);
    }
    proof {
        assert(bytes@.take(n as int) =~= bytes@);
    }
    hash
}

impl DiffEntry {
    pub fn new(key: &str, source_text: &str, target_text: &str) -> (r: Self)
        ensures
            r.key@ == key@,
            r.source_text@ == source_text@,
            r.target_text@ == target_text@,
            r.status == EntryStatus::Untranslated,
            r.source_hash == fnv1a(encode_utf8(source_text@)),
    {
        let hash = hash_source(source_text);
        DiffEntry {
            key: key.to_owned(),
            source_text: source_text.to_owned(),
            target_text: target_text.to_owned(),
            status: EntryStatus::Untranslated,
            source_hash: hash,
        }
    }
}

/// Replaces an entry's source text; a change of hash marks it for review.
pub fn update_source(entry: &mut DiffEntry, new_source: &str)
    ensures
        final(entry).key == old(entry).key,
        final(entry).target_text == old(entry).target_text,
        final(entry).source_text@ == new_source@,
        final(entry).source_hash == fnv1a(encode_utf8(new_source@)),
        final(entry).status == if fnv1a(encode_utf8(new_source@)) != old(entry).source_hash {
            EntryStatus::NeedsReview
        } else {
            old(entry).status
        },
{
    let new_hash = hash_source(new_source);
    if new_hash != entry.source_hash {
        entry.status = EntryStatus::NeedsReview;
    }
    entry.source_text = new_source.to_owned();
    entry.source_hash = new_hash;
}

} // verus!
