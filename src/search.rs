//! Filtering entries by a query over their source or target text.

use vstd::prelude::*;
use vstd::utf8::encode_utf8;
use crate::text::{contains_text, occurs_in};

verus! {

#[derive(Debug, Clone, PartialEq, Eq)]
pub struct SearchEntry {
    pub key: String,
    pub source_text: String,
    pub target_text: String,
}

#[derive(Debug, Clone, Copy, PartialEq, Eq, Structural)]
pub enum SearchField {
    Source,
    Target,
    Either,
}

/// The entry's chosen text holds the query.
pub open spec fn search_hit(e: SearchEntry, q: Seq<char>, field: SearchField) -> bool {
    let src = occurs_in(encode_utf8(e.source_text@), encode_utf8(q));
    let tgt = occurs_in(encode_utf8(e.target_text@), encode_utf8(q));
    match field {
        SearchField::Source => src,
        SearchField::Target => tgt,
        SearchField::Either => src || tgt,
    }
}

/// The keys of the hits among the first `n` entries, in entry order.
pub open spec fn search_keys(es: Seq<SearchEntry>, q: Seq<char>, field: SearchField, n: int) -> Seq<Seq<char>>
    decreases n,
{
    if n <= 0 {
        Seq::empty()
    } else if search_hit(es[n - 1], q, field) {
        search_keys(es, q, field, n - 1).push(es[n - 1].key@)
    } else {
        search_keys(es, q, field, n - 1)
    }
}

pub open spec fn string_views(v: Seq<String>) -> Seq<Seq<char>> {
    v.map_values(|s: String| s@)
}

/// The keys of the entries whose chosen text holds `query`; an empty query
/// matches every entry.
pub fn search_entries(entries: &[SearchEntry], query: &str, field: SearchField) -> (r: Vec<String>)
    ensures
        string_views(r@) == search_keys(entries@, query@, field, entries@.len() as int),
{
    let mut out: Vec<String> = Vec::new();
    let n = entries.len();
    for i in 0..n
        invariant
            n == entries@.len(),
            string_views(out@) == search_keys(entries@, query@, field, i as int),
    {
        let e = &entries[i];
        let hit = match field {
            SearchField::Source => contains_text(e.source_text.as_str(), query),
            SearchField::Target => contains_text(e.target_text.as_str(), query),
            SearchField::Either => contains_text(e.source_text.as_str(), query) || contains_text(
                e.target_text.as_str(),
                query,
            ),
        };
        if hit {
            let ghost before = out@;
            out.push(e.key.clone());
            proof {
                assert(string_views(out@) =~= string_views(before).push(e.key@));
            }
        }
    }
    out
}

} // verus!
