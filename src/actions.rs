//! Carrying edited entries back into a string table.

use vstd::prelude::*;
use std::collections::HashMap;
use vstd::utf8::encode_utf8;
use crate::extract::text_map;
use crate::strings::{EntryView, StringsEntry, StringsFile};
use crate::ui_state::{Entry, EntryV, entry_views};
use crate::dictionary::{TranslationDictionary, quick_entry, quick_count};
use crate::import_export::{XmlError, XmlApplyStats, import_entries, import_result, apply_xml_default, merged_entry, apply_counts};
use vstd::string::StringExecFns;

verus! {

pub open spec fn is_ascii_digit(c: u8) -> bool {
    0x30 <= c <= 0x39
}

/// The value of a run of decimal digits.
pub open spec fn digits_value(s: Seq<u8>) -> int
    decreases s.len(),
{
    if s.len() == 0 {
        0
    } else {
        digits_value(s.drop_last()) * 10 + (s.last() - 0x30)
    }
}

/// What `u32::from_str` accepts: an optional `+`, then at least one digit,
/// with a value that fits.
pub open spec fn parse_u32_spec(s: Seq<u8>) -> Option<u32> {
    digits_u32(strip_plus(s))
}

pub open spec fn strip_plus(s: Seq<u8>) -> Seq<u8> {
    if s.len() > 0 && s[0] == 0x2b {
        s.drop_first()
    } else {
        s
    }
}

pub open spec fn all_digits(d: Seq<u8>) -> bool {
    forall|i: int| 0 <= i < d.len() ==> is_ascii_digit(#[trigger] d[i])
}

pub open spec fn digits_u32(d: Seq<u8>) -> Option<u32> {
    if d.len() > 0 && all_digits(d) && digits_value(d) <= u32::MAX {
        Some(digits_value(d) as u32)
    } else {
        None
    }
}

/// The bytes after the last `:`; none when there is no `:`.
pub open spec fn after_last_colon(s: Seq<u8>, n: int) -> Option<Seq<u8>>
    decreases n,
{
    if n <= 0 {
        None
    } else if s[n - 1] == 0x3a {
        Some(s.subrange(n, s.len() as int))
    } else {
        after_last_colon(s, n - 1)
    }
}

/// The table id that an entry key such as `strings:42` names.
pub open spec fn key_id(key: Seq<char>) -> Option<u32> {
    let b = encode_utf8(key);
    match after_last_colon(b, b.len() as int) {
        Some(t) => parse_u32_spec(t),
        None => None,
    }
}

proof fn lemma_digits_value_bound(s: Seq<u8>)
    requires
        forall|i: int| 0 <= i < s.len() ==> is_ascii_digit(#[trigger] s[i]),
    ensures
        digits_value(s) >= 0,
    decreases s.len(),
{
    if s.len() > 0 {
        lemma_digits_value_bound(s.drop_last());
    }
}

proof fn lemma_digits_value_grows(s: Seq<u8>, k: int)
    requires
        0 <= k <= s.len(),
        forall|i: int| 0 <= i < s.len() ==> is_ascii_digit(#[trigger] s[i]),
    ensures
        digits_value(s.take(k)) <= digits_value(s),
    decreases s.len() - k,
{
    if k < s.len() {
        lemma_digits_value_grows(s, k + 1);
        assert(s.take(k + 1).drop_last() =~= s.take(k));
        assert forall|i: int| 0 <= i < s.take(k).len() implies is_ascii_digit(#[trigger] s.take(k)[i]) by {}
        lemma_digits_value_bound(s.take(k));
    } else {
        assert(s.take(k) =~= s);
    }
}

pub(crate) fn parse_u32(t: &[u8]) -> (r: Option<u32>)
    ensures
        r == parse_u32_spec(t@),
{
    let n = t.len();
    let start: usize = if n > 0 && t[0] == 0x2b { 1 } else { 0 };
    let ghost d = strip_plus(t@);
    if start >= n {
        return None;
    }
    proof {
        if start == 1 {
            assert(t@.drop_first() =~= t@.subrange(1, n as int));
        } else {
            assert(t@ =~= t@.subrange(0, n as int));
        }
    }
    let mut v: u64 = 0;
    let mut i = start;
    while i < n
        invariant
            start <= i <= n,
            n == t@.len(),
            start < n,
            d == t@.subrange(start as int, n as int),
            d == strip_plus(t@),
            forall|k: int| 0 <= k < i - start ==> is_ascii_digit(#[trigger] d[k]),
            v == digits_value(d.take(i - start)),
            v <= u32::MAX,
        decreases n - i,
    {
        let c = t[i];
        if c < 0x30 || c > 0x39 {
            proof {
                assert(!is_ascii_digit(d[i - start]));
                assert(d.len() == n - start);
                assert(!all_digits(d));
            }
            return None;
        }
        proof {
            assert(d.take(i - start + 1).drop_last() =~= d.take(i - start));
            assert(d[i - start] == c);
            assert(d.take(i - start + 1).last() == c);
            assert(digits_value(d.take(i - start + 1)) == v * 10 + (c - 0x30));
        }
        let next = v * 10 + (c - 0x30) as u64;
        if next > u32::MAX as u64 {
            proof {
                assert forall|k: int| 0 <= k < i - start + 1 implies is_ascii_digit(#[trigger] d.take(i - start + 1)[k]) by {}
                if all_digits(d) {
                    lemma_digits_value_grows(d, i - start + 1);
                }
            }
            return None;
        }
        v = next;
        i = i + 1;
    }
    proof {
        assert(d.take(n - start) =~= d);
    }
    Some(v as u32)
}

/// The table id named by an entry key: the number after its last `:`.
pub fn parse_strings_id(key: &str) -> (r: Option<u32>)
    ensures
        r == key_id(key@),
{
    let b = key.as_bytes();
    let mut n = b.len();
    while n > 0 && b[n - 1] != 0x3a
        invariant
            n <= b@.len(),
            after_last_colon(b@, b@.len() as int) == after_last_colon(b@, n as int),
        decreases n,
    {
        n = n - 1;
    }
    if n == 0 {
        return None;
    }
    parse_u32(vstd::slice::slice_subrange(b, n, b.len()))
}

/// The edited target for table id `id`: that of the last entry among the
/// first `n` whose key names `id` and whose target is not empty.
pub open spec fn edited_target(es: Seq<EntryV>, id: u32, n: int) -> Option<Seq<char>>
    decreases n,
{
    if n <= 0 {
        None
    } else if key_id(es[n - 1].0) == Some(id) && es[n - 1].2.len() > 0 {
        Some(es[n - 1].2)
    } else {
        edited_target(es, id, n - 1)
    }
}

/// The targets by id of the first `n` entries.
pub open spec fn edits_upto(es: Seq<EntryV>, n: int) -> Map<u32, Seq<char>>
    decreases n,
{
    if n <= 0 {
        Map::empty()
    } else {
        let prev = edits_upto(es, n - 1);
        match key_id(es[n - 1].0) {
            Some(id) => if es[n - 1].2.len() > 0 {
                prev.insert(id, es[n - 1].2)
            } else {
                prev
            },
            None => prev,
        }
    }
}

proof fn lemma_edits_upto(es: Seq<EntryV>, id: u32, n: int)
    requires
        0 <= n <= es.len(),
    ensures
        edits_upto(es, n).contains_key(id) == (edited_target(es, id, n) is Some),
        edited_target(es, id, n) matches Some(t) ==> edits_upto(es, n)[id] == t,
    decreases n,
{
    if n > 0 {
        lemma_edits_upto(es, id, n - 1);
    }
}

/// A table whose entries take the non-empty targets of the entries whose keys
/// name their ids; the others stay as they are.
pub fn apply_entries_to_strings(base: &StringsFile, entries: &[Entry]) -> (r: StringsFile)
    ensures
        r@.len() == base@.len(),
        forall|i: int|
            0 <= i < base@.len() ==> (#[trigger] r@[i]) == (base@[i].0, match edited_target(
                crate::ui_state::entry_views(entries@),
                base@[i].0,
                entries@.len() as int,
            ) {
                Some(t) => t,
                None => base@[i].1,
            }),
{
    broadcast use vstd::std_specs::hash::group_hash_axioms;
    let ghost ev = crate::ui_state::entry_views(entries@);
    let mut by_id: HashMap<u32, String> = HashMap::new();
    let n = entries.len();
    proof {
        assert(text_map(by_id) =~= edits_upto(ev, 0));
    }
    for k in 0..n
        invariant
            n == entries@.len(),
            ev == crate::ui_state::entry_views(entries@),
            text_map(by_id) == edits_upto(ev, k as int),
    {
        let e = &entries[k];
        proof {
            assert(ev[k as int] == e@);
        }
        match parse_strings_id(e.key.as_str()) {
            Some(id) => {
                if !e.target_text.as_str().is_empty() {
                    by_id.insert(id, e.target_text.clone());
                    proof {
                        assert(text_map(by_id) =~= edits_upto(ev, k as int).insert(id, e.target_text@));
                    }
                }
            },
            None => {},
        }
    }
    let mut out: Vec<StringsEntry> = Vec::new();
    let m = base.entries.len();
    for i in 0..m
        invariant
            m == base.entries@.len(),
            ev == crate::ui_state::entry_views(entries@),
            text_map(by_id) == edits_upto(ev, n as int),
            n == entries@.len(),
            out@.len() == i,
            forall|j: int|
                0 <= j < i ==> (#[trigger] out@[j])@ == (base@[j].0, match edited_target(ev, base@[j].0, n as int) {
                    Some(t) => t,
                    None => base@[j].1,
                }),
    {
        let b = &base.entries[i];
        proof {
            lemma_edits_upto(ev, b.id, n as int);
            assert(base@[i as int] == b@);
        }
        let text = match by_id.get(&b.id) {
            Some(t) => t.clone(),
            None => b.text.clone(),
        };
        out.push(StringsEntry { id: b.id, text });
    }
    let r = StringsFile { entries: out };
    proof {
        assert forall|i: int| 0 <= i < base@.len() implies (#[trigger] r@[i]) == (base@[i].0, match edited_target(ev, base@[i].0, n as int) {
            Some(t) => t,
            None => base@[i].1,
        }) by {
            assert(r@[i] == out@[i]@);
        }
    }
    r
}


/// A quick dictionary pass over the one selected entry, filling only an empty
/// target. Fails with a message when no dictionary is built or no entry is
/// selected.
pub fn apply_quick_auto_selection(
    dict: Option<&TranslationDictionary>,
    entries: &[Entry],
    selected_key: Option<String>,
) -> (r: Result<(Vec<Entry>, usize), &'static str>)
    ensures
        dict is None ==> (r matches Err(m) && m@ == "辞書未構築"@),
        dict is Some && selected_key is None ==> (r matches Err(m) && m@
            == "Quick自動翻訳対象の行を選択してください"@),
        dict matches Some(d) ==> (selected_key matches Some(k) ==> (r matches Ok(res) && res.1
            == quick_count(d@, entry_views(entries@), seq![k@], true, entries@.len() as int)
            && entry_views(res.0@).len() == entries@.len() && forall|i: int|
            0 <= i < entries@.len() ==> #[trigger] entry_views(res.0@)[i] == quick_entry(
                d@,
                entries@[i]@,
                seq![k@],
                true,
            ))),
{
    let d = match dict {
        Some(d) => d,
        None => return Err("辞書未構築"),
    };
    let key = match selected_key {
        Some(k) => k,
        None => return Err("Quick自動翻訳対象の行を選択してください"),
    };
    let mut selected: Vec<String> = Vec::new();
    selected.push(key);
    proof {
        assert(crate::search::string_views(selected@) =~= seq![selected@[0]@]);
    }
    Ok(d.apply_quick(entries, selected.as_slice(), true))
}


/// How an import error reads in a message.
pub open spec fn xml_error_text(e: XmlError) -> Seq<char> {
    match e {
        XmlError::InvalidFormat => "InvalidFormat"@,
        XmlError::MissingAttr(name) => "MissingAttr(\""@ + name@ + "\")"@,
        XmlError::InvalidEscape => "InvalidEscape"@,
    }
}

/// Imports an exchange document and merges it into the current entries.
pub fn apply_xml_payload(current: &[Entry], xml_contents: &str) -> (r: Result<(Vec<Entry>, XmlApplyStats), String>)
    ensures
        match import_result(encode_utf8(xml_contents@)) {
            Ok(imp) => r matches Ok(res) && entry_views(res.0@).len() == current@.len() && (forall|i: int|
                0 <= i < current@.len() ==> #[trigger] entry_views(res.0@)[i] == merged_entry(imp, current@[i]@))
                && ({
                    let c = apply_counts(imp, entry_views(current@), current@.len() as int);
                    res.1.updated == c.0 && res.1.unchanged == c.1 && res.1.missing == c.2
                }),
            Err(e) => r matches Err(m) && m@ == xml_error_text(e),
        },
{
    match import_entries(xml_contents) {
        Ok(imported) => Ok(apply_xml_default(current, imported.as_slice())),
        Err(e) => {
            let m = match e {
                XmlError::InvalidFormat => "InvalidFormat".to_owned(),
                XmlError::MissingAttr(name) => {
                    let mut m = "MissingAttr(\"".to_owned();
                    m.append(name);
                    m.append("\")");
                    m
                },
                XmlError::InvalidEscape => "InvalidEscape".to_owned(),
            };
            Err(m)
        },
    }
}

} // verus!
