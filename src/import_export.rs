//! Merging translations imported from an exchange file into the current entries.

use vstd::prelude::*;
use vstd::string::StringExecFns;
use crate::extract::{decimal, push_decimal};
use crate::text::{push_char, find_at, find_bytes, lemma_find_at_range, char_from_u32, utf8_to_string};
use crate::actions::{parse_u32, parse_u32_spec};
use vstd::utf8::{valid_utf8, decode_utf8, encode_utf8};
use crate::ui_state::{Entry, EntryV, entry_views};

verus! {

#[derive(Debug, PartialEq, Eq)]
pub enum XmlError {
    InvalidFormat,
    MissingAttr(&'static str),
    InvalidEscape,
}

/// How the current entries fared: changed, already equal, or with no
/// translation to take.
#[derive(Debug, Clone, Copy, Default, PartialEq, Eq)]
pub struct XmlApplyStats {
    pub updated: usize,
    pub unchanged: usize,
    pub missing: usize,
}

/// The target imported under `key`: that of the last of the first `n`
/// imported entries with this key and a non-empty target.
pub open spec fn key_target(imp: Seq<EntryV>, key: Seq<char>, n: int) -> Option<Seq<char>>
    decreases n,
{
    if n <= 0 {
        None
    } else if imp[n - 1].0 == key && imp[n - 1].2.len() > 0 {
        Some(imp[n - 1].2)
    } else {
        key_target(imp, key, n - 1)
    }
}

/// What the first `n` imported entries say of source text `s`: nothing
/// (`None`), one target (`Some(Some(t))`), or targets that disagree
/// (`Some(None)`). Entries with an empty target say nothing.
pub open spec fn source_state(imp: Seq<EntryV>, s: Seq<char>, n: int) -> Option<Option<Seq<char>>>
    decreases n,
{
    if n <= 0 {
        None
    } else {
        let prev = source_state(imp, s, n - 1);
        let e = imp[n - 1];
        if e.1 != s || e.2.len() == 0 {
            prev
        } else {
            match prev {
                None => Some(Some(e.2)),
                Some(Some(p)) => if p != e.2 {
                    Some(None)
                } else {
                    prev
                },
                Some(None) => prev,
            }
        }
    }
}

/// The translation an entry takes: by key first, else by an unambiguous
/// source text.
pub open spec fn chosen_target(imp: Seq<EntryV>, e: EntryV) -> Option<Seq<char>> {
    match key_target(imp, e.0, imp.len() as int) {
        Some(t) => Some(t),
        None => match source_state(imp, e.1, imp.len() as int) {
            Some(Some(t)) => Some(t),
            _ => None,
        },
    }
}

pub open spec fn merged_entry(imp: Seq<EntryV>, e: EntryV) -> EntryV {
    match chosen_target(imp, e) {
        Some(t) => (e.0, e.1, t),
        None => e,
    }
}

/// Counts over the first `n` current entries: updated, unchanged, missing.
pub open spec fn apply_counts(imp: Seq<EntryV>, cur: Seq<EntryV>, n: int) -> (nat, nat, nat)
    decreases n,
{
    if n <= 0 {
        (0, 0, 0)
    } else {
        let c = apply_counts(imp, cur, n - 1);
        match chosen_target(imp, cur[n - 1]) {
            Some(t) => if t != cur[n - 1].2 {
                ((c.0 + 1) as nat, c.1, c.2)
            } else {
                (c.0, (c.1 + 1) as nat, c.2)
            },
            None => (c.0, c.1, (c.2 + 1) as nat),
        }
    }
}

fn find_key_target(imported: &[Entry], key: &String) -> (r: Option<usize>)
    ensures
        r matches Some(i) ==> i < imported@.len() && key_target(entry_views(imported@), key@, imported@.len() as int)
            == Some(imported@[i as int].target_text@),
        r is None ==> key_target(entry_views(imported@), key@, imported@.len() as int) is None,
{
    let ghost iv = entry_views(imported@);
    let mut n = imported.len();
    while n > 0
        invariant
            n <= imported@.len(),
            iv == entry_views(imported@),
            key_target(iv, key@, imported@.len() as int) == key_target(iv, key@, n as int),
        decreases n,
    {
        let e = &imported[n - 1];
        proof {
            assert(iv[n - 1] == e@);
        }
        if e.key == *key && !e.target_text.as_str().is_empty() {
            return Some(n - 1);
        }
        n = n - 1;
    }
    None
}

fn find_source_target(imported: &[Entry], source: &String) -> (r: Option<usize>)
    ensures
        r matches Some(i) ==> i < imported@.len() && source_state(entry_views(imported@), source@, imported@.len() as int)
            == Some(Some(imported@[i as int].target_text@)),
        r is None ==> !(source_state(entry_views(imported@), source@, imported@.len() as int) matches Some(Some(_))),
{
    let ghost iv = entry_views(imported@);
    let n = imported.len();
    let mut seen: Option<usize> = None;
    let mut ambiguous = false;
    for i in 0..n
        invariant
            n == imported@.len(),
            iv == entry_views(imported@),
            seen matches Some(j) ==> j < n,
            source_state(iv, source@, i as int) == if ambiguous {
                Some(None::<Seq<char>>)
            } else {
                match seen {
                    Some(j) => Some(Some(imported@[j as int].target_text@)),
                    None => None,
                }
            },
    {
        let e = &imported[i];
        proof {
            assert(iv[i as int] == e@);
        }
        if e.source_text == *source && !e.target_text.as_str().is_empty() && !ambiguous {
            match seen {
                None => {
                    seen = Some(i);
                },
                Some(j) => {
                    if imported[j].target_text != e.target_text {
                        ambiguous = true;
                    }
                },
            }
        }
    }
    if ambiguous {
        None
    } else {
        seen
    }
}

/// Merges imported translations into the current entries: an entry takes the
/// imported target of its key, or else the one target imported for its source
/// text; sources imported with different targets are left alone.
pub fn apply_xml_default(current: &[Entry], imported: &[Entry]) -> (r: (Vec<Entry>, XmlApplyStats))
    ensures
        entry_views(r.0@).len() == current@.len(),
        forall|i: int|
            0 <= i < current@.len() ==> #[trigger] entry_views(r.0@)[i] == merged_entry(
                entry_views(imported@),
                current@[i]@,
            ),
        ({
            let c = apply_counts(entry_views(imported@), entry_views(current@), current@.len() as int);
            r.1.updated == c.0 && r.1.unchanged == c.1 && r.1.missing == c.2
        }),
{
    let ghost iv = entry_views(imported@);
    let ghost cv = entry_views(current@);
    let mut merged: Vec<Entry> = Vec::new();
    let mut updated: usize = 0;
    let mut unchanged: usize = 0;
    let mut missing: usize = 0;
    let n = current.len();
    for i in 0..n
        invariant
            n == current@.len(),
            iv == entry_views(imported@),
            cv == entry_views(current@),
            merged@.len() == i,
            forall|k: int| 0 <= k < i ==> #[trigger] entry_views(merged@)[k] == merged_entry(iv, current@[k]@),
            (updated as nat, unchanged as nat, missing as nat) == apply_counts(iv, cv, i as int),
            updated + unchanged + missing == i,
    {
        let e = &current[i];
        proof {
            assert(cv[i as int] == e@);
        }
        let target: Option<&String> = match find_key_target(imported, &e.key) {
            Some(j) => Some(&imported[j].target_text),
            None => match find_source_target(imported, &e.source_text) {
                Some(j) => Some(&imported[j].target_text),
                None => None,
            },
        };
        let next = match target {
            Some(t) => {
                if *t != e.target_text {
                    updated = updated + 1;
                } else {
                    unchanged = unchanged + 1;
                }
                Entry { key: e.key.clone(), source_text: e.source_text.clone(), target_text: t.clone() }
            },
            None => {
                missing = missing + 1;
                Entry { key: e.key.clone(), source_text: e.source_text.clone(), target_text: e.target_text.clone() }
            },
        };
        let ghost before = merged@;
        merged.push(next);
        proof {
            assert(entry_views(merged@) =~= entry_views(before).push(next@));
            assert(next@ == merged_entry(iv, e@));
        }
    }
    (merged, XmlApplyStats { updated, unchanged, missing })
}


/// The escaped form of one char in an attribute value.
pub open spec fn escape_char(c: char) -> Seq<char> {
    if c == '&' {
        "&amp;"@
    } else if c == '<' {
        "&lt;"@
    } else if c == '>' {
        "&gt;"@
    } else if c == '"' {
        "&quot;"@
    } else if c == '\'' {
        "&apos;"@
    } else if c == '\n' {
        "&#10;"@
    } else if c == '\r' {
        "&#13;"@
    } else if c == '\t' {
        "&#9;"@
    } else {
        seq![c]
    }
}

pub open spec fn escaped(s: Seq<char>) -> Seq<char>
    decreases s.len(),
{
    if s.len() == 0 {
        Seq::empty()
    } else {
        escaped(s.drop_last()) + escape_char(s.last())
    }
}

fn escape_xml(input: &str, out: &mut String)
    ensures
        final(out)@ == old(out)@ + escaped(input@),
{
    let ghost start = out@;
    for c in it: input.chars()
        invariant
            it.seq() == input@,
            out@ == start + escaped(input@.take(it.index())),
    {
        let ghost k = it.index();
        let ghost before = out@;
        if c == '&' {
            out.append("&amp;");
        } else if c == '<' {
            out.append("&lt;");
        } else if c == '>' {
            out.append("&gt;");
        } else if c == '"' {
            out.append("&quot;");
        } else if c == '\'' {
            out.append("&apos;");
        } else if c == '\n' {
            out.append("&#10;");
        } else if c == '\r' {
            out.append("&#13;");
        } else if c == '\t' {
            out.append("&#9;");
        } else {
            push_char(out, c);
        }
        proof {
            assert(input@[k] == c);
            assert(input@.take(k + 1).drop_last() =~= input@.take(k));
            assert(out@ =~= before + escape_char(c));
        }
    }
    proof {
        assert(input@.take(input@.len() as int) =~= input@);
    }
}

pub open spec fn entry_xml(e: EntryV) -> Seq<char> {
    "  <entry key=\""@ + escaped(e.0) + "\" source=\""@ + escaped(e.1) + "\" target=\""@ + escaped(e.2)
        + "\" />\n"@
}

pub open spec fn entries_xml(es: Seq<EntryV>, n: int) -> Seq<char>
    decreases n,
{
    if n <= 0 {
        Seq::empty()
    } else {
        entries_xml(es, n - 1) + entry_xml(es[n - 1])
    }
}

/// The exchange document of the entries: one self-closing `entry` element per
/// entry, its texts escaped.
pub fn export_entries(entries: &[Entry]) -> (r: String)
    ensures
        r@ == "<?xml version=\"1.0\" encoding=\"utf-8\"?>\n<xtrans version=\"1\">\n"@ + entries_xml(
            entry_views(entries@),
            entries@.len() as int,
        ) + "</xtrans>\n"@,
{
    let ghost ev = entry_views(entries@);
    let mut out = String::new();
    out.append("<?xml version=\"1.0\" encoding=\"utf-8\"?>\n<xtrans version=\"1\">\n");
    let ghost head = out@;
    let n = entries.len();
    for i in 0..n
        invariant
            n == entries@.len(),
            ev == entry_views(entries@),
            out@ == head + entries_xml(ev, i as int),
    {
        let e = &entries[i];
        proof {
            assert(ev[i as int] == e@);
        }
        let ghost before = out@;
        out.append("  <entry key=\"");
        escape_xml(e.key.as_str(), &mut out);
        out.append("\" source=\"");
        escape_xml(e.source_text.as_str(), &mut out);
        out.append("\" target=\"");
        escape_xml(e.target_text.as_str(), &mut out);
        out.append("\" />\n");
        proof {
            assert(out@ =~= before + entry_xml(e@));
        }
    }
    out.append("</xtrans>\n");
    out
}


/// The char an entity between `&` and `;` stands for.
pub open spec fn entity_char(e: Seq<u8>) -> Option<char> {
    if e == seq![0x61u8, 0x6du8, 0x70u8] {
        Some('&')
    } else if e == seq![0x6cu8, 0x74u8] {
        Some('<')
    } else if e == seq![0x67u8, 0x74u8] {
        Some('>')
    } else if e == seq![0x71u8, 0x75u8, 0x6fu8, 0x74u8] {
        Some('"')
    } else if e == seq![0x61u8, 0x70u8, 0x6fu8, 0x73u8] {
        Some('\'')
    } else if e.len() > 0 && e[0] == 0x23 {
        match parse_u32_spec(e.drop_first()) {
            Some(v) => if v < 0xD800 || (0xDFFF < v && v <= 0x10FFFF) {
                Some(v as char)
            } else {
                None
            },
            None => None,
        }
    } else {
        None
    }
}

/// The text of escaped bytes from `i` on.
pub open spec fn unescape_from(b: Seq<u8>, i: int) -> Result<Seq<char>, XmlError>
    decreases b.len() - i,
{
    if i < 0 || i >= b.len() {
        Ok(Seq::empty())
    } else if b[i] == 0x26 {
        let e = find_at(b, seq![0x3bu8], i);
        if e >= b.len() || e < i {
            Err(XmlError::InvalidEscape)
        } else {
            match entity_char(b.subrange(i + 1, e)) {
                None => Err(XmlError::InvalidEscape),
                Some(c) => match unescape_from(b, e + 1) {
                    Ok(r) => Ok(seq![c] + r),
                    Err(x) => Err(x),
                },
            }
        }
    } else {
        let j = find_at(b, seq![0x26u8], i);
        if j <= i || j > b.len() {
            Err(XmlError::InvalidEscape)
        } else if !valid_utf8(b.subrange(i, j)) {
            Err(XmlError::InvalidEscape)
        } else {
            match unescape_from(b, j) {
                Ok(r) => Ok(decode_utf8(b.subrange(i, j)) + r),
                Err(x) => Err(x),
            }
        }
    }
}

fn slice_is(s: &[u8], lit: &Vec<u8>) -> (r: bool)
    ensures
        r == (s@ == lit@),
{
    if s.len() != lit.len() {
        return false;
    }
    let n = s.len();
    for k in 0..n
        invariant
            n == s@.len(),
            n == lit@.len(),
            forall|x: int| 0 <= x < k ==> s@[x] == lit@[x],
    {
        if s[k] != lit[k] {
            return false;
        }
    }
    assert(s@ =~= lit@);
    true
}

fn entity(e: &[u8]) -> (r: Option<char>)
    ensures
        r == entity_char(e@),
{
    if slice_is(e, &vec![0x61u8, 0x6du8, 0x70u8]) {
        Some('&')
    } else if slice_is(e, &vec![0x6cu8, 0x74u8]) {
        Some('<')
    } else if slice_is(e, &vec![0x67u8, 0x74u8]) {
        Some('>')
    } else if slice_is(e, &vec![0x71u8, 0x75u8, 0x6fu8, 0x74u8]) {
        Some('"')
    } else if slice_is(e, &vec![0x61u8, 0x70u8, 0x6fu8, 0x73u8]) {
        Some('\'')
    } else if e.len() > 0 && e[0] == 0x23 {
        let rest = vstd::slice::slice_subrange(e, 1, e.len());
        proof {
            assert(rest@ =~= e@.drop_first());
        }
        match parse_u32(rest) {
            Some(v) => {
                let c = char_from_u32(v);
                proof {
                    if let Some(ch) = c {
                        vstd::utf8::char_u32_cast(ch, v);
                    }
                }
                c
            },
            None => None,
        }
    } else {
        None
    }
}

fn unescape_xml(b: &[u8]) -> (r: Result<String, XmlError>)
    ensures
        match r {
            Ok(s) => unescape_from(b@, 0) == Ok::<Seq<char>, XmlError>(s@),
            Err(e) => unescape_from(b@, 0) == Err::<Seq<char>, XmlError>(e),
        },
{
    let n = b.len();
    let mut out = String::new();
    let mut i: usize = 0;
    let semi = vec![0x3bu8];
    let amp = vec![0x26u8];
    while i < n
        invariant
            n == b@.len(),
            i <= n,
            semi@ == seq![0x3bu8],
            amp@ == seq![0x26u8],
            match unescape_from(b@, i as int) {
                Ok(rest) => unescape_from(b@, 0) == Ok::<Seq<char>, XmlError>(out@ + rest),
                Err(x) => unescape_from(b@, 0) == Err::<Seq<char>, XmlError>(x),
            },
        decreases n - i,
    {
        if b[i] == 0x26 {
            let e = find_bytes(b, semi.as_slice(), i);
            proof {
                assert(b@.subrange(i as int, i + 1)[0] == b@[i as int]);
                assert(b@.subrange(i as int, i + 1) != seq![0x3bu8]);
                lemma_find_at_range(b@, seq![0x3bu8], i + 1);
            }
            if e >= n {
                return Err(XmlError::InvalidEscape);
            }
            let c = match entity(vstd::slice::slice_subrange(b, i + 1, e)) {
                Some(c) => c,
                None => return Err(XmlError::InvalidEscape),
            };
            let ghost before = out@;
            push_char(&mut out, c);
            proof {
                match unescape_from(b@, e + 1) {
                    Ok(rest) => {
                        assert(before + (seq![c] + rest) =~= out@ + rest);
                    },
                    Err(x) => {},
                }
            }
            i = e + 1;
        } else {
            let j = find_bytes(b, amp.as_slice(), i);
            proof {
                assert(b@.subrange(i as int, i + 1)[0] == b@[i as int]);
                assert(b@.subrange(i as int, i + 1) != seq![0x26u8]);
                lemma_find_at_range(b@, seq![0x26u8], i + 1);
            }
            let run = match utf8_to_string(vstd::slice::slice_subrange(b, i, j)) {
                Some(t) => t,
                None => return Err(XmlError::InvalidEscape),
            };
            let ghost before = out@;
            out.append(run.as_str());
            proof {
                match unescape_from(b@, j as int) {
                    Ok(rest) => {
                        assert(before + (run@ + rest) =~= out@ + rest);
                    },
                    Err(x) => {},
                }
            }
            i = j;
        }
    }
    proof {
        assert(out@ + Seq::<char>::empty() =~= out@);
    }
    Ok(out)
}


/// The value of attribute `name` in the bytes of a tag: the escaped text
/// between `name="` and the next `"`.
pub open spec fn attr_value(tag: Seq<u8>, name: &'static str) -> Result<Seq<char>, XmlError> {
    let needle = encode_utf8(name@) + seq![0x3du8, 0x22u8];
    let s = find_at(tag, needle, 0);
    if s >= tag.len() {
        Err(XmlError::MissingAttr(name))
    } else {
        let after = s + needle.len();
        let e = find_at(tag, seq![0x22u8], after);
        if e >= tag.len() || e < after {
            Err(XmlError::InvalidFormat)
        } else {
            unescape_from(tag.subrange(after, e), 0)
        }
    }
}

fn parse_attr(tag: &[u8], name: &'static str) -> (r: Result<String, XmlError>)
    ensures
        match r {
            Ok(v) => attr_value(tag@, name) == Ok::<Seq<char>, XmlError>(v@),
            Err(e) => attr_value(tag@, name) == Err::<Seq<char>, XmlError>(e),
        },
{
    let mut needle = vstd::slice::slice_to_vec(name.as_bytes());
    needle.push(0x3d);
    needle.push(0x22);
    proof {
        assert(needle@ =~= encode_utf8(name@) + seq![0x3du8, 0x22u8]);
    }
    let n = tag.len();
    let s = find_bytes(tag, needle.as_slice(), 0);
    proof {
        lemma_find_at_range(tag@, needle@, 0);
    }
    if s >= n {
        return Err(XmlError::MissingAttr(name));
    }
    let after = s + needle.len();
    let quote = vec![0x22u8];
    proof {
        assert(quote@ =~= seq![0x22u8]);
        assert(after <= n);
    }
    let e = find_bytes(tag, quote.as_slice(), after);
    proof {
        lemma_find_at_range(tag@, seq![0x22u8], after as int);
    }
    if e >= n {
        return Err(XmlError::InvalidFormat);
    }
    unescape_xml(vstd::slice::slice_subrange(tag, after, e))
}

pub open spec fn entry_open() -> Seq<u8> {
    seq![0x3cu8, 0x65u8, 0x6eu8, 0x74u8, 0x72u8, 0x79u8]
}

/// The `<entry key=".." source=".." target=".." />` elements from byte `pos` on.
pub open spec fn xtrans_from(b: Seq<u8>, pos: int) -> Result<Seq<EntryV>, XmlError>
    decreases b.len() - pos,
{
    let s = find_at(b, entry_open(), pos);
    if pos < 0 || pos > b.len() || s >= b.len() || s < pos {
        Ok(Seq::empty())
    } else {
        let rest = s + 6;
        let end = find_at(b, seq![0x2fu8, 0x3eu8], rest);
        if end >= b.len() || end < rest || end + 2 > b.len() {
            Err(XmlError::InvalidFormat)
        } else {
            let tag = b.subrange(rest, end);
            match attr_value(tag, "key") {
                Err(e) => Err(e),
                Ok(k) => match attr_value(tag, "source") {
                    Err(e) => Err(e),
                    Ok(src) => match attr_value(tag, "target") {
                        Err(e) => Err(e),
                        Ok(t) => match xtrans_from(b, end + 2) {
                            Ok(r) => Ok(seq![(k, src, t)] + r),
                            Err(e) => Err(e),
                        },
                    },
                },
            }
        }
    }
}

fn import_xtrans(b: &[u8]) -> (r: Result<Vec<Entry>, XmlError>)
    ensures
        match r {
            Ok(v) => xtrans_from(b@, 0) == Ok::<Seq<EntryV>, XmlError>(entry_views(v@)),
            Err(e) => xtrans_from(b@, 0) == Err::<Seq<EntryV>, XmlError>(e),
        },
{
    let n = b.len();
    let open = vec![0x3cu8, 0x65u8, 0x6eu8, 0x74u8, 0x72u8, 0x79u8];
    let close = vec![0x2fu8, 0x3eu8];
    let mut out: Vec<Entry> = Vec::new();
    let mut pos: usize = 0;
    proof {
        assert(entry_views(out@) + xtrans_from(b@, 0)->Ok_0 =~= xtrans_from(b@, 0)->Ok_0);
    }
    loop
        invariant
            n == b@.len(),
            pos <= n,
            open@ == entry_open(),
            close@ == seq![0x2fu8, 0x3eu8],
            match xtrans_from(b@, pos as int) {
                Ok(rest) => xtrans_from(b@, 0) == Ok::<Seq<EntryV>, XmlError>(entry_views(out@) + rest),
                Err(x) => xtrans_from(b@, 0) == Err::<Seq<EntryV>, XmlError>(x),
            },
        decreases n - pos,
    {
        let s = find_bytes(b, open.as_slice(), pos);
        proof {
            lemma_find_at_range(b@, entry_open(), pos as int);
        }
        if s >= n {
            proof {
                assert(entry_views(out@) + Seq::<EntryV>::empty() =~= entry_views(out@));
            }
            return Ok(out);
        }
        let rest = s + 6;
        let end = find_bytes(b, close.as_slice(), rest);
        proof {
            lemma_find_at_range(b@, seq![0x2fu8, 0x3eu8], rest as int);
        }
        if end >= n {
            return Err(XmlError::InvalidFormat);
        }
        let tag = vstd::slice::slice_subrange(b, rest, end);
        let key = match parse_attr(tag, "key") {
            Ok(v) => v,
            Err(e) => return Err(e),
        };
        let source_text = match parse_attr(tag, "source") {
            Ok(v) => v,
            Err(e) => return Err(e),
        };
        let target_text = match parse_attr(tag, "target") {
            Ok(v) => v,
            Err(e) => return Err(e),
        };
        let ghost before = entry_views(out@);
        let e = Entry { key, source_text, target_text };
        out.push(e);
        proof {
            assert(entry_views(out@) =~= before.push(e@));
            match xtrans_from(b@, end + 2) {
                Ok(r) => {
                    assert(before + (seq![e@] + r) =~= entry_views(out@) + r);
                },
                Err(x) => {},
            }
        }
        pos = end + 2;
    }
}


pub open spec fn opens_element(c: u8) -> bool {
    c == 0x3e || c == 0x20 || c == 0x09 || c == 0x0d || c == 0x0a
}

pub open spec fn string_open() -> Seq<u8> {
    seq![0x3cu8, 0x53u8, 0x74u8, 0x72u8, 0x69u8, 0x6eu8, 0x67u8]
}

pub open spec fn string_close() -> Seq<u8> {
    seq![0x3cu8, 0x2fu8, 0x53u8, 0x74u8, 0x72u8, 0x69u8, 0x6eu8, 0x67u8, 0x3eu8]
}

/// The first `<String` element opening from `i`, or the length.
pub open spec fn string_tag_from(b: Seq<u8>, i: int) -> int
    decreases b.len() - i,
{
    let s = find_at(b, string_open(), i);
    if i < 0 || s >= b.len() || s < i {
        b.len() as int
    } else if s + 7 < b.len() && opens_element(b[s + 7]) {
        s
    } else {
        string_tag_from(b, s + 1)
    }
}

/// The escaped text of the first `<name>` element of `b` from `from` on.
pub open spec fn element_from(b: Seq<u8>, name: Seq<u8>, from: int) -> Result<Seq<char>, XmlError>
    decreases b.len() - from,
{
    let s = find_at(b, seq![0x3cu8] + name, from);
    if from < 0 || s >= b.len() || s < from {
        Err(XmlError::InvalidFormat)
    } else if s + name.len() + 1 >= b.len() {
        Err(XmlError::InvalidFormat)
    } else if !opens_element(b[s + name.len() + 1]) {
        element_from(b, name, s + 1)
    } else {
        let open_end = find_at(b, seq![0x3eu8], s);
        if open_end >= b.len() || open_end < s {
            Err(XmlError::InvalidFormat)
        } else {
            let close = find_at(b, seq![0x3cu8, 0x2fu8] + name + seq![0x3eu8], open_end + 1);
            if close >= b.len() || close < open_end + 1 {
                Err(XmlError::InvalidFormat)
            } else {
                unescape_from(b.subrange(open_end + 1, close), 0)
            }
        }
    }
}

/// The key given to the `index`-th element: `xtr:{List}:{sID}:{index}`.
pub open spec fn xtr_key(open_tag: Seq<u8>, index: nat) -> Seq<char> {
    "xtr:"@ + match attr_value(open_tag, "List") {
        Ok(v) => v,
        Err(_) => "0"@,
    } + seq![':'] + match attr_value(open_tag, "sID") {
        Ok(v) => v,
        Err(_) => "-"@,
    } + seq![':'] + decimal(index)
}

/// The `<String>` elements from byte `pos` on, the first numbered `index`.
pub open spec fn xtr_from(b: Seq<u8>, pos: int, index: nat) -> Result<Seq<EntryV>, XmlError>
    decreases b.len() - pos,
{
    let start = string_tag_from(b, pos);
    if pos < 0 || start >= b.len() || start < pos {
        Ok(Seq::empty())
    } else {
        let open_end = find_at(b, seq![0x3eu8], start);
        if open_end >= b.len() || open_end < start {
            Err(XmlError::InvalidFormat)
        } else {
            let close = find_at(b, string_close(), open_end + 1);
            if close >= b.len() || close < open_end + 1 || close + 9 > b.len() {
                Err(XmlError::InvalidFormat)
            } else {
                let body = b.subrange(open_end + 1, close);
                match element_from(body, seq![0x53u8, 0x6fu8, 0x75u8, 0x72u8, 0x63u8, 0x65u8], 0) {
                    Err(e) => Err(e),
                    Ok(src) => match element_from(body, seq![0x44u8, 0x65u8, 0x73u8, 0x74u8], 0) {
                        Err(e) => Err(e),
                        Ok(dst) => match xtr_from(b, close + 9, index + 1) {
                            Ok(r) => Ok(seq![(xtr_key(b.subrange(start, open_end + 1), index), src, dst)] + r),
                            Err(e) => Err(e),
                        },
                    },
                }
            }
        }
    }
}


fn find_string_tag(b: &[u8], from: usize) -> (r: usize)
    requires
        from <= b@.len(),
    ensures
        r == string_tag_from(b@, from as int),
{
    let n = b.len();
    let open = vec![0x3cu8, 0x53u8, 0x74u8, 0x72u8, 0x69u8, 0x6eu8, 0x67u8];
    let mut i = from;
    loop
        invariant
            n == b@.len(),
            i <= n,
            open@ == string_open(),
            string_tag_from(b@, from as int) == string_tag_from(b@, i as int),
        decreases n - i,
    {
        let s = find_bytes(b, open.as_slice(), i);
        proof {
            lemma_find_at_range(b@, string_open(), i as int);
        }
        if s >= n {
            return n;
        }
        if s + 7 < n {
            let c = b[s + 7];
            if c == 0x3e || c == 0x20 || c == 0x09 || c == 0x0d || c == 0x0a {
                return s;
            }
        }
        i = s + 1;
    }
}

fn element_text(b: &[u8], name: &Vec<u8>) -> (r: Result<String, XmlError>)
    ensures
        match r {
            Ok(v) => element_from(b@, name@, 0) == Ok::<Seq<char>, XmlError>(v@),
            Err(e) => element_from(b@, name@, 0) == Err::<Seq<char>, XmlError>(e),
        },
{
    let n = b.len();
    let mut open: Vec<u8> = Vec::new();
    open.push(0x3c);
    let mut close: Vec<u8> = Vec::new();
    close.push(0x3c);
    close.push(0x2f);
    let m = name.len();
    for k in 0..m
        invariant
            m == name@.len(),
            open@ == seq![0x3cu8] + name@.take(k as int),
            close@ == seq![0x3cu8, 0x2fu8] + name@.take(k as int),
    {
        open.push(name[k]);
        close.push(name[k]);
        proof {
            assert(name@.take(k + 1) =~= name@.take(k as int).push(name@[k as int]));
            assert(open@ =~= seq![0x3cu8] + name@.take(k + 1));
            assert(close@ =~= seq![0x3cu8, 0x2fu8] + name@.take(k + 1));
        }
    }
    close.push(0x3e);
    let gt = vec![0x3eu8];
    proof {
        assert(name@.take(m as int) =~= name@);
        assert(close@ =~= seq![0x3cu8, 0x2fu8] + name@ + seq![0x3eu8]);
        assert(gt@ =~= seq![0x3eu8]);
    }
    let mut from: usize = 0;
    loop
        invariant
            n == b@.len(),
            m == name@.len(),
            from <= n,
            open@ == seq![0x3cu8] + name@,
            close@ == seq![0x3cu8, 0x2fu8] + name@ + seq![0x3eu8],
            gt@ == seq![0x3eu8],
            element_from(b@, name@, 0) == element_from(b@, name@, from as int),
        decreases n - from,
    {
        let s = find_bytes(b, open.as_slice(), from);
        proof {
            lemma_find_at_range(b@, open@, from as int);
        }
        if s >= n {
            return Err(XmlError::InvalidFormat);
        }
        if m + 1 >= n - s {
            return Err(XmlError::InvalidFormat);
        }
        let c = b[s + m + 1];
        if !(c == 0x3e || c == 0x20 || c == 0x09 || c == 0x0d || c == 0x0a) {
            from = s + 1;
        } else {
            let open_end = find_bytes(b, gt.as_slice(), s);
            proof {
                lemma_find_at_range(b@, seq![0x3eu8], s as int);
            }
            if open_end >= n {
                return Err(XmlError::InvalidFormat);
            }
            let close_at = find_bytes(b, close.as_slice(), open_end + 1);
            proof {
                lemma_find_at_range(b@, close@, open_end + 1);
            }
            if close_at >= n {
                return Err(XmlError::InvalidFormat);
            }
            return unescape_xml(vstd::slice::slice_subrange(b, open_end + 1, close_at));
        }
    }
}

fn import_xtranslator(b: &[u8]) -> (r: Result<Vec<Entry>, XmlError>)
    ensures
        match xtr_from(b@, 0, 0) {
            Ok(v) => if v.len() == 0 {
                r == Err::<Vec<Entry>, XmlError>(XmlError::InvalidFormat)
            } else {
                r matches Ok(es) && entry_views(es@) == v
            },
            Err(e) => r == Err::<Vec<Entry>, XmlError>(e),
        },
{
    let n = b.len();
    let gt = vec![0x3eu8];
    let close = vec![0x3cu8, 0x2fu8, 0x53u8, 0x74u8, 0x72u8, 0x69u8, 0x6eu8, 0x67u8, 0x3eu8];
    let source_name = vec![0x53u8, 0x6fu8, 0x75u8, 0x72u8, 0x63u8, 0x65u8];
    let dest_name = vec![0x44u8, 0x65u8, 0x73u8, 0x74u8];
    proof {
        assert(gt@ =~= seq![0x3eu8]);
        assert(close@ =~= string_close());
        assert(source_name@ =~= seq![0x53u8, 0x6fu8, 0x75u8, 0x72u8, 0x63u8, 0x65u8]);
        assert(dest_name@ =~= seq![0x44u8, 0x65u8, 0x73u8, 0x74u8]);
    }
    let mut out: Vec<Entry> = Vec::new();
    let mut pos: usize = 0;
    let mut index: usize = 0;
    proof {
        assert(entry_views(out@) + xtr_from(b@, 0, 0)->Ok_0 =~= xtr_from(b@, 0, 0)->Ok_0);
    }
    loop
        invariant
            n == b@.len(),
            pos <= n,
            index == out@.len(),
            gt@ == seq![0x3eu8],
            close@ == string_close(),
            source_name@ == seq![0x53u8, 0x6fu8, 0x75u8, 0x72u8, 0x63u8, 0x65u8],
            dest_name@ == seq![0x44u8, 0x65u8, 0x73u8, 0x74u8],
            match xtr_from(b@, pos as int, index as nat) {
                Ok(rest) => xtr_from(b@, 0, 0) == Ok::<Seq<EntryV>, XmlError>(entry_views(out@) + rest),
                Err(x) => xtr_from(b@, 0, 0) == Err::<Seq<EntryV>, XmlError>(x),
            },
        decreases n - pos,
    {
        let start = find_string_tag(b, pos);
        proof {
            lemma_string_tag_range(b@, pos as int);
        }
        if start >= n {
            proof {
                assert(entry_views(out@) + Seq::<EntryV>::empty() =~= entry_views(out@));
            }
            if out.len() == 0 {
                return Err(XmlError::InvalidFormat);
            }
            return Ok(out);
        }
        let open_end = find_bytes(b, gt.as_slice(), start);
        proof {
            lemma_find_at_range(b@, seq![0x3eu8], start as int);
        }
        if open_end >= n {
            return Err(XmlError::InvalidFormat);
        }
        let close_at = find_bytes(b, close.as_slice(), open_end + 1);
        proof {
            lemma_find_at_range(b@, string_close(), open_end + 1);
        }
        if close_at >= n {
            return Err(XmlError::InvalidFormat);
        }
        let body = vstd::slice::slice_subrange(b, open_end + 1, close_at);
        let source_text = match element_text(body, &source_name) {
            Ok(v) => v,
            Err(e) => return Err(e),
        };
        let target_text = match element_text(body, &dest_name) {
            Ok(v) => v,
            Err(e) => return Err(e),
        };
        let open_tag = vstd::slice::slice_subrange(b, start, open_end + 1);
        let mut key = "xtr:".to_owned();
        match parse_attr(open_tag, "List") {
            Ok(v) => key.append(v.as_str()),
            Err(_) => key.append("0"),
        }
        push_char(&mut key, ':');
        match parse_attr(open_tag, "sID") {
            Ok(v) => key.append(v.as_str()),
            Err(_) => key.append("-"),
        }
        push_char(&mut key, ':');
        push_decimal(&mut key, index);
        proof {
            assert(key@ =~= xtr_key(open_tag@, index as nat));
        }
        let ghost before = entry_views(out@);
        let e = Entry { key, source_text, target_text };
        out.push(e);
        proof {
            assert(entry_views(out@) =~= before.push(e@));
            match xtr_from(b@, close_at + 9, (index + 1) as nat) {
                Ok(r) => {
                    assert(before + (seq![e@] + r) =~= entry_views(out@) + r);
                },
                Err(x) => {},
            }
        }
        index = out.len();
        pos = close_at + 9;
    }
}

proof fn lemma_string_tag_range(b: Seq<u8>, i: int)
    requires
        0 <= i,
    ensures
        i <= string_tag_from(b, i) <= b.len() || string_tag_from(b, i) == b.len(),
    decreases b.len() - i,
{
    lemma_find_at_range(b, string_open(), i);
    let s = find_at(b, string_open(), i);
    if !(s >= b.len() || s < i) && !(s + 7 < b.len() && opens_element(b[s + 7])) {
        lemma_string_tag_range(b, s + 1);
    }
}

pub open spec fn bom() -> Seq<u8> {
    seq![0xefu8, 0xbbu8, 0xbfu8]
}

pub open spec fn resources_tag() -> Seq<u8> {
    "<SSTXMLRessources"@.map_values(|c: char| c as u8)
}

/// Reads an exchange document: the xTranslator schema when it has a
/// `<SSTXMLRessources` element, the native `entry` schema otherwise. A leading
/// byte-order mark is skipped.
pub open spec fn import_result(xml: Seq<u8>) -> Result<Seq<EntryV>, XmlError> {
    let b = if xml.len() >= 3 && xml.take(3) == bom() { xml.skip(3) } else { xml };
    if find_at(b, resources_tag(), 0) < b.len() {
        match xtr_from(b, 0, 0) {
            Ok(v) => if v.len() == 0 { Err(XmlError::InvalidFormat) } else { Ok(v) },
            Err(e) => Err(e),
        }
    } else {
        xtrans_from(b, 0)
    }
}

pub fn import_entries(xml: &str) -> (r: Result<Vec<Entry>, XmlError>)
    ensures
        match import_result(encode_utf8(xml@)) {
            Ok(v) => r matches Ok(es) && entry_views(es@) == v,
            Err(e) => r == Err::<Vec<Entry>, XmlError>(e),
        },
{
    let all = xml.as_bytes();
    let b = if all.len() >= 3 && all[0] == 0xef && all[1] == 0xbb && all[2] == 0xbf {
        proof {
            assert(all@.take(3) =~= bom());
        }
        vstd::slice::slice_subrange(all, 3, all.len())
    } else {
        proof {
            if all@.len() >= 3 && all@.take(3) == bom() {
                assert(all@.take(3)[0] == 0xef && all@.take(3)[1] == 0xbb && all@.take(3)[2] == 0xbf);
            }
        }
        all
    };
    proof {
        if all@.len() >= 3 && all@.take(3) == bom() {
            assert(b@ =~= all@.skip(3));
        }
    }
    proof {
        reveal_strlit("<SSTXMLRessources");
    }
    let marker = vec![0x3cu8, 0x53u8, 0x53u8, 0x54u8, 0x58u8, 0x4du8, 0x4cu8, 0x52u8, 0x65u8, 0x73u8, 0x73u8, 0x6fu8, 0x75u8, 0x72u8, 0x63u8, 0x65u8, 0x73u8];
    proof {
        assert(marker@ =~= resources_tag());
    }
    if find_bytes(b, marker.as_slice(), 0) < b.len() {
        import_xtranslator(b)
    } else {
        import_xtrans(b)
    }
}

} // verus!
