//! Locating translatable text in a plugin tree, and writing edits back.

use vstd::prelude::*;
use vstd::string::StringExecFns;
use vstd::utf8::{valid_utf8, decode_utf8};
use std::collections::HashMap;
use crate::plugin::{Block, Plugin, Record, Subrecord, SubV, tree_wf, serialize_plugin, plugin_bytes, plugin_error, Shape, sub_views, u32_at, blocks_are, block_is, plugin_parse, parse_plugin, EspError};
use crate::strings::{StringsFile, StringsEntry, EntryView, nul_from};
use crate::text::{push_char, utf8_to_string};

verus! {

/// The three companion string tables.
#[derive(Debug, Clone, Copy, PartialEq, Eq, Hash, Structural)]
pub enum StringsKind {
    Strings,
    DlStrings,
    IlStrings,
}

/// The file extension of a table kind.
pub open spec fn kind_extension(kind: StringsKind) -> Seq<char> {
    match kind {
        StringsKind::Strings => "strings"@,
        StringsKind::DlStrings => "dlstrings"@,
        StringsKind::IlStrings => "ilstrings"@,
    }
}

impl StringsKind {
    pub fn extension(self) -> (r: &'static str)
        ensures
            r@ == kind_extension(self),
    {
        match self {
            StringsKind::Strings => "strings",
            StringsKind::DlStrings => "dlstrings",
            StringsKind::IlStrings => "ilstrings",
        }
    }
}

/// `<plugin stem>_<language>.<extension>`: the name of a companion table.
pub fn strings_file_name(base_name: &str, language: &str, kind: StringsKind) -> (r: String)
    ensures
        r@ == base_name@ + seq!['_'] + language@ + seq!['.'] + kind_extension(kind),
{
    let mut s = base_name.to_owned();
    push_char(&mut s, '_');
    s.append(language);
    push_char(&mut s, '.');
    s.append(kind.extension());
    s
}

/// General category Cc: the C0 and C1 control codes and DEL.
pub open spec fn is_control_char(c: char) -> bool {
    (c as u32) <= 0x1f || (0x7f <= (c as u32) && (c as u32) <= 0x9f)
}

/// Whether a char is alphabetic or numeric in Unicode's sense.
pub uninterp spec fn alphanumeric(c: char) -> bool;

/// Relies on `char::is_alphanumeric`, a lookup in Unicode's tables.
#[verifier::external_body]
fn is_alphanumeric(c: char) -> (r: bool)
    ensures
        r == alphanumeric(c),
{
    c.is_alphanumeric()
}

/// Text worth offering for translation: no control character but line feed
/// and tab, and at least one letter or digit.
pub open spec fn looks_like_text_spec(t: Seq<char>) -> bool {
    &&& forall|i: int| 0 <= i < t.len() ==> !is_control_char(#[trigger] t[i]) || t[i] == '\n' || t[i] == '\t'
    &&& exists|i: int| 0 <= i < t.len() && alphanumeric(#[trigger] t[i])
}

pub fn looks_like_text(text: &str) -> (r: bool)
    ensures
        r == looks_like_text_spec(text@),
{
    let mut has_letter = false;
    for c in it: text.chars()
        invariant
            it.seq() == text@,
            forall|i: int| 0 <= i < it.index() ==> !is_control_char(#[trigger] text@[i]) || text@[i] == '\n' || text@[i] == '\t',
            has_letter == exists|i: int| 0 <= i < it.index() && alphanumeric(#[trigger] text@[i]),
    {
        let code = c as u32;
        if (code <= 0x1f || (0x7f <= code && code <= 0x9f)) && c != '\n' && c != '\t' {
            return false;
        }
        if is_alphanumeric(c) {
            has_letter = true;
        }
    }
    has_letter
}


/// Where a subrecord's text lives.
#[derive(Debug, Clone, Copy, PartialEq, Eq, Structural)]
pub enum StringStorage {
    Inline,
    Localized { kind: StringsKind, id: u32 },
}

/// One translatable text of a plugin, with the key that finds it again.
#[derive(Debug, Clone, PartialEq, Eq)]
pub struct ExtractedString {
    pub key: String,
    pub record_type: [u8; 4],
    pub subrecord_type: [u8; 4],
    pub form_id: u32,
    pub index: usize,
    pub text: String,
    pub storage: StringStorage,
}

/// Key, record tag, subrecord tag, form id, ordinal, text, storage.
pub type ExV = (Seq<char>, Seq<u8>, Seq<u8>, u32, usize, Seq<char>, StringStorage);

impl View for ExtractedString {
    type V = ExV;

    open spec fn view(&self) -> ExV {
        (
            self.key@,
            self.record_type@,
            self.subrecord_type@,
            self.form_id,
            self.index,
            self.text@,
            self.storage,
        )
    }
}

pub open spec fn ex_views(s: Seq<ExtractedString>) -> Seq<ExV> {
    s.map_values(|e: ExtractedString| e@)
}

impl ExtractedString {
    /// The key under which this text was found.
    pub fn get_unique_key(&self) -> (r: String)
        ensures
            r@ == self.key@,
    {
        self.key.clone()
    }
}

/// Each byte read as the char of the same number.
pub open spec fn latin1(s: Seq<u8>) -> Seq<char> {
    s.map_values(|b: u8| b as char)
}

pub open spec fn digit_char(d: u32) -> char {
    if d < 10 {
        ((48 + d) as u8) as char
    } else {
        ((55 + d) as u8) as char
    }
}

/// Eight uppercase hexadecimal digits.
pub open spec fn hex8(x: u32) -> Seq<char> {
    Seq::new(8, |k: int| digit_char((x >> ((28 - 4 * k) as u32)) & 0xf))
}

/// Decimal digits, without leading zeros.
pub open spec fn decimal(n: nat) -> Seq<char>
    decreases n,
{
    if n < 10 {
        seq![digit_char(n as u32)]
    } else {
        decimal(n / 10).push(digit_char((n % 10) as u32))
    }
}

/// `"{record tag}:{form id, 8 hex digits}:{subrecord tag}:{ordinal}"`.
pub open spec fn key_spec(rt: Seq<u8>, form_id: u32, st: Seq<u8>, index: nat) -> Seq<char> {
    latin1(rt) + seq![':'] + hex8(form_id) + seq![':'] + latin1(st) + seq![':'] + decimal(index)
}

fn digit(d: u32) -> (c: char)
    requires
        d < 16,
    ensures
        c == digit_char(d),
{
    if d < 10 {
        ((48 + d) as u8) as char
    } else {
        ((55 + d) as u8) as char
    }
}

pub(crate) fn push_decimal(s: &mut String, n: usize)
    ensures
        final(s)@ == old(s)@ + decimal(n as nat),
    decreases n,
{
    if n >= 10 {
        push_decimal(s, n / 10);
    }
    push_char(s, digit((n % 10) as u32));
    proof {
        if n < 10 {
            assert(n % 10 == n);
        }
    }
}

fn push_tag(s: &mut String, t: &[u8; 4])
    ensures
        final(s)@ == old(s)@ + latin1(t@),
{
    let ghost start = s@;
    for k in 0..4
        invariant
            s@ == start + latin1(t@).take(k as int),
    {
        push_char(s, t[k] as char);
        proof {
            assert(latin1(t@).take(k + 1) =~= latin1(t@).take(k as int).push(t@[k as int] as char));
        }
    }
    proof {
        assert(latin1(t@).take(4) =~= latin1(t@));
    }
}

/// The key of a string-bearing subrecord.
pub fn format_key(record_type: &[u8; 4], form_id: u32, subrecord_type: &[u8; 4], index: usize) -> (r: String)
    ensures
        r@ == key_spec(record_type@, form_id, subrecord_type@, index as nat),
{
    let mut s = String::new();
    push_tag(&mut s, record_type);
    push_char(&mut s, ':');
    let ghost start = s@;
    for k in 0..8
        invariant
            s@ == start + hex8(form_id).take(k as int),
    {
        let shift: u32 = 28 - 4 * (k as u32);
        let d: u32 = (form_id >> shift) & 0xf;
        assert(d < 16) by (bit_vector)
            requires
                d == (form_id >> shift) & 0xf,
        ;
        push_char(&mut s, digit(d));
        proof {
            assert(hex8(form_id).take(k + 1) =~= hex8(form_id).take(k as int).push(
                digit_char((form_id >> shift) & 0xf),
            ));
        }
    }
    proof {
        assert(hex8(form_id).take(8) =~= hex8(form_id));
    }
    push_char(&mut s, ':');
    push_tag(&mut s, subrecord_type);
    push_char(&mut s, ':');
    push_decimal(&mut s, index);
    proof {
        assert(s@ =~= key_spec(record_type@, form_id, subrecord_type@, index as nat));
    }
    s
}

pub open spec fn is_string_tag(t: Seq<u8>) -> bool {
    t == seq![0x46u8, 0x55u8, 0x4cu8, 0x4cu8] || t == seq![0x44u8, 0x45u8, 0x53u8, 0x43u8]
}

/// Whether a subrecord tag is one that carries text (`FULL`, `DESC`).
pub fn is_string_subrecord(tag: &[u8; 4]) -> (r: bool)
    ensures
        r == is_string_tag(tag@),
{
    let full = tag[0] == 0x46 && tag[1] == 0x55 && tag[2] == 0x4c && tag[3] == 0x4c;
    let desc = tag[0] == 0x44 && tag[1] == 0x45 && tag[2] == 0x53 && tag[3] == 0x43;
    proof {
        if full {
            assert(tag@ =~= seq![0x46u8, 0x55u8, 0x4cu8, 0x4cu8]);
        }
        if desc {
            assert(tag@ =~= seq![0x44u8, 0x45u8, 0x53u8, 0x43u8]);
        }
        if tag@ == seq![0x46u8, 0x55u8, 0x4cu8, 0x4cu8] {
            assert(tag@[0] == 0x46u8 && tag@[1] == 0x55u8 && tag@[2] == 0x4cu8 && tag@[3] == 0x4cu8);
        }
        if tag@ == seq![0x44u8, 0x45u8, 0x53u8, 0x43u8] {
            assert(tag@[0] == 0x44u8 && tag@[1] == 0x45u8 && tag@[2] == 0x53u8 && tag@[3] == 0x43u8);
        }
    }
    full || desc
}

/// A payload re-encoded from text, keeping a trailing null if the old one had it.
pub open spec fn encoded_text(text: Seq<char>, null_terminated: bool) -> Seq<u8> {
    if null_terminated {
        vstd::utf8::encode_utf8(text).push(0u8)
    } else {
        vstd::utf8::encode_utf8(text)
    }
}

pub fn encode_string(text: &str, null_terminated: bool) -> (r: Vec<u8>)
    ensures
        r@ == encoded_text(text@, null_terminated),
{
    let mut out = vstd::slice::slice_to_vec(text.as_bytes());
    if null_terminated {
        out.push(0u8);
    }
    out
}

/// The three tables as id-to-text maps.
pub type MapsV = (Map<u32, Seq<char>>, Map<u32, Seq<char>>, Map<u32, Seq<char>>);

/// An id-to-text map of one table; a later entry with the same id wins.
pub open spec fn table_index(es: Seq<EntryView>) -> Map<u32, Seq<char>>
    decreases es.len(),
{
    if es.len() == 0 {
        Map::empty()
    } else {
        table_index(es.drop_last()).insert(es.last().0, es.last().1)
    }
}

pub open spec fn opt_index(f: Option<StringsFile>) -> Map<u32, Seq<char>> {
    match f {
        Some(t) => table_index(t@),
        None => Map::empty(),
    }
}

/// The up-to-three tables that belong to one plugin and one language.
#[derive(Debug)]
pub struct StringsBundle {
    pub strings: Option<StringsFile>,
    pub dlstrings: Option<StringsFile>,
    pub ilstrings: Option<StringsFile>,
}

pub open spec fn bundle_maps(b: StringsBundle) -> MapsV {
    (opt_index(b.strings), opt_index(b.dlstrings), opt_index(b.ilstrings))
}

/// The merged lookup over the loaded tables, passed explicitly to whoever
/// needs it.
pub struct StringsMap {
    pub strings: HashMap<u32, String>,
    pub dlstrings: HashMap<u32, String>,
    pub ilstrings: HashMap<u32, String>,
}

pub open spec fn text_map(m: HashMap<u32, String>) -> Map<u32, Seq<char>> {
    m@.map_values(|s: String| s@)
}

impl View for StringsMap {
    type V = MapsV;

    open spec fn view(&self) -> MapsV {
        (text_map(self.strings), text_map(self.dlstrings), text_map(self.ilstrings))
    }
}

/// Looks an id up in the tables in priority order: plain, then the two
/// length-prefixed ones.
pub open spec fn lookup_spec(m: MapsV, id: u32) -> Option<(StringsKind, Seq<char>)> {
    if m.0.contains_key(id) {
        Some((StringsKind::Strings, m.0[id]))
    } else if m.1.contains_key(id) {
        Some((StringsKind::DlStrings, m.1[id]))
    } else if m.2.contains_key(id) {
        Some((StringsKind::IlStrings, m.2[id]))
    } else {
        None
    }
}

/// An id-to-text map of one table.
pub fn table_map(f: &StringsFile) -> (m: HashMap<u32, String>)
    ensures
        text_map(m) == table_index(f@),
{
    broadcast use vstd::std_specs::hash::group_hash_axioms;
    let mut m: HashMap<u32, String> = HashMap::new();
    let n = f.entries.len();
    assert(text_map(m) =~= table_index(f@.take(0)));
    for i in 0..n
        invariant
            n == f.entries@.len(),
            text_map(m) == table_index(f@.take(i as int)),
    {
        let e = &f.entries[i];
        m.insert(e.id, e.text.clone());
        proof {
            assert(f@.take(i + 1).drop_last() =~= f@.take(i as int));
            assert(f@.take(i + 1).last() == f@[i as int]);
            assert(text_map(m) =~= table_index(f@.take(i + 1)));
        }
    }
    assert(f@.take(n as int) =~= f@);
    m
}

fn build_string_index(file: &Option<StringsFile>) -> (m: HashMap<u32, String>)
    ensures
        text_map(m) == opt_index(*file),
{
    match file {
        None => {
            let m: HashMap<u32, String> = HashMap::new();
            assert(text_map(m) =~= Map::<u32, Seq<char>>::empty());
            m
        },
        Some(f) => table_map(f),
    }
}

impl StringsMap {
    /// The lookup over a bundle's loaded tables.
    pub fn new(bundle: &StringsBundle) -> (m: StringsMap)
        ensures
            m@ == bundle_maps(*bundle),
    {
        StringsMap {
            strings: build_string_index(&bundle.strings),
            dlstrings: build_string_index(&bundle.dlstrings),
            ilstrings: build_string_index(&bundle.ilstrings),
        }
    }

    /// The first table, in priority order, that holds `id`, and its text there.
    pub fn lookup(&self, id: u32) -> (r: Option<(StringsKind, String)>)
        ensures
            match lookup_spec(self@, id) {
                Some((k, t)) => r matches Some((k2, t2)) && k2 == k && t2@ == t,
                None => r is None,
            },
    {
        broadcast use vstd::std_specs::hash::group_hash_axioms;
        if let Some(t) = self.strings.get(&id) {
            return Some((StringsKind::Strings, t.clone()));
        }
        if let Some(t) = self.dlstrings.get(&id) {
            return Some((StringsKind::DlStrings, t.clone()));
        }
        if let Some(t) = self.ilstrings.get(&id) {
            return Some((StringsKind::IlStrings, t.clone()));
        }
        None
    }
}

/// How a subrecord payload reads as text: a four-byte payload naming a table
/// id is that table's text; otherwise the bytes up to the first null, if they
/// are non-empty UTF-8 that looks like text.
pub open spec fn decode_spec(data: Seq<u8>, m: MapsV) -> Option<(Seq<char>, StringStorage)> {
    if data.len() == 4 && lookup_spec(m, u32_at(data, 0)) is Some {
        let hit = lookup_spec(m, u32_at(data, 0))->0;
        Some((hit.1, StringStorage::Localized { kind: hit.0, id: u32_at(data, 0) }))
    } else {
        let hi = nul_from(data, 0, data.len() as int);
        let slice = data.subrange(0, hi);
        if hi == 0 || !valid_utf8(slice) {
            None
        } else if !looks_like_text_spec(decode_utf8(slice)) {
            None
        } else {
            Some((decode_utf8(slice), StringStorage::Inline))
        }
    }
}

/// Classifies a subrecord payload as localized, inline text, or no text.
pub fn decode_subrecord_string(data: &[u8], map: &StringsMap) -> (r: Option<(String, StringStorage)>)
    ensures
        match decode_spec(data@, map@) {
            Some((t, st)) => r matches Some((t2, st2)) && t2@ == t && st2 == st,
            None => r is None,
        },
{
    if data.len() == 4 {
        let id = crate::plugin::read_u32(data, 0);
        if let Some((kind, text)) = map.lookup(id) {
            return Some((text, StringStorage::Localized { kind, id }));
        }
    }
    let mut hi: usize = 0;
    while hi < data.len() && data[hi] != 0
        invariant
            hi <= data@.len(),
            nul_from(data@, 0, data@.len() as int) == nul_from(data@, hi as int, data@.len() as int),
        decreases data@.len() - hi,
    {
        hi = hi + 1;
    }
    if hi == 0 {
        return None;
    }
    let text = match utf8_to_string(vstd::slice::slice_subrange(data, 0, hi)) {
        Some(t) => t,
        None => return None,
    };
    if !looks_like_text(text.as_str()) {
        return None;
    }
    Some((text, StringStorage::Inline))
}


/// A subrecord that yields a text: a string-bearing tag whose payload decodes.
pub open spec fn is_site(s: SubV, m: MapsV) -> bool {
    is_string_tag(s.0) && decode_spec(s.1, m) is Some
}

/// How many of the first `j` subrecords yield a text: the index of the text
/// that subrecord `j` yields, if it yields one.
pub open spec fn ordinal(subs: Seq<SubV>, m: MapsV, j: int) -> int
    decreases j,
{
    if j <= 0 {
        0
    } else {
        ordinal(subs, m, j - 1) + if is_site(subs[j - 1], m) {
            1int
        } else {
            0int
        }
    }
}

/// The texts found among the first `k` subrecords of a record.
pub open spec fn record_strings(rt: Seq<u8>, form_id: u32, subs: Seq<SubV>, m: MapsV, k: int) -> Seq<
    ExV,
>
    decreases k,
{
    if k <= 0 {
        Seq::empty()
    } else {
        let prev = record_strings(rt, form_id, subs, m, k - 1);
        let s = subs[k - 1];
        let idx = ordinal(subs, m, k - 1);
        if is_site(s, m) {
            let d = decode_spec(s.1, m)->0;
            prev.push((key_spec(rt, form_id, s.0, idx as nat), rt, s.0, form_id, idx as usize, d.0, d.1))
        } else {
            prev
        }
    }
}

pub open spec fn block_strings(b: Block, m: MapsV) -> Seq<ExV> {
    match b {
        Block::Record(r) => record_strings(
            r.header.record_type@,
            r.header.form_id,
            sub_views(r.subrecords@),
            m,
            r.subrecords@.len() as int,
        ),
        Block::Group(_, _) => Seq::empty(),
    }
}

/// The texts of the last `k` nodes, the last node first: the order in which a
/// stack seeded with the top level, and refilled with each group's contents,
/// hands the records out.
pub open spec fn tree_strings(bs: Seq<Block>, m: MapsV, k: int) -> Seq<ExV>
    decreases k,
{
    if k <= 0 || k > bs.len() {
        Seq::empty()
    } else {
        tree_strings(bs, m, k - 1) + block_strings(bs[bs.len() - k], m)
    }
}

fn collect_strings(rec: &Record, map: &StringsMap, results: &mut Vec<ExtractedString>)
    ensures
        ex_views(final(results)@) == ex_views(old(results)@) + block_strings(Block::Record(*rec), map@),
{
    let ghost start = ex_views(results@);
    let ghost subs = sub_views(rec.subrecords@);
    let ghost rt = rec.header.record_type@;
    let n = rec.subrecords.len();
    let mut index: usize = 0;
    for j in 0..n
        invariant
            n == rec.subrecords@.len(),
            subs == sub_views(rec.subrecords@),
            rt == rec.header.record_type@,
            index == ordinal(subs, map@, j as int),
            index <= j,
            ex_views(results@) == start + record_strings(rt, rec.header.form_id, subs, map@, j as int),
    {
        let sub = &rec.subrecords[j];
        proof {
            assert(subs[j as int] == sub@);
        }
        if is_string_subrecord(&sub.sub_type) {
            match decode_subrecord_string(sub.data.as_slice(), map) {
                Some((text, storage)) => {
                    let key = format_key(&rec.header.record_type, rec.header.form_id, &sub.sub_type, index);
                    let ghost before = results@;
                    let e = ExtractedString {
                        key,
                        record_type: rec.header.record_type,
                        subrecord_type: sub.sub_type,
                        form_id: rec.header.form_id,
                        index,
                        text,
                        storage,
                    };
                    results.push(e);
                    proof {
                        assert(ex_views(results@) =~= ex_views(before).push(e@));
                    }
                    index = index + 1;
                },
                None => {},
            }
        }
    }
}

/// Every text of the tree, in walk order.
pub fn extract_from_plugin(p: &Plugin, map: &StringsMap) -> (r: Vec<ExtractedString>)
    ensures
        ex_views(r@) == tree_strings(p.blocks@, map@, p.blocks@.len() as int),
{
    let mut results: Vec<ExtractedString> = Vec::new();
    let n = p.blocks.len();
    proof {
        assert(ex_views(results@) =~= Seq::<ExV>::empty());
    }
    for k in 0..n
        invariant
            n == p.blocks@.len(),
            ex_views(results@) == tree_strings(p.blocks@, map@, k as int),
    {
        match &p.blocks[n - 1 - k] {
            Block::Record(rec) => {
                collect_strings(rec, map, &mut results);
            },
            Block::Group(_, _) => {
                proof {
                    assert(ex_views(results@) =~= ex_views(results@) + Seq::<ExV>::empty());
                }
            },
        }
    }
    results
}

/// `v` is what extraction reports for the plugin file `bytes` with the tables `m`.
pub open spec fn extracts_as(bytes: Seq<u8>, m: MapsV, v: Seq<ExV>) -> bool {
    match plugin_parse(bytes) {
        Ok(ss) => exists|bs: Seq<Block>|
            #![trigger blocks_are(bs, ss, bytes)]
            blocks_are(bs, ss, bytes) && v == tree_strings(bs, m, bs.len() as int),
        Err(_) => false,
    }
}

/// Parses a plugin file and reports every text in it, with the tables of
/// `bundle` resolving localized ids.
pub fn extract_strings_from_bytes(bytes: &[u8], bundle: &StringsBundle) -> (r: Result<
    Vec<ExtractedString>,
    EspError,
>)
    ensures
        match r {
            Ok(v) => extracts_as(bytes@, bundle_maps(*bundle), ex_views(v@)),
            Err(e) => plugin_parse(bytes@) == Err::<Seq<Shape>, EspError>(e),
        },
{
    let map = StringsMap::new(bundle);
    let p = match parse_plugin(bytes) {
        Ok(p) => p,
        Err(e) => return Err(e),
    };
    let v = extract_from_plugin(&p, &map);
    proof {
        let ss = plugin_parse(bytes@)->Ok_0;
        assert(blocks_are(p.blocks@, ss, bytes@));
    }
    Ok(v)
}

proof fn lemma_tree_strings_agree(b1: Seq<Block>, b2: Seq<Block>, ss: Seq<Shape>, bytes: Seq<u8>, m: MapsV, k: int)
    requires
        blocks_are(b1, ss, bytes),
        blocks_are(b2, ss, bytes),
    ensures
        tree_strings(b1, m, k) == tree_strings(b2, m, k),
    decreases k,
{
    if k > 0 && k <= b1.len() {
        lemma_tree_strings_agree(b1, b2, ss, bytes, m, k - 1);
        let i = b1.len() - k;
        assert(block_is(b1[i], ss[i], bytes));
        assert(block_is(b2[i], ss[i], bytes));
        match b1[i] {
            Block::Record(r1) => {
                match b2[i] {
                    Block::Record(r2) => {
                        assert(r1.header.record_type@ == r2.header.record_type@);
                        assert(r1.header.form_id == r2.header.form_id);
                        assert(sub_views(r1.subrecords@) == sub_views(r2.subrecords@));
                        assert(sub_views(r1.subrecords@).len() == r1.subrecords@.len());
                        assert(sub_views(r2.subrecords@).len() == r2.subrecords@.len());
                        assert(block_strings(b1[i], m) == block_strings(b2[i], m));
                    },
                    Block::Group(_, _) => {},
                }
            },
            Block::Group(_, _) => {
                assert(b2[i] is Group);
                assert(block_strings(b1[i], m) == block_strings(b2[i], m));
            },
        }
        assert(b2.len() == b1.len());
    }
}

/// Extraction is a function of the file and the tables: running it twice on
/// the same input reports the same keys, texts and storage, in the same order.
pub proof fn lemma_extraction_stable(bytes: Seq<u8>, m: MapsV, v1: Seq<ExV>, v2: Seq<ExV>)
    requires
        extracts_as(bytes, m, v1),
        extracts_as(bytes, m, v2),
    ensures
        v1 == v2,
{
    let ss = plugin_parse(bytes)->Ok_0;
    let b1 = choose|bs: Seq<Block>| blocks_are(bs, ss, bytes) && v1 == tree_strings(bs, m, bs.len() as int);
    let b2 = choose|bs: Seq<Block>| blocks_are(bs, ss, bytes) && v2 == tree_strings(bs, m, bs.len() as int);
    lemma_tree_strings_agree(b1, b2, ss, bytes, m, b1.len() as int);
}


/// The first entry of a table that holds `id`.
pub open spec fn first_with_id(es: Seq<EntryView>, id: u32, n: int) -> Option<int>
    decreases n,
{
    if n <= 0 {
        None
    } else {
        match first_with_id(es, id, n - 1) {
            Some(q) => Some(q),
            None => if es[n - 1].0 == id {
                Some(n - 1)
            } else {
                None
            },
        }
    }
}

/// The outcome of setting the text of table id `id` to `text`.
pub open spec fn table_updated(
    old: Option<StringsFile>,
    new: Option<StringsFile>,
    kind: StringsKind,
    id: u32,
    text: Seq<char>,
    r: Result<(), EspError>,
) -> bool {
    match old {
        None => r == Err::<(), EspError>(EspError::MissingStringsFile(kind)) && new is None,
        Some(f) => match first_with_id(f@, id, f@.len() as int) {
            None => r == Err::<(), EspError>(EspError::MissingStringId(id)) && (new matches Some(g)
                && g@ == f@),
            Some(q) => r is Ok && (new matches Some(g) && g@ == f@.update(q, (id, text))),
        },
    }
}

fn update_table(t: &mut Option<StringsFile>, kind: StringsKind, id: u32, text: &String) -> (r: Result<(), EspError>)
    ensures
        table_updated(*old(t), *final(t), kind, id, text@, r),
{
    match t {
        None => Err(EspError::MissingStringsFile(kind)),
        Some(f) => {
            let n = f.entries.len();
            let mut q: usize = 0;
            while q < n && f.entries[q].id != id
                invariant
                    n == f.entries@.len(),
                    q <= n,
                    first_with_id(f@, id, q as int) is None,
                decreases n - q,
            {
                q = q + 1;
            }
            if q == n {
                return Err(EspError::MissingStringId(id));
            }
            let ghost before = f.entries@;
            f.entries[q] = StringsEntry { id, text: text.clone() };
            proof {
                assert(first_with_id(crate::strings::entry_views(before), id, q + 1) == Some(q as int)) by {
                    assert(before[q as int].id == id);
                    assert(crate::strings::entry_views(before)[q as int].0 == id);
                }
                assert forall|n2: int| q < n2 <= n implies first_with_id(
                    crate::strings::entry_views(before),
                    id,
                    n2,
                ) == Some(q as int) by {
                    lemma_first_with_id_stable(crate::strings::entry_views(before), id, q as int, n2);
                }
                assert(f@ =~= crate::strings::entry_views(before).update(q as int, (id, text@)));
            }
            Ok(())
        },
    }
}

proof fn lemma_first_with_id_stable(es: Seq<EntryView>, id: u32, q: int, n: int)
    requires
        0 <= q < n <= es.len(),
        first_with_id(es, id, q + 1) == Some(q),
    ensures
        first_with_id(es, id, n) == Some(q),
    decreases n,
{
    if n > q + 1 {
        lemma_first_with_id_stable(es, id, q, n - 1);
    }
}

pub open spec fn bundle_table(b: StringsBundle, kind: StringsKind) -> Option<StringsFile> {
    match kind {
        StringsKind::Strings => b.strings,
        StringsKind::DlStrings => b.dlstrings,
        StringsKind::IlStrings => b.ilstrings,
    }
}

/// Sets the text of one table entry, the first that holds `id`, in the table of `kind`.
pub fn update_strings_bundle(bundle: &mut StringsBundle, kind: StringsKind, id: u32, text: &String) -> (r: Result<(), EspError>)
    ensures
        table_updated(bundle_table(*old(bundle), kind), bundle_table(*final(bundle), kind), kind, id, text@, r),
        forall|k: StringsKind| k != kind ==> bundle_table(*final(bundle), k) == bundle_table(*old(bundle), k),
{
    match kind {
        StringsKind::Strings => update_table(&mut bundle.strings, kind, id, text),
        StringsKind::DlStrings => update_table(&mut bundle.dlstrings, kind, id, text),
        StringsKind::IlStrings => update_table(&mut bundle.ilstrings, kind, id, text),
    }
}


/// The translation that answers `key`: the last of the first `n` listed under it.
pub open spec fn chosen(ts: Seq<ExV>, key: Seq<char>, n: int) -> Option<int>
    decreases n,
{
    if n <= 0 {
        None
    } else if ts[n - 1].0 == key {
        Some(n - 1)
    } else {
        chosen(ts, key, n - 1)
    }
}

fn find_translation(ts: &Vec<ExtractedString>, key: &String) -> (r: Option<usize>)
    ensures
        r matches Some(t) ==> t < ts@.len() && chosen(ex_views(ts@), key@, ts@.len() as int) == Some(t as int),
        r is None ==> chosen(ex_views(ts@), key@, ts@.len() as int) is None,
{
    let mut n = ts.len();
    while n > 0
        invariant
            n <= ts@.len(),
            chosen(ex_views(ts@), key@, ts@.len() as int) == chosen(ex_views(ts@), key@, n as int),
        decreases n,
    {
        if ts[n - 1].key == *key {
            return Some(n - 1);
        }
        n = n - 1;
    }
    None
}

/// A payload ends with a null byte.
pub open spec fn null_terminated(d: Seq<u8>) -> bool {
    d.len() > 0 && d.last() == 0
}

/// The payload of subrecord `j` once the translations are applied.
pub open spec fn applied_data(rt: Seq<u8>, form_id: u32, subs: Seq<SubV>, j: int, ts: Seq<ExV>, m: MapsV) -> Seq<u8> {
    let s = subs[j];
    if !is_site(s, m) {
        s.1
    } else {
        match chosen(ts, key_spec(rt, form_id, s.0, ordinal(subs, m, j) as nat), ts.len() as int) {
            Some(t) => match ts[t].6 {
                StringStorage::Inline => encoded_text(ts[t].5, null_terminated(s.1)),
                StringStorage::Localized { .. } => s.1,
            },
            None => s.1,
        }
    }
}

/// `new` is `old` with the translations applied to its inline texts.
pub open spec fn record_applied(old: Record, new: Record, ts: Seq<ExV>, m: MapsV) -> bool {
    let subs = sub_views(old.subrecords@);
    &&& new.header == old.header
    &&& new.compressed == old.compressed
    &&& new.subrecords@.len() == old.subrecords@.len()
    &&& forall|j: int|
        0 <= j < old.subrecords@.len() ==> (#[trigger] new.subrecords@[j]).sub_type
            == old.subrecords@[j].sub_type && new.subrecords@[j].data@ == applied_data(
            old.header.record_type@,
            old.header.form_id,
            subs,
            j,
            ts,
            m,
        )
}

pub open spec fn tree_applied(old: Seq<Block>, new: Seq<Block>, ts: Seq<ExV>, m: MapsV) -> bool {
    &&& new.len() == old.len()
    &&& forall|i: int|
        0 <= i < old.len() ==> match #[trigger] old[i] {
            Block::Record(a) => new[i] matches Block::Record(b) && record_applied(a, b, ts, m),
            Block::Group(g, n) => new[i] matches Block::Group(g2, n2) && g2 == g && n2 == n,
        }
}

/// The three tables as entry lists, `None` for a table not loaded.
pub type BundleV = (Option<Seq<EntryView>>, Option<Seq<EntryView>>, Option<Seq<EntryView>>);

pub open spec fn opt_table(f: Option<StringsFile>) -> Option<Seq<EntryView>> {
    match f {
        Some(t) => Some(t@),
        None => None,
    }
}

pub open spec fn bundle_view(b: StringsBundle) -> BundleV {
    (opt_table(b.strings), opt_table(b.dlstrings), opt_table(b.ilstrings))
}

pub open spec fn table_of(b: BundleV, kind: StringsKind) -> Option<Seq<EntryView>> {
    match kind {
        StringsKind::Strings => b.0,
        StringsKind::DlStrings => b.1,
        StringsKind::IlStrings => b.2,
    }
}

pub open spec fn with_table(b: BundleV, kind: StringsKind, t: Option<Seq<EntryView>>) -> BundleV {
    match kind {
        StringsKind::Strings => (t, b.1, b.2),
        StringsKind::DlStrings => (b.0, t, b.2),
        StringsKind::IlStrings => (b.0, b.1, t),
    }
}

/// A localized edit: the table, the id, the new text.
pub type Update = (StringsKind, u32, Seq<char>);

/// One localized edit: the first entry of the table holding the id takes the text.
pub open spec fn update_step(b: BundleV, u: Update) -> Result<BundleV, EspError> {
    match table_of(b, u.0) {
        None => Err(EspError::MissingStringsFile(u.0)),
        Some(es) => match first_with_id(es, u.1, es.len() as int) {
            None => Err(EspError::MissingStringId(u.1)),
            Some(q) => Ok(with_table(b, u.0, Some(es.update(q, (u.1, u.2))))),
        },
    }
}

/// The edits applied in order; the first that fails stops the work.
pub open spec fn updates_applied(b: BundleV, us: Seq<Update>) -> Result<BundleV, EspError>
    decreases us.len(),
{
    if us.len() == 0 {
        Ok(b)
    } else {
        match updates_applied(b, us.drop_last()) {
            Err(e) => Err(e),
            Ok(b2) => update_step(b2, us.last()),
        }
    }
}

/// The localized edits the translations make among the first `k` subrecords
/// of a record.
pub open spec fn record_updates(rt: Seq<u8>, form_id: u32, subs: Seq<SubV>, ts: Seq<ExV>, m: MapsV, k: int) -> Seq<Update>
    decreases k,
{
    if k <= 0 {
        Seq::empty()
    } else {
        let prev = record_updates(rt, form_id, subs, ts, m, k - 1);
        let s = subs[k - 1];
        if !is_site(s, m) {
            prev
        } else {
            match chosen(ts, key_spec(rt, form_id, s.0, ordinal(subs, m, k - 1) as nat), ts.len() as int) {
                Some(t) => match ts[t].6 {
                    StringStorage::Localized { kind, id } => prev.push((kind, id, ts[t].5)),
                    StringStorage::Inline => prev,
                },
                None => prev,
            }
        }
    }
}

pub open spec fn block_updates(b: Block, ts: Seq<ExV>, m: MapsV) -> Seq<Update> {
    match b {
        Block::Record(r) => record_updates(
            r.header.record_type@,
            r.header.form_id,
            sub_views(r.subrecords@),
            ts,
            m,
            r.subrecords@.len() as int,
        ),
        Block::Group(_, _) => Seq::empty(),
    }
}

/// The localized edits of the last `k` nodes, in walk order.
pub open spec fn tree_updates(bs: Seq<Block>, ts: Seq<ExV>, m: MapsV, k: int) -> Seq<Update>
    decreases k,
{
    if k <= 0 || k > bs.len() {
        Seq::empty()
    } else {
        tree_updates(bs, ts, m, k - 1) + block_updates(bs[bs.len() - k], ts, m)
    }
}

proof fn lemma_updates_concat(b: BundleV, u1: Seq<Update>, u2: Seq<Update>)
    ensures
        updates_applied(b, u1 + u2) == match updates_applied(b, u1) {
            Ok(b1) => updates_applied(b1, u2),
            Err(e) => Err(e),
        },
    decreases u2.len(),
{
    if u2.len() == 0 {
        assert(u1 + u2 =~= u1);
    } else {
        lemma_updates_concat(b, u1, u2.drop_last());
        assert((u1 + u2).drop_last() =~= u1 + u2.drop_last());
        assert((u1 + u2).last() == u2.last());
    }
}

fn update_bundle_entry(bundle: &mut StringsBundle, kind: StringsKind, id: u32, text: &String) -> (r: Result<(), EspError>)
    ensures
        match update_step(bundle_view(*old(bundle)), (kind, id, text@)) {
            Ok(b) => r is Ok && bundle_view(*final(bundle)) == b,
            Err(e) => r == Err::<(), EspError>(e),
        },
{
    let r = update_strings_bundle(bundle, kind, id, text);
    proof {
        let ob = bundle_view(*old(bundle));
        let nb = bundle_view(*bundle);
        assert(table_of(ob, kind) == opt_table(bundle_table(*old(bundle), kind)));
        assert(table_of(nb, kind) == opt_table(bundle_table(*bundle, kind)));
        assert(bundle_table(*bundle, StringsKind::Strings) == bundle.strings);
        assert(bundle_table(*bundle, StringsKind::DlStrings) == bundle.dlstrings);
        assert(bundle_table(*bundle, StringsKind::IlStrings) == bundle.ilstrings);
        assert(bundle_table(*old(bundle), StringsKind::Strings) == old(bundle).strings);
        assert(bundle_table(*old(bundle), StringsKind::DlStrings) == old(bundle).dlstrings);
        assert(bundle_table(*old(bundle), StringsKind::IlStrings) == old(bundle).ilstrings);
        if r is Ok {
            assert(nb =~= with_table(ob, kind, table_of(nb, kind)));
        }
    }
    r
}

/// Applies the translations to one record: an inline text is re-encoded into
/// its payload, a localized one is written to its table.
fn apply_to_record(rec: &mut Record, map: &StringsMap, bundle: &mut StringsBundle, ts: &Vec<ExtractedString>) -> (r: Result<(), EspError>)
    ensures
        match updates_applied(bundle_view(*old(bundle)), block_updates(Block::Record(*old(rec)), ex_views(ts@), map@)) {
            Ok(b) => r is Ok && bundle_view(*final(bundle)) == b && record_applied(*old(rec), *final(rec), ex_views(ts@), map@),
            Err(e) => r == Err::<(), EspError>(e),
        },
{
    let ghost tv = ex_views(ts@);
    let ghost old_rec = *rec;
    let ghost ob = bundle_view(*bundle);
    let ghost subs = sub_views(rec.subrecords@);
    let ghost rt = rec.header.record_type@;
    let n = rec.subrecords.len();
    let mut index: usize = 0;
    for j in 0..n
        invariant
            n == old_rec.subrecords@.len(),
            tv == ex_views(ts@),
            subs == sub_views(old_rec.subrecords@),
            rt == old_rec.header.record_type@,
            old_rec == *old(rec),
            ob == bundle_view(*old(bundle)),
            rec.header == old_rec.header,
            rec.compressed == old_rec.compressed,
            rec.subrecords@.len() == n,
            index == ordinal(subs, map@, j as int),
            index <= j,
            forall|j2: int| 0 <= j2 < n ==> (#[trigger] rec.subrecords@[j2]).sub_type == old_rec.subrecords@[j2].sub_type,
            forall|j2: int| j <= j2 < n ==> (#[trigger] rec.subrecords@[j2]).data@ == old_rec.subrecords@[j2].data@,
            forall|j2: int|
                0 <= j2 < j ==> (#[trigger] rec.subrecords@[j2]).data@ == applied_data(
                    old_rec.header.record_type@,
                    old_rec.header.form_id,
                    subs,
                    j2,
                    tv,
                    map@,
                ),
            updates_applied(ob, record_updates(rt, old_rec.header.form_id, subs, tv, map@, j as int))
                == Ok::<BundleV, EspError>(bundle_view(*bundle)),
    {
        let tag = rec.subrecords[j].sub_type;
        proof {
            assert(subs[j as int] == rec.subrecords@[j as int]@);
            assert(subs[j as int].1 == old_rec.subrecords@[j as int].data@);
        }
        let ghost us = record_updates(rt, old_rec.header.form_id, subs, tv, map@, j as int);
        let yields = is_string_subrecord(&tag) && decode_subrecord_string(rec.subrecords[j].data.as_slice(), map).is_some();
        proof {
            assert(yields == is_site(subs[j as int], map@));
        }
        if yields {
            let key = format_key(&rec.header.record_type, rec.header.form_id, &tag, index);
            proof {
                assert(tag@ == subs[j as int].0);
                assert(key@ == key_spec(rt, old_rec.header.form_id, subs[j as int].0, ordinal(subs, map@, j as int) as nat));
            }
            match find_translation(ts, &key) {
                Some(t) => {
                    proof {
                        assert(tv[t as int] == ts@[t as int]@);
                        assert(tv[t as int].6 == ts@[t as int].storage);
                        assert(tv[t as int].5 == ts@[t as int].text@);
                    }
                    match ts[t].storage {
                        StringStorage::Inline => {
                            let nul = {
                                let d = &rec.subrecords[j].data;
                                d.len() > 0 && d[d.len() - 1] == 0
                            };
                            let data = encode_string(ts[t].text.as_str(), nul);
                            rec.subrecords[j] = Subrecord { sub_type: tag, data };
                        },
                        StringStorage::Localized { kind, id } => {
                            let ghost pre = bundle_view(*bundle);
                            match update_bundle_entry(bundle, kind, id, &ts[t].text) {
                                Ok(()) => {
                                    proof {
                                        let u = (kind, id, ts@[t as int].text@);
                                        assert(record_updates(rt, old_rec.header.form_id, subs, tv, map@, j + 1)
                                            == us.push(u));
                                        assert(us.push(u).drop_last() =~= us);
                                        assert(us.push(u).last() == u);
                                    }
                                },
                                Err(e) => {
                                    proof {
                                        let us1 = us.push((kind, id, ts@[t as int].text@));
                                        assert(record_updates(rt, old_rec.header.form_id, subs, tv, map@, j + 1) == us1);
                                        assert(us1.drop_last() =~= us);
                                        assert(us1.last() == (kind, id, ts@[t as int].text@));
                                        assert(updates_applied(ob, us1) == Err::<BundleV, EspError>(e));
                                        let rest = subs.len() as int;
                                        lemma_record_updates_prefix(rt, old_rec.header.form_id, subs, tv, map@, j + 1, rest);
                                        let tail = choose|tail: Seq<Update>| record_updates(rt, old_rec.header.form_id, subs, tv, map@, rest) == #[trigger] (us1 + tail);
                                        lemma_updates_concat(ob, us1, tail);
                                    }
                                    return Err(e);
                                },
                            }
                        },
                    }
                },
                None => {},
            }
            index = index + 1;
        }
    }
    Ok(())
}

proof fn lemma_record_updates_prefix(rt: Seq<u8>, form_id: u32, subs: Seq<SubV>, ts: Seq<ExV>, m: MapsV, j: int, k: int)
    requires
        0 <= j <= k,
    ensures
        exists|tail: Seq<Update>| record_updates(rt, form_id, subs, ts, m, k) == #[trigger] (record_updates(rt, form_id, subs, ts, m, j) + tail),
    decreases k - j,
{
    if j == k {
        assert(record_updates(rt, form_id, subs, ts, m, k) =~= record_updates(rt, form_id, subs, ts, m, j) + Seq::<Update>::empty());
    } else {
        lemma_record_updates_prefix(rt, form_id, subs, ts, m, j, k - 1);
        let tail = choose|tail: Seq<Update>| record_updates(rt, form_id, subs, ts, m, k - 1) == #[trigger] (record_updates(rt, form_id, subs, ts, m, j) + tail);
        let last = record_updates(rt, form_id, subs, ts, m, k);
        if last == record_updates(rt, form_id, subs, ts, m, k - 1) {
            assert(last == record_updates(rt, form_id, subs, ts, m, j) + tail);
        } else {
            let x = last.last();
            assert(last =~= record_updates(rt, form_id, subs, ts, m, j) + tail.push(x));
        }
    }
}

proof fn lemma_tree_updates_prefix(bs: Seq<Block>, ts: Seq<ExV>, m: MapsV, j: int, k: int)
    requires
        0 <= j <= k <= bs.len(),
    ensures
        exists|tail: Seq<Update>| tree_updates(bs, ts, m, k) == #[trigger] (tree_updates(bs, ts, m, j) + tail),
    decreases k - j,
{
    if j == k {
        assert(tree_updates(bs, ts, m, k) =~= tree_updates(bs, ts, m, j) + Seq::<Update>::empty());
    } else {
        lemma_tree_updates_prefix(bs, ts, m, j, k - 1);
        let tail = choose|tail: Seq<Update>| tree_updates(bs, ts, m, k - 1) == #[trigger] (tree_updates(bs, ts, m, j) + tail);
        assert(tree_updates(bs, ts, m, k) =~= tree_updates(bs, ts, m, j) + (tail + block_updates(bs[bs.len() - k], ts, m)));
    }
}

/// Applies the translations to every record of the tree, in walk order.
pub fn apply_to_plugin(p: &mut Plugin, bundle: &mut StringsBundle, ts: &Vec<ExtractedString>) -> (r: Result<(), EspError>)
    requires
        tree_wf(old(p).blocks@),
    ensures
        match updates_applied(bundle_view(*old(bundle)), tree_updates(old(p).blocks@, ex_views(ts@), bundle_maps(*old(bundle)), old(p).blocks@.len() as int)) {
            Ok(b) => r is Ok && bundle_view(*final(bundle)) == b && tree_applied(old(p).blocks@, final(p).blocks@, ex_views(ts@), bundle_maps(*old(bundle)))
                && tree_wf(final(p).blocks@),
            Err(e) => r == Err::<(), EspError>(e),
        },
{
    let ghost tv = ex_views(ts@);
    let ghost old_blocks = p.blocks@;
    let ghost ob = bundle_view(*bundle);
    let map = StringsMap::new(bundle);
    let ghost mv = map@;
    let n = p.blocks.len();
    for k in 0..n
        invariant
            n == old_blocks.len(),
            mv == map@,
            mv == bundle_maps(*old(bundle)),
            tv == ex_views(ts@),
            p.blocks@.len() == n,
            tree_wf(old_blocks),
            old_blocks == old(p).blocks@,
            ob == bundle_view(*old(bundle)),
            forall|i: int|
                0 <= i < n - k ==> #[trigger] p.blocks@[i] == old_blocks[i],
            forall|i: int|
                n - k <= i < n ==> match #[trigger] old_blocks[i] {
                    Block::Record(a) => p.blocks@[i] matches Block::Record(b) && record_applied(a, b, tv, mv),
                    Block::Group(g, c) => p.blocks@[i] matches Block::Group(g2, c2) && g2 == g && c2 == c,
                },
            updates_applied(ob, tree_updates(old_blocks, tv, mv, k as int)) == Ok::<BundleV, EspError>(bundle_view(*bundle)),
    {
        let i = n - 1 - k;
        let ghost pre_blocks = p.blocks@;
        let ghost pre = bundle_view(*bundle);
        proof {
            assert(tree_updates(old_blocks, tv, mv, k + 1) == tree_updates(old_blocks, tv, mv, k as int) + block_updates(old_blocks[i as int], tv, mv));
            lemma_updates_concat(ob, tree_updates(old_blocks, tv, mv, k as int), block_updates(old_blocks[i as int], tv, mv));
        }
        match &mut p.blocks[i] {
            Block::Record(rec) => {
                match apply_to_record(rec, &map, bundle, ts) {
                    Ok(()) => {},
                    Err(e) => {
                        proof {
                            lemma_tree_updates_prefix(old_blocks, tv, mv, k + 1, n as int);
                            let tail = choose|tail: Seq<Update>| tree_updates(old_blocks, tv, mv, n as int) == #[trigger] (tree_updates(old_blocks, tv, mv, k + 1) + tail);
                            lemma_updates_concat(ob, tree_updates(old_blocks, tv, mv, k + 1), tail);
                        }
                        return Err(e);
                    },
                }
            },
            Block::Group(_, _) => {
                proof {
                    assert(block_updates(old_blocks[i as int], tv, mv) =~= Seq::<Update>::empty());
                }
            },
        }
        proof {
            assert forall|i2: int| 0 <= i2 < n && i2 != i implies #[trigger] p.blocks@[i2] == pre_blocks[i2] by {}
        }
    }
    proof {
        assert forall|i: int| 0 <= i < n implies match #[trigger] p.blocks@[i] {
            Block::Group(_, c) => i + c < n,
            Block::Record(_) => true,
        } by {
            match old_blocks[i] {
                Block::Record(_) => {},
                Block::Group(_, _) => {},
            }
        }
    }
    Ok(())
}

/// A writer's result with its bytes as a sequence.
pub open spec fn bytes_result(r: Result<Vec<u8>, EspError>) -> Result<Seq<u8>, EspError> {
    match r {
        Ok(v) => Ok(v@),
        Err(e) => Err(e),
    }
}

/// `r` is what writing back the plugin file `bytes` gives once the
/// translations are applied to its tree: the bytes of the edited tree, or
/// the reason that tree cannot be written.
pub open spec fn rewrite_outcome(bytes: Seq<u8>, ts: Seq<ExV>, m: MapsV, r: Result<Seq<u8>, EspError>) -> bool {
    match plugin_parse(bytes) {
        Ok(ss) => exists|b1: Seq<Block>, b2: Seq<Block>|
            #![trigger blocks_are(b1, ss, bytes), tree_applied(b1, b2, ts, m)]
            blocks_are(b1, ss, bytes) && tree_applied(b1, b2, ts, m) && match r {
                Ok(out) => plugin_error(b2) is None && out == plugin_bytes(b2),
                Err(e) => plugin_error(b2) == Some(e),
            },
        Err(_) => false,
    }
}

/// The tables after the localized edits of the plugin file `bytes`.
pub open spec fn tables_after(bytes: Seq<u8>, b: BundleV, ts: Seq<ExV>, m: MapsV) -> Result<BundleV, EspError> {
    match plugin_parse(bytes) {
        Ok(ss) => {
            let bs = choose|bs: Seq<Block>| blocks_are(bs, ss, bytes);
            updates_applied(b, tree_updates(bs, ts, m, bs.len() as int))
        },
        Err(e) => Err(e),
    }
}

proof fn lemma_tree_updates_agree(b1: Seq<Block>, b2: Seq<Block>, ss: Seq<Shape>, bytes: Seq<u8>, ts: Seq<ExV>, m: MapsV, k: int)
    requires
        blocks_are(b1, ss, bytes),
        blocks_are(b2, ss, bytes),
    ensures
        tree_updates(b1, ts, m, k) == tree_updates(b2, ts, m, k),
    decreases k,
{
    if k > 0 && k <= b1.len() {
        lemma_tree_updates_agree(b1, b2, ss, bytes, ts, m, k - 1);
        let i = b1.len() - k;
        assert(block_is(b1[i], ss[i], bytes));
        assert(block_is(b2[i], ss[i], bytes));
        match b1[i] {
            Block::Record(r1) => {
                match b2[i] {
                    Block::Record(r2) => {
                        assert(r1.header.record_type@ == r2.header.record_type@);
                        assert(sub_views(r1.subrecords@) == sub_views(r2.subrecords@));
                        assert(sub_views(r1.subrecords@).len() == r1.subrecords@.len());
                        assert(sub_views(r2.subrecords@).len() == r2.subrecords@.len());
                        assert(block_updates(b1[i], ts, m) == block_updates(b2[i], ts, m));
                    },
                    Block::Group(_, _) => {},
                }
            },
            Block::Group(_, _) => {
                assert(b2[i] is Group);
            },
        }
        assert(b2.len() == b1.len());
    }
}

/// Parses a plugin file, applies the translations (inline ones to the file,
/// localized ones to `bundle`, in walk order) and writes the file back.
/// Nothing is written here: on failure the caller keeps its files as they were.
pub fn apply_translations_to_bytes(bytes: &[u8], bundle: &mut StringsBundle, ts: &Vec<ExtractedString>) -> (r: Result<
    Vec<u8>,
    EspError,
>)
    ensures
        match tables_after(bytes@, bundle_view(*old(bundle)), ex_views(ts@), bundle_maps(*old(bundle))) {
            Ok(b) => bundle_view(*final(bundle)) == b && rewrite_outcome(
                bytes@,
                ex_views(ts@),
                bundle_maps(*old(bundle)),
                bytes_result(r),
            ),
            Err(e) => r == Err::<Vec<u8>, EspError>(e),
        },
{
    let mut p = match parse_plugin(bytes) {
        Ok(p) => p,
        Err(e) => return Err(e),
    };
    let ghost b1 = p.blocks@;
    let ghost ss = plugin_parse(bytes@)->Ok_0;
    proof {
        let bs = choose|bs: Seq<Block>| blocks_are(bs, ss, bytes@);
        lemma_tree_updates_agree(bs, b1, ss, bytes@, ex_views(ts@), bundle_maps(*old(bundle)), b1.len() as int);
        assert(bs.len() == b1.len());
    }
    match apply_to_plugin(&mut p, bundle, ts) {
        Ok(()) => {},
        Err(e) => return Err(e),
    }
    let r = serialize_plugin(&p);
    proof {
        assert(blocks_are(b1, ss, bytes@));
        assert(tree_applied(b1, p.blocks@, ex_views(ts@), bundle_maps(*old(bundle))));
    }
    r
}

} // verus!
