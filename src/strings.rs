//! Localized string tables: the plain (`.strings`) and length-prefixed
//! (`.dlstrings` / `.ilstrings`) layouts share one codec.

use vstd::prelude::*;
use vstd::bytes::{spec_u32_from_le_bytes, spec_u32_to_le_bytes, u32_to_le_bytes, lemma_auto_spec_u32_to_from_le_bytes};
use vstd::utf8::{valid_utf8, decode_utf8, encode_utf8};
use crate::text::utf8_to_string;

verus! {

/// One table row: a numeric id and its text.
#[derive(Debug, PartialEq, Eq)]
pub struct StringsEntry {
    pub id: u32,
    pub text: String,
}

/// A whole table, in file order.
#[derive(Debug, PartialEq, Eq)]
pub struct StringsFile {
    pub entries: Vec<StringsEntry>,
}

#[derive(Debug, Clone, Copy, PartialEq, Eq, Structural)]
pub enum StringsError {
    UnexpectedEof,
    InvalidHeader,
    InvalidOffset,
    InvalidLength,
    MissingTerminator,
    Utf8,
    DuplicateId(u32),
}

pub type EntryView = (u32, Seq<char>);

impl View for StringsEntry {
    type V = EntryView;

    open spec fn view(&self) -> EntryView {
        (self.id, self.text@)
    }
}

impl View for StringsFile {
    type V = Seq<EntryView>;

    open spec fn view(&self) -> Seq<EntryView> {
        entry_views(self.entries@)
    }
}

pub open spec fn entry_views(s: Seq<StringsEntry>) -> Seq<EntryView> {
    s.map_values(|e: StringsEntry| e@)
}

pub open spec fn entry_ids(s: Seq<EntryView>) -> Seq<u32> {
    s.map_values(|e: EntryView| e.0)
}

/// Ids strictly ascending: the order in which a table is written.
pub open spec fn strictly_ascending(s: Seq<EntryView>) -> bool {
    forall|i: int, j: int| 0 <= i < j < s.len() ==> s[i].0 < s[j].0
}

/// `sorted` is the table `s` reordered by ascending id.
pub open spec fn is_sorted_form(sorted: Seq<EntryView>, s: Seq<EntryView>) -> bool {
    &&& strictly_ascending(sorted)
    &&& sorted.to_multiset() == s.to_multiset()
}

pub open spec fn u32_at(s: Seq<u8>, off: int) -> u32 {
    spec_u32_from_le_bytes(s.subrange(off, off + 4))
}

pub open spec fn le32(x: int) -> Seq<u8> {
    spec_u32_to_le_bytes(x as u32)
}

/// The bytes of one text in the data block.
pub open spec fn entry_bytes(text: Seq<char>, prefixed: bool) -> Seq<u8> {
    let b = encode_utf8(text);
    if prefixed {
        le32((b.len() + 1) as int) + b + seq![0u8]
    } else {
        b + seq![0u8]
    }
}

pub open spec fn data_block(es: Seq<EntryView>, prefixed: bool) -> Seq<u8>
    decreases es.len(),
{
    if es.len() == 0 {
        Seq::empty()
    } else {
        data_block(es.drop_last(), prefixed) + entry_bytes(es.last().1, prefixed)
    }
}

pub open spec fn directory(es: Seq<EntryView>, prefixed: bool) -> Seq<u8>
    decreases es.len(),
{
    if es.len() == 0 {
        Seq::empty()
    } else {
        directory(es.drop_last(), prefixed) + le32(es.last().0 as int) + le32(
            data_block(es.drop_last(), prefixed).len() as int,
        )
    }
}

/// The serialized table for entries already in their final order.
pub open spec fn table_bytes(es: Seq<EntryView>, prefixed: bool) -> Seq<u8> {
    le32(es.len() as int) + le32(data_block(es, prefixed).len() as int) + directory(es, prefixed)
        + data_block(es, prefixed)
}

/// The sizes a table header can express.
pub open spec fn table_fits(es: Seq<EntryView>, prefixed: bool) -> bool {
    &&& es.len() * 8 <= u32::MAX
    &&& data_block(es, prefixed).len() <= u32::MAX
}

/// No text of the table encodes a null byte.
pub open spec fn texts_free_of_nul(es: Seq<EntryView>) -> bool {
    forall|i: int, k: int|
        0 <= i < es.len() && 0 <= k < encode_utf8(es[i].1).len() ==> encode_utf8(es[i].1)[k] != 0
}


/// First null byte in `s[i..end)`, or `end` when there is none.
pub open spec fn nul_from(s: Seq<u8>, i: int, end: int) -> int
    decreases end - i,
{
    if i >= end {
        end
    } else if s[i] == 0 {
        i
    } else {
        nul_from(s, i + 1, end)
    }
}

/// Header of a table: entry count, start and end of the data block.
pub open spec fn header_result(input: Seq<u8>) -> Result<(int, int, int), StringsError> {
    if input.len() < 8 {
        Err(StringsError::InvalidHeader)
    } else {
        let count = u32_at(input, 0) as int;
        let size = u32_at(input, 4) as int;
        if count * 8 > u32::MAX {
            Err(StringsError::InvalidHeader)
        } else if 8 + count * 8 + size > input.len() {
            Err(StringsError::UnexpectedEof)
        } else {
            Ok((count, 8 + count * 8, 8 + count * 8 + size))
        }
    }
}

/// The text found at data-block offset `off`.
pub open spec fn text_at(input: Seq<u8>, start: int, end: int, off: int, prefixed: bool) -> Result<
    Seq<char>,
    StringsError,
> {
    if prefixed {
        let lo = start + off;
        if lo + 4 > input.len() {
            Err(StringsError::UnexpectedEof)
        } else {
            let len = u32_at(input, lo) as int;
            if len == 0 {
                Err(StringsError::InvalidLength)
            } else if lo + 4 + len > end {
                Err(StringsError::UnexpectedEof)
            } else if input[lo + 3 + len] != 0 {
                Err(StringsError::MissingTerminator)
            } else if !valid_utf8(input.subrange(lo + 4, lo + 3 + len)) {
                Err(StringsError::Utf8)
            } else {
                Ok(decode_utf8(input.subrange(lo + 4, lo + 3 + len)))
            }
        }
    } else {
        let lo = start + off;
        let hi = nul_from(input, lo, end);
        if hi >= end {
            Err(StringsError::MissingTerminator)
        } else if !valid_utf8(input.subrange(lo, hi)) {
            Err(StringsError::Utf8)
        } else {
            Ok(decode_utf8(input.subrange(lo, hi)))
        }
    }
}

/// Entry `i` of the directory, resolved against the data block.
pub open spec fn entry_at(input: Seq<u8>, start: int, end: int, i: int, prefixed: bool) -> Result<
    EntryView,
    StringsError,
> {
    let id = u32_at(input, 8 + 8 * i);
    let off = u32_at(input, 12 + 8 * i) as int;
    if off >= end - start {
        Err(StringsError::InvalidOffset)
    } else {
        match text_at(input, start, end, off, prefixed) {
            Ok(t) => Ok((id, t)),
            Err(e) => Err(e),
        }
    }
}

/// The first `n` entries, or the error of the first one that fails.
pub open spec fn entries_upto(input: Seq<u8>, start: int, end: int, n: int, prefixed: bool) -> Result<
    Seq<EntryView>,
    StringsError,
>
    decreases n,
{
    if n <= 0 {
        Ok(Seq::empty())
    } else {
        match entries_upto(input, start, end, n - 1, prefixed) {
            Err(e) => Err(e),
            Ok(s) => match entry_at(input, start, end, n - 1, prefixed) {
                Err(e) => Err(e),
                Ok(x) => Ok(s.push(x)),
            },
        }
    }
}

/// What reading a table yields.
pub open spec fn parse_table(input: Seq<u8>, prefixed: bool) -> Result<Seq<EntryView>, StringsError> {
    match header_result(input) {
        Err(e) => Err(e),
        Ok((count, start, end)) => entries_upto(input, start, end, count, prefixed),
    }
}

/// `bytes` is a successful write of the table `s`.
pub open spec fn write_ok(s: Seq<EntryView>, bytes: Seq<u8>, prefixed: bool) -> bool {
    &&& entry_ids(s).no_duplicates()
    &&& exists|sorted: Seq<EntryView>|
        #![trigger table_bytes(sorted, prefixed)]
        is_sorted_form(sorted, s) && table_fits(sorted, prefixed) && bytes == table_bytes(
            sorted,
            prefixed,
        )
}

/// What writing a table yields.
pub open spec fn write_result(s: Seq<EntryView>, r: Result<Vec<u8>, StringsError>, prefixed: bool) -> bool {
    match r {
        Ok(bytes) => write_ok(s, bytes@, prefixed),
        Err(StringsError::DuplicateId(d)) => {
            &&& !entry_ids(s).no_duplicates()
            &&& entry_ids(s).to_multiset().count(d) >= 2
            &&& forall|e: u32| #[trigger] entry_ids(s).to_multiset().count(e) >= 2 ==> d <= e
        },
        Err(StringsError::InvalidLength) => {
            &&& entry_ids(s).no_duplicates()
            &&& exists|sorted: Seq<EntryView>|
                #![trigger table_bytes(sorted, prefixed)]
                is_sorted_form(sorted, s) && !table_fits(sorted, prefixed)
        },
        Err(_) => false,
    }
}

fn read_u32(input: &[u8], offset: usize) -> (r: Result<u32, StringsError>)
    ensures
        offset + 4 <= input@.len() ==> r == Ok::<u32, StringsError>(u32_at(input@, offset as int)),
        offset + 4 > input@.len() ==> r == Err::<u32, StringsError>(StringsError::UnexpectedEof),
{
    if input.len() < 4 || offset > input.len() - 4 {
        return Err(StringsError::UnexpectedEof);
    }
    let four = vstd::slice::slice_subrange(input, offset, offset + 4);
    Ok(vstd::bytes::u32_from_le_bytes(four))
}


proof fn lemma_entries_error_persists(input: Seq<u8>, start: int, end: int, m: int, n: int, prefixed: bool)
    requires
        0 <= m <= n,
        entries_upto(input, start, end, m, prefixed) is Err,
    ensures
        entries_upto(input, start, end, n, prefixed) == entries_upto(input, start, end, m, prefixed),
    decreases n - m,
{
    if n > m {
        lemma_entries_error_persists(input, start, end, m, n - 1, prefixed);
    }
}

fn read_text(input: &[u8], start: usize, end: usize, off: usize, prefixed: bool) -> (r: Result<
    String,
    StringsError,
>)
    requires
        start <= end <= input@.len(),
        off < end - start,
    ensures
        match r {
            Ok(t) => text_at(input@, start as int, end as int, off as int, prefixed) == Ok::<
                Seq<char>,
                StringsError,
            >(t@),
            Err(e) => text_at(input@, start as int, end as int, off as int, prefixed) == Err::<
                Seq<char>,
                StringsError,
            >(e),
        },
{
    let lo = start + off;
    if prefixed {
        let len = match read_u32(input, lo) {
            Ok(v) => v as usize,
            Err(e) => return Err(e),
        };
        if len == 0 {
            return Err(StringsError::InvalidLength);
        }
        if end < 4 || lo > end - 4 || len > end - lo - 4 {
            return Err(StringsError::UnexpectedEof);
        }
        if input[lo + 3 + len] != 0 {
            return Err(StringsError::MissingTerminator);
        }
        match utf8_to_string(vstd::slice::slice_subrange(input, lo + 4, lo + 3 + len)) {
            Some(t) => Ok(t),
            None => Err(StringsError::Utf8),
        }
    } else {
        let mut hi = lo;
        while hi < end && input[hi] != 0
            invariant
                lo <= hi <= end <= input@.len(),
                nul_from(input@, lo as int, end as int) == nul_from(input@, hi as int, end as int),
            decreases end - hi,
        {
            hi = hi + 1;
        }
        if hi >= end {
            return Err(StringsError::MissingTerminator);
        }
        match utf8_to_string(vstd::slice::slice_subrange(input, lo, hi)) {
            Some(t) => Ok(t),
            None => Err(StringsError::Utf8),
        }
    }
}

fn read_table(input: &[u8], prefixed: bool) -> (r: Result<StringsFile, StringsError>)
    ensures
        match r {
            Ok(f) => parse_table(input@, prefixed) == Ok::<Seq<EntryView>, StringsError>(f@),
            Err(e) => parse_table(input@, prefixed) == Err::<Seq<EntryView>, StringsError>(e),
        },
{
    if input.len() < 8 {
        return Err(StringsError::InvalidHeader);
    }
    let count = match read_u32(input, 0) {
        Ok(v) => v,
        Err(e) => return Err(e),
    };
    let data_size = match read_u32(input, 4) {
        Ok(v) => v,
        Err(e) => return Err(e),
    };
    if count > u32::MAX / 8 {
        return Err(StringsError::InvalidHeader);
    }
    let wide_end: u64 = 8 + (count as u64) * 8 + data_size as u64;
    if wide_end > input.len() as u64 {
        return Err(StringsError::UnexpectedEof);
    }
    let data_start: usize = 8 + (count as usize) * 8;
    let data_end: usize = data_start + data_size as usize;
    let ghost start = data_start as int;
    let ghost end = data_end as int;
    let mut entries: Vec<StringsEntry> = Vec::new();
    proof {
        assert(entry_views(entries@) =~= Seq::<EntryView>::empty());
    }
    let mut i: usize = 0;
    while i < count as usize
        invariant
            header_result(input@) == Ok::<(int, int, int), StringsError>((count as int, start, end)),
            start == data_start,
            end == data_end,
            data_start == 8 + count * 8,
            data_end == data_start + data_size,
            data_end <= input@.len(),
            i <= count,
            entries_upto(input@, start, end, i as int, prefixed) == Ok::<Seq<EntryView>, StringsError>(
                entry_views(entries@),
            ),
        decreases count - i,
    {
        let base = 8 + i * 8;
        let id = match read_u32(input, base) {
            Ok(v) => v,
            Err(e) => return Err(e),
        };
        let offset = match read_u32(input, base + 4) {
            Ok(v) => v as usize,
            Err(e) => return Err(e),
        };
        if offset >= data_size as usize {
            proof {
                lemma_entries_error_persists(input@, start, end, i + 1, count as int, prefixed);
            }
            return Err(StringsError::InvalidOffset);
        }
        let text = match read_text(input, data_start, data_end, offset, prefixed) {
            Ok(t) => t,
            Err(e) => {
                proof {
                    lemma_entries_error_persists(input@, start, end, i + 1, count as int, prefixed);
                }
                return Err(e);
            },
        };
        let entry = StringsEntry { id, text };
        let ghost before = entries@;
        entries.push(entry);
        proof {
            assert(entry_views(entries@) =~= entry_views(before).push(entry@));
        }
        i = i + 1;
    }
    Ok(StringsFile { entries })
}


proof fn lemma_take_step<A>(s: Seq<A>, i: int)
    requires
        0 <= i < s.len(),
    ensures
        s.take(i + 1).drop_last() == s.take(i),
        s.take(i + 1).last() == s[i],
        s.take(i + 1).len() == i + 1,
{
    assert(s.take(i + 1).drop_last() =~= s.take(i));
}

proof fn lemma_data_block_prefix(es: Seq<EntryView>, i: int, prefixed: bool)
    requires
        0 <= i <= es.len(),
    ensures
        data_block(es.take(i), prefixed).len() <= data_block(es, prefixed).len(),
        data_block(es, prefixed).subrange(0, data_block(es.take(i), prefixed).len() as int)
            == data_block(es.take(i), prefixed),
    decreases es.len() - i,
{
    if i == es.len() {
        assert(es.take(i) =~= es);
        assert(data_block(es, prefixed).subrange(0, data_block(es, prefixed).len() as int)
            =~= data_block(es, prefixed));
    } else {
        lemma_data_block_prefix(es, i + 1, prefixed);
        lemma_take_step(es, i);
        let a = data_block(es.take(i), prefixed);
        let b = data_block(es.take(i + 1), prefixed);
        assert(b == a + entry_bytes(es[i].1, prefixed));
        assert(b.subrange(0, a.len() as int) =~= a);
        assert(data_block(es, prefixed).subrange(0, a.len() as int) =~= b.subrange(
            0,
            a.len() as int,
        ));
    }
}

/// Relies on `slice::sort_by_key`: it reorders the entries into nondecreasing
/// id order, keeping every entry.
#[verifier::external_body]
fn sort_by_id(v: &mut Vec<StringsEntry>)
    ensures
        entry_views(final(v)@).to_multiset() == entry_views(old(v)@).to_multiset(),
        entry_ids(entry_views(final(v)@)).to_multiset() == entry_ids(
            entry_views(old(v)@),
        ).to_multiset(),
        forall|i: int, j: int|
            0 <= i < j < final(v)@.len() ==> (#[trigger] final(v)@[i]).id <= (
            #[trigger] final(v)@[j]).id,
{
    v.sort_by_key(|e| e.id);
}

/// A value counted at least twice sits at two positions.
proof fn lemma_two_positions(s: Seq<u32>, x: u32)
    requires
        s.to_multiset().count(x) >= 2,
    ensures
        exists|i: int, j: int| 0 <= i < j < s.len() && s[i] == x && s[j] == x,
    decreases s.len(),
{
    broadcast use vstd::seq_lib::group_to_multiset_ensures;
    broadcast use vstd::multiset::group_multiset_axioms;
    if s.len() == 0 {
        assert(s.to_multiset() =~= vstd::multiset::Multiset::<u32>::empty());
    } else {
        let t = s.drop_last();
        assert(t.push(s.last()) =~= s);
        assert(s.to_multiset() == t.to_multiset().insert(s.last()));
        if s.last() == x {
            assert(t.to_multiset().count(x) >= 1);
            assert(t.contains(x));
            let i = choose|i: int| 0 <= i < t.len() && t[i] == x;
            assert(s[i] == x && s[s.len() - 1] == x);
        } else {
            assert(t.to_multiset().count(x) >= 2);
            lemma_two_positions(t, x);
            let (i, j) = choose|i: int, j: int| 0 <= i < j < t.len() && t[i] == x && t[j] == x;
            assert(s[i] == x && s[j] == x);
        }
    }
}

proof fn lemma_ids_dup_transfer(a: Seq<u32>, b: Seq<u32>)
    requires
        a.to_multiset() == b.to_multiset(),
        a.no_duplicates(),
    ensures
        b.no_duplicates(),
{
    a.lemma_multiset_has_no_duplicates();
    b.lemma_multiset_has_no_duplicates_conv();
}

proof fn lemma_dup_count(a: Seq<u32>, i: int, j: int)
    requires
        0 <= i < j < a.len(),
        a[i] == a[j],
    ensures
        a.to_multiset().count(a[i]) >= 2,
{
    broadcast use vstd::seq_lib::group_to_multiset_ensures;
    broadcast use vstd::multiset::group_multiset_axioms;
    let x = a[i];
    let s0 = a.subrange(0, j);
    let s1 = a.subrange(j, a.len() as int);
    assert(a =~= s0 + s1);
    vstd::seq_lib::lemma_multiset_commutative(s0, s1);
    assert(s0.contains(x)) by {
        assert(s0[i] == x);
    }
    assert(s1.contains(x)) by {
        assert(s1[0] == x);
    }
}

fn write_table(file: &StringsFile, prefixed: bool) -> (r: Result<Vec<u8>, StringsError>)
    ensures
        write_result(file@, r, prefixed),
{
    let mut entries: Vec<StringsEntry> = Vec::new();
    let n = file.entries.len();
    for i in 0..n
        invariant
            n == file.entries@.len(),
            entries@.len() == i,
            entry_views(entries@) == entry_views(file.entries@).take(i as int),
    {
        let ghost before = entries@;
        entries.push(StringsEntry { id: file.entries[i].id, text: file.entries[i].text.clone() });
        proof {
            assert(entries@[i as int]@ == file.entries@[i as int]@);
            assert(entries@ == before.push(entries@[i as int]));
            assert(entry_views(entries@) =~= entry_views(file.entries@).take(i + 1));
        }
    }
    proof {
        assert(entry_views(file.entries@).take(n as int) =~= entry_views(file.entries@));
    }
    let ghost input = file@;
    assert(entry_views(entries@) == input);
    sort_by_id(&mut entries);
    let ghost es = entry_views(entries@);
    assert(es.to_multiset() == input.to_multiset());
    assert(entry_ids(es).to_multiset() == entry_ids(input).to_multiset());
    let mut k: usize = 1;
    while k < entries.len()
        invariant
            1 <= k,
            input == file@,
            es == entry_views(entries@),
            es.to_multiset() == input.to_multiset(),
            entry_ids(es).to_multiset() == entry_ids(input).to_multiset(),
            forall|a: int, b: int| 0 <= a < b < k && b < es.len() ==> es[a].0 < es[b].0,
            forall|i: int, j: int|
                0 <= i < j < entries@.len() ==> (#[trigger] entries@[i]).id <= (
                #[trigger] entries@[j]).id,
        decreases entries.len() - k,
    {
        if entries[k - 1].id == entries[k].id {
            proof {
                let ids = entry_ids(es);
                assert(ids[k - 1] == entries@[k - 1].id);
                assert(ids[k as int] == entries@[k as int].id);
                lemma_dup_count(ids, k - 1, k as int);
                if ids.no_duplicates() {
                    ids.lemma_multiset_has_no_duplicates();
                    assert(ids.to_multiset().contains(ids[k as int]));
                }
                assert(!ids.no_duplicates());
                if entry_ids(input).no_duplicates() {
                    lemma_ids_dup_transfer(entry_ids(input), ids);
                }
            }
            let d = entries[k].id;
            proof {
                assert(entry_ids(es)[k as int] == d);
                assert(entry_ids(es).to_multiset().count(d) >= 2);
                assert(entry_ids(input).to_multiset().count(d) >= 2);
                assert(!entry_ids(input).no_duplicates());
                assert(input == file@);
                assert forall|e: u32| #[trigger] entry_ids(input).to_multiset().count(e) >= 2 implies d <= e by {
                    let ids = entry_ids(es);
                    assert(ids.to_multiset().count(e) >= 2);
                    lemma_two_positions(ids, e);
                    let (i, j) = choose|i: int, j: int| 0 <= i < j < ids.len() && ids[i] == e && ids[j] == e;
                    if e < d {
                        assert(ids[i] == entries@[i].id);
                        assert(ids[j] == entries@[j].id);
                        if j >= k - 1 {
                            assert(entries@[k - 1].id <= entries@[j].id);
                        }
                        assert(es[i].0 < es[j].0);
                    }
                }
                assert(write_result(input, Err(StringsError::DuplicateId(d)), prefixed));
            }
            return Err(StringsError::DuplicateId(d));
        }
        k = k + 1;
    }
    proof {
        assert(strictly_ascending(es));
        assert forall|a: int, b: int| 0 <= a < entry_ids(es).len() && 0 <= b < entry_ids(es).len() && a != b
            implies entry_ids(es)[a] != entry_ids(es)[b] by {
            if a < b {
                assert(es[a].0 < es[b].0);
            } else {
                assert(es[b].0 < es[a].0);
            }
        }
        assert(entry_ids(es).no_duplicates());
        lemma_ids_dup_transfer(entry_ids(es), entry_ids(input));
    }
    if entries.len() > (u32::MAX / 8) as usize {
        proof {
            assert(es.len() == entries@.len());
            assert(strictly_ascending(es));
            assert(es.to_multiset() == input.to_multiset());
            assert(is_sorted_form(es, input));
            let l = es.len() as int;
            assert(l * 8 > u32::MAX) by (nonlinear_arith)
                requires
                    l > 536870911,
            ;
            assert(!table_fits(es, prefixed));
            assert(table_bytes(es, prefixed) == table_bytes(es, prefixed));
        }
        return Err(StringsError::InvalidLength);
    }
    let mut data: Vec<u8> = Vec::new();
    let mut dir: Vec<u8> = Vec::new();
    let count = entries.len();
    for i in 0..count
        invariant
            count == entries@.len(),
            input == file@,
            is_sorted_form(es, input),
            entry_ids(input).no_duplicates(),
            es == entry_views(entries@),
            data@ == data_block(es.take(i as int), prefixed),
            dir@ == directory(es.take(i as int), prefixed),
            data@.len() <= u32::MAX,
    {
        let ghost pre_data = data@;
        let ghost pre_dir = dir@;
        let bytes = entries[i].text.as_str().as_bytes();
        let extra: usize = if prefixed {
            5
        } else {
            1
        };
        if bytes.len() > u32::MAX as usize - extra || data.len() > u32::MAX as usize - extra
            - bytes.len() {
            proof {
                lemma_take_step(es, i as int);
                lemma_data_block_prefix(es, i + 1, prefixed);
                lemma_auto_spec_u32_to_from_le_bytes();
                assert(es[i as int].1 == entries@[i as int].text@);
                assert(bytes@ == encode_utf8(es[i as int].1));
                assert(entry_bytes(es[i as int].1, prefixed).len() == bytes@.len() + extra);
                assert(data_block(es.take(i + 1), prefixed) == data_block(es.take(i as int), prefixed)
                    + entry_bytes(es[i as int].1, prefixed));
                assert(!table_fits(es, prefixed));
                assert(is_sorted_form(es, input) && !table_fits(es, prefixed));
                assert(table_bytes(es, prefixed) == table_bytes(es, prefixed));
            }
            return Err(StringsError::InvalidLength);
        }
        let offset = data.len() as u32;
        let mut id_bytes = u32_to_le_bytes(entries[i].id);
        let mut off_bytes = u32_to_le_bytes(offset);
        dir.append(&mut id_bytes);
        dir.append(&mut off_bytes);
        if prefixed {
            let mut len_bytes = u32_to_le_bytes((bytes.len() + 1) as u32);
            data.append(&mut len_bytes);
        }
        data.extend_from_slice(bytes);
        data.push(0u8);
        proof {
            lemma_take_step(es, i as int);
            let b = encode_utf8(es[i as int].1);
            assert(dir@ =~= directory(es.take(i + 1), prefixed));
            if prefixed {
                assert(data@ =~= pre_data + (le32((b.len() + 1) as int) + b + seq![0u8]));
            } else {
                assert(data@ =~= pre_data + (b + seq![0u8]));
            }
            assert(data@ =~= data_block(es.take(i + 1), prefixed));
        }
    }
    proof {
        assert(es.take(count as int) =~= es);
    }
    let mut out: Vec<u8> = u32_to_le_bytes(count as u32);
    let mut size_bytes = u32_to_le_bytes(data.len() as u32);
    out.append(&mut size_bytes);
    out.append(&mut dir);
    out.append(&mut data);
    proof {
        assert(out@ =~= table_bytes(es, prefixed));
        assert(is_sorted_form(es, input) && table_fits(es, prefixed));
    }
    Ok(out)
}


/// What reading a table yields.
pub open spec fn read_result(input: Seq<u8>, r: Result<StringsFile, StringsError>, prefixed: bool) -> bool {
    match r {
        Ok(f) => parse_table(input, prefixed) == Ok::<Seq<EntryView>, StringsError>(f@),
        Err(e) => parse_table(input, prefixed) == Err::<Seq<EntryView>, StringsError>(e),
    }
}

/// Reads a plain `.strings` table.
pub fn read_strings(input: &[u8]) -> (r: Result<StringsFile, StringsError>)
    ensures
        read_result(input@, r, false),
{
    read_table(input, false)
}

/// Reads a length-prefixed `.dlstrings` table.
pub fn read_dlstrings(input: &[u8]) -> (r: Result<StringsFile, StringsError>)
    ensures
        read_result(input@, r, true),
{
    read_table(input, true)
}

/// Reads a length-prefixed `.ilstrings` table.
pub fn read_ilstrings(input: &[u8]) -> (r: Result<StringsFile, StringsError>)
    ensures
        read_result(input@, r, true),
{
    read_table(input, true)
}

/// Writes a plain `.strings` table, entries in ascending id order.
pub fn write_strings(file: &StringsFile) -> (r: Result<Vec<u8>, StringsError>)
    ensures
        write_result(file@, r, false),
{
    write_table(file, false)
}

/// Writes a length-prefixed `.dlstrings` table, entries in ascending id order.
pub fn write_dlstrings(file: &StringsFile) -> (r: Result<Vec<u8>, StringsError>)
    ensures
        write_result(file@, r, true),
{
    write_table(file, true)
}

/// Writes a length-prefixed `.ilstrings` table, entries in ascending id order.
pub fn write_ilstrings(file: &StringsFile) -> (r: Result<Vec<u8>, StringsError>)
    ensures
        write_result(file@, r, true),
{
    write_table(file, true)
}


proof fn lemma_directory_prefix(es: Seq<EntryView>, i: int, prefixed: bool)
    requires
        0 <= i <= es.len(),
    ensures
        directory(es, prefixed).len() == 8 * es.len(),
        directory(es.take(i), prefixed).len() == 8 * i,
        directory(es, prefixed).subrange(0, 8 * i) == directory(es.take(i), prefixed),
    decreases es.len() - i,
{
    lemma_auto_spec_u32_to_from_le_bytes();
    lemma_directory_len(es, prefixed);
    lemma_directory_len(es.take(i), prefixed);
    if i == es.len() {
        assert(es.take(i) =~= es);
        assert(directory(es, prefixed).subrange(0, 8 * i) =~= directory(es, prefixed));
    } else {
        lemma_directory_prefix(es, i + 1, prefixed);
        lemma_take_step(es, i);
        let a = directory(es.take(i), prefixed);
        let b = directory(es.take(i + 1), prefixed);
        assert(b.subrange(0, 8 * i) =~= a);
        assert(directory(es, prefixed).subrange(0, 8 * i) =~= b.subrange(0, 8 * i));
    }
}

proof fn lemma_directory_len(es: Seq<EntryView>, prefixed: bool)
    ensures
        directory(es, prefixed).len() == 8 * es.len(),
    decreases es.len(),
{
    lemma_auto_spec_u32_to_from_le_bytes();
    if es.len() > 0 {
        lemma_directory_len(es.drop_last(), prefixed);
    }
}

/// Directory slot `i` holds the id and the data-block offset of entry `i`.
proof fn lemma_directory_slot(es: Seq<EntryView>, i: int, prefixed: bool)
    requires
        0 <= i < es.len(),
    ensures
        directory(es, prefixed).subrange(8 * i, 8 * i + 4) == le32(es[i].0 as int),
        directory(es, prefixed).subrange(8 * i + 4, 8 * i + 8) == le32(
            data_block(es.take(i), prefixed).len() as int,
        ),
{
    lemma_auto_spec_u32_to_from_le_bytes();
    lemma_directory_prefix(es, i + 1, prefixed);
    lemma_take_step(es, i);
    lemma_directory_len(es.take(i), prefixed);
    let d = directory(es, prefixed);
    let b = directory(es.take(i + 1), prefixed);
    assert(d.subrange(8 * i, 8 * i + 4) =~= b.subrange(8 * i, 8 * i + 4));
    assert(d.subrange(8 * i + 4, 8 * i + 8) =~= b.subrange(8 * i + 4, 8 * i + 8));
    assert(b.subrange(8 * i, 8 * i + 4) =~= le32(es[i].0 as int));
    assert(b.subrange(8 * i + 4, 8 * i + 8) =~= le32(data_block(es.take(i), prefixed).len() as int));
}

/// Entry `i`'s bytes sit in the data block right after those of the entries before it.
proof fn lemma_data_slot(es: Seq<EntryView>, i: int, prefixed: bool)
    requires
        0 <= i < es.len(),
    ensures
        ({
            let off = data_block(es.take(i), prefixed).len() as int;
            let eb = entry_bytes(es[i].1, prefixed);
            &&& off + eb.len() <= data_block(es, prefixed).len()
            &&& data_block(es, prefixed).subrange(off, off + eb.len()) == eb
        }),
{
    lemma_data_block_prefix(es, i + 1, prefixed);
    lemma_take_step(es, i);
    let off = data_block(es.take(i), prefixed).len() as int;
    let eb = entry_bytes(es[i].1, prefixed);
    let b = data_block(es.take(i + 1), prefixed);
    assert(b == data_block(es.take(i), prefixed) + eb);
    assert(b.subrange(off, off + eb.len()) =~= eb);
    assert(data_block(es, prefixed).subrange(off, off + eb.len()) =~= b.subrange(
        off,
        off + eb.len(),
    ));
}

proof fn lemma_nul_from_skip(s: Seq<u8>, i: int, m: int, end: int)
    requires
        0 <= i,
        0 <= m,
        i + m < end <= s.len(),
        forall|k: int| i <= k < i + m ==> s[k] != 0,
        s[i + m] == 0,
    ensures
        nul_from(s, i, end) == i + m,
    decreases m,
{
    if m > 0 {
        lemma_nul_from_skip(s, i + 1, m - 1, end);
    }
}

/// Whatever the layout, the text of entry `i` reads back.
#[verifier::rlimit(60)]
proof fn lemma_entry_reads_back(es: Seq<EntryView>, i: int, prefixed: bool)
    requires
        0 <= i < es.len(),
        table_fits(es, prefixed),
        es.len() * 8 <= u32::MAX,
        prefixed || texts_free_of_nul(es),
    ensures
        entry_at(
            table_bytes(es, prefixed),
            8 + 8 * es.len() as int,
            8 + 8 * es.len() as int + data_block(es, prefixed).len() as int,
            i,
            prefixed,
        ) == Ok::<EntryView, StringsError>(es[i]),
{
    broadcast use vstd::utf8::encode_utf8_valid_utf8, vstd::utf8::encode_utf8_decode_utf8;
    lemma_auto_spec_u32_to_from_le_bytes();
    let n = es.len() as int;
    let data = data_block(es, prefixed);
    let dir = directory(es, prefixed);
    let bytes = table_bytes(es, prefixed);
    let start = 8 + 8 * n;
    let end = start + data.len();
    lemma_directory_len(es, prefixed);
    lemma_directory_slot(es, i, prefixed);
    lemma_data_slot(es, i, prefixed);
    let head = le32(n) + le32(data.len() as int);
    assert(bytes == head + dir + data);
    assert(bytes.subrange(8 + 8 * i, 12 + 8 * i) =~= dir.subrange(8 * i, 8 * i + 4));
    assert(bytes.subrange(12 + 8 * i, 16 + 8 * i) =~= dir.subrange(8 * i + 4, 8 * i + 8));
    let off = data_block(es.take(i), prefixed).len() as int;
    lemma_data_block_prefix(es, i, prefixed);
    assert(u32_at(bytes, 8 + 8 * i) == es[i].0);
    assert(u32_at(bytes, 12 + 8 * i) as int == off);
    let t = es[i].1;
    let enc = encode_utf8(t);
    let eb = entry_bytes(t, prefixed);
    let lo = start + off;
    assert(bytes.subrange(lo, lo + eb.len()) =~= data.subrange(off, off + eb.len()));
    assert(off < end - start);
    if prefixed {
        assert(eb == le32((enc.len() + 1) as int) + enc + seq![0u8]);
        assert(bytes.subrange(lo, lo + 4) =~= eb.subrange(0, 4));
        assert(eb.subrange(0, 4) =~= le32((enc.len() + 1) as int));
        assert(u32_at(bytes, lo) as int == enc.len() + 1);
        assert(bytes[lo + 3 + enc.len() + 1] == eb[4 + enc.len() as int]);
        assert(bytes.subrange(lo + 4, lo + 4 + enc.len()) =~= eb.subrange(4, 4 + enc.len() as int));
        assert(eb.subrange(4, 4 + enc.len() as int) =~= enc);
    } else {
        assert(eb == enc + seq![0u8]);
        assert forall|k: int| lo <= k < lo + enc.len() implies bytes[k] != 0 by {
            assert(bytes[k] == eb[k - lo]);
            assert(eb[k - lo] == enc[k - lo]);
        }
        assert(bytes[lo + enc.len()] == eb[enc.len() as int]);
        lemma_nul_from_skip(bytes, lo, enc.len() as int, end);
        assert(bytes.subrange(lo, lo + enc.len()) =~= eb.subrange(0, enc.len() as int));
        assert(eb.subrange(0, enc.len() as int) =~= enc);
    }
}

/// Reading the layout of any entry list gives that list back, when its sizes fit
/// the header and, in the plain layout, no text holds a null byte.
pub proof fn lemma_table_bytes_parse(es: Seq<EntryView>, prefixed: bool)
    requires
        table_fits(es, prefixed),
        es.len() * 8 <= u32::MAX,
        prefixed || texts_free_of_nul(es),
    ensures
        parse_table(table_bytes(es, prefixed), prefixed) == Ok::<Seq<EntryView>, StringsError>(es),
{
    lemma_auto_spec_u32_to_from_le_bytes();
    lemma_directory_len(es, prefixed);
    let n = es.len() as int;
    let data = data_block(es, prefixed);
    let bytes = table_bytes(es, prefixed);
    let start = 8 + 8 * n;
    let end = start + data.len();
    assert(bytes.subrange(0, 4) =~= le32(n));
    assert(bytes.subrange(4, 8) =~= le32(data.len() as int));
    assert(header_result(bytes) == Ok::<(int, int, int), StringsError>((n, start, end)));
    assert forall|i: int| 0 <= i <= n implies entries_upto(bytes, start, end, i, prefixed)
        == Ok::<Seq<EntryView>, StringsError>(es.take(i)) by {
        lemma_entries_prefix(es, i, prefixed);
    }
    assert(es.take(n) =~= es);
}

proof fn lemma_entries_prefix(es: Seq<EntryView>, i: int, prefixed: bool)
    requires
        0 <= i <= es.len(),
        table_fits(es, prefixed),
        es.len() * 8 <= u32::MAX,
        prefixed || texts_free_of_nul(es),
    ensures
        entries_upto(
            table_bytes(es, prefixed),
            8 + 8 * es.len() as int,
            8 + 8 * es.len() as int + data_block(es, prefixed).len() as int,
            i,
            prefixed,
        ) == Ok::<Seq<EntryView>, StringsError>(es.take(i)),
    decreases i,
{
    if i == 0 {
        assert(es.take(0) =~= Seq::<EntryView>::empty());
    } else {
        lemma_entries_prefix(es, i - 1, prefixed);
        lemma_entry_reads_back(es, i - 1, prefixed);
        assert(es.take(i - 1).push(es[i - 1]) =~= es.take(i));
    }
}


/// Two id-ascending orderings of the same entries are one and the same.
pub proof fn lemma_sorted_form_unique(a: Seq<EntryView>, b: Seq<EntryView>)
    requires
        strictly_ascending(a),
        strictly_ascending(b),
        a.to_multiset() == b.to_multiset(),
    ensures
        a == b,
    decreases a.len(),
{
    broadcast use vstd::seq_lib::group_to_multiset_ensures;
    assert(a.len() == a.to_multiset().len());
    assert(b.len() == b.to_multiset().len());
    if a.len() == 0 {
        assert(a =~= b);
    } else {
        assert(a.contains(a[0]));
        assert(a.to_multiset().count(a[0]) > 0);
        assert(b.to_multiset().count(a[0]) > 0);
        assert(b.contains(a[0]));
        let j = choose|j: int| 0 <= j < b.len() && b[j] == a[0];
        assert(b.contains(b[0]));
        assert(b.to_multiset().count(b[0]) > 0);
        assert(a.to_multiset().count(b[0]) > 0);
        assert(a.contains(b[0]));
        let k = choose|k: int| 0 <= k < a.len() && a[k] == b[0];
        if j > 0 {
            assert(b[0].0 < b[j].0);
            if k > 0 {
                assert(a[0].0 < a[k].0);
            }
        }
        assert(j == 0);
        assert(a.remove(0) =~= a.drop_first());
        assert(b.remove(0) =~= b.drop_first());
        assert(a.drop_first().to_multiset() =~= b.drop_first().to_multiset());
        lemma_sorted_form_unique(a.drop_first(), b.drop_first());
        assert(a =~= seq![a[0]] + a.drop_first());
        assert(b =~= seq![b[0]] + b.drop_first());
    }
}

proof fn lemma_nul_free_permuted(f: Seq<EntryView>, g: Seq<EntryView>)
    requires
        texts_free_of_nul(f),
        g.to_multiset() == f.to_multiset(),
    ensures
        texts_free_of_nul(g),
{
    broadcast use vstd::seq_lib::group_to_multiset_ensures;
    assert forall|i: int, k: int|
        0 <= i < g.len() && 0 <= k < encode_utf8(g[i].1).len() implies encode_utf8(g[i].1)[k]
        != 0 by {
        assert(g.contains(g[i]));
        assert(g.to_multiset().count(g[i]) > 0);
        assert(f.to_multiset().count(g[i]) > 0);
        assert(f.contains(g[i]));
        let j = choose|j: int| 0 <= j < f.len() && f[j] == g[i];
    }
}

/// Reading back the bytes of a successful write gives the table's entries in
/// ascending id order, so a table whose ids already ascend comes back as it
/// was. The plain layout ends a text at its first null byte, so there no text
/// may encode one.
pub proof fn lemma_read_after_write(f: Seq<EntryView>, bytes: Seq<u8>, prefixed: bool)
    requires
        write_ok(f, bytes, prefixed),
        prefixed || texts_free_of_nul(f),
    ensures
        exists|sorted: Seq<EntryView>|
            #![trigger is_sorted_form(sorted, f)]
            is_sorted_form(sorted, f) && parse_table(bytes, prefixed) == Ok::<
                Seq<EntryView>,
                StringsError,
            >(sorted),
        strictly_ascending(f) ==> parse_table(bytes, prefixed) == Ok::<Seq<EntryView>, StringsError>(
            f,
        ),
{
    broadcast use vstd::seq_lib::group_to_multiset_ensures;
    let sorted = choose|sorted: Seq<EntryView>|
        #![trigger table_bytes(sorted, prefixed)]
        is_sorted_form(sorted, f) && table_fits(sorted, prefixed) && bytes == table_bytes(
            sorted,
            prefixed,
        );
    assert(sorted.len() == sorted.to_multiset().len());
    assert(f.len() == f.to_multiset().len());
    if !prefixed {
        lemma_nul_free_permuted(f, sorted);
    }
    lemma_table_bytes_parse(sorted, prefixed);
    if strictly_ascending(f) {
        lemma_sorted_form_unique(sorted, f);
    }
}

} // verus!
