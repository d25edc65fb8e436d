//! The plugin container: groups, records and subrecords, parsed into a tree
//! held in preorder and written back from that tree.

use vstd::prelude::*;
use crate::zlib::{zlib_decoded, zlib_encoded, zlib_inflate, zlib_deflate};
use vstd::bytes::{spec_u32_from_le_bytes, spec_u32_to_le_bytes, spec_u16_from_le_bytes, spec_u16_to_le_bytes, u32_to_le_bytes, u16_to_le_bytes, lemma_auto_spec_u32_to_from_le_bytes, lemma_auto_spec_u16_to_from_le_bytes};

verus! {

pub const RECORD_HEADER_SIZE: usize = 24;
pub const GROUP_HEADER_SIZE: usize = 24;
pub const RECORD_COMPRESSED: u32 = 0x0004_0000;
pub const MAX_SHORT_PAYLOAD: usize = 65535;

#[derive(Debug, Clone, Copy, PartialEq, Eq)]
pub enum EspError {
    InvalidHeader,
    InvalidRecord,
    InvalidGroup,
    InvalidSubrecord,
    InvalidUtf8,
    Compression,
    MissingStringsFile(crate::extract::StringsKind),
    MissingStringId(u32),
    InvalidStringsPath,
}

/// One length-prefixed chunk of a record.
#[derive(Debug)]
pub struct Subrecord {
    pub sub_type: [u8; 4],
    pub data: Vec<u8>,
}

/// A subrecord as the tag and payload bytes.
pub type SubV = (Seq<u8>, Seq<u8>);

impl View for Subrecord {
    type V = SubV;

    open spec fn view(&self) -> SubV {
        (self.sub_type@, self.data@)
    }
}

pub open spec fn sub_views(s: Seq<Subrecord>) -> Seq<SubV> {
    s.map_values(|x: Subrecord| x@)
}

pub open spec fn u16_at(s: Seq<u8>, off: int) -> u16 {
    spec_u16_from_le_bytes(s.subrange(off, off + 2))
}

pub open spec fn u32_at(s: Seq<u8>, off: int) -> u32 {
    spec_u32_from_le_bytes(s.subrange(off, off + 4))
}

pub open spec fn le16(x: int) -> Seq<u8> {
    spec_u16_to_le_bytes(x as u16)
}

pub open spec fn le32(x: int) -> Seq<u8> {
    spec_u32_to_le_bytes(x as u32)
}

pub open spec fn marker_tag() -> Seq<u8> {
    seq![0x58u8, 0x58u8, 0x58u8, 0x58u8]
}

pub open spec fn group_tag() -> Seq<u8> {
    seq![0x47u8, 0x52u8, 0x55u8, 0x50u8]
}

/// The subrecords of `data` from `cursor` on; `ext` is a length announced by a
/// preceding marker. The stream must end exactly after a subrecord: fewer than
/// six trailing bytes, or a marker with no subrecord after it, is malformed.
pub open spec fn parse_subs(data: Seq<u8>, cursor: int, ext: Option<u32>) -> Result<Seq<SubV>, EspError>
    decreases data.len() - cursor,
{
    if cursor < 0 || cursor >= data.len() {
        if ext is Some {
            Err(EspError::InvalidSubrecord)
        } else {
            Ok(Seq::empty())
        }
    } else if cursor + 6 > data.len() {
        Err(EspError::InvalidSubrecord)
    } else {
        let tag = data.subrange(cursor, cursor + 4);
        let len = u16_at(data, cursor + 4) as int;
        let ps = cursor + 6;
        if tag == marker_tag() {
            if len != 4 || ps + 4 > data.len() {
                Err(EspError::InvalidSubrecord)
            } else {
                parse_subs(data, ps + 4, Some(u32_at(data, ps)))
            }
        } else {
            let actual = match ext {
                Some(v) => v as int,
                None => len,
            };
            if ps + actual > data.len() {
                Err(EspError::InvalidSubrecord)
            } else {
                match parse_subs(data, ps + actual, None) {
                    Ok(rest) => Ok(seq![(tag, data.subrange(ps, ps + actual))] + rest),
                    Err(e) => Err(e),
                }
            }
        }
    }
}

/// The bytes of one subrecord; a payload too long for the short length field
/// is announced by a marker subrecord.
pub open spec fn sub_bytes(s: SubV) -> Seq<u8> {
    if s.1.len() > MAX_SHORT_PAYLOAD {
        marker_tag() + le16(4) + le32(s.1.len() as int) + s.0 + le16(0) + s.1
    } else {
        s.0 + le16(s.1.len() as int) + s.1
    }
}

pub open spec fn subs_bytes(ss: Seq<SubV>) -> Seq<u8>
    decreases ss.len(),
{
    if ss.len() == 0 {
        Seq::empty()
    } else {
        sub_bytes(ss[0]) + subs_bytes(ss.drop_first())
    }
}

/// A subrecord that can be written and read back: a four-byte tag other than
/// the marker's, and a payload whose length fits 32 bits.
pub open spec fn sub_writable(s: SubV) -> bool {
    &&& s.0.len() == 4
    &&& s.0 != marker_tag()
    &&& s.1.len() <= u32::MAX
}

proof fn lemma_subs_bytes_push(ss: Seq<SubV>, x: SubV)
    ensures
        subs_bytes(ss.push(x)) == subs_bytes(ss) + sub_bytes(x),
    decreases ss.len(),
{
    if ss.len() == 0 {
        assert(ss.push(x).drop_first() =~= Seq::<SubV>::empty());
        assert(ss.push(x)[0] == x);
        assert(subs_bytes(ss.push(x).drop_first()) == Seq::<u8>::empty());
        assert(subs_bytes(ss) == Seq::<u8>::empty());
        assert(subs_bytes(ss.push(x)) =~= sub_bytes(x));
    } else {
        assert(ss.push(x).drop_first() =~= ss.drop_first().push(x));
        lemma_subs_bytes_push(ss.drop_first(), x);
        assert(subs_bytes(ss.push(x)) =~= subs_bytes(ss) + sub_bytes(x));
    }
}

/// A subrecord stream reads back as the subrecords it was written from,
/// extended-length payloads included.
pub proof fn lemma_subrecords_round_trip(ss: Seq<SubV>)
    requires
        forall|i: int| 0 <= i < ss.len() ==> sub_writable(#[trigger] ss[i]),
    ensures
        parse_subs(subs_bytes(ss), 0, None) == Ok::<Seq<SubV>, EspError>(ss),
{
    assert(subs_bytes(ss).subrange(0, subs_bytes(ss).len() as int) =~= subs_bytes(ss));
    lemma_subs_parse_at(subs_bytes(ss), 0, ss);
}

proof fn lemma_subs_parse_at(data: Seq<u8>, c: int, ss: Seq<SubV>)
    requires
        0 <= c <= data.len(),
        data.subrange(c, data.len() as int) == subs_bytes(ss),
        forall|i: int| 0 <= i < ss.len() ==> sub_writable(#[trigger] ss[i]),
    ensures
        parse_subs(data, c, None) == Ok::<Seq<SubV>, EspError>(ss),
    decreases ss.len(),
{
    lemma_auto_spec_u32_to_from_le_bytes();
    lemma_auto_spec_u16_to_from_le_bytes();
    if ss.len() == 0 {
        assert(data.subrange(c, data.len() as int).len() == 0);
        assert(ss =~= Seq::<SubV>::empty());
    } else {
        let s = ss[0];
        assert(sub_writable(s));
        let b = sub_bytes(s);
        let rest = ss.drop_first();
        assert forall|i: int| 0 <= i < rest.len() implies sub_writable(#[trigger] rest[i]) by {
            assert(rest[i] == ss[i + 1]);
        }
        let tail = data.subrange(c, data.len() as int);
        assert(tail == b + subs_bytes(rest));
        assert forall|a: int, z: int| 0 <= a <= z <= tail.len() implies data.subrange(c + a, c + z)
            == #[trigger] tail.subrange(a, z) by {
            assert(data.subrange(c + a, c + z) =~= tail.subrange(a, z));
        }
        if s.1.len() > MAX_SHORT_PAYLOAD {
            let n = 16 + s.1.len() as int;
            let l4 = le16(4);
            let ll = le32(s.1.len() as int);
            let l0 = le16(0);
            assert(b == marker_tag() + l4 + ll + s.0 + l0 + s.1);
            assert(b.len() == n);
            assert(tail.subrange(0, 4) =~= marker_tag());
            assert(tail.subrange(4, 6) =~= l4);
            assert(tail.subrange(6, 10) =~= ll);
            assert(tail.subrange(10, 14) =~= s.0);
            assert(tail.subrange(16, n) =~= s.1);
            assert(tail.subrange(n, tail.len() as int) =~= subs_bytes(rest));
            assert(u16_at(data, c + 4) == 4);
            assert(u32_at(data, c + 6) == s.1.len());
            assert(data.subrange(c + n, data.len() as int) =~= subs_bytes(rest));
            lemma_subs_parse_at(data, c + n, rest);
            assert(data.subrange(c, c + 4) == marker_tag());
            assert(data.subrange(c + 10, c + 14) == s.0);
            assert(data.subrange(c + 16, c + n) == s.1);
            assert(c + 6 <= data.len());
            assert(parse_subs(data, c + 10, Some(s.1.len() as u32)) == Ok::<Seq<SubV>, EspError>(
                seq![s] + rest,
            ));
        } else {
            let n = 6 + s.1.len() as int;
            let ll = le16(s.1.len() as int);
            assert(b == s.0 + ll + s.1);
            assert(tail.subrange(0, 4) =~= s.0);
            assert(tail.subrange(4, 6) =~= ll);
            assert(tail.subrange(6, n) =~= s.1);
            assert(tail.subrange(n, tail.len() as int) =~= subs_bytes(rest));
            assert(u16_at(data, c + 4) == s.1.len());
            assert(data.subrange(c + n, data.len() as int) =~= subs_bytes(rest));
            lemma_subs_parse_at(data, c + n, rest);
            assert(data.subrange(c, c + 4) == s.0);
            assert(data.subrange(c + 6, c + n) == s.1);
            assert(parse_subs(data, c, None) == Ok::<Seq<SubV>, EspError>(seq![s] + rest));
        }
        assert(seq![s] + rest =~= ss);
    }
}


/// The four bytes at `offset`, when they lie before `limit`.
pub fn read_tag(bytes: &[u8], offset: usize, limit: usize) -> (r: Result<[u8; 4], EspError>)
    requires
        limit <= bytes@.len(),
    ensures
        offset + 4 <= limit ==> (r matches Ok(t) && t@ == bytes@.subrange(offset as int, offset + 4)),
        offset + 4 > limit ==> r == Err::<[u8; 4], EspError>(EspError::InvalidHeader),
{
    if limit < 4 || offset > limit - 4 {
        return Err(EspError::InvalidHeader);
    }
    let t: [u8; 4] = [bytes[offset], bytes[offset + 1], bytes[offset + 2], bytes[offset + 3]];
    assert(t@ =~= bytes@.subrange(offset as int, offset + 4));
    Ok(t)
}

/// The little-endian `u16` at `offset`.
pub fn read_u16(bytes: &[u8], offset: usize) -> (r: u16)
    requires
        offset + 2 <= bytes@.len(),
    ensures
        r == u16_at(bytes@, offset as int),
{
    let _n = bytes.len();
    vstd::bytes::u16_from_le_bytes(vstd::slice::slice_subrange(bytes, offset, offset + 2))
}

/// The little-endian `u32` at `offset`.
pub fn read_u32(bytes: &[u8], offset: usize) -> (r: u32)
    requires
        offset + 4 <= bytes@.len(),
    ensures
        r == u32_at(bytes@, offset as int),
{
    let _n = bytes.len();
    vstd::bytes::u32_from_le_bytes(vstd::slice::slice_subrange(bytes, offset, offset + 4))
}

pub fn same_tag(a: &[u8; 4], b: &[u8; 4]) -> (r: bool)
    ensures
        r == (a@ == b@),
{
    let r = a[0] == b[0] && a[1] == b[1] && a[2] == b[2] && a[3] == b[3];
    if r {
        assert(a@ =~= b@);
    }
    r
}

pub fn marker() -> (t: [u8; 4])
    ensures
        t@ == marker_tag(),
{
    let t: [u8; 4] = [0x58u8, 0x58u8, 0x58u8, 0x58u8];
    assert(t@ =~= marker_tag());
    t
}

pub fn grup() -> (t: [u8; 4])
    ensures
        t@ == group_tag(),
{
    let t: [u8; 4] = [0x47u8, 0x52u8, 0x55u8, 0x50u8];
    assert(t@ =~= group_tag());
    t
}

/// Splits a record's payload into subrecords, honouring extended-length markers.
pub fn parse_subrecords(data: &[u8]) -> (r: Result<Vec<Subrecord>, EspError>)
    ensures
        match r {
            Ok(v) => parse_subs(data@, 0, None) == Ok::<Seq<SubV>, EspError>(sub_views(v@)),
            Err(e) => parse_subs(data@, 0, None) == Err::<Seq<SubV>, EspError>(e),
        },
{
    let mut subs: Vec<Subrecord> = Vec::new();
    let mut cursor: usize = 0;
    let mut ext: Option<u32> = None;
    let xxxx = marker();
    proof {
        assert(sub_views(subs@) + parse_subs(data@, 0, None)->Ok_0 =~= parse_subs(data@, 0, None)->Ok_0);
    }
    while cursor < data.len()
        invariant
            cursor <= data@.len(),
            xxxx@ == marker_tag(),
            match parse_subs(data@, cursor as int, ext) {
                Ok(rest) => parse_subs(data@, 0, None) == Ok::<Seq<SubV>, EspError>(
                    sub_views(subs@) + rest,
                ),
                Err(e) => parse_subs(data@, 0, None) == Err::<Seq<SubV>, EspError>(e),
            },
        decreases data@.len() - cursor,
    {
        if data.len() - cursor < 6 {
            return Err(EspError::InvalidSubrecord);
        }
        let tag: [u8; 4] = [data[cursor], data[cursor + 1], data[cursor + 2], data[cursor + 3]];
        proof {
            assert(tag@ =~= data@.subrange(cursor as int, cursor + 4));
        }
        let len = read_u16(data, cursor + 4) as usize;
        let ps = cursor + 6;
        if same_tag(&tag, &xxxx) {
            if len != 4 || ps > data.len() - 4 {
                return Err(EspError::InvalidSubrecord);
            }
            ext = Some(read_u32(data, ps));
            cursor = ps + 4;
        } else {
            let actual: usize = match ext {
                Some(v) => v as usize,
                None => len,
            };
            if actual > data.len() - ps {
                return Err(EspError::InvalidSubrecord);
            }
            let payload = vstd::slice::slice_to_vec(vstd::slice::slice_subrange(data, ps, ps + actual));
            let ghost before = subs@;
            subs.push(Subrecord { sub_type: tag, data: payload });
            proof {
                let x = (data@.subrange(cursor as int, cursor + 4), data@.subrange(ps as int, ps + actual));
                assert(sub_views(subs@) =~= sub_views(before).push(x));
                match parse_subs(data@, (ps + actual) as int, None) {
                    Ok(rest) => {
                        assert(sub_views(before) + (seq![x] + rest) =~= sub_views(subs@) + rest);
                    },
                    Err(e) => {},
                }
            }
            cursor = ps + actual;
            ext = None;
        }
    }
    if ext.is_some() {
        return Err(EspError::InvalidSubrecord);
    }
    proof {
        assert(sub_views(subs@) + Seq::<SubV>::empty() =~= sub_views(subs@));
    }
    Ok(subs)
}


/// Writes subrecords back out, synthesizing a marker before each payload too
/// long for the short length field. Fails when a payload's length does not fit
/// 32 bits.
pub fn serialize_subrecords(subs: &Vec<Subrecord>) -> (r: Result<Vec<u8>, EspError>)
    ensures
        match r {
            Ok(b) => b@ == subs_bytes(sub_views(subs@)) && forall|i: int|
                0 <= i < subs@.len() ==> subs@[i].data@.len() <= u32::MAX,
            Err(e) => e == EspError::InvalidSubrecord && exists|i: int|
                0 <= i < subs@.len() && subs@[i].data@.len() > u32::MAX,
        },
{
    let mut out: Vec<u8> = Vec::new();
    let n = subs.len();
    for i in 0..n
        invariant
            n == subs@.len(),
            out@ == subs_bytes(sub_views(subs@).take(i as int)),
            forall|j: int| 0 <= j < i ==> subs@[j].data@.len() <= u32::MAX,
    {
        let sub = &subs[i];
        let len = sub.data.len();
        if len > u32::MAX as usize {
            return Err(EspError::InvalidSubrecord);
        }
        let ghost before = out@;
        if len > MAX_SHORT_PAYLOAD {
            let xxxx = marker();
            out.extend_from_slice(&xxxx);
            let mut four = u16_to_le_bytes(4u16);
            out.append(&mut four);
            let mut lb = u32_to_le_bytes(len as u32);
            out.append(&mut lb);
            out.extend_from_slice(&sub.sub_type);
            let mut zero = u16_to_le_bytes(0u16);
            out.append(&mut zero);
        } else {
            out.extend_from_slice(&sub.sub_type);
            let mut lb = u16_to_le_bytes(len as u16);
            out.append(&mut lb);
        }
        out.extend_from_slice(sub.data.as_slice());
        proof {
            let v = sub_views(subs@);
            assert(v.take(i + 1) =~= v.take(i as int).push(v[i as int]));
            lemma_subs_bytes_push(v.take(i as int), v[i as int]);
            assert(out@ =~= before + sub_bytes(v[i as int]));
        }
    }
    proof {
        assert(sub_views(subs@).take(n as int) =~= sub_views(subs@));
    }
    Ok(out)
}

/// The fixed fields of a record header.
#[derive(Debug, Clone, Copy)]
pub struct RecordHeader {
    pub record_type: [u8; 4],
    pub flags: u32,
    pub form_id: u32,
    pub stamp: u16,
    pub version_control: u16,
    pub version: u16,
    pub unknown: u16,
}

/// A record: its header and its subrecords; `compressed` says whether its
/// payload is stored zlib-wrapped.
#[derive(Debug)]
pub struct Record {
    pub header: RecordHeader,
    pub subrecords: Vec<Subrecord>,
    pub compressed: bool,
}

/// `h` holds the header fields stored at `off`.
pub open spec fn header_at(h: RecordHeader, bytes: Seq<u8>, off: int) -> bool {
    &&& h.record_type@ == bytes.subrange(off, off + 4)
    &&& h.flags == u32_at(bytes, off + 8)
    &&& h.form_id == u32_at(bytes, off + 12)
    &&& h.stamp == u16_at(bytes, off + 16)
    &&& h.version_control == u16_at(bytes, off + 18)
    &&& h.version == u16_at(bytes, off + 20)
    &&& h.unknown == u16_at(bytes, off + 22)
}

/// The subrecord stream of a stored payload.
pub open spec fn unpack_payload(stored: Seq<u8>, compressed: bool) -> Result<Seq<u8>, EspError> {
    if !compressed {
        Ok(stored)
    } else if stored.len() < 4 {
        Err(EspError::InvalidRecord)
    } else {
        match zlib_decoded(stored.subrange(4, stored.len() as int)) {
            Some(d) => Ok(d),
            None => Err(EspError::Compression),
        }
    }
}

/// The record at `off`, which must end by `limit`: its subrecords, whether it
/// is compressed, and where it ends.
pub open spec fn record_parse(bytes: Seq<u8>, off: int, limit: int) -> Result<
    (Seq<SubV>, bool, int),
    EspError,
> {
    if off + 24 > limit {
        Err(EspError::InvalidRecord)
    } else {
        let end = off + 24 + u32_at(bytes, off + 4) as int;
        let compressed = u32_at(bytes, off + 8) & RECORD_COMPRESSED != 0;
        if end > limit {
            Err(EspError::InvalidRecord)
        } else {
            match unpack_payload(bytes.subrange(off + 24, end), compressed) {
                Err(e) => Err(e),
                Ok(d) => match parse_subs(d, 0, None) {
                    Ok(ss) => Ok((ss, compressed, end)),
                    Err(e) => Err(e),
                },
            }
        }
    }
}

fn unpack(stored: &[u8], compressed: bool) -> (r: Result<Vec<u8>, EspError>)
    ensures
        match r {
            Ok(d) => unpack_payload(stored@, compressed) == Ok::<Seq<u8>, EspError>(d@),
            Err(e) => unpack_payload(stored@, compressed) == Err::<Seq<u8>, EspError>(e),
        },
{
    if !compressed {
        return Ok(vstd::slice::slice_to_vec(stored));
    }
    if stored.len() < 4 {
        return Err(EspError::InvalidRecord);
    }
    match zlib_inflate(vstd::slice::slice_subrange(stored, 4, stored.len())) {
        Some(d) => Ok(d),
        None => Err(EspError::Compression),
    }
}

/// Parses the record at `offset`, which must end by `limit`; a compressed
/// payload is inflated before its subrecords are read.
pub fn parse_record(bytes: &[u8], offset: usize, limit: usize) -> (r: Result<(Record, usize), EspError>)
    requires
        limit <= bytes@.len(),
    ensures
        match r {
            Ok((rec, next)) => record_parse(bytes@, offset as int, limit as int) == Ok::<
                (Seq<SubV>, bool, int),
                EspError,
            >((sub_views(rec.subrecords@), rec.compressed, next as int)) && header_at(
                rec.header,
                bytes@,
                offset as int,
            ),
            Err(e) => record_parse(bytes@, offset as int, limit as int) == Err::<
                (Seq<SubV>, bool, int),
                EspError,
            >(e),
        },
{
    if limit < RECORD_HEADER_SIZE || offset > limit - RECORD_HEADER_SIZE {
        return Err(EspError::InvalidRecord);
    }
    let record_type: [u8; 4] = [bytes[offset], bytes[offset + 1], bytes[offset + 2], bytes[offset + 3]];
    proof {
        assert(record_type@ =~= bytes@.subrange(offset as int, offset + 4));
    }
    let data_size = read_u32(bytes, offset + 4) as usize;
    let flags = read_u32(bytes, offset + 8);
    let form_id = read_u32(bytes, offset + 12);
    let stamp = read_u16(bytes, offset + 16);
    let version_control = read_u16(bytes, offset + 18);
    let version = read_u16(bytes, offset + 20);
    let unknown = read_u16(bytes, offset + 22);
    let data_start = offset + RECORD_HEADER_SIZE;
    if data_size > limit - data_start {
        return Err(EspError::InvalidRecord);
    }
    let data_end = data_start + data_size;
    let compressed = (flags & RECORD_COMPRESSED) != 0;
    let stored = vstd::slice::slice_subrange(bytes, data_start, data_end);
    let data = match unpack(stored, compressed) {
        Ok(d) => d,
        Err(e) => return Err(e),
    };
    let subrecords = match parse_subrecords(data.as_slice()) {
        Ok(s) => s,
        Err(e) => return Err(e),
    };
    let header = RecordHeader { record_type, flags, form_id, stamp, version_control, version, unknown };
    Ok((Record { header, subrecords, compressed }, data_end))
}

/// The payload a record is stored with (for a compressed record, when
/// deflating succeeds).
pub open spec fn record_payload(r: Record) -> Seq<u8> {
    let raw = subs_bytes(sub_views(r.subrecords@));
    if r.compressed {
        le32(raw.len() as int) + zlib_encoded(raw)->Some_0
    } else {
        raw
    }
}

/// Why a record cannot be written, checked in this order: a payload whose
/// length does not fit 32 bits, a subrecord stream too long, deflating
/// failing, a stored payload too long.
pub open spec fn record_error(r: Record) -> Option<EspError> {
    let raw = subs_bytes(sub_views(r.subrecords@));
    if exists|i: int| 0 <= i < r.subrecords@.len() && (#[trigger] r.subrecords@[i]).data@.len() > u32::MAX {
        Some(EspError::InvalidSubrecord)
    } else if raw.len() > u32::MAX {
        Some(EspError::InvalidRecord)
    } else if r.compressed && zlib_encoded(raw) is None {
        Some(EspError::Compression)
    } else if record_payload(r).len() > u32::MAX {
        Some(EspError::InvalidRecord)
    } else {
        None
    }
}

/// The record can be written.
pub open spec fn record_fits(r: Record) -> bool {
    record_error(r) is None
}

/// A compressed record's stored stream inflates back to its subrecord stream.
pub open spec fn inflates_back(r: Record) -> bool {
    let raw = subs_bytes(sub_views(r.subrecords@));
    r.compressed ==> zlib_decoded(zlib_encoded(raw)->Some_0) == Some(raw)
}

/// The stored bytes of a record.
pub open spec fn record_bytes(r: Record) -> Seq<u8> {
    let h = r.header;
    let p = record_payload(r);
    h.record_type@ + le32(p.len() as int) + le32(h.flags as int) + le32(h.form_id as int) + le16(
        h.stamp as int,
    ) + le16(h.version_control as int) + le16(h.version as int) + le16(h.unknown as int) + p
}

/// Writes a record back out, recompressing its payload if it was stored
/// compressed.
pub fn serialize_record(rec: &Record) -> (r: Result<Vec<u8>, EspError>)
    ensures
        match r {
            Ok(b) => record_fits(*rec) && b@ == record_bytes(*rec) && inflates_back(*rec),
            Err(e) => record_error(*rec) == Some(e),
        },
{
    let raw = match serialize_subrecords(&rec.subrecords) {
        Ok(b) => b,
        Err(e) => {
            proof {
                let i = choose|i: int| 0 <= i < rec.subrecords@.len() && rec.subrecords@[i].data@.len() > u32::MAX;
                assert(rec.subrecords@[i].data@.len() > u32::MAX);
            }
            return Err(e);
        },
    };
    if raw.len() > u32::MAX as usize {
        return Err(EspError::InvalidRecord);
    }
    let data = if rec.compressed {
        let packed = match zlib_deflate(raw.as_slice()) {
            Some(p) => p,
            None => return Err(EspError::Compression),
        };
        let mut d = u32_to_le_bytes(raw.len() as u32);
        d.extend_from_slice(packed.as_slice());
        d
    } else {
        raw
    };
    if data.len() > u32::MAX as usize {
        return Err(EspError::InvalidRecord);
    }
    let h = rec.header;
    let mut out: Vec<u8> = Vec::new();
    out.extend_from_slice(&h.record_type);
    let mut b = u32_to_le_bytes(data.len() as u32);
    out.append(&mut b);
    let mut b = u32_to_le_bytes(h.flags);
    out.append(&mut b);
    let mut b = u32_to_le_bytes(h.form_id);
    out.append(&mut b);
    let mut b = u16_to_le_bytes(h.stamp);
    out.append(&mut b);
    let mut b = u16_to_le_bytes(h.version_control);
    out.append(&mut b);
    let mut b = u16_to_le_bytes(h.version);
    out.append(&mut b);
    let mut b = u16_to_le_bytes(h.unknown);
    out.append(&mut b);
    out.extend_from_slice(data.as_slice());
    proof {
        assert(out@ =~= record_bytes(*rec));
    }
    Ok(out)
}


/// A record written out reads back with the same header, the same compression
/// state and the same subrecords, when its subrecords can be written and its
/// compression flag agrees with how it is stored.
pub proof fn lemma_record_round_trip(r: Record)
    requires
        record_fits(r),
        inflates_back(r),
        forall|i: int| 0 <= i < r.subrecords@.len() ==> sub_writable(#[trigger] r.subrecords@[i]@),
        r.header.record_type@.len() == 4,
        (r.header.flags & RECORD_COMPRESSED != 0) == r.compressed,
    ensures
        header_at(r.header, record_bytes(r), 0),
        record_parse(record_bytes(r), 0, record_bytes(r).len() as int) == Ok::<
            (Seq<SubV>, bool, int),
            EspError,
        >((sub_views(r.subrecords@), r.compressed, record_bytes(r).len() as int)),
{
    lemma_auto_spec_u32_to_from_le_bytes();
    lemma_auto_spec_u16_to_from_le_bytes();
    let h = r.header;
    let p = record_payload(r);
    let b = record_bytes(r);
    let raw = subs_bytes(sub_views(r.subrecords@));
    let ss = sub_views(r.subrecords@);
    assert(b.subrange(0, 4) =~= h.record_type@);
    assert(b.subrange(4, 8) =~= le32(p.len() as int));
    assert(b.subrange(8, 12) =~= le32(h.flags as int));
    assert(b.subrange(12, 16) =~= le32(h.form_id as int));
    assert(b.subrange(16, 18) =~= le16(h.stamp as int));
    assert(b.subrange(18, 20) =~= le16(h.version_control as int));
    assert(b.subrange(20, 22) =~= le16(h.version as int));
    assert(b.subrange(22, 24) =~= le16(h.unknown as int));
    assert(b.subrange(24, b.len() as int) =~= p);
    assert forall|i: int| 0 <= i < ss.len() implies sub_writable(#[trigger] ss[i]) by {
        assert(ss[i] == r.subrecords@[i]@);
    }
    lemma_subrecords_round_trip(ss);
    if r.compressed {
        assert(p.subrange(4, p.len() as int) =~= zlib_encoded(raw)->Some_0);
        assert(unpack_payload(p, true) == Ok::<Seq<u8>, EspError>(raw));
    }
}


/// The fixed fields of a group header other than its tag and size.
#[derive(Debug, Clone, Copy)]
pub struct GroupHeader {
    pub label: [u8; 4],
    pub group_type: u32,
    pub stamp: u32,
    pub unknown: u32,
}

/// One node of a plugin tree. A group stands before its contents, and counts
/// how many nodes its subtree holds after it.
#[derive(Debug)]
pub enum Block {
    Record(Record),
    Group(GroupHeader, usize),
}

/// A parsed plugin: its tree in preorder.
#[derive(Debug)]
pub struct Plugin {
    pub blocks: Vec<Block>,
}

/// What the parser reads at an offset: a record with its subrecords and
/// compression state, or a group with the size of its subtree.
pub enum Shape {
    Rec(int, Seq<SubV>, bool),
    Grp(int, nat),
}

pub open spec fn group_header_at(g: GroupHeader, bytes: Seq<u8>, off: int) -> bool {
    &&& g.label@ == bytes.subrange(off + 8, off + 12)
    &&& g.group_type == u32_at(bytes, off + 12)
    &&& g.stamp == u32_at(bytes, off + 16)
    &&& g.unknown == u32_at(bytes, off + 20)
}

/// `b` is the node described by `s`, whose header lies in `bytes`.
pub open spec fn block_is(b: Block, s: Shape, bytes: Seq<u8>) -> bool {
    match b {
        Block::Record(r) => match s {
            Shape::Rec(off, ss, c) => header_at(r.header, bytes, off) && sub_views(r.subrecords@)
                == ss && r.compressed == c,
            Shape::Grp(_, _) => false,
        },
        Block::Group(g, n) => match s {
            Shape::Grp(off, cnt) => group_header_at(g, bytes, off) && n == cnt,
            Shape::Rec(_, _, _) => false,
        },
    }
}

pub open spec fn blocks_are(bs: Seq<Block>, ss: Seq<Shape>, bytes: Seq<u8>) -> bool {
    &&& bs.len() == ss.len()
    &&& forall|i: int| 0 <= i < bs.len() ==> block_is(#[trigger] bs[i], ss[i], bytes)
}

/// Where the innermost open group ends, or the end of the input.
pub open spec fn open_limit(len: int, stack: Seq<(usize, usize, usize)>) -> int {
    if stack.len() == 0 || stack.last().2 > len {
        len
    } else {
        stack.last().2 as int
    }
}

/// Closes the group that stands at `k`, now that its subtree is complete.
pub open spec fn close_group(items: Seq<Shape>, k: int, off: int) -> Seq<Shape> {
    items.update(k, Shape::Grp(off, (items.len() - k - 1) as nat))
}

/// Parsing from `cursor`, with `stack` holding each open group's node index,
/// offset and end, after the nodes `items`. Every node must end within the
/// group that holds it.
pub open spec fn parse_from(
    bytes: Seq<u8>,
    cursor: int,
    stack: Seq<(usize, usize, usize)>,
    items: Seq<Shape>,
) -> Result<Seq<Shape>, EspError>
    decreases bytes.len() - cursor, stack.len(),
{
    let limit = open_limit(bytes.len() as int, stack);
    if cursor >= limit {
        if stack.len() == 0 {
            Ok(items)
        } else {
            parse_from(
                bytes,
                cursor,
                stack.drop_last(),
                close_group(items, stack.last().0 as int, stack.last().1 as int),
            )
        }
    } else if cursor + 4 > limit {
        Err(EspError::InvalidHeader)
    } else if bytes.subrange(cursor, cursor + 4) == group_tag() {
        if cursor + 24 > limit {
            Err(EspError::InvalidGroup)
        } else {
            let size = u32_at(bytes, cursor + 4) as int;
            if size < 24 || cursor + size > limit || cursor + size > usize::MAX || items.len()
                >= usize::MAX {
                Err(EspError::InvalidGroup)
            } else {
                parse_from(
                    bytes,
                    cursor + 24,
                    stack.push((items.len() as usize, cursor as usize, (cursor + size) as usize)),
                    items.push(Shape::Grp(cursor, 0)),
                )
            }
        }
    } else {
        let end = cursor + 24 + u32_at(bytes, cursor + 4) as int;
        match record_parse(bytes, cursor, limit) {
            Err(e) => Err(e),
            Ok(r) => parse_from(bytes, end, stack, items.push(Shape::Rec(cursor, r.0, r.1))),
        }
    }
}

/// The tree a plugin file holds.
pub open spec fn plugin_parse(bytes: Seq<u8>) -> Result<Seq<Shape>, EspError> {
    parse_from(bytes, 0, Seq::empty(), Seq::empty())
}


/// Parses a whole plugin file into its tree, iteratively: a stack holds the
/// groups that are still open.
pub fn parse_plugin(bytes: &[u8]) -> (r: Result<Plugin, EspError>)
    ensures
        match plugin_parse(bytes@) {
            Ok(ss) => r matches Ok(p) && blocks_are(p.blocks@, ss, bytes@) && tree_wf(p.blocks@),
            Err(e) => r matches Err(x) && x == e,
        },
{
    let mut items: Vec<Block> = Vec::new();
    let mut stack: Vec<(usize, usize, usize)> = Vec::new();
    let mut cursor: usize = 0;
    let ghost mut shapes: Seq<Shape> = Seq::empty();
    let grup_tag = grup();
    let len = bytes.len();
    loop
        invariant
            len == bytes@.len(),
            grup_tag@ == group_tag(),
            cursor <= len,
            parse_from(bytes@, cursor as int, stack@, shapes) == plugin_parse(bytes@),
            blocks_are(items@, shapes, bytes@),
            tree_wf(items@),
            forall|j: int| 0 <= j < stack@.len() ==> (#[trigger] stack@[j]).0 < items@.len(),
            forall|j: int|
                0 <= j < stack@.len() ==> shapes[(#[trigger] stack@[j]).0 as int] is Grp && shapes[stack@[j].0 as int]->Grp_0
                    == stack@[j].1,
            forall|j1: int, j2: int|
                0 <= j1 < j2 < stack@.len() ==> (#[trigger] stack@[j1]).0 < (#[trigger] stack@[j2]).0,
        decreases len - cursor, stack@.len(),
    {
        let limit: usize = if stack.len() == 0 || stack[stack.len() - 1].2 > len {
            len
        } else {
            stack[stack.len() - 1].2
        };
        if cursor >= limit {
            if stack.len() == 0 {
                return Ok(Plugin { blocks: items });
            }
            let ghost pre_stack = stack@;
            let top = stack.pop().unwrap();
            let k = top.0;
            proof {
                assert(top == pre_stack[pre_stack.len() - 1]);
                assert(stack@ =~= pre_stack.drop_last());
            }
            let count = items.len() - k - 1;
            let ghost pre_items = items@;
            let hdr = match &items[k] {
                Block::Group(g, _) => *g,
                Block::Record(_) => {
                    proof {
                        assert(block_is(items@[k as int], shapes[k as int], bytes@));
                    }
                    GroupHeader { label: [0u8; 4], group_type: 0, stamp: 0, unknown: 0 }
                },
            };
            items[k] = Block::Group(hdr, count);
            proof {
                let new_shapes = close_group(shapes, k as int, top.1 as int);
                assert(shapes[k as int] is Grp);
                assert(block_is(pre_items[k as int], shapes[k as int], bytes@));
                assert forall|i: int| 0 <= i < items@.len() implies block_is(
                    #[trigger] items@[i],
                    new_shapes[i],
                    bytes@,
                ) by {
                    if i != k {
                        assert(items@[i] == pre_items[i]);
                    }
                }
                assert forall|i: int| 0 <= i < items@.len() implies match #[trigger] items@[i] {
                    Block::Group(_, n) => i + n < items@.len(),
                    Block::Record(_) => true,
                } by {
                    if i != k {
                        assert(items@[i] == pre_items[i]);
                    }
                }
                assert forall|j: int| 0 <= j < stack@.len() implies new_shapes[(#[trigger] stack@[j]).0 as int] is Grp
                    && new_shapes[stack@[j].0 as int]->Grp_0 == stack@[j].1 by {
                    assert(stack@[j] == pre_stack[j]);
                    assert(pre_stack[j].0 < pre_stack[pre_stack.len() - 1].0);
                }
                shapes = new_shapes;
            }
            continue;
        }
        if limit < 4 || cursor > limit - 4 {
            return Err(EspError::InvalidHeader);
        }
        let tag: [u8; 4] = [bytes[cursor], bytes[cursor + 1], bytes[cursor + 2], bytes[cursor + 3]];
        proof {
            assert(tag@ =~= bytes@.subrange(cursor as int, cursor + 4));
        }
        if same_tag(&tag, &grup_tag) {
            if limit < GROUP_HEADER_SIZE || cursor > limit - GROUP_HEADER_SIZE {
                return Err(EspError::InvalidGroup);
            }
            let size = read_u32(bytes, cursor + 4) as usize;
            if size < GROUP_HEADER_SIZE || size > limit - cursor || items.len() == usize::MAX {
                return Err(EspError::InvalidGroup);
            }
            let label: [u8; 4] = [bytes[cursor + 8], bytes[cursor + 9], bytes[cursor + 10], bytes[cursor + 11]];
            proof {
                assert(label@ =~= bytes@.subrange(cursor + 8, cursor + 12));
            }
            let g = GroupHeader {
                label,
                group_type: read_u32(bytes, cursor + 12),
                stamp: read_u32(bytes, cursor + 16),
                unknown: read_u32(bytes, cursor + 20),
            };
            let ghost pre_stack = stack@;
            stack.push((items.len(), cursor, cursor + size));
            let ghost pre_items = items@;
            items.push(Block::Group(g, 0));
            proof {
                let new_shapes = shapes.push(Shape::Grp(cursor as int, 0));
                assert forall|i: int| 0 <= i < items@.len() implies block_is(
                    #[trigger] items@[i],
                    new_shapes[i],
                    bytes@,
                ) by {
                    if i < pre_items.len() {
                        assert(items@[i] == pre_items[i]);
                    }
                }
                assert forall|i: int| 0 <= i < items@.len() implies match #[trigger] items@[i] {
                    Block::Group(_, n) => i + n < items@.len(),
                    Block::Record(_) => true,
                } by {
                    if i < pre_items.len() {
                        assert(items@[i] == pre_items[i]);
                    }
                }
                assert forall|j: int| 0 <= j < stack@.len() implies new_shapes[(#[trigger] stack@[j]).0 as int] is Grp
                    && new_shapes[stack@[j].0 as int]->Grp_0 == stack@[j].1 by {
                    if j < pre_stack.len() {
                        assert(stack@[j] == pre_stack[j]);
                    }
                }
                shapes = new_shapes;
            }
            cursor = cursor + GROUP_HEADER_SIZE;
        } else {
            let (rec, next) = match parse_record(bytes, cursor, limit) {
                Ok(x) => x,
                Err(e) => return Err(e),
            };
            let ghost pre_items = items@;
            let ghost sh = Shape::Rec(cursor as int, sub_views(rec.subrecords@), rec.compressed);
            items.push(Block::Record(rec));
            proof {
                let new_shapes = shapes.push(sh);
                assert forall|i: int| 0 <= i < items@.len() implies block_is(
                    #[trigger] items@[i],
                    new_shapes[i],
                    bytes@,
                ) by {
                    if i < pre_items.len() {
                        assert(items@[i] == pre_items[i]);
                    }
                }
                assert forall|i: int| 0 <= i < items@.len() implies match #[trigger] items@[i] {
                    Block::Group(_, n) => i + n < items@.len(),
                    Block::Record(_) => true,
                } by {
                    if i < pre_items.len() {
                        assert(items@[i] == pre_items[i]);
                    }
                }
                assert forall|j: int| 0 <= j < stack@.len() implies new_shapes[(#[trigger] stack@[j]).0 as int] is Grp
                    && new_shapes[stack@[j].0 as int]->Grp_0 == stack@[j].1 by {
                    assert(new_shapes[stack@[j].0 as int] == shapes[stack@[j].0 as int]);
                }
                shapes = new_shapes;
            }
            cursor = next;
        }
    }
}


/// The bytes a node contributes by itself: a record whole, a group its header.
pub open spec fn block_len(b: Block) -> int {
    match b {
        Block::Record(r) => record_bytes(r).len() as int,
        Block::Group(_, _) => 24,
    }
}

/// The bytes of the nodes `bs[a..b)`.
pub open spec fn span_len(bs: Seq<Block>, a: int, b: int) -> int
    decreases b - a,
{
    if a >= b {
        0
    } else {
        span_len(bs, a, b - 1) + block_len(bs[b - 1])
    }
}

/// The size a group header at `i` declares: its own header and its subtree.
pub open spec fn group_size(bs: Seq<Block>, i: int) -> int {
    match bs[i] {
        Block::Group(_, n) => 24 + span_len(bs, i + 1, i + 1 + n),
        Block::Record(_) => 0,
    }
}

pub open spec fn block_bytes(bs: Seq<Block>, i: int) -> Seq<u8> {
    match bs[i] {
        Block::Record(r) => record_bytes(r),
        Block::Group(g, _) => group_tag() + le32(group_size(bs, i)) + g.label@ + le32(
            g.group_type as int,
        ) + le32(g.stamp as int) + le32(g.unknown as int),
    }
}

/// The file bytes of the first `k` nodes.
pub open spec fn blocks_bytes(bs: Seq<Block>, k: int) -> Seq<u8>
    decreases k,
{
    if k <= 0 {
        Seq::empty()
    } else {
        blocks_bytes(bs, k - 1) + block_bytes(bs, k - 1)
    }
}

/// The file a tree is written as.
pub open spec fn plugin_bytes(bs: Seq<Block>) -> Seq<u8> {
    blocks_bytes(bs, bs.len() as int)
}

/// Each group's subtree lies within the tree.
pub open spec fn tree_wf(bs: Seq<Block>) -> bool {
    forall|i: int|
        0 <= i < bs.len() ==> match #[trigger] bs[i] {
            Block::Group(_, n) => i + n < bs.len(),
            Block::Record(_) => true,
        }
}

/// Every length the file stores fits its field.
pub open spec fn tree_fits(bs: Seq<Block>) -> bool {
    plugin_error(bs) is None
}

/// Why the first record among the first `k` nodes that cannot be written cannot.
pub open spec fn first_record_error(bs: Seq<Block>, k: int) -> Option<EspError>
    decreases k,
{
    if k <= 0 {
        None
    } else {
        match first_record_error(bs, k - 1) {
            Some(e) => Some(e),
            None => match bs[k - 1] {
                Block::Record(r) => record_error(r),
                Block::Group(_, _) => None,
            },
        }
    }
}

/// Why a tree cannot be written: the first record that cannot, else a group
/// whose declared size does not fit 32 bits.
pub open spec fn plugin_error(bs: Seq<Block>) -> Option<EspError> {
    match first_record_error(bs, bs.len() as int) {
        Some(e) => Some(e),
        None => if exists|i: int|
            0 <= i < bs.len() && (#[trigger] bs[i]) is Group && group_size(bs, i) > u32::MAX {
            Some(EspError::InvalidGroup)
        } else {
            None
        },
    }
}

proof fn lemma_record_error_persists(bs: Seq<Block>, m: int, n: int)
    requires
        0 <= m <= n,
        first_record_error(bs, m) is Some,
    ensures
        first_record_error(bs, n) == first_record_error(bs, m),
    decreases n - m,
{
    if n > m {
        lemma_record_error_persists(bs, m, n - 1);
    }
}

proof fn lemma_span_mono(bs: Seq<Block>, a: int, b: int, c: int)
    requires
        a <= b <= c,
        forall|j: int| a <= j < c ==> block_len(#[trigger] bs[j]) >= 0,
    ensures
        span_len(bs, a, b) <= span_len(bs, a, c),
    decreases c - b,
{
    if b < c {
        lemma_span_mono(bs, a, b, c - 1);
    }
}

fn chunk_len(bs: &Vec<Block>, chunks: &Vec<Vec<u8>>, j: usize) -> (r: usize)
    requires
        j < bs@.len(),
        chunks@.len() == bs@.len(),
        forall|i: int|
            0 <= i < bs@.len() ==> (#[trigger] bs@[i] matches Block::Record(rec) ==> chunks@[i]@
                == record_bytes(rec)),
    ensures
        r == block_len(bs@[j as int]),
{
    match &bs[j] {
        Block::Record(_) => chunks[j].len(),
        Block::Group(_, _) => GROUP_HEADER_SIZE,
    }
}

/// The declared size of the group at `i`, when it fits 32 bits.
fn group_size_of(bs: &Vec<Block>, chunks: &Vec<Vec<u8>>, i: usize, n: usize) -> (r: Option<u32>)
    requires
        i < bs@.len(),
        bs@[i as int] matches Block::Group(_, m) && m == n,
        i + n < bs@.len(),
        chunks@.len() == bs@.len(),
        forall|k: int|
            0 <= k < bs@.len() ==> (#[trigger] bs@[k] matches Block::Record(rec) ==> chunks@[k]@
                == record_bytes(rec)),
    ensures
        r matches Some(v) ==> v == group_size(bs@, i as int),
        r is None ==> group_size(bs@, i as int) > u32::MAX,
{
    let _ = bs.len();
    let mut acc: u64 = 24;
    let mut j: usize = i + 1;
    let end = i + 1 + n;
    while j < end
        invariant
            end == i + 1 + n,
            i + 1 <= j <= i + 1 + n,
            i < bs@.len(),
            bs@[i as int] matches Block::Group(_, m) && m == n,
            i + n < bs@.len(),
            chunks@.len() == bs@.len(),
            forall|k: int|
                0 <= k < bs@.len() ==> (#[trigger] bs@[k] matches Block::Record(rec) ==> chunks@[k]@
                    == record_bytes(rec)),
            acc == 24 + span_len(bs@, i + 1, j as int),
            acc <= u32::MAX,
        decreases i + 1 + n - j,
    {
        let l = chunk_len(bs, chunks, j);
        if l as u64 > u32::MAX as u64 - acc {
            proof {
                assert forall|k: int| i + 1 <= k < i + 1 + n implies block_len(#[trigger] bs@[k]) >= 0 by {
                    match bs@[k] {
                        Block::Record(rec) => {},
                        Block::Group(_, _) => {},
                    }
                }
                assert(span_len(bs@, i + 1, j + 1) == span_len(bs@, i + 1, j as int) + block_len(bs@[j as int]));
                lemma_span_mono(bs@, i + 1, j + 1, i + 1 + n);
                assert(group_size(bs@, i as int) == 24 + span_len(bs@, i + 1, i + 1 + n));
            }
            return None;
        }
        acc = acc + l as u64;
        j = j + 1;
    }
    proof {
        assert(group_size(bs@, i as int) == 24 + span_len(bs@, i + 1, i + 1 + n));
    }
    Some(acc as u32)
}

/// Writes a tree back out as a plugin file: every group's size is recomputed
/// from its subtree, every record re-laid (and recompressed where it was
/// stored compressed).
pub fn serialize_plugin(p: &Plugin) -> (r: Result<Vec<u8>, EspError>)
    requires
        tree_wf(p.blocks@),
    ensures
        match r {
            Ok(b) => plugin_error(p.blocks@) is None && b@ == plugin_bytes(p.blocks@),
            Err(e) => plugin_error(p.blocks@) == Some(e),
        },
{
    let bs = &p.blocks;
    let n = bs.len();
    let mut chunks: Vec<Vec<u8>> = Vec::new();
    for i in 0..n
        invariant
            n == bs@.len(),
            bs@ == p.blocks@,
            chunks@.len() == i,
            first_record_error(bs@, i as int) is None,
            forall|k: int|
                0 <= k < i ==> (#[trigger] bs@[k] matches Block::Record(rec) ==> chunks@[k]@
                    == record_bytes(rec) && record_fits(rec)),
    {
        let chunk = match &bs[i] {
            Block::Record(rec) => match serialize_record(rec) {
                Ok(b) => b,
                Err(e) => {
                    proof {
                        assert(bs@[i as int] matches Block::Record(x) && x == *rec);
                        assert(first_record_error(bs@, i + 1) == Some(e));
                        lemma_record_error_persists(bs@, i + 1, n as int);
                    }
                    return Err(e);
                },
            },
            Block::Group(_, _) => Vec::new(),
        };
        chunks.push(chunk);
    }
    let mut out: Vec<u8> = Vec::new();
    let grup_tag = grup();
    for i in 0..n
        invariant
            n == bs@.len(),
            bs@ == p.blocks@,
            chunks@.len() == n,
            tree_wf(bs@),
            first_record_error(bs@, n as int) is None,
            grup_tag@ == group_tag(),
            forall|k: int|
                0 <= k < n ==> (#[trigger] bs@[k] matches Block::Record(rec) ==> chunks@[k]@
                    == record_bytes(rec) && record_fits(rec)),
            forall|k: int| 0 <= k < i ==> (#[trigger] bs@[k] matches Block::Group(_, _) ==> group_size(bs@, k) <= u32::MAX),
            out@ == blocks_bytes(bs@, i as int),
    {
        let ghost before = out@;
        match &bs[i] {
            Block::Record(_) => {
                out.extend_from_slice(chunks[i].as_slice());
            },
            Block::Group(g, cnt) => {
                proof {
                    assert(i + *cnt < n);
                }
                let size = match group_size_of(bs, &chunks, i, *cnt) {
                    Some(v) => v,
                    None => {
                        proof {
                            assert(group_size(bs@, i as int) > u32::MAX);
                            assert(bs@[i as int] matches Block::Group(_, _));
                            assert(plugin_error(bs@) == Some(EspError::InvalidGroup));
                        }
                        return Err(EspError::InvalidGroup);
                    },
                };
                out.extend_from_slice(&grup_tag);
                let mut b = u32_to_le_bytes(size);
                out.append(&mut b);
                out.extend_from_slice(&g.label);
                let mut b = u32_to_le_bytes(g.group_type);
                out.append(&mut b);
                let mut b = u32_to_le_bytes(g.stamp);
                out.append(&mut b);
                let mut b = u32_to_le_bytes(g.unknown);
                out.append(&mut b);
            },
        }
        proof {
            assert(out@ =~= before + block_bytes(bs@, i as int));
        }
    }
    proof {
        assert(plugin_error(bs@) is None);
    }
    Ok(out)
}

} // verus!
