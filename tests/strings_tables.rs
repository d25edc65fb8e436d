use xtrans::strings::{
    read_dlstrings, read_ilstrings, read_strings, write_dlstrings, write_ilstrings, write_strings,
    StringsEntry, StringsError, StringsFile,
};

fn entry(id: u32, text: &str) -> StringsEntry {
    StringsEntry { id, text: text.to_string() }
}

fn sample(ids: [u32; 3]) -> StringsFile {
    StringsFile {
        entries: vec![
            entry(ids[0], "Hello"),
            entry(ids[1], "こんにちは"),
            entry(ids[2], "Line1\nLine2"),
        ],
    }
}

fn prefixed_table(entries: &[(u32, &str)]) -> Vec<u8> {
    let mut dir = Vec::new();
    let mut data = Vec::new();
    for (id, text) in entries {
        dir.extend_from_slice(&id.to_le_bytes());
        dir.extend_from_slice(&(data.len() as u32).to_le_bytes());
        data.extend_from_slice(&((text.len() + 1) as u32).to_le_bytes());
        data.extend_from_slice(text.as_bytes());
        data.push(0);
    }
    let mut out = Vec::new();
    out.extend_from_slice(&(entries.len() as u32).to_le_bytes());
    out.extend_from_slice(&(data.len() as u32).to_le_bytes());
    out.extend_from_slice(&dir);
    out.extend_from_slice(&data);
    out
}

#[test]
fn t_str_rt_001_strings_round_trip() {
    let file = sample([10, 20, 30]);
    let bytes = write_strings(&file).expect("write strings");
    let decoded = read_strings(&bytes).expect("read strings");
    assert_eq!(decoded, file);
}

#[test]
fn t_str_rt_002_dlstrings_round_trip() {
    let file = sample([10, 20, 30]);
    let bytes = write_dlstrings(&file).expect("write dlstrings");
    let decoded = read_dlstrings(&bytes).expect("read dlstrings");
    assert_eq!(decoded, file);
}

#[test]
fn t_str_rt_003_ilstrings_round_trip() {
    let file = sample([11, 12, 13]);
    let bytes = write_ilstrings(&file).expect("write ilstrings");
    let decoded = read_ilstrings(&bytes).expect("read ilstrings");
    assert_eq!(decoded, file);
}

#[test]
fn t_str_rt_002_dlstrings_requires_null_terminator() {
    let mut bytes = Vec::new();
    bytes.extend_from_slice(&1u32.to_le_bytes());
    bytes.extend_from_slice(&9u32.to_le_bytes());
    bytes.extend_from_slice(&1u32.to_le_bytes());
    bytes.extend_from_slice(&0u32.to_le_bytes());
    bytes.extend_from_slice(&5u32.to_le_bytes());
    bytes.extend_from_slice(b"Hello");
    let err = read_dlstrings(&bytes).expect_err("missing null terminator");
    assert_eq!(err, StringsError::MissingTerminator);
}

#[test]
fn t_str_rt_002_dlstrings_golden_fixture() {
    let fixture = prefixed_table(&[(10, "Hello"), (20, "こんにちは"), (30, "Line1\nLine2")]);
    let file = read_dlstrings(&fixture).expect("read dlstrings fixture");
    assert_eq!(
        file.entries,
        vec![entry(10, "Hello"), entry(20, "こんにちは"), entry(30, "Line1\nLine2")]
    );
    let encoded = write_dlstrings(&file).expect("write dlstrings fixture");
    assert_eq!(encoded, fixture);
}

#[test]
fn t_str_rt_003_ilstrings_golden_fixture() {
    let fixture = prefixed_table(&[(100, "Sword"), (200, "Shield"), (300, "ドラゴン")]);
    let file = read_ilstrings(&fixture).expect("read ilstrings fixture");
    assert_eq!(
        file.entries,
        vec![entry(100, "Sword"), entry(200, "Shield"), entry(300, "ドラゴン")]
    );
    let encoded = write_ilstrings(&file).expect("write ilstrings fixture");
    assert_eq!(encoded, fixture);
}

#[test]
fn plain_layout_is_exact() {
    let file = StringsFile { entries: vec![entry(7, "ab"), entry(3, "c")] };
    let bytes = write_strings(&file).expect("write");
    let mut expected = Vec::new();
    expected.extend_from_slice(&2u32.to_le_bytes());
    expected.extend_from_slice(&5u32.to_le_bytes());
    expected.extend_from_slice(&3u32.to_le_bytes());
    expected.extend_from_slice(&0u32.to_le_bytes());
    expected.extend_from_slice(&7u32.to_le_bytes());
    expected.extend_from_slice(&2u32.to_le_bytes());
    expected.extend_from_slice(b"c\0ab\0");
    assert_eq!(bytes, expected);
}

#[test]
fn write_sorts_entries_by_id() {
    let file = StringsFile { entries: vec![entry(30, "c"), entry(10, "a"), entry(20, "b")] };
    for (bytes, reader) in [
        (write_strings(&file).unwrap(), read_strings as fn(&[u8]) -> Result<StringsFile, StringsError>),
        (write_dlstrings(&file).unwrap(), read_dlstrings),
        (write_ilstrings(&file).unwrap(), read_ilstrings),
    ] {
        let back = reader(&bytes).unwrap();
        let ids: Vec<u32> = back.entries.iter().map(|e| e.id).collect();
        assert_eq!(ids, vec![10, 20, 30]);
        assert_eq!(back.entries[0].text, "a");
    }
}

#[test]
fn duplicate_ids_are_refused() {
    let file = StringsFile { entries: vec![entry(5, "x"), entry(9, "y"), entry(5, "z")] };
    assert_eq!(write_strings(&file), Err(StringsError::DuplicateId(5)));
    assert_eq!(write_dlstrings(&file), Err(StringsError::DuplicateId(5)));
    assert_eq!(write_ilstrings(&file), Err(StringsError::DuplicateId(5)));
    let two = StringsFile { entries: vec![entry(9, "a"), entry(4, "b"), entry(9, "c"), entry(4, "d")] };
    assert_eq!(write_strings(&two), Err(StringsError::DuplicateId(4)));
    assert_eq!(write_dlstrings(&two), Err(StringsError::DuplicateId(4)));
}

#[test]
fn empty_table_round_trips() {
    let file = StringsFile { entries: vec![] };
    let bytes = write_strings(&file).unwrap();
    assert_eq!(bytes, vec![0u8; 8]);
    assert_eq!(read_strings(&bytes).unwrap(), file);
}

#[test]
fn short_header_is_invalid() {
    assert_eq!(read_strings(&[1, 0, 0]), Err(StringsError::InvalidHeader));
    assert_eq!(read_dlstrings(&[]), Err(StringsError::InvalidHeader));
}

#[test]
fn oversized_count_is_invalid_header() {
    let mut bytes = Vec::new();
    bytes.extend_from_slice(&0x2000_0000u32.to_le_bytes());
    bytes.extend_from_slice(&0u32.to_le_bytes());
    assert_eq!(read_strings(&bytes), Err(StringsError::InvalidHeader));
}

#[test]
fn truncated_data_is_unexpected_eof() {
    let mut bytes = write_strings(&sample([1, 2, 3])).unwrap();
    bytes.pop();
    assert_eq!(read_strings(&bytes), Err(StringsError::UnexpectedEof));
}

#[test]
fn offset_past_data_is_invalid() {
    let mut bytes = Vec::new();
    bytes.extend_from_slice(&1u32.to_le_bytes());
    bytes.extend_from_slice(&2u32.to_le_bytes());
    bytes.extend_from_slice(&1u32.to_le_bytes());
    bytes.extend_from_slice(&2u32.to_le_bytes());
    bytes.extend_from_slice(b"a\0");
    assert_eq!(read_strings(&bytes), Err(StringsError::InvalidOffset));
}

#[test]
fn plain_text_without_null_is_missing_terminator() {
    let mut bytes = Vec::new();
    bytes.extend_from_slice(&1u32.to_le_bytes());
    bytes.extend_from_slice(&2u32.to_le_bytes());
    bytes.extend_from_slice(&1u32.to_le_bytes());
    bytes.extend_from_slice(&0u32.to_le_bytes());
    bytes.extend_from_slice(b"ab");
    assert_eq!(read_strings(&bytes), Err(StringsError::MissingTerminator));
}

#[test]
fn zero_length_prefix_is_invalid_length() {
    let mut bytes = Vec::new();
    bytes.extend_from_slice(&1u32.to_le_bytes());
    bytes.extend_from_slice(&4u32.to_le_bytes());
    bytes.extend_from_slice(&1u32.to_le_bytes());
    bytes.extend_from_slice(&0u32.to_le_bytes());
    bytes.extend_from_slice(&0u32.to_le_bytes());
    assert_eq!(read_dlstrings(&bytes), Err(StringsError::InvalidLength));
}

#[test]
fn bad_utf8_is_reported() {
    let mut bytes = Vec::new();
    bytes.extend_from_slice(&1u32.to_le_bytes());
    bytes.extend_from_slice(&2u32.to_le_bytes());
    bytes.extend_from_slice(&1u32.to_le_bytes());
    bytes.extend_from_slice(&0u32.to_le_bytes());
    bytes.extend_from_slice(&[0xff, 0]);
    assert_eq!(read_strings(&bytes), Err(StringsError::Utf8));
}
