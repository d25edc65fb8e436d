use std::io::Write;
use xtrans::extract::{
    apply_translations_to_bytes, extract_strings_from_bytes, format_key, StringStorage,
    StringsBundle, StringsKind,
};
use xtrans::plugin::{
    parse_plugin, parse_subrecords, serialize_plugin, serialize_subrecords, Block, EspError,
    Subrecord, RECORD_COMPRESSED,
};
use xtrans::strings::{StringsEntry, StringsFile};

fn make_subrecord(tag: &[u8; 4], data: &[u8]) -> Vec<u8> {
    let mut out = Vec::with_capacity(6 + data.len());
    out.extend_from_slice(tag);
    out.extend_from_slice(&(data.len() as u16).to_le_bytes());
    out.extend_from_slice(data);
    out
}

fn compress(data: &[u8]) -> Vec<u8> {
    let mut encoder = flate2::write::ZlibEncoder::new(Vec::new(), flate2::Compression::default());
    encoder.write_all(data).expect("compress");
    let packed = encoder.finish().expect("finish");
    let mut out = (data.len() as u32).to_le_bytes().to_vec();
    out.extend_from_slice(&packed);
    out
}

fn make_record(tag: &[u8; 4], form_id: u32, flags: u32, subrecords: Vec<Vec<u8>>, packed: bool) -> Vec<u8> {
    let mut data = Vec::new();
    for sub in subrecords {
        data.extend_from_slice(&sub);
    }
    let data = if packed { compress(&data) } else { data };
    let mut out = Vec::new();
    out.extend_from_slice(tag);
    out.extend_from_slice(&(data.len() as u32).to_le_bytes());
    out.extend_from_slice(&flags.to_le_bytes());
    out.extend_from_slice(&form_id.to_le_bytes());
    out.extend_from_slice(&[0u8; 8]);
    out.extend_from_slice(&data);
    out
}

fn make_group(label: &[u8; 4], children: &[Vec<u8>]) -> Vec<u8> {
    let body: Vec<u8> = children.concat();
    let mut out = Vec::new();
    out.extend_from_slice(b"GRUP");
    out.extend_from_slice(&((24 + body.len()) as u32).to_le_bytes());
    out.extend_from_slice(label);
    out.extend_from_slice(&0u32.to_le_bytes());
    out.extend_from_slice(&0u32.to_le_bytes());
    out.extend_from_slice(&0u32.to_le_bytes());
    out.extend_from_slice(&body);
    out
}

fn no_tables() -> StringsBundle {
    StringsBundle { strings: None, dlstrings: None, ilstrings: None }
}

#[test]
fn t_esp_ex_001_inline_round_trip_edit() {
    let record = make_record(b"NPC_", 0x01020304, 0, vec![make_subrecord(b"FULL", b"Hello\0")], false);
    let mut bundle = no_tables();
    let extracted = extract_strings_from_bytes(&record, &bundle).expect("extract strings");
    assert_eq!(extracted.len(), 1);
    assert_eq!(extracted[0].text, "Hello");
    assert_eq!(extracted[0].storage, StringStorage::Inline);
    assert_eq!(extracted[0].get_unique_key(), "NPC_:01020304:FULL:0");

    let mut updated = extracted[0].clone();
    updated.text = "Hi".to_string();
    let out = apply_translations_to_bytes(&record, &mut bundle, &vec![updated]).expect("apply");
    let refreshed = extract_strings_from_bytes(&out, &bundle).expect("extract updated");
    assert_eq!(refreshed[0].text, "Hi");
    assert_eq!(out, make_record(b"NPC_", 0x01020304, 0, vec![make_subrecord(b"FULL", b"Hi\0")], false));
}

#[test]
fn t_esp_ex_001_localized_round_trip_edit() {
    let string_id = 100u32;
    let record = make_record(b"NPC_", 0x0A0B0C0D, 0, vec![make_subrecord(b"FULL", &string_id.to_le_bytes())], false);
    let mut bundle = StringsBundle {
        strings: Some(StringsFile { entries: vec![StringsEntry { id: string_id, text: "Hello".to_string() }] }),
        dlstrings: None,
        ilstrings: None,
    };
    let extracted = extract_strings_from_bytes(&record, &bundle).expect("extract localized");
    assert_eq!(extracted.len(), 1);
    assert_eq!(extracted[0].text, "Hello");
    match extracted[0].storage {
        StringStorage::Localized { kind, id } => {
            assert_eq!(kind, StringsKind::Strings);
            assert_eq!(id, string_id);
        }
        _ => panic!("expected localized storage"),
    }

    let mut updated = extracted[0].clone();
    updated.text = "こんにちは".to_string();
    let out = apply_translations_to_bytes(&record, &mut bundle, &vec![updated]).expect("apply");
    assert_eq!(out, record);
    assert_eq!(bundle.strings.as_ref().unwrap().entries[0].text, "こんにちは");
    let refreshed = extract_strings_from_bytes(&out, &bundle).expect("extract updated");
    assert_eq!(refreshed[0].text, "こんにちは");
}

#[test]
fn t_esp_ex_001_compressed_round_trip_edit() {
    let record = make_record(b"NPC_", 0x01020305, RECORD_COMPRESSED, vec![make_subrecord(b"DESC", b"Compressed\0")], true);
    let mut bundle = no_tables();
    let extracted = extract_strings_from_bytes(&record, &bundle).expect("extract strings");
    assert_eq!(extracted.len(), 1);
    assert_eq!(extracted[0].text, "Compressed");

    let unchanged = apply_translations_to_bytes(&record, &mut bundle, &vec![]).expect("rewrite");
    let again = extract_strings_from_bytes(&unchanged, &bundle).expect("extract rewritten");
    assert_eq!(again[0].text, "Compressed");

    let mut updated = extracted[0].clone();
    updated.text = "Updated".to_string();
    let out = apply_translations_to_bytes(&record, &mut bundle, &vec![updated]).expect("apply");
    let refreshed = extract_strings_from_bytes(&out, &bundle).expect("extract updated");
    assert_eq!(refreshed[0].text, "Updated");
    let p = parse_plugin(&out).expect("parse");
    match &p.blocks[0] {
        Block::Record(r) => {
            assert!(r.compressed);
            assert_eq!(r.subrecords[0].data, b"Updated\0".to_vec());
        }
        _ => panic!("expected a record"),
    }
}

#[test]
fn extended_length_subrecord_round_trips() {
    let payload: Vec<u8> = (0..70_000u32).map(|i| (i % 251) as u8).collect();
    let subs = vec![
        Subrecord { sub_type: *b"DATA", data: payload.clone() },
        Subrecord { sub_type: *b"EDID", data: b"x\0".to_vec() },
    ];
    let bytes = serialize_subrecords(&subs).expect("serialize");
    assert_eq!(&bytes[0..4], b"XXXX");
    assert_eq!(&bytes[4..6], &4u16.to_le_bytes());
    assert_eq!(&bytes[6..10], &70_000u32.to_le_bytes());
    assert_eq!(&bytes[10..14], b"DATA");
    assert_eq!(&bytes[14..16], &0u16.to_le_bytes());
    let back = parse_subrecords(&bytes).expect("parse");
    assert_eq!(back.len(), 2);
    assert_eq!(back[0].sub_type, *b"DATA");
    assert_eq!(back[0].data.len(), 70_000);
    assert_eq!(back[0].data, payload);
    assert_eq!(back[1].data, b"x\0".to_vec());
}

#[test]
fn extended_length_text_in_a_record_round_trips() {
    let mut text = "Long text ".repeat(7_000).into_bytes();
    text.push(0);
    let mut sub = Vec::new();
    sub.extend_from_slice(b"XXXX");
    sub.extend_from_slice(&4u16.to_le_bytes());
    sub.extend_from_slice(&(text.len() as u32).to_le_bytes());
    sub.extend_from_slice(b"DESC");
    sub.extend_from_slice(&0u16.to_le_bytes());
    sub.extend_from_slice(&text);
    let record = make_record(b"BOOK", 7, 0, vec![sub], false);
    let mut bundle = no_tables();
    let found = extract_strings_from_bytes(&record, &bundle).expect("extract");
    assert_eq!(found.len(), 1);
    assert_eq!(found[0].text.len(), text.len() - 1);
    let out = apply_translations_to_bytes(&record, &mut bundle, &vec![]).expect("rewrite");
    assert_eq!(out, record);
}

#[test]
fn key_stability_over_two_runs() {
    let file = make_group(b"NPC_", &[
        make_record(b"NPC_", 1, 0, vec![make_subrecord(b"FULL", b"Alpha\0"), make_subrecord(b"DESC", b"Beta\0")], false),
        make_record(b"NPC_", 2, 0, vec![make_subrecord(b"FULL", b"Gamma\0")], false),
    ]);
    let bundle = no_tables();
    let a = extract_strings_from_bytes(&file, &bundle).unwrap();
    let b = extract_strings_from_bytes(&file, &bundle).unwrap();
    let ka: Vec<String> = a.iter().map(|e| e.get_unique_key()).collect();
    let kb: Vec<String> = b.iter().map(|e| e.get_unique_key()).collect();
    assert_eq!(ka, kb);
    assert_eq!(ka, vec!["NPC_:00000002:FULL:0", "NPC_:00000001:FULL:0", "NPC_:00000001:DESC:1"]);
}

#[test]
fn nested_groups_round_trip_byte_for_byte() {
    let inner = make_group(b"CELL", &[make_record(b"REFR", 9, 0, vec![make_subrecord(b"EDID", b"ref\0")], false)]);
    let file = [
        make_record(b"TES4", 0, 0, vec![make_subrecord(b"HEDR", &[1, 2, 3, 4])], false),
        make_group(b"WRLD", &[inner, make_record(b"WEAP", 0x12EB7, 0, vec![make_subrecord(b"FULL", b"Iron Sword\0")], false)]),
    ]
    .concat();
    let p = parse_plugin(&file).expect("parse");
    assert_eq!(p.blocks.len(), 5);
    match &p.blocks[1] {
        Block::Group(_, n) => assert_eq!(*n, 3),
        _ => panic!("expected a group"),
    }
    assert_eq!(serialize_plugin(&p).expect("serialize"), file);
}

#[test]
fn text_detection_skips_non_text() {
    let record = make_record(b"MISC", 3, 0, vec![
        make_subrecord(b"FULL", b"\0"),
        make_subrecord(b"FULL", b"1234 \x01"),
        make_subrecord(b"DESC", b"---\0"),
        make_subrecord(b"DESC", &[0xff, 0xfe, 0]),
        make_subrecord(b"EDID", b"Editor\0"),
        make_subrecord(b"FULL", b"Tab\tand\nline\0"),
    ], false);
    let found = extract_strings_from_bytes(&record, &no_tables()).unwrap();
    assert_eq!(found.len(), 1);
    assert_eq!(found[0].text, "Tab\tand\nline");
    assert_eq!(found[0].index, 0);
    assert_eq!(found[0].get_unique_key(), "MISC:00000003:FULL:0");
}

#[test]
fn localized_lookup_prefers_plain_table() {
    let record = make_record(b"NPC_", 5, 0, vec![make_subrecord(b"FULL", &42u32.to_le_bytes())], false);
    let bundle = StringsBundle {
        strings: None,
        dlstrings: Some(StringsFile { entries: vec![StringsEntry { id: 42, text: "from dl".to_string() }] }),
        ilstrings: Some(StringsFile { entries: vec![StringsEntry { id: 42, text: "from il".to_string() }] }),
    };
    let found = extract_strings_from_bytes(&record, &bundle).unwrap();
    assert_eq!(found[0].text, "from dl");
    assert_eq!(found[0].storage, StringStorage::Localized { kind: StringsKind::DlStrings, id: 42 });
}

#[test]
fn missing_table_and_missing_id_fail() {
    let record = make_record(b"NPC_", 5, 0, vec![make_subrecord(b"FULL", b"Hello\0")], false);
    let mut bundle = no_tables();
    let mut t = extract_strings_from_bytes(&record, &bundle).unwrap()[0].clone();
    t.storage = StringStorage::Localized { kind: StringsKind::IlStrings, id: 8 };
    assert_eq!(
        apply_translations_to_bytes(&record, &mut bundle, &vec![t.clone()]),
        Err(EspError::MissingStringsFile(StringsKind::IlStrings))
    );
    bundle.ilstrings = Some(StringsFile { entries: vec![StringsEntry { id: 9, text: "x".to_string() }] });
    assert_eq!(apply_translations_to_bytes(&record, &mut bundle, &vec![t]), Err(EspError::MissingStringId(8)));
}

#[test]
fn structural_errors() {
    let bundle = no_tables();
    assert_eq!(extract_strings_from_bytes(b"NP", &bundle).unwrap_err(), EspError::InvalidHeader);
    assert_eq!(extract_strings_from_bytes(b"NPC_\x10\0\0\0", &bundle).unwrap_err(), EspError::InvalidRecord);
    let mut short_group = make_group(b"NPC_", &[]);
    short_group[4] = 10;
    assert_eq!(extract_strings_from_bytes(&short_group, &bundle).unwrap_err(), EspError::InvalidGroup);
    let bad_sub = make_record(b"NPC_", 1, 0, vec![b"FULL\x09\0abc".to_vec()], false);
    assert_eq!(extract_strings_from_bytes(&bad_sub, &bundle).unwrap_err(), EspError::InvalidSubrecord);
    let bad_zlib = {
        let mut r = make_record(b"NPC_", 1, RECORD_COMPRESSED, vec![], false);
        r.extend_from_slice(&[4, 0, 0, 0, 1, 2, 3, 4]);
        r[4] = 8;
        r
    };
    assert_eq!(extract_strings_from_bytes(&bad_zlib, &bundle).unwrap_err(), EspError::Compression);
}

#[test]
fn key_format_is_uppercase_hex_and_decimal() {
    assert_eq!(format_key(b"WEAP", 0x12eb7, b"FULL", 12), "WEAP:00012EB7:FULL:12");
}

#[test]
fn index_counts_only_extracted_texts() {
    let record = make_record(b"NPC_", 0x10, 0, vec![
        make_subrecord(b"FULL", b""),
        make_subrecord(b"DESC", &7u32.to_le_bytes()),
        make_subrecord(b"FULL", b"Name\0"),
    ], false);
    let mut bundle = StringsBundle {
        strings: Some(StringsFile { entries: vec![StringsEntry { id: 7, text: "Described".to_string() }] }),
        dlstrings: None,
        ilstrings: None,
    };
    let found = extract_strings_from_bytes(&record, &bundle).unwrap();
    let keys: Vec<String> = found.iter().map(|e| e.get_unique_key()).collect();
    assert_eq!(keys, vec!["NPC_:00000010:DESC:0", "NPC_:00000010:FULL:1"]);
    let mut edit = found[1].clone();
    edit.text = "Renamed".to_string();
    let out = apply_translations_to_bytes(&record, &mut bundle, &vec![edit]).unwrap();
    let again = extract_strings_from_bytes(&out, &bundle).unwrap();
    assert_eq!(again[1].text, "Renamed");
    assert_eq!(again[1].get_unique_key(), "NPC_:00000010:FULL:1");
}

#[test]
fn trailing_bytes_are_not_dropped() {
    assert_eq!(parse_subrecords(&[1, 2, 3]).unwrap_err(), EspError::InvalidSubrecord);
    let mut data = make_subrecord(b"EDID", b"x\0");
    data.extend_from_slice(&[0, 0]);
    assert_eq!(parse_subrecords(&data).unwrap_err(), EspError::InvalidSubrecord);
    let mut dangling = make_subrecord(b"EDID", b"x\0");
    dangling.extend_from_slice(b"XXXX\x04\0");
    dangling.extend_from_slice(&9u32.to_le_bytes());
    assert_eq!(parse_subrecords(&dangling).unwrap_err(), EspError::InvalidSubrecord);
    assert!(parse_subrecords(&[]).unwrap().is_empty());
    let record = make_record(b"NPC_", 1, 0, vec![make_subrecord(b"FULL", b"Hi\0"), vec![7, 7]], false);
    assert_eq!(extract_strings_from_bytes(&record, &no_tables()).unwrap_err(), EspError::InvalidSubrecord);
}
