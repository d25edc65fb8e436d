use xtrans::diff::{hash_source, update_source, DiffEntry, EntryStatus};
use xtrans::encoding::{decode, encode, Encoding, EncodingError};
use xtrans::plugin_binary::{apply_inplace_replacements, extract_null_terminated_utf8, PluginBinaryError};
use xtrans::search::{search_entries, SearchEntry, SearchField};
use xtrans::ui_state::{Entry, TwoPaneState};
use xtrans::undo::UndoStack;
use xtrans::validation::{
    validate_alias_tags, validate_braced_placeholders, validate_printf_placeholders, Severity,
};

fn row(key: &str, src: &str, dst: &str) -> Entry {
    Entry { key: key.to_string(), source_text: src.to_string(), target_text: dst.to_string() }
}

#[test]
fn t_undo_001_single_edit_undo_redo() {
    let mut stack = UndoStack::new("a".to_string());
    stack.apply("b".to_string());
    assert_eq!(stack.present(), "b");
    assert!(stack.undo());
    assert_eq!(stack.present(), "a");
    assert!(stack.redo());
    assert_eq!(stack.present(), "b");
}

#[test]
fn t_undo_002_batch_edit_undo() {
    let mut stack = UndoStack::new(vec!["a".to_string(), "b".to_string()]);
    let mut next = stack.present().clone();
    next[0] = "x".to_string();
    next[1] = "y".to_string();
    stack.apply(next);
    assert_eq!(stack.present(), &vec!["x".to_string(), "y".to_string()]);
    assert!(stack.undo());
    assert_eq!(stack.present(), &vec!["a".to_string(), "b".to_string()]);
}

#[test]
fn undo_edges() {
    let mut stack = UndoStack::new(1u32);
    assert!(!stack.undo());
    assert!(!stack.redo());
    stack.apply(1);
    assert!(!stack.undo());
    stack.apply(2);
    stack.apply(3);
    assert!(stack.undo());
    stack.apply(4);
    assert!(!stack.redo());
    assert!(stack.undo());
    assert_eq!(*stack.present(), 2);
}

#[test]
fn t_srch_001_search_source_target() {
    let entries = vec![
        SearchEntry { key: "key-1".to_string(), source_text: "Hello World".to_string(), target_text: "こんにちは世界".to_string() },
        SearchEntry { key: "key-2".to_string(), source_text: "Goodbye".to_string(), target_text: "さようなら".to_string() },
        SearchEntry { key: "key-3".to_string(), source_text: "Hello again".to_string(), target_text: "もう一度こんにちは".to_string() },
    ];
    let source_hits = search_entries(&entries, "Hello", SearchField::Source);
    assert_eq!(source_hits, vec!["key-1".to_string(), "key-3".to_string()]);
    let target_hits = search_entries(&entries, "さよう", SearchField::Target);
    assert_eq!(target_hits, vec!["key-2".to_string()]);
    let either = search_entries(&entries, "o", SearchField::Either);
    assert_eq!(either.len(), 3);
    let all = search_entries(&entries, "", SearchField::Source);
    assert_eq!(all.len(), 3);
}

#[test]
fn t_diff_001_source_change_marks_needs_review() {
    let mut entry = DiffEntry::new("k1", "Hello", "こんにちは");
    assert_eq!(entry.status, EntryStatus::Untranslated);
    update_source(&mut entry, "Hello world");
    assert_eq!(entry.status, EntryStatus::NeedsReview);
}

#[test]
fn fnv_hash_values() {
    assert_eq!(hash_source(""), 0xcbf29ce484222325);
    assert_eq!(hash_source("a"), 0xaf63dc4c8601ec8c);
    let mut entry = DiffEntry::new("k", "same", "t");
    update_source(&mut entry, "same");
    assert_eq!(entry.status, EntryStatus::Untranslated);
}

#[test]
fn t_enc_001_latin1_round_trip() {
    let bytes = [0x48, 0x65, 0x6C, 0x6C, 0x6F, 0xE9];
    let decoded = decode(&bytes, Encoding::Latin1).expect("decode latin1");
    let encoded = encode(&decoded, Encoding::Latin1).expect("encode latin1");
    assert_eq!(encoded, bytes);
}

#[test]
fn encoding_errors() {
    assert_eq!(decode(&[0xE9], Encoding::Utf8), Err(EncodingError::InvalidUtf8));
    assert_eq!(decode(&[0xE9], Encoding::Latin1), Ok("é".to_string()));
    assert_eq!(encode("漢", Encoding::Latin1), Err(EncodingError::UnrepresentableChar));
    assert_eq!(encode("é", Encoding::Utf8), Ok(vec![0xC3, 0xA9]));
}

#[test]
fn t_esp_ex_001_binary_extract_edit_round_trip() {
    let mut bytes = b"TES4\x01\x02\0HELLO\0ab\0WORLD text\0\xff\xfe\0tail".to_vec();
    let entries = extract_null_terminated_utf8(&bytes, 3);
    let hello = entries.iter().find(|e| e.text == "HELLO").unwrap();
    apply_inplace_replacements(&mut bytes, &[(hello.offset, "CELLO")]).expect("apply");
    let updated = extract_null_terminated_utf8(&bytes, 3);
    assert!(updated.iter().any(|e| e.text == "CELLO"));
}

#[test]
fn binary_scan_reports_offsets() {
    let bytes = b"\x01\x02\0HELLO\0ab\0WORLD text\0\xff\xfe\0tail".to_vec();
    let found = extract_null_terminated_utf8(&bytes, 3);
    let got: Vec<(usize, usize, &str)> = found.iter().map(|e| (e.offset, e.length, e.text.as_str())).collect();
    assert_eq!(got, vec![(3, 5, "HELLO"), (12, 10, "WORLD text")]);
    let mut short = b"abc".to_vec();
    assert_eq!(apply_inplace_replacements(&mut short, &[(1, "xyz")]), Err(PluginBinaryError::LengthMismatch));
    assert_eq!(short, b"abc".to_vec());
}

#[test]
fn t_ui_001_select_updates_detail() {
    let mut state = TwoPaneState::new(vec![row("k1", "Hello", "こんにちは"), row("k2", "World", "世界")]);
    assert!(state.entries().len() == 2);
    assert!(state.selected_entry().is_none());
    assert!(state.select("k2"));
    let selected = state.selected_entry().expect("selected entry");
    assert_eq!(selected.key, "k2");
}

#[test]
fn t_ui_001_search_filters_entries() {
    let mut state = TwoPaneState::new(vec![row("k1", "Hello", "こんにちは"), row("k2", "World", "世界")]);
    state.set_query("Hello");
    let filtered = state.filtered_entries();
    assert_eq!(filtered.len(), 1);
    assert_eq!(filtered[0].key, "k1");
}

#[test]
fn t_ui_001_update_entry_changes_data() {
    let mut state = TwoPaneState::new(vec![row("k1", "Hello", "こんにちは")]);
    assert!(state.update_entry("k1", "Hi", "やあ"));
    let updated = state.entries().first().expect("entry");
    assert_eq!(updated.source_text, "Hi");
    assert_eq!(updated.target_text, "やあ");
}

#[test]
fn t_ui_001_set_entries_resets_selection_when_missing() {
    let mut state = TwoPaneState::new(vec![row("k1", "Hello", "こんにちは")]);
    assert!(state.select("k1"));
    state.set_entries(vec![row("k2", "World", "世界")]);
    assert!(state.selected_entry().is_none());
}

#[test]
fn ui_state_edges() {
    let mut state = TwoPaneState::new(vec![row("k1", "Hello", "こんにちは")]);
    assert!(!state.select("nope"));
    assert_eq!(state.selected_key(), None);
    assert!(!state.update_entry("nope", "a", "b"));
    assert!(state.select("k1"));
    state.set_entries(vec![row("k1", "Again", "再び")]);
    assert_eq!(state.selected_key(), Some("k1"));
    assert_eq!(state.query(), "");
    state.set_query("世");
    assert_eq!(state.filtered_entries().len(), 0);
}

#[test]
fn t_val_ph_001_mismatch_returns_error() {
    let issues = validate_braced_placeholders("entry:1", "Hello {0}", "こんにちは");
    assert_eq!(issues.len(), 1);
    assert_eq!(issues[0].severity, Severity::Error);
}

#[test]
fn t_val_ph_001_match_returns_no_issues() {
    let issues = validate_braced_placeholders("entry:2", "A {0} B {1}", "B {1} A {0}");
    assert!(issues.is_empty());
}

#[test]
fn t_val_ph_002_mismatch_returns_error() {
    let issues = validate_printf_placeholders("entry:3", "Hello %s %d", "こんにちは %s");
    assert_eq!(issues.len(), 1);
    assert_eq!(issues[0].severity, Severity::Error);
}

#[test]
fn t_val_ph_002_match_returns_no_issues() {
    let issues = validate_printf_placeholders("entry:4", "Rate 100%% %s", "Rate 100%% %s");
    assert!(issues.is_empty());
}

#[test]
fn t_val_alias_001_mismatch_returns_error() {
    let issues = validate_alias_tags("entry:5", "Hello <Alias=John>", "こんにちは <Alias=Jane>");
    assert_eq!(issues.len(), 1);
    assert_eq!(issues[0].severity, Severity::Error);
}

#[test]
fn t_val_alias_001_match_returns_no_issues() {
    let issues = validate_alias_tags(
        "entry:6",
        "Hello <Alias=John> <Alias=Jane>",
        "こんにちは <Alias=Jane> <Alias=John>",
    );
    assert!(issues.is_empty());
}

#[test]
fn validation_details() {
    let issues = validate_braced_placeholders("k", "{0} {0}", "{0}");
    assert_eq!(issues[0].rule_id, "placeholder.braced.mismatch");
    assert_eq!(issues[0].entry_key, "k");
    assert!(validate_braced_placeholders("k", "{} {x}", "").is_empty());
    assert!(validate_printf_placeholders("k", "100%", "100%%").is_empty());
    assert_eq!(validate_alias_tags("k", "<Alias=A", "").len(), 0);
    assert_eq!(validate_alias_tags("k", "<Alias=A>", "<Alias=B>")[0].rule_id, "alias.tag.mismatch");
}
