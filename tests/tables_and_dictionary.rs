use xtrans::actions::{apply_entries_to_strings, apply_quick_auto_selection, parse_strings_id};
use xtrans::dictionary::TranslationDictionary;
use xtrans::hybrid::{build_hybrid_entries, read_plugin, write_plugin, PluginEntry, PluginError, PluginFile};
use xtrans::strings::{StringsEntry, StringsFile};
use xtrans::ui_state::Entry;

fn entry(key: &str, src: &str, dst: &str) -> Entry {
    Entry { key: key.to_string(), source_text: src.to_string(), target_text: dst.to_string() }
}

#[test]
fn t_dict_001_apply_quick_selection_only() {
    let dict = TranslationDictionary::build_from_entries(&[entry("d", "Hello", "こんにちは")]);
    let entries = vec![entry("k1", "Hello", ""), entry("k2", "Hello", "")];
    let (updated, count) = dict.apply_quick(&entries, &[String::from("k2")], true);
    assert_eq!(count, 1);
    assert_eq!(updated[0].target_text, "");
    assert_eq!(updated[1].target_text, "こんにちは");
}

#[test]
fn dictionary_learns_last_pair_and_skips_empty() {
    let dict = TranslationDictionary::build_from_entries(&[
        entry("a", "Sword", "剣"),
        entry("b", "Sword", "刀"),
        entry("c", "", "空"),
        entry("d", "Shield", ""),
    ]);
    assert_eq!(dict.len(), 1);
    assert!(!dict.is_empty());
    let (out, count) = dict.apply_quick(&[entry("x", "Sword", "old")], &[], false);
    assert_eq!(count, 1);
    assert_eq!(out[0].target_text, "刀");
    let (out, count) = dict.apply_quick(&[entry("x", "Sword", "old")], &[], true);
    assert_eq!(count, 0);
    assert_eq!(out[0].target_text, "old");
    assert!(TranslationDictionary::build_from_entries(&[]).is_empty());
}

#[test]
fn actions_t_app_001_apply_entries_to_strings_updates_target() {
    let base = StringsFile {
        entries: vec![
            StringsEntry { id: 1, text: "Iron Sword".to_string() },
            StringsEntry { id: 2, text: "Steel Sword".to_string() },
        ],
    };
    let entries = vec![entry("strings:1", "Iron Sword", "鉄の剣")];
    let updated = apply_entries_to_strings(&base, &entries);
    assert_eq!(updated.entries[0].text, "鉄の剣");
    assert_eq!(updated.entries[1].text, "Steel Sword");
}

#[test]
fn actions_t_app_002_parse_strings_id() {
    assert_eq!(parse_strings_id("strings:42"), Some(42));
    assert_eq!(parse_strings_id("plugin:abcd"), None);
}

#[test]
fn parse_strings_id_edges() {
    assert_eq!(parse_strings_id("a:b:+7"), Some(7));
    assert_eq!(parse_strings_id("x:4294967295"), Some(u32::MAX));
    assert_eq!(parse_strings_id("x:4294967296"), None);
    assert_eq!(parse_strings_id("x:"), None);
    assert_eq!(parse_strings_id("x:+"), None);
    assert_eq!(parse_strings_id("42"), None);
    assert_eq!(parse_strings_id("x:-1"), None);
}

#[test]
fn empty_targets_do_not_overwrite() {
    let base = StringsFile { entries: vec![StringsEntry { id: 3, text: "keep".to_string() }] };
    let updated = apply_entries_to_strings(&base, &[entry("strings:3", "keep", ""), entry("other", "x", "y")]);
    assert_eq!(updated.entries[0].text, "keep");
}

#[test]
fn actions_t_app_005_quick_auto_requires_selection() {
    let entries = vec![entry("k1", "Iron Sword", "")];
    let dict = TranslationDictionary::build_from_entries(&[entry("d", "Iron Sword", "鉄の剣")]);
    let err = apply_quick_auto_selection(Some(&dict), &entries, None).expect_err("selection error");
    assert_eq!(err, "Quick自動翻訳対象の行を選択してください");
    let (out, n) = apply_quick_auto_selection(Some(&dict), &entries, Some("k1".to_string())).unwrap();
    assert_eq!(n, 1);
    assert_eq!(out[0].target_text, "鉄の剣");
    assert_eq!(apply_quick_auto_selection(None, &entries, None).unwrap_err(), "辞書未構築");
}

#[test]
fn t_hyb_ctx_001_context_lookup() {
    let plugin = PluginFile {
        entries: vec![PluginEntry { id: 100, context: "Greeting".to_string(), source_text: "Hello".to_string() }],
    };
    let strings = StringsFile { entries: vec![StringsEntry { id: 100, text: "こんにちは".to_string() }] };
    let hybrid = build_hybrid_entries(&plugin, &strings);
    assert_eq!(hybrid.len(), 1);
    assert_eq!(hybrid[0].context, "Greeting");
    assert_eq!(hybrid[0].target_text, "こんにちは");
}

#[test]
fn t_heu_001_ranking_order() {
    let query = "hello".to_string();
    let candidates = vec![
        "hello".to_string(),
        "hello there".to_string(),
        "hxllo".to_string(),
        "world".to_string(),
    ];
    let ranked = xtrans::heuristics::rank_candidates(&query, &candidates);
    assert_eq!(ranked[0], "hello");
    assert_eq!(ranked[1], "hello there");
    assert_eq!(ranked[2], "hxllo");
}

#[test]
fn ranking_orders_by_tier_then_overlap_then_position() {
    let candidates: Vec<String> = ["zz", "abc", "ab", "xabcx", "abd", "abc"].iter().map(|s| s.to_string()).collect();
    let ranked = xtrans::heuristics::rank_candidates("abc", &candidates);
    assert_eq!(ranked, vec!["abc", "abc", "ab", "xabcx", "abd", "zz"]);
    assert!(xtrans::heuristics::rank_candidates("q", &[]).is_empty());
}

#[test]
fn plugin_text_round_trip_edit() {
    let text = "XTPLUGIN1\n2|Greeting|Hello\n\n1|Farewell|Bye|now\n";
    let mut file = read_plugin(text).expect("read plugin");
    assert_eq!(file.entries.len(), 2);
    assert_eq!(file.entries[1].source_text, "Bye|now");
    file.entries[0].source_text = "Edited line".to_string();
    assert_eq!(write_plugin(&file), Err(PluginError::InvalidField));
    file.entries[1].source_text = "Bye".to_string();
    let out = write_plugin(&file).expect("write plugin");
    assert_eq!(out, "XTPLUGIN1\n1|Farewell|Bye\n2|Greeting|Edited line\n");
    let back = read_plugin(&out).expect("read back");
    assert_eq!(back.entries[1].source_text, "Edited line");
}

#[test]
fn plugin_text_errors() {
    assert_eq!(read_plugin(""), Err(PluginError::InvalidHeader));
    assert_eq!(read_plugin("XTPLUGIN2\n"), Err(PluginError::InvalidHeader));
    assert!(read_plugin("  XTPLUGIN1 \r\n").unwrap().entries.is_empty());
    assert_eq!(read_plugin("XTPLUGIN1\n1|only"), Err(PluginError::InvalidLine));
    assert_eq!(read_plugin("XTPLUGIN1\nx|a|b"), Err(PluginError::InvalidId));
    let e = |id: u32| PluginEntry { id, context: "c".to_string(), source_text: "s".to_string() };
    let dup = PluginFile { entries: vec![e(9), e(4), e(9), e(4)] };
    assert_eq!(write_plugin(&dup), Err(PluginError::DuplicateId(4)));
    assert_eq!(write_plugin(&PluginFile { entries: vec![] }), Ok("XTPLUGIN1\n".to_string()));
}
