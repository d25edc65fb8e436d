use xtrans::import_export::{apply_xml_default, export_entries, import_entries, XmlError};
use xtrans::ui_state::Entry;

fn entry(key: &str, src: &str, dst: &str) -> Entry {
    Entry { key: key.to_string(), source_text: src.to_string(), target_text: dst.to_string() }
}

#[test]
fn t_xml_apply_001_default_profile_stats() {
    let current = vec![entry("k1", "A", ""), entry("k2", "B", "X"), entry("k3", "C", "")];
    let imported = vec![entry("k1", "A", "AA"), entry("k2", "B", "X")];
    let (merged, stats) = apply_xml_default(&current, &imported);
    assert_eq!(stats.updated, 1);
    assert_eq!(stats.unchanged, 1);
    assert_eq!(stats.missing, 1);
    assert_eq!(merged[0].target_text, "AA");
}

#[test]
fn t_xml_apply_002_source_fallback_for_xtranslator() {
    let current = vec![
        entry("WEAP:00012EB7:FULL:0", "Iron Sword", ""),
        entry("WEAP:00013989:FULL:0", "Steel Sword", ""),
    ];
    let imported = vec![
        entry("xtr:0:000001:0", "Iron Sword", "鉄の剣"),
        entry("xtr:0:000002:1", "Steel Sword", "鋼鉄の剣"),
    ];
    let (merged, stats) = apply_xml_default(&current, &imported);
    assert_eq!(stats.updated, 2);
    assert_eq!(stats.unchanged, 0);
    assert_eq!(stats.missing, 0);
    assert_eq!(merged[0].target_text, "鉄の剣");
    assert_eq!(merged[1].target_text, "鋼鉄の剣");
}

#[test]
fn t_xml_apply_003_source_fallback_skips_ambiguous_targets() {
    let current = vec![entry("k1", "Moonforge", "")];
    let imported = vec![
        entry("xtr:a", "Moonforge", "ムーンフォージ"),
        entry("xtr:b", "Moonforge", "月鍛冶"),
    ];
    let (merged, stats) = apply_xml_default(&current, &imported);
    assert_eq!(stats.updated, 0);
    assert_eq!(stats.unchanged, 0);
    assert_eq!(stats.missing, 1);
    assert_eq!(merged[0].target_text, "");
}

#[test]
fn key_match_wins_over_source_and_empty_targets_are_ignored() {
    let current = vec![entry("k1", "Same", "old")];
    let imported = vec![entry("other", "Same", "by source"), entry("k1", "Different", "by key"), entry("k1", "x", "")];
    let (merged, stats) = apply_xml_default(&current, &imported);
    assert_eq!(merged[0].target_text, "by key");
    assert_eq!(stats.updated, 1);
}

#[test]
fn export_escapes_attribute_text() {
    let xml = export_entries(&[entry("strings:1", "Hello & <world>", "A\"B'\tC\r\nD")]);
    assert_eq!(
        xml,
        "<?xml version=\"1.0\" encoding=\"utf-8\"?>\n<xtrans version=\"1\">\n  <entry key=\"strings:1\" source=\"Hello &amp; &lt;world&gt;\" target=\"A&quot;B&apos;&#9;C&#13;&#10;D\" />\n</xtrans>\n"
    );
    assert_eq!(export_entries(&[]), "<?xml version=\"1.0\" encoding=\"utf-8\"?>\n<xtrans version=\"1\">\n</xtrans>\n");
}

#[test]
fn t_xml_rt_001_export_import_round_trip() {
    let entries = vec![
        entry("strings:1", "Hello & <world>", "こんにちは"),
        entry("strings:2", "Line1\nLine2", "A\"B'"),
    ];
    let xml = export_entries(&entries);
    let parsed = xtrans::import_export::import_entries(&xml).expect("import xml");
    assert_eq!(parsed, entries);
}

#[test]
fn t_xml_import_002_accept_xtranslator_schema() {
    let xml = r#"<?xml version="1.0" encoding="UTF-8" standalone="yes"?>
<SSTXMLRessources>
  <Params>
    <Addon>isilNarsil</Addon>
    <Source>english</Source>
    <Dest>japanese</Dest>
    <Version>2</Version>
  </Params>
  <Content>
    <String List="0" sID="000001">
      <EDID>IronSword</EDID>
      <REC id="0" idMax="1">WEAP:FULL</REC>
      <Source>Iron Sword</Source>
      <Dest>鉄の剣</Dest>
    </String>
    <String List="0" sID="000002">
      <Source>Steel Sword</Source>
      <Dest>鋼鉄の剣</Dest>
    </String>
  </Content>
</SSTXMLRessources>"#;

    let parsed = xtrans::import_export::import_entries(xml).expect("import xtranslator xml");
    assert_eq!(parsed.len(), 2);
    assert_eq!(parsed[0].source_text, "Iron Sword");
    assert_eq!(parsed[0].target_text, "鉄の剣");
    assert_eq!(parsed[1].source_text, "Steel Sword");
    assert_eq!(parsed[1].target_text, "鋼鉄の剣");
    assert_eq!(parsed[0].key, "xtr:0:000001:0");
    assert_eq!(parsed[1].key, "xtr:0:000002:1");
}

#[test]
fn actions_t_app_006_apply_xml_payload_updates_entry() {
    let current = vec![entry("k1", "Iron Sword", "")];
    let xml = export_entries(&[entry("k1", "Iron Sword", "鉄の剣")]);
    let (merged, stats) = xtrans::actions::apply_xml_payload(&current, &xml).expect("apply xml");
    assert_eq!(stats.updated, 1);
    assert_eq!(stats.missing, 0);
    assert_eq!(merged[0].target_text, "鉄の剣");
}

#[test]
fn import_errors_and_entities() {
    assert_eq!(import_entries("<entry key=\"a\" source=\"b\""), Err(XmlError::InvalidFormat));
    assert_eq!(import_entries("<entry source=\"b\" target=\"c\"/>"), Err(XmlError::MissingAttr("key")));
    assert_eq!(import_entries("<entry key=\"&bogus;\" source=\"b\" target=\"c\"/>"), Err(XmlError::InvalidEscape));
    let ok = import_entries("\u{feff}<entry key=\"&#65;&#x;\" source=\"b\" target=\"c\"/>");
    assert_eq!(ok, Err(XmlError::InvalidEscape));
    let ok = import_entries("\u{feff}<entry key=\"&#65;&#12354;\" source=\"s\" target=\"\"/>").unwrap();
    assert_eq!(ok[0].key, "Aあ");
    assert_eq!(import_entries("no entries here").unwrap().len(), 0);
    assert_eq!(import_entries("<SSTXMLRessources></SSTXMLRessources>"), Err(XmlError::InvalidFormat));
    let err = xtrans::actions::apply_xml_payload(&[], "<entry key=\"k\"/>").unwrap_err();
    assert_eq!(err, "MissingAttr(\"source\")");
}
