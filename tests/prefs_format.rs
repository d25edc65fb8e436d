use xtrans::prefs::{parse_dictionary_prefs, serialize_dictionary_prefs, DictionaryPrefs};

#[test]
fn prefs_t_app_004_dict_prefs_round_trip() {
    let prefs = DictionaryPrefs {
        source_lang: "english".to_string(),
        target_lang: "japanese".to_string(),
        root: "/tmp/with=equals".to_string(),
    };
    let encoded = serialize_dictionary_prefs(&prefs);
    let decoded = parse_dictionary_prefs(&encoded).expect("parse prefs");
    assert_eq!(decoded, prefs);
}

#[test]
fn prefs_defaults_and_errors() {
    assert_eq!(
        serialize_dictionary_prefs(&DictionaryPrefs::default()),
        "version=1\nsource_lang=english\ntarget_lang=japanese\nroot=./Data/Strings/Translations"
    );
    let partial = parse_dictionary_prefs("version=1\nroot=x%3Dy").unwrap();
    assert_eq!(partial.source_lang, "english");
    assert_eq!(partial.root, "x=y");
    assert_eq!(parse_dictionary_prefs("root=a"), Err("辞書設定versionがありません".to_string()));
    assert_eq!(parse_dictionary_prefs("version=2"), Err("未対応の辞書設定version: 2".to_string()));
    assert_eq!(parse_dictionary_prefs("version=x"), Err("辞書設定versionが不正です".to_string()));
    assert_eq!(parse_dictionary_prefs("oops"), Err("辞書設定フォーマットが不正です".to_string()));
    assert_eq!(parse_dictionary_prefs("version=1\nroot=%G1"), Err("辞書設定エスケープが不正です".to_string()));
    assert_eq!(parse_dictionary_prefs("version=1\nroot=%FF"), Err("辞書設定文字列が不正です".to_string()));
}
