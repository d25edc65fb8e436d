use xtrans::workspace::{unescape_value, CachePolicy, Game, Workspace, WorkspaceError};

fn sample() -> Workspace {
    Workspace {
        name: "Test Workspace".to_string(),
        game: Game::SkyrimSeAe,
        root_dir: "/games/skyrim".to_string(),
        strings_files: vec![
            "Data/Strings/Skyrim_en.strings".to_string(),
            "Data/Strings/Skyrim_ja.strings".to_string(),
        ],
        load_order: vec!["Skyrim.esm".to_string(), "Update.esm".to_string()],
        cache_dir: Some("/games/skyrim/cache".to_string()),
        cache_policy: CachePolicy::Auto,
    }
}

#[test]
fn t_ws_001_workspace_round_trip() {
    let workspace = sample();
    let text = workspace.to_text();
    let loaded = Workspace::from_text(&text).expect("load workspace");
    assert_eq!(workspace, loaded);
}

#[test]
fn t_ws_001_workspace_defaults_for_missing_fields() {
    let content = "\
version=1
name=Defaults
game=Skyrim
root_dir=/games/skyrim
strings_file=Data/Strings/Skyrim_en.strings
";
    let loaded = Workspace::from_text(content).expect("load workspace");
    assert_eq!(loaded.cache_policy, CachePolicy::Auto);
    assert!(loaded.cache_dir.is_none());
    assert!(loaded.load_order.is_empty());
}

#[test]
fn workspace_text_layout_and_escapes() {
    let mut w = sample();
    w.name = "a=b%c\nd".to_string();
    w.cache_dir = None;
    w.cache_policy = CachePolicy::Disabled;
    w.strings_files.clear();
    w.load_order = vec!["Ünïcode.esp".to_string()];
    let text = w.to_text();
    assert_eq!(
        text,
        "version=1\nname=a%3Db%25c%0Ad\ngame=SkyrimSE/AE\nroot_dir=/games/skyrim\nload_order=Ünïcode.esp\ncache_policy=none"
    );
    assert_eq!(Workspace::from_text(&text).unwrap(), w);
}

#[test]
fn workspace_errors() {
    assert_eq!(Workspace::from_text("name=x"), Err(WorkspaceError::MissingField("version")));
    assert_eq!(Workspace::from_text("version=2"), Err(WorkspaceError::UnsupportedVersion(2)));
    assert_eq!(Workspace::from_text("version=1\ngame=Skyrim"), Err(WorkspaceError::MissingField("name")));
    assert_eq!(Workspace::from_text("version=1\nname=n\ngame=Oblivion"), Err(WorkspaceError::UnknownGame));
    assert_eq!(Workspace::from_text("version=1\nnoequals"), Err(WorkspaceError::InvalidFormat));
    assert_eq!(Workspace::from_text("=x"), Err(WorkspaceError::InvalidFormat));
    assert_eq!(Workspace::from_text("version=x"), Err(WorkspaceError::InvalidFormat));
    assert_eq!(Workspace::from_text("cache_policy=sometimes"), Err(WorkspaceError::UnknownCachePolicy));
    assert_eq!(unescape_value("%4"), Err(WorkspaceError::InvalidEscape));
    assert_eq!(unescape_value("%zz"), Err(WorkspaceError::InvalidEscape));
    assert_eq!(unescape_value("%41%3d\r"), Ok("A=\r".to_string()));
    let ok = Workspace::from_text("  \r\nversion=1\r\nname=n\r\ngame=Fallout4\r\nroot_dir=r\r\nextra=ignored\n").unwrap();
    assert_eq!(ok.game, Game::Fallout4);
    assert_eq!(ok.root_dir, "r");
}
