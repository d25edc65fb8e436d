use xtrans::history::{BatchTargetChange, EntryHistory, SingleEditOp};
use xtrans::strings::{StringsEntry, StringsFile};
use xtrans::tm::TranslationMemory;
use xtrans::ui_state::Entry;

fn entry(key: &str, src: &str, dst: &str) -> Entry {
    Entry { key: key.to_string(), source_text: src.to_string(), target_text: dst.to_string() }
}

#[test]
fn t_tm_001_strings_exact_match() {
    let file = StringsFile {
        entries: vec![
            StringsEntry { id: 1, text: "Hello".to_string() },
            StringsEntry { id: 2, text: "Hello".to_string() },
            StringsEntry { id: 3, text: "World".to_string() },
        ],
    };
    let tm = TranslationMemory::from_strings(&file);
    let matches = tm.exact_match("Hello").expect("match");
    assert_eq!(matches.len(), 2);
    assert!(tm.exact_match("Missing").is_none());
    assert_eq!(tm.exact_match("World").unwrap(), &["World".to_string()]);
}

#[test]
fn t_hist_001_single_edit_undo_redo() {
    let mut hist = EntryHistory::with_limit(10);
    let mut entries = vec![entry("k1", "x", "y")];
    hist.record_single_edit(SingleEditOp {
        index: 0,
        before_source: "a".to_string(),
        before_target: "b".to_string(),
        after_source: "x".to_string(),
        after_target: "y".to_string(),
    });
    assert!(hist.undo(&mut entries));
    assert_eq!(entries[0].source_text, "a");
    assert_eq!(entries[0].target_text, "b");
    assert!(hist.redo(&mut entries));
    assert_eq!(entries[0].source_text, "x");
    assert_eq!(entries[0].target_text, "y");
}

#[test]
fn t_hist_002_batch_target_undo_redo() {
    let mut hist = EntryHistory::with_limit(10);
    let mut entries = vec![entry("k1", "a", "1"), entry("k2", "b", "2")];
    hist.record_batch_target_edit(vec![
        BatchTargetChange { index: 0, before_target: "0".to_string(), after_target: "1".to_string() },
        BatchTargetChange { index: 1, before_target: "0".to_string(), after_target: "2".to_string() },
    ]);
    assert!(hist.undo(&mut entries));
    assert_eq!(entries[0].target_text, "0");
    assert_eq!(entries[1].target_text, "0");
    assert!(hist.redo(&mut entries));
    assert_eq!(entries[0].target_text, "1");
    assert_eq!(entries[1].target_text, "2");
}

#[test]
fn t_hist_003_history_limit() {
    let mut hist = EntryHistory::with_limit(3);
    for i in 0..10usize {
        hist.record_batch_target_edit(vec![BatchTargetChange {
            index: 0,
            before_target: format!("{i}"),
            after_target: format!("{}", i + 1),
        }]);
    }
    let mut entries = vec![entry("k1", "a", "10")];
    let mut undo_count = 0usize;
    while hist.undo(&mut entries) {
        undo_count += 1;
    }
    assert_eq!(undo_count, 3);
}

#[test]
fn history_ignores_no_op_edits_and_clears_on_bad_index() {
    let mut hist = EntryHistory::with_limit(5);
    assert!(!hist.record_single_edit(SingleEditOp {
        index: 0,
        before_source: "a".to_string(),
        before_target: "b".to_string(),
        after_source: "a".to_string(),
        after_target: "b".to_string(),
    }));
    assert!(!hist.record_batch_target_edit(vec![BatchTargetChange {
        index: 0,
        before_target: "same".to_string(),
        after_target: "same".to_string(),
    }]));
    let mut entries = vec![entry("k1", "a", "b")];
    assert!(!hist.undo(&mut entries));
    assert!(hist.record_single_edit(SingleEditOp {
        index: 4,
        before_source: "a".to_string(),
        before_target: "b".to_string(),
        after_source: "c".to_string(),
        after_target: "d".to_string(),
    }));
    assert!(!hist.undo(&mut entries));
    assert!(!hist.redo(&mut entries));
    assert_eq!(entries[0].source_text, "a");
}
