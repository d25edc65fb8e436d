use xtrans::batch::parse_args;
use xtrans::rows::row_fields;
use xtrans::ui_state::Entry;

#[test]
fn t_batch_001_parse_pipeline_args() {
    let args = vec![
        "--load".to_string(),
        "base.xml".to_string(),
        "--importxml".to_string(),
        "tr.xml".to_string(),
        "--finalize".to_string(),
        "out.xml".to_string(),
    ];
    let opts = parse_args(&args).expect("parse");
    assert_eq!(opts.load.as_deref(), Some("base.xml"));
    assert_eq!(opts.importxml.as_deref(), Some("tr.xml"));
    assert_eq!(opts.finalize.as_deref(), Some("out.xml"));
}

#[test]
fn t_batch_002_parse_strings_plugin_args() {
    let args = vec![
        "--load-strings".to_string(),
        "a.strings".to_string(),
        "--importxml".to_string(),
        "x.xml".to_string(),
        "--finalize".to_string(),
        "out.strings".to_string(),
        "--workspace-root".to_string(),
        "/game".to_string(),
    ];
    let opts = parse_args(&args).expect("parse");
    assert_eq!(opts.load_strings.as_deref(), Some("a.strings"));
    assert_eq!(opts.workspace_root.as_deref(), Some("/game"));
}

#[test]
fn batch_argument_errors() {
    let bad = vec!["load".to_string(), "x".to_string()];
    assert_eq!(parse_args(&bad), Err("invalid argument: load".to_string()));
    let dangling = vec!["--source".to_string()];
    assert_eq!(parse_args(&dangling), Err("missing value for --source".to_string()));
    let twice = vec!["--target".to_string(), "a".to_string(), "--target".to_string(), "b".to_string()];
    assert_eq!(parse_args(&twice).unwrap().target.as_deref(), Some("b"));
    assert_eq!(parse_args(&[]).unwrap(), Default::default());
}

#[test]
fn t_perf_002_row_render_compare_concat_vs_cells() {
    let entries = (0..80_000usize)
        .map(|i| Entry {
            key: format!("plugin:{i:08x}"),
            source_text: format!("Source text {i} lorem ipsum dolor sit amet"),
            target_text: if i % 3 == 0 { format!("訳文 {i}") } else { String::new() },
        })
        .collect::<Vec<_>>();

    let mut concat_checksum = 0usize;
    let concat_start = std::time::Instant::now();
    for entry in &entries {
        let (edid, record_id, ld) = row_fields(&entry.key, &entry.target_text);
        let row = format!("{} | {} | {} | {} | {}", edid, record_id, entry.source_text, entry.target_text, ld);
        concat_checksum ^= std::hint::black_box(row.len());
    }
    let concat_elapsed = concat_start.elapsed();

    let mut cells_checksum = 0usize;
    let cells_start = std::time::Instant::now();
    for entry in &entries {
        let (edid, record_id, ld) = row_fields(&entry.key, &entry.target_text);
        cells_checksum ^= std::hint::black_box(edid.len());
        cells_checksum ^= std::hint::black_box(record_id.len());
        cells_checksum ^= std::hint::black_box(entry.source_text.len());
        cells_checksum ^= std::hint::black_box(entry.target_text.len());
        cells_checksum ^= std::hint::black_box(ld.len());
    }
    let cells_elapsed = cells_start.elapsed();

    println!(
        "t_perf_002_row_render_compare_concat_vs_cells: concat={:?} cells={:?} checksum={} {}",
        concat_elapsed, cells_elapsed, concat_checksum, cells_checksum
    );
}

#[test]
fn row_cells() {
    assert_eq!(row_fields("plugin:0000abcd", ""), ("0000abcd".to_string(), "REC FULL", "-"));
    assert_eq!(row_fields("PlUgIn:x:y", "t"), ("y".to_string(), "REC FULL", "T"));
    assert_eq!(row_fields("strings:5", "訳"), ("5".to_string(), "WEAP FULL", "T"));
    assert_eq!(row_fields("nocolon", ""), ("nocolon".to_string(), "WEAP FULL", "-"));
    assert_eq!(row_fields("plugins:1", ""), ("1".to_string(), "WEAP FULL", "-"));
    assert_eq!(row_fields("a:", ""), ("".to_string(), "WEAP FULL", "-"));
}
