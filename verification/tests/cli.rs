use ragamuffin::cli::{parse_exts, Cli, Command, IngestSummary};

#[test]
fn parse_exts_normalizes() {
    assert_eq!(
        parse_exts(Some(".MD, txt ,".to_string())),
        Some(vec!["md".to_string(), "txt".to_string()])
    );
    assert_eq!(parse_exts(None), None);
}

#[test]
fn parse_exts_strips_every_leading_dot_and_drops_empties() {
    assert_eq!(parse_exts(Some("..Log,,. ,JSON".to_string())), Some(vec!["log".to_string(), "json".to_string()]));
    assert_eq!(parse_exts(Some(String::new())), Some(vec![]));
}

#[test]
fn ingest_summary_tallies() {
    let mut s = IngestSummary::new();
    s.record_ingested(3);
    s.record_ingested(2);
    s.record_skipped();
    assert_eq!((s.files, s.chunks, s.skipped), (2, 5, 1));
}

#[test]
fn cli_values_hold_their_arguments() {
    let cli = Cli {
        store: "./ragstore".to_string(),
        command: Command::Search { query: "q".to_string(), k: 4 },
    };
    assert!(matches!(cli.command, Command::Search { k: 4, .. }));
    assert_eq!(cli.store, "./ragstore");
}
