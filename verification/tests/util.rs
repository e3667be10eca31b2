//! Command-line helpers.

use stateless_witness::util::{colors_disabled, filter_source, has_postfix, FilterSource, TestRunnerCommand, TracingMode};

#[test]
fn postfix_matching() {
    assert!(has_postfix("block_1.json", ".json"));
    assert!(!has_postfix("block_1.jsonl", ".json"));
    assert!(has_postfix("x", ""));
    assert!(!has_postfix("a", "abc"));
}

#[test]
fn tracing_directives() {
    assert_eq!(TracingMode::All.into_env_filter(), "reth=info");
    assert_eq!(TracingMode::Silent.into_env_filter(), "");
    assert_eq!(filter_source(TracingMode::All, ""), FilterSource::Mode(TracingMode::All));
    assert_eq!(filter_source(TracingMode::Silent, "debug"), FilterSource::Environment);
    assert!(colors_disabled(Some("never")));
    assert!(!colors_disabled(Some("always")));
    assert!(!colors_disabled(None));
    assert_eq!(TestRunnerCommand::new("suite".to_string()).suite_path, "suite");
}
