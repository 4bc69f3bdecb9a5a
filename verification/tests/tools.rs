use sentrux::reports::Tier;
use sentrux::tools::{dsm_def, evolution_def, file_info_def, test_gaps_def, top_files_def, Handler};
use serde_json::Value;

fn parse(text: &str) -> Value {
    serde_json::from_str(text).unwrap()
}

#[test]
fn git_stats_is_announced() {
    let def = evolution_def();
    assert_eq!(def.name, "git_stats");
    assert_eq!(def.description, "Git history analysis: code churn, hotspots (churn x complexity), bus factor, change coupling. Enriches top_files (churn/risk metrics), suggest_refactoring (merge suggestions), impact_analysis (change coupling), and file_info (per-file git history). Requires a git repository.");
    assert_eq!(
        def.input_schema,
        parse(
            r#"{"type": "object", "properties": {"days": {"type": "integer", "description": "Lookback window in days (default 90)"}}}"#
        )
    );
    assert_eq!(def.min_tier, Tier::Free);
    assert_eq!(def.handler, Handler::Evolution);
    assert!(!def.invalidates_evolution);
}

#[test]
fn dsm_is_announced() {
    let def = dsm_def();
    assert_eq!(def.name, "dsm");
    assert_eq!(def.description, "Get the Design Structure Matrix: NxN dependency matrix showing file relationships, clusters, and inversions.");
    assert_eq!(
        def.input_schema,
        parse(
            r#"{"type": "object", "properties": {"format": {"type": "string", "description": "Output format: 'text' for ASCII matrix, 'stats' for summary statistics (default: stats)"}}}"#
        )
    );
    assert_eq!(def.min_tier, Tier::Free);
    assert_eq!(def.handler, Handler::Dsm);
    assert!(!def.invalidates_evolution);
}

#[test]
fn test_gaps_is_announced() {
    let def = test_gaps_def();
    assert_eq!(def.name, "test_gaps");
    assert_eq!(def.description, "Find high-risk source files with zero test coverage. Cross-references test file detection with import graph and complexity.");
    assert_eq!(
        def.input_schema,
        parse(
            r#"{"type": "object", "properties": {"limit": {"type": "integer", "description": "Top-N riskiest untested files (default 20)"}}}"#
        )
    );
    assert_eq!(def.min_tier, Tier::Free);
    assert_eq!(def.handler, Handler::TestGaps);
    assert!(!def.invalidates_evolution);
}

#[test]
fn file_info_is_announced() {
    let def = file_info_def();
    assert_eq!(def.name, "file_info");
    assert!(def.description.starts_with("Per-file deep dive — the most granular view of a single file."));
    assert!(def.description.ends_with("Git history fields are available when git_stats has been called."));
    assert_eq!(
        def.input_schema,
        parse(
            r#"{"type": "object", "properties": {"path": {"type": "string", "description": "Relative file path as shown by scan (e.g. 'src/app.rs')"}}, "required": ["path"]}"#
        )
    );
    assert_eq!(def.min_tier, Tier::Pro);
    assert_eq!(def.handler, Handler::FileInfo);
    assert!(!def.invalidates_evolution);
}

#[test]
fn top_files_is_announced() {
    let def = top_files_def();
    assert_eq!(def.name, "top_files");
    assert!(def.description.starts_with("Ranked file listing by a chosen metric — the middle layer"));
    assert!(def.description.contains("'risk' (churn × complexity × coupling composite)"));
    assert_eq!(
        def.input_schema,
        parse(
            r#"{"type": "object", "properties": {
                "metric": {
                    "type": "string",
                    "description": "Metric to rank by: coupling, fan_in, fan_out, complexity, cognitive, instability, blast_radius, churn, risk (default: risk)",
                    "enum": ["coupling", "fan_in", "fan_out", "complexity", "cognitive", "instability", "blast_radius", "churn", "risk"]
                },
                "limit": {"type": "integer", "description": "Number of files to return (default 10, max 50)"}
            }}"#
        )
    );
    assert_eq!(def.min_tier, Tier::Pro);
    assert_eq!(def.handler, Handler::TopFiles);
    assert!(!def.invalidates_evolution);
}

#[test]
fn only_pro_is_pro() {
    assert!(Tier::Pro.is_pro());
    assert!(!Tier::Free.is_pro());
}
