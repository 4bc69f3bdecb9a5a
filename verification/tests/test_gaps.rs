use sentrux::reports::{McpState, TestCoverage, TestGap, TestGapReport, Tier};
use sentrux::snapshot::{FileNode, FuncInfo, Snapshot, StructuralAnalysis};
use sentrux::test_gaps::{handle_test_gaps, test_gaps_reply};
use sentrux::StringHashMap;
use serde_json::Value;

fn parse(text: &str) -> Value {
    serde_json::from_str(text).unwrap()
}

fn gap(i: usize) -> TestGap {
    TestGap {
        file: format!("g{}.rs", i),
        risk_score: Value::from(i as u64),
        max_complexity: 3,
        fan_in: i,
        lang: "rust".to_string(),
    }
}

fn report(gaps: usize, tests: usize) -> TestGapReport {
    TestGapReport {
        coverage_score: Value::from(0.75),
        source_files: 8,
        test_files: tests,
        tested_source_files: 6,
        untested_source_files: gaps,
        coverage_ratio: (2.0f64 / 3.0).to_bits(),
        gaps: (0..gaps).map(gap).collect(),
        test_coverage: (0..tests)
            .map(|i| TestCoverage {
                test_file: format!("t{}.rs", i),
                covers: parse(r#"["a.rs"]"#),
            })
            .collect(),
    }
}

fn state() -> McpState {
    McpState {
        scan_root: None,
        cached_snapshot: Some(Snapshot {
            root: FileNode {
                path: "a.rs".to_string(),
                is_dir: false,
                lines: 0,
                logic: 0,
                comments: 0,
                blanks: 0,
                funcs: 0,
                lang: String::new(),
                sa: Some(StructuralAnalysis {
                    functions: Some(vec![FuncInfo {
                        n: "f".to_string(),
                        ln: 1,
                        cc: Some(23),
                        cog: None,
                        pc: None,
                        is_public: true,
                    }]),
                }),
                children: None,
            },
            import_graph: vec![],
            call_graph: vec![],
            entry_points: vec![],
            exec_depth: StringHashMap::new(),
        }),
        cached_health: None,
        cached_arch: None,
        cached_evolution: None,
    }
}

// As many gaps as the complexity of the one file.
fn ask(args: &str, tier: Tier, state: &McpState) -> Result<Value, String> {
    handle_test_gaps(
        &parse(args),
        &tier,
        state,
        |snapshot: &Snapshot, complexity: &StringHashMap<u32>| {
            report(*complexity.get(snapshot.root.path.as_str()).unwrap() as usize, 1)
        },
    )
}

#[test]
fn the_free_tier_gets_scores_and_counts() {
    assert_eq!(
        test_gaps_reply(&report(2, 1), 20, &Tier::Free),
        parse(
            r#"{"coverage_score": 0.75, "source_files": 8, "test_files": 1, "tested": 6,
                "untested": 2, "coverage_ratio": 6667}"#
        )
    );
}

#[test]
fn a_full_coverage_is_shown_in_full() {
    let shown = |ratio: f64| {
        let mut full = report(0, 1);
        full.coverage_ratio = ratio.to_bits();
        test_gaps_reply(&full, 20, &Tier::Free)["coverage_ratio"].as_u64().unwrap()
    };
    assert_eq!(shown(1.0), 10000);
    assert_eq!(shown(f64::INFINITY), u32::MAX as u64);
    assert_eq!(shown(f64::NEG_INFINITY), 0);
}

#[test]
fn the_pro_tier_gets_files_as_well() {
    let mut value = test_gaps_reply(&report(3, 12), 2, &Tier::Pro);
    assert_eq!(
        value["riskiest_untested"],
        parse(
            r#"[{"file": "g0.rs", "risk_score": 0, "complexity": 3, "fan_in": 0, "lang": "rust"},
                {"file": "g1.rs", "risk_score": 1, "complexity": 3, "fan_in": 1, "lang": "rust"}]"#
        )
    );
    let shown = value["test_files_detail"].as_array().unwrap().clone();
    assert_eq!(shown.len(), 10);
    assert_eq!(shown[9], parse(r#"{"test": "t9.rs", "covers": ["a.rs"]}"#));
    value.as_object_mut().unwrap().remove("riskiest_untested");
    value.as_object_mut().unwrap().remove("test_files_detail");
    assert_eq!(value, test_gaps_reply(&report(3, 12), 99, &Tier::Free));
}

#[test]
fn free_gaps_are_the_same_whatever_the_files() {
    let mut other = report(2, 1);
    other.gaps[0].file = "secret.rs".to_string();
    other.test_coverage[0].covers = Value::Null;
    assert_eq!(
        test_gaps_reply(&other, 1, &Tier::Free),
        test_gaps_reply(&report(2, 1), 5, &Tier::Free)
    );
}

#[test]
fn gaps_are_limited_as_requested() {
    let shown = |args: &str| {
        let value = ask(args, Tier::Pro, &state()).unwrap();
        value["riskiest_untested"].as_array().unwrap().len()
    };
    assert_eq!(shown("{}"), 20);
    assert_eq!(shown(r#"{"limit": 0}"#), 0);
    assert_eq!(shown(r#"{"limit": 7}"#), 7);
    assert_eq!(shown(r#"{"limit": 1000}"#), 23);
    assert_eq!(shown(r#"{"limit": 18446744073709551615}"#), 23);
    assert_eq!(shown(r#"{"limit": -1}"#), 20);
    assert_eq!(shown(r#"{"limit": "7"}"#), 20);
    assert!(ask("{}", Tier::Free, &state()).unwrap().get("riskiest_untested").is_none());
}

#[test]
fn test_gaps_need_a_scan() {
    let mut empty = state();
    empty.cached_snapshot = None;
    assert_eq!(ask("{}", Tier::Pro, &empty), Err("No scan data. Call 'scan' first.".to_string()));
}
