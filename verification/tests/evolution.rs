use sentrux::evolution::{begin_evolution, evolution_reply, finish_evolution, handle_evolution, EvolutionRequest};
use sentrux::measures::Measured;
use sentrux::reports::{CouplingPair, EvolutionReport, FileChurn, McpState, TemporalHotspot, Tier};
use sentrux::snapshot::{FileNode, FuncInfo, Snapshot, StructuralAnalysis};
use sentrux::StringHashMap;
use serde_json::Value;

fn parse(text: &str) -> Value {
    serde_json::from_str(text).unwrap()
}

fn node(path: &str, is_dir: bool, cc: Option<u32>, children: Option<Vec<FileNode>>) -> FileNode {
    FileNode {
        path: path.to_string(),
        is_dir,
        lines: 0,
        logic: 0,
        comments: 0,
        blanks: 0,
        funcs: 0,
        lang: "rust".to_string(),
        sa: cc.map(|cc| StructuralAnalysis {
            functions: Some(vec![FuncInfo {
                n: "f".to_string(),
                ln: 1,
                cc: Some(cc),
                cog: None,
                pc: None,
                is_public: true,
            }]),
        }),
        children,
    }
}

fn state() -> McpState {
    McpState {
        scan_root: Some("/work".to_string()),
        cached_snapshot: Some(Snapshot {
            root: node(
                ".",
                true,
                None,
                Some(vec![node("a.rs", false, Some(4), None), node("b.txt", false, None, None)]),
            ),
            import_graph: vec![],
            call_graph: vec![],
            entry_points: vec![],
            exec_depth: StringHashMap::new(),
        }),
        cached_health: None,
        cached_arch: None,
        cached_evolution: None,
    }
}

fn hotspot(i: u32) -> TemporalHotspot {
    TemporalHotspot {
        file: format!("f{}.rs", i),
        risk_score: Value::from(i as f64 + 0.5),
        churn_count: i,
        max_complexity: i + 1,
    }
}

fn report(churned: usize, ratio: f64, hotspots: u32) -> EvolutionReport {
    let mut churn = StringHashMap::new();
    for i in 0..churned {
        let c = FileChurn { commit_count: 1, lines_added: 2, lines_removed: 3, total_churn: 5 };
        churn.insert(format!("f{}.rs", i), c);
    }
    EvolutionReport {
        lookback_days: 90,
        commits_analyzed: 17,
        churn,
        single_author_ratio: Measured::new(ratio.to_bits(), Value::from(ratio)).unwrap(),
        coupling_pairs: vec![CouplingPair {
            file_a: "a".to_string(),
            file_b: "b".to_string(),
            co_change_count: 1,
            coupling_strength: 0.5f64.to_bits(),
        }],
        hotspots: (0..hotspots).map(hotspot).collect(),
        code_age: StringHashMap::new(),
        authors: StringHashMap::new(),
    }
}

#[test]
fn the_free_tier_gets_counts() {
    assert_eq!(
        evolution_reply(&report(5, 0.5, 2), &Tier::Free),
        parse(
            r#"{"lookback_days": 90, "commits_analyzed": 17, "files_with_churn": 5,
                "single_author_ratio": 0.5, "coupling_pairs_found": 1, "hotspot_count": 2,
                "bus_factor_solo_files": 3}"#
        )
    );
}

#[test]
fn the_pro_tier_gets_the_riskiest_files_as_well() {
    let mut value = evolution_reply(&report(3, 0.25, 12), &Tier::Pro);
    let shown = value["top_hotspots"].as_array().unwrap().clone();
    assert_eq!(shown.len(), 10);
    assert_eq!(
        shown[9],
        parse(r#"{"file": "f9.rs", "risk_score": 9.5, "churn": 9, "complexity": 10}"#)
    );
    assert_eq!(value["hotspot_count"], Value::from(12));
    value.as_object_mut().unwrap().remove("top_hotspots");
    assert_eq!(value, evolution_reply(&report(3, 0.25, 12), &Tier::Free));
}

#[test]
fn the_free_tier_is_told_no_name() {
    let mut other = report(2, 0.5, 1);
    other.hotspots[0].file = "secret.rs".to_string();
    other.hotspots[0].churn_count = 77;
    other.coupling_pairs[0].file_a = "hidden.rs".to_string();
    assert_eq!(
        evolution_reply(&other, &Tier::Free),
        evolution_reply(&report(2, 0.5, 1), &Tier::Free)
    );
}

#[test]
fn solo_files_are_the_rounded_share() {
    for (churned, ratio) in [
        (7usize, 1.0 / 3.0),
        (10, 0.25),
        (10, 0.35),
        (0, 1.0),
        (3, 0.5),
        (9, 0.999),
        (4, 1.0),
        (3, f64::INFINITY),
        (0, f64::INFINITY),
        (3, f64::NEG_INFINITY),
        (3, f64::NAN),
        (3, -0.5),
        (2, 1e300),
    ] {
        let value = evolution_reply(&report(churned, ratio, 0), &Tier::Free);
        let expected = (ratio * churned as f64).round() as u32;
        assert_eq!(value["bus_factor_solo_files"], Value::from(expected), "{} {}", churned, ratio);
        assert_eq!(value["single_author_ratio"], Value::from(ratio));
    }
}

#[test]
fn the_history_is_asked_for_as_requested() {
    let request = begin_evolution(&parse(r#"{"days": 7}"#), &state()).ok().unwrap();
    assert_eq!(request.root, "/work");
    assert_eq!(request.days, Some(7));
    assert_eq!(request.known.len(), 2);
    assert!(request.known.contains("a.rs") && request.known.contains("b.txt"));
    assert_eq!(request.complexity.len(), 1);
    assert_eq!(request.complexity.get("a.rs"), Some(&4));
    assert_eq!(begin_evolution(&parse("{}"), &state()).ok().unwrap().days, None);
}

#[test]
fn a_report_is_kept_and_answered() {
    let mut state = state();
    let reply = handle_evolution(
        &parse(r#"{"days": 3}"#),
        &Tier::Free,
        &mut state,
        |request: &EvolutionRequest| {
            assert_eq!(request.days, Some(3));
            assert!(request.known.contains("b.txt"));
            Ok(report(request.known.len(), 0.5, 0))
        },
    );
    assert_eq!(reply.unwrap()["files_with_churn"], Value::from(2));
    assert_eq!(state.cached_evolution.as_ref().unwrap().commits_analyzed, 17);
    assert_eq!(state.scan_root, Some("/work".to_string()));
    assert!(state.cached_snapshot.is_some());
}

#[test]
fn a_failure_is_answered_and_changes_nothing() {
    let mut state = state();
    state.cached_evolution = Some(report(1, 0.5, 4));
    let reply = handle_evolution(&parse("{}"), &Tier::Pro, &mut state, |_: &EvolutionRequest| {
        Err("no repository".to_string())
    });
    assert_eq!(reply, Err("Evolution analysis failed: no repository".to_string()));
    assert_eq!(state.cached_evolution.as_ref().unwrap().hotspots.len(), 4);
    let reply = finish_evolution(Err("x".to_string()), &Tier::Pro, &mut state);
    assert_eq!(reply, Err("Evolution analysis failed: x".to_string()));
}

#[test]
fn the_history_needs_a_scan() {
    let unread = |_: &EvolutionRequest| -> Result<EvolutionReport, String> { panic!("read") };
    let mut no_root = state();
    no_root.scan_root = None;
    assert_eq!(
        handle_evolution(&parse("{}"), &Tier::Pro, &mut no_root, unread),
        Err("No scan root. Call 'scan' first.".to_string())
    );
    let mut no_scan = state();
    no_scan.cached_snapshot = None;
    assert_eq!(
        handle_evolution(&parse("{}"), &Tier::Pro, &mut no_scan, unread),
        Err("No scan data. Call 'scan' first.".to_string())
    );
    let mut nothing = state();
    nothing.scan_root = None;
    nothing.cached_snapshot = None;
    assert_eq!(
        handle_evolution(&parse("{}"), &Tier::Pro, &mut nothing, unread),
        Err("No scan root. Call 'scan' first.".to_string())
    );
}
