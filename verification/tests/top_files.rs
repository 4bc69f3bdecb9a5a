use sentrux::file_info::handle_file_info;
use sentrux::measures::Measured;
use sentrux::reports::{ArchReport, EvolutionReport, FileChurn, FileMetric, HealthReport, McpState, Tier};
use sentrux::snapshot::{FileNode, FuncInfo, ImportEdge, Snapshot, StructuralAnalysis};
use sentrux::top_files::handle_top_files;
use sentrux::StringHashMap;
use serde_json::Value;

fn parse(text: &str) -> Value {
    serde_json::from_str(text).unwrap()
}

fn file(path: &str, lang: &str, funcs: &[(Option<u32>, Option<u32>)]) -> FileNode {
    FileNode {
        path: path.to_string(),
        is_dir: false,
        lines: 10,
        logic: 0,
        comments: 0,
        blanks: 0,
        funcs: 0,
        lang: lang.to_string(),
        sa: Some(StructuralAnalysis {
            functions: Some(
                funcs
                    .iter()
                    .map(|(cc, cog)| FuncInfo {
                        n: "f".to_string(),
                        ln: 1,
                        cc: *cc,
                        cog: *cog,
                        pc: None,
                        is_public: true,
                    })
                    .collect(),
            ),
        }),
        children: None,
    }
}

fn import(from: &str, to: &str) -> ImportEdge {
    ImportEdge { from_file: from.to_string(), to_file: to.to_string(), mod_declaration: false }
}

fn metric(path: &str) -> FileMetric {
    FileMetric { path: path.to_string() }
}

fn state_of(children: Vec<FileNode>) -> McpState {
    let mut blast_radius = StringHashMap::new();
    blast_radius.insert("d.rs".to_string(), 9);
    McpState {
        scan_root: None,
        cached_snapshot: Some(Snapshot {
            root: FileNode {
                path: ".".to_string(),
                is_dir: true,
                lines: 0,
                logic: 0,
                comments: 0,
                blanks: 0,
                funcs: 0,
                lang: String::new(),
                sa: None,
                children: Some(children),
            },
            import_graph: vec![
                import("a.rs", "b.rs"),
                import("a.rs", "c.rs"),
                import("a.rs", "c.rs"),
                import("b.rs", "c.rs"),
                import("c.rs", "d.rs"),
            ],
            call_graph: vec![],
            entry_points: vec![],
            exec_depth: StringHashMap::new(),
        }),
        cached_health: Some(HealthReport {
            god_files: vec![metric("a.rs")],
            hotspot_files: vec![metric("b.rs"), metric("a.rs")],
            long_files: vec![metric("d.rs")],
            circular_dep_files: vec![vec!["c.rs".to_string()]],
            complex_functions: vec![],
            long_functions: vec![],
            cog_complex_functions: vec![],
            high_param_functions: vec![],
            dead_functions: vec![],
            duplicate_groups: vec![],
        }),
        cached_arch: Some(ArchReport {
            levels: StringHashMap::new(),
            max_level: 0,
            blast_radius,
        }),
        cached_evolution: None,
    }
}

fn files() -> Vec<FileNode> {
    vec![
        file("d.rs", "rust", &[(Some(2), Some(30))]),
        file("b.rs", "rust", &[(Some(5), None), (Some(4), Some(1))]),
        file("a.rs", "rust", &[(None, None)]),
        file("c.rs", "rust", &[(Some(5), Some(3))]),
        file("e.txt", "unknown", &[(Some(99), None)]),
        file("f", "", &[(Some(99), None)]),
        file("tests/t.rs", "rust", &[(Some(99), None)]),
    ]
}

fn state() -> McpState {
    state_of(files())
}

fn with_history(mut state: McpState) -> McpState {
    let mut churn = StringHashMap::new();
    let commits = |n: u32| FileChurn { commit_count: n, lines_added: 0, lines_removed: 0, total_churn: 0 };
    churn.insert("a.rs".to_string(), commits(40));
    churn.insert("b.rs".to_string(), commits(2));
    state.cached_evolution = Some(EvolutionReport {
        lookback_days: 90,
        commits_analyzed: 1,
        churn,
        single_author_ratio: Measured::new(0.5f64.to_bits(), Value::from(0.5)).unwrap(),
        coupling_pairs: vec![],
        hotspots: vec![],
        code_age: StringHashMap::new(),
        authors: StringHashMap::new(),
    });
    state
}

fn is_test(path: &str) -> bool {
    path.starts_with("tests/")
}

fn ask(args: &str, state: &McpState) -> Result<Value, String> {
    handle_top_files(&parse(args), &Tier::Pro, state, is_test)
}

fn ranking(args: &str, state: &McpState) -> Vec<String> {
    ask(args, state).unwrap()["files"]
        .as_array()
        .unwrap()
        .iter()
        .map(|f| f["path"].as_str().unwrap().to_string())
        .collect()
}

#[test]
fn files_are_ranked_by_risk_unless_asked_otherwise() {
    let value = ask("{}", &state()).unwrap();
    assert_eq!(
        value,
        parse(
            r#"{"metric": "risk", "total_source_files": 4, "showing": 4,
                "files": [
                    {"rank": 1, "path": "d.rs", "fan_in": 1, "fan_out": 0, "coupling": 1, "max_cc": 2,
                     "max_cognitive": 30, "instability": 0, "blast_radius": 9, "lines": 10},
                    {"rank": 2, "path": "c.rs", "fan_in": 2, "fan_out": 1, "coupling": 3, "max_cc": 5,
                     "max_cognitive": 3, "instability": 3333, "blast_radius": 0, "lines": 10},
                    {"rank": 3, "path": "b.rs", "fan_in": 1, "fan_out": 1, "coupling": 2, "max_cc": 5,
                     "max_cognitive": 1, "instability": 5000, "blast_radius": 0, "lines": 10},
                    {"rank": 4, "path": "a.rs", "fan_in": 0, "fan_out": 2, "coupling": 2, "max_cc": 1,
                     "max_cognitive": 0, "instability": 10000, "blast_radius": 0, "lines": 10}
                ],
                "note": "Risk scores use churn=1 (default). Run git_stats first for accurate churn-weighted risk.",
                "issues_overlap": {"files_with_health_issues": 3, "out_of": 4}}"#
        )
    );
}

#[test]
fn files_are_ranked_by_each_metric() {
    let state = with_history(state());
    let by = |metric: &str| ranking(&format!(r#"{{"metric": "{}"}}"#, metric), &state);
    assert_eq!(by("coupling"), vec!["c.rs", "a.rs", "b.rs", "d.rs"]);
    assert_eq!(by("fan_in"), vec!["c.rs", "b.rs", "d.rs", "a.rs"]);
    assert_eq!(by("fan_out"), vec!["a.rs", "b.rs", "c.rs", "d.rs"]);
    assert_eq!(by("complexity"), vec!["b.rs", "c.rs", "d.rs", "a.rs"]);
    assert_eq!(by("cognitive"), vec!["d.rs", "c.rs", "b.rs", "a.rs"]);
    assert_eq!(by("instability"), vec!["a.rs", "b.rs", "c.rs", "d.rs"]);
    assert_eq!(by("blast_radius"), vec!["d.rs", "a.rs", "b.rs", "c.rs"]);
    assert_eq!(by("churn"), vec!["a.rs", "b.rs", "c.rs", "d.rs"]);
    assert_eq!(by("risk"), vec!["a.rs", "b.rs", "d.rs", "c.rs"]);
    assert_eq!(by("nonsense"), vec!["a.rs", "b.rs", "d.rs", "c.rs"]);
}

#[test]
fn changes_and_risk_are_shown_with_a_history() {
    let value = ask("{}", &with_history(state())).unwrap();
    assert!(value.get("note").is_none());
    let shown = value["files"].as_array().unwrap();
    let figures: Vec<(u64, u64)> = shown
        .iter()
        .map(|f| (f["churn"].as_u64().unwrap(), f["risk_score"].as_u64().unwrap()))
        .collect();
    assert_eq!(figures, vec![(40, 8000), (2, 2000), (0, 1800), (0, 1500)]);
    for f in ask("{}", &state()).unwrap()["files"].as_array().unwrap() {
        assert!(f.get("churn").is_none() && f.get("risk_score").is_none());
    }
}

#[test]
fn risk_is_that_of_doubles() {
    for (cc, commits, blast) in [
        (u32::MAX, u32::MAX, u32::MAX),
        (123456789, 987654321, 192837465),
        (0, 7, 9),
        (3, 0, 0),
        (3000000019, 2147483647, 1),
    ] {
        let mut state = with_history(state_of(vec![file("z.rs", "rust", &[(Some(cc), None)])]));
        if let Some(arch) = &mut state.cached_arch {
            arch.blast_radius.insert("z.rs".to_string(), blast);
        }
        if let Some(history) = &mut state.cached_evolution {
            history.churn.insert(
                "z.rs".to_string(),
                FileChurn { commit_count: commits, lines_added: 0, lines_removed: 0, total_churn: 0 },
            );
        }
        let score = (commits as f64).max(1.0) * cc as f64 * (blast as f64).max(0.0);
        let value = ask("{}", &state).unwrap();
        assert_eq!(value["files"][0]["risk_score"], Value::from((score * 100.0).round() as u64));
    }
}

#[test]
fn no_more_files_are_shown_than_asked_for() {
    let many: Vec<FileNode> =
        (0..60).map(|i| file(&format!("m{}.rs", i), "rust", &[(Some(i), None)])).collect();
    let state = state_of(many);
    let shown = |args: &str| {
        let value = ask(args, &state).unwrap();
        assert_eq!(value["total_source_files"], Value::from(60));
        assert_eq!(value["showing"], value["issues_overlap"]["out_of"]);
        assert_eq!(value["files"].as_array().unwrap().len() as u64, value["showing"].as_u64().unwrap());
        value["showing"].as_u64().unwrap()
    };
    assert_eq!(shown("{}"), 10);
    assert_eq!(shown(r#"{"limit": 0}"#), 0);
    assert_eq!(shown(r#"{"limit": 49}"#), 49);
    assert_eq!(shown(r#"{"limit": 50}"#), 50);
    assert_eq!(shown(r#"{"limit": 51}"#), 50);
    assert_eq!(shown(r#"{"limit": 18446744073709551615}"#), 50);
    assert_eq!(shown(r#"{"limit": -5}"#), 10);
    let top = ranking(r#"{"metric": "complexity", "limit": 2}"#, &state);
    assert_eq!(top, vec!["m59.rs", "m58.rs"]);
}

#[test]
fn files_without_functions_count_as_simple() {
    let mut plain = file("p.rs", "rust", &[]);
    plain.sa = None;
    let mut unparsed = file("q.rs", "rust", &[]);
    unparsed.sa = Some(StructuralAnalysis { functions: None });
    let value = ask("{}", &state_of(vec![plain, unparsed, file("r.rs", "rust", &[])])).unwrap();
    for f in value["files"].as_array().unwrap() {
        assert_eq!(f["max_cc"], Value::from(1));
        assert_eq!(f["max_cognitive"], Value::from(0));
    }
}

#[test]
fn a_missing_history_is_noted() {
    let note = |args: &str, state: &McpState| ask(args, state).unwrap().get("note").cloned();
    assert_eq!(
        note(r#"{"metric": "churn"}"#, &state()),
        Some(Value::from("No git history loaded. Run git_stats first to get churn data."))
    );
    assert_eq!(note(r#"{"metric": "fan_in"}"#, &state()), None);
    assert_eq!(note(r#"{"metric": "nonsense"}"#, &state()), None);
    assert_eq!(note(r#"{"metric": "churn"}"#, &with_history(state())), None);
    assert_eq!(ask(r#"{"metric": "nonsense"}"#, &state()).unwrap()["metric"], Value::from("nonsense"));
}

#[test]
fn the_ranking_is_the_same_for_every_order_of_the_scan() {
    let mut reversed = files();
    reversed.reverse();
    let other = state_of(reversed);
    for metric in ["coupling", "fan_in", "complexity", "instability", "risk", "churn"] {
        let args = format!(r#"{{"metric": "{}"}}"#, metric);
        assert_eq!(ask(&args, &state()), ask(&args, &other));
    }
}

#[test]
fn both_tools_agree_on_the_coupling() {
    let state = state();
    for f in ask("{}", &state).unwrap()["files"].as_array().unwrap() {
        let args = format!(r#"{{"path": "{}"}}"#, f["path"].as_str().unwrap());
        let single = handle_file_info(&parse(&args), &Tier::Pro, &state, is_test).unwrap();
        for key in ["fan_in", "fan_out", "instability"] {
            assert_eq!(f[key], single["dependencies"][key]);
        }
    }
}

#[test]
fn top_files_need_a_scan() {
    for missing in 0..3 {
        let mut empty = state();
        match missing {
            0 => empty.cached_snapshot = None,
            1 => empty.cached_health = None,
            _ => empty.cached_arch = None,
        }
        assert_eq!(ask("{}", &empty), Err("No scan data. Call 'scan' first.".to_string()));
    }
}

#[test]
fn more_of_anything_is_no_less_risky() {
    let score = |cc: u32, commits: u32, blast: u32| {
        let mut state = with_history(state_of(vec![file("z.rs", "rust", &[(Some(cc), None)])]));
        if let Some(arch) = &mut state.cached_arch {
            arch.blast_radius.insert("z.rs".to_string(), blast);
        }
        if let Some(history) = &mut state.cached_evolution {
            history.churn.insert(
                "z.rs".to_string(),
                FileChurn { commit_count: commits, lines_added: 0, lines_removed: 0, total_churn: 0 },
            );
        }
        ask("{}", &state).unwrap()["files"][0]["risk_score"].as_u64().unwrap()
    };
    assert_eq!(score(4, 0, 3), 1200);
    assert_eq!(score(4, 0, 3), score(4, 1, 3));
    assert_eq!(score(4, 2, 3), 2400);
    assert_eq!(score(0, 2, 3), 0);
    assert_eq!(score(4, 2, 0), 0);
    let mut last = 0;
    for n in [1, 2, 3, 70000, 70001, 3000000000, u32::MAX] {
        let next = score(n, n, n);
        assert!(last <= next);
        last = next;
    }
}
