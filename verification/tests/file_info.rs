use sentrux::evolution::finish_evolution;
use sentrux::file_info::{find_node, handle_file_info};
use sentrux::issues::{find_issues, summarize};
use sentrux::measures::Measured;
use sentrux::reports::{ArchReport, AuthorInfo, CouplingPair, DuplicateGroup, EvolutionReport, FileChurn, FileMetric, FuncMetric, HealthReport, McpState, TemporalHotspot, Tier};
use sentrux::snapshot::{CallEdge, EntryPoint, FileNode, FuncInfo, ImportEdge, Snapshot, StructuralAnalysis};
use sentrux::tree::flatten_files_ref;
use sentrux::StringHashMap;
use serde_json::Value;

fn parse(text: &str) -> Value {
    serde_json::from_str(text).unwrap()
}

fn func(name: &str, cc: Option<u32>) -> FuncInfo {
    FuncInfo {
        n: name.to_string(),
        ln: 9,
        cc,
        cog: Some(2),
        pc: None,
        is_public: name == "main",
    }
}

fn file(path: &str, funcs: Vec<FuncInfo>) -> FileNode {
    FileNode {
        path: path.to_string(),
        is_dir: false,
        lines: 40,
        logic: 30,
        comments: 6,
        blanks: 4,
        funcs: funcs.len() as u32,
        lang: "rust".to_string(),
        sa: Some(StructuralAnalysis { functions: Some(funcs) }),
        children: None,
    }
}

fn import(from: &str, to: &str, mod_declaration: bool) -> ImportEdge {
    ImportEdge { from_file: from.to_string(), to_file: to.to_string(), mod_declaration }
}

fn metric(path: &str) -> FileMetric {
    FileMetric { path: path.to_string() }
}

fn function(file: &str) -> FuncMetric {
    FuncMetric { file: file.to_string() }
}

fn healthy() -> HealthReport {
    HealthReport {
        god_files: vec![],
        hotspot_files: vec![],
        long_files: vec![],
        circular_dep_files: vec![],
        complex_functions: vec![],
        long_functions: vec![],
        cog_complex_functions: vec![],
        high_param_functions: vec![],
        dead_functions: vec![],
        duplicate_groups: vec![],
    }
}

fn sick(path: &str) -> HealthReport {
    HealthReport {
        god_files: vec![metric("other"), metric(path)],
        hotspot_files: vec![metric(path)],
        long_files: vec![metric(path)],
        circular_dep_files: vec![vec!["x".to_string()], vec!["y".to_string(), path.to_string()]],
        complex_functions: vec![function(path), function("other"), function(path)],
        long_functions: vec![function(path)],
        cog_complex_functions: vec![function(path)],
        high_param_functions: vec![function(path)],
        dead_functions: vec![function(path), function(path), function(path)],
        duplicate_groups: vec![
            DuplicateGroup {
                instances: vec![
                    (path.to_string(), "f".to_string(), 3),
                    ("other".to_string(), "f".to_string(), 3),
                ],
            },
            DuplicateGroup { instances: vec![(path.to_string(), "g".to_string(), 3)] },
        ],
    }
}

fn state() -> McpState {
    let mut levels = StringHashMap::new();
    levels.insert("src/a.rs".to_string(), 2);
    let mut blast_radius = StringHashMap::new();
    blast_radius.insert("src/a.rs".to_string(), 11);
    let mut exec_depth = StringHashMap::new();
    exec_depth.insert("src/b.rs".to_string(), 5);
    let root = FileNode {
        path: ".".to_string(),
        is_dir: true,
        lines: 0,
        logic: 0,
        comments: 0,
        blanks: 0,
        funcs: 0,
        lang: String::new(),
        sa: None,
        children: Some(vec![
            file(
                "src/a.rs",
                vec![func("low", Some(1)), func("none", None), func("main", Some(8)), func("also", Some(8))],
            ),
            file("src/b.rs", vec![]),
            file("lib/b.rs", vec![]),
        ]),
    };
    McpState {
        scan_root: None,
        cached_snapshot: Some(Snapshot {
            root,
            import_graph: vec![
                import("src/a.rs", "src/b.rs", false),
                import("src/a.rs", "lib/b.rs", true),
                import("src/a.rs", "src/b.rs", false),
            ],
            call_graph: vec![
                CallEdge { from_file: "src/a.rs".to_string(), to_file: "src/b.rs".to_string() },
                CallEdge { from_file: "src/a.rs".to_string(), to_file: "x.rs".to_string() },
                CallEdge { from_file: "x.rs".to_string(), to_file: "src/a.rs".to_string() },
            ],
            entry_points: vec![EntryPoint { file: "src/a.rs".to_string() }],
            exec_depth,
        }),
        cached_health: Some(healthy()),
        cached_arch: Some(ArchReport { levels, max_level: 4, blast_radius }),
        cached_evolution: None,
    }
}

fn history() -> EvolutionReport {
    let mut churn = StringHashMap::new();
    churn.insert(
        "src/a.rs".to_string(),
        FileChurn { commit_count: 3, lines_added: 20, lines_removed: 5, total_churn: 25 },
    );
    let mut code_age = StringHashMap::new();
    code_age.insert("src/a.rs".to_string(), 12);
    let mut authors = StringHashMap::new();
    authors.insert(
        "src/a.rs".to_string(),
        AuthorInfo {
            author_count: 2,
            primary_author: "Kim".to_string(),
            primary_ratio: 0.875f64.to_bits(),
            authors: parse(r#"["Kim", "Lee"]"#),
        },
    );
    let pair = |a: &str, b: &str, n: u32| CouplingPair {
        file_a: a.to_string(),
        file_b: b.to_string(),
        co_change_count: n,
        coupling_strength: 0.5f64.to_bits(),
    };
    EvolutionReport {
        lookback_days: 90,
        commits_analyzed: 10,
        churn,
        single_author_ratio: Measured::new(0.5f64.to_bits(), Value::from(0.5)).unwrap(),
        coupling_pairs: vec![
            pair("src/a.rs", "src/b.rs", 4),
            pair("q", "r", 9),
            pair("lib/b.rs", "src/a.rs", 2),
        ],
        hotspots: vec![TemporalHotspot {
            file: "src/a.rs".to_string(),
            risk_score: Value::from(2.25),
            churn_count: 3,
            max_complexity: 8,
        }],
        code_age,
        authors,
    }
}

fn is_test(path: &str) -> bool {
    path.starts_with("tests/") || path == "src/b.rs"
}

fn ask(args: &str, state: &McpState) -> Result<Value, String> {
    handle_file_info(&parse(args), &Tier::Pro, state, is_test)
}

#[test]
fn all_that_is_known_of_a_file_is_shown() {
    let value = ask(r#"{"path": "src/a.rs"}"#, &state()).unwrap();
    assert_eq!(
        value,
        parse(
            r#"{"path": "src/a.rs", "lang": "rust", "is_test": false, "is_entry_point": true,
                "lines": {"total": 40, "logic": 30, "comments": 6, "blanks": 4},
                "functions": {"count": 4, "details": [
                    {"name": "main", "lines": 9, "cc": 8, "cognitive": 2, "params": null, "is_public": true},
                    {"name": "also", "lines": 9, "cc": 8, "cognitive": 2, "params": null, "is_public": false},
                    {"name": "low", "lines": 9, "cc": 1, "cognitive": 2, "params": null, "is_public": false},
                    {"name": "none", "lines": 9, "cc": null, "cognitive": 2, "params": null, "is_public": false}
                ]},
                "dependencies": {"fan_in": 1, "fan_out": 2, "instability": 6667,
                    "imports": ["src/b.rs", "x.rs"], "imported_by": ["x.rs"]},
                "architecture": {"level": 2, "max_level": 4, "blast_radius": 11, "exec_depth": null},
                "issues": {"is_god_file": false, "is_hotspot": false, "is_large_file": false,
                    "in_cycle": false, "complex_functions": 0, "long_functions": 0,
                    "cog_complex_functions": 0, "high_param_functions": 0, "dead_functions": 0,
                    "duplicate_functions": 0},
                "summary": "No issues detected."}"#
        )
    );
}

#[test]
fn a_file_without_functions_or_edges_is_shown() {
    let mut state = state();
    if let Some(snapshot) = &mut state.cached_snapshot {
        if let Some(children) = &mut snapshot.root.children {
            children[2].sa = None;
        }
    }
    let value = ask(r#"{"path": "lib/b.rs"}"#, &state).unwrap();
    assert_eq!(value["functions"], parse(r#"{"count": 0, "details": []}"#));
    assert_eq!(
        value["dependencies"],
        parse(
            r#"{"fan_in": 0, "fan_out": 0, "instability": 0, "imports": [], "imported_by": []}"#
        )
    );
    assert_eq!(value["is_entry_point"], Value::from(false));
    assert_eq!(value["architecture"]["level"], Value::Null);
}

#[test]
fn test_files_are_told_by_their_path() {
    assert_eq!(ask(r#"{"path": "src/b.rs"}"#, &state()).unwrap()["is_test"], Value::from(true));
    assert_eq!(
        ask(r#"{"path": "src/b.rs"}"#, &state()).unwrap()["architecture"]["exec_depth"],
        Value::from(5)
    );
}

#[test]
fn a_path_may_be_written_in_several_ways() {
    let plain = ask(r#"{"path": "src/a.rs"}"#, &state()).unwrap();
    assert_eq!(ask(r#"{"path": " ./src/a.rs\n"}"#, &state()).unwrap(), plain);
    assert_eq!(ask(r#"{"path": "././src/a.rs"}"#, &state()).unwrap(), plain);
}

#[test]
fn the_tail_of_a_path_finds_the_first_file() {
    let value = ask(r#"{"path": "b.rs"}"#, &state()).unwrap();
    assert_eq!(value["path"], Value::from("b.rs"));
    assert_eq!(value["lang"], Value::from("rust"));
    let state = state();
    let nodes = flatten_files_ref(&state.cached_snapshot.as_ref().unwrap().root);
    assert_eq!(find_node(&nodes, "b.rs").unwrap().path, "src/b.rs");
    assert_eq!(find_node(&nodes, "lib/b.rs").unwrap().path, "lib/b.rs");
    assert!(find_node(&nodes, ".rs").is_none());
    assert!(find_node(&nodes, "").is_none());
}

#[test]
fn a_path_as_shown_by_the_scan_finds_that_file() {
    let with_lines = |path: &str, lines: u32| {
        let mut node = file(path, vec![]);
        node.lines = lines;
        node
    };
    let mut state = state();
    if let Some(snapshot) = &mut state.cached_snapshot {
        snapshot.root.children =
            Some(vec![with_lines("lib/src/a.rs", 7), with_lines("src/a.rs", 3), with_lines("a.rs", 5)]);
    }
    let lines = |path: &str| {
        let value = ask(&format!(r#"{{"path": "{}"}}"#, path), &state).unwrap();
        assert_eq!(value["path"], Value::from(path));
        value["lines"]["total"].as_u64().unwrap()
    };
    assert_eq!(lines("src/a.rs"), 3);
    assert_eq!(lines("lib/src/a.rs"), 7);
    assert_eq!(lines("a.rs"), 5);
    let nodes = flatten_files_ref(&state.cached_snapshot.as_ref().unwrap().root);
    assert_eq!(find_node(&nodes, "src/a.rs").unwrap().path, "src/a.rs");
}

#[test]
fn of_files_with_the_same_path_the_first_is_found() {
    let mut second = file("x/a.rs", vec![]);
    second.lines = 9;
    let tree = [file("x/a.rs", vec![]), second];
    let nodes = vec![&tree[0], &tree[1]];
    assert_eq!(find_node(&nodes, "x/a.rs").unwrap().lines, 40);
    assert_eq!(find_node(&nodes, "a.rs").unwrap().lines, 40);
}

#[test]
fn requests_that_cannot_be_answered_say_why() {
    let err = |text: &str| Err::<Value, String>(text.to_string());
    assert_eq!(ask("{}", &state()), err("Missing 'path' argument"));
    assert_eq!(ask(r#"{"path": 3}"#, &state()), err("Missing 'path' argument"));
    assert_eq!(
        ask(r#"{"path": "./no.rs "}"#, &state()),
        err("File 'no.rs' not found in scan. Check the path is relative to the scanned root.")
    );
    for missing in 0..3 {
        let mut empty = state();
        match missing {
            0 => empty.cached_snapshot = None,
            1 => empty.cached_health = None,
            _ => empty.cached_arch = None,
        }
        assert_eq!(ask("{}", &empty), err("No scan data. Call 'scan' first."));
    }
}

#[test]
fn issues_are_counted_and_put_in_words() {
    let mut state = state();
    state.cached_health = Some(sick("src/a.rs"));
    let value = ask(r#"{"path": "src/a.rs"}"#, &state).unwrap();
    assert_eq!(
        value["issues"],
        parse(
            r#"{"is_god_file": true, "is_hotspot": true, "is_large_file": true, "in_cycle": true,
                "complex_functions": 2, "long_functions": 1, "cog_complex_functions": 1,
                "high_param_functions": 1, "dead_functions": 3, "duplicate_functions": 2}"#
        )
    );
    assert_eq!(
        value["summary"],
        Value::from("10 issue(s): god file (high fan-out), hotspot (high fan-in + unstable), large file (>40 lines), in circular dependency, 2 complex function(s), 1 long function(s), 1 cognitively complex function(s), 1 high-param function(s), 3 dead function(s), 2 duplicate function(s)")
    );
}

#[test]
fn a_file_without_issues_is_said_to_have_none() {
    assert_eq!(summarize(&find_issues(&sick("b"), "a"), 7), "No issues detected.");
    assert_eq!(summarize(&find_issues(&sick("other"), "x"), 7), "1 issue(s): in circular dependency");
}

#[test]
fn the_history_of_a_file_is_shown_once_read() {
    let mut state = state();
    assert!(ask(r#"{"path": "src/a.rs"}"#, &state).unwrap().get("git_history").is_none());
    let _ = finish_evolution(Err("no".to_string()), &Tier::Pro, &mut state);
    assert!(ask(r#"{"path": "src/a.rs"}"#, &state).unwrap().get("git_history").is_none());
    assert!(finish_evolution(Ok(history()), &Tier::Pro, &mut state).is_ok());
    assert_eq!(
        ask(r#"{"path": "src/a.rs"}"#, &state).unwrap()["git_history"],
        parse(
            r#"{"churn": {"commits": 3, "lines_added": 20, "lines_removed": 5, "total_churn": 25},
                "code_age_days": 12,
                "authors": {"count": 2, "primary": "Kim", "primary_ratio": 8750, "all": ["Kim", "Lee"]},
                "temporal_hotspot": {"risk_score": 2.25, "churn": 3, "complexity": 8},
                "change_coupling": [
                    {"coupled_with": "src/b.rs", "co_changes": 4, "strength": 5000},
                    {"coupled_with": "lib/b.rs", "co_changes": 2, "strength": 5000}
                ]}"#
        )
    );
}

#[test]
fn shares_without_limit_are_shown_as_the_greatest_number() {
    let mut state = state();
    let mut read = history();
    read.coupling_pairs[0].coupling_strength = f64::INFINITY.to_bits();
    read.authors.insert(
        "src/a.rs".to_string(),
        AuthorInfo {
            author_count: 1,
            primary_author: "Kim".to_string(),
            primary_ratio: f64::INFINITY.to_bits(),
            authors: Value::Null,
        },
    );
    state.cached_evolution = Some(read);
    let value = ask(r#"{"path": "src/a.rs"}"#, &state).unwrap();
    assert_eq!(value["git_history"]["change_coupling"][0]["strength"], Value::from(u32::MAX));
    assert_eq!(value["git_history"]["authors"]["primary_ratio"], Value::from(u32::MAX));
}

#[test]
fn of_an_unknown_history_nothing_is_shown() {
    let mut state = state();
    let mut empty = history();
    empty.coupling_pairs.clear();
    state.cached_evolution = Some(empty);
    assert_eq!(ask(r#"{"path": "lib/b.rs"}"#, &state).unwrap()["git_history"], parse("{}"));
}
