use sentrux::dsm::{asks_for_matrix, dsm_reply, handle_dsm, interpret};
use sentrux::reports::{Cluster, Dsm, DsmStats, McpState, Tier};
use sentrux::snapshot::{FileNode, ImportEdge, Snapshot};
use sentrux::StringHashMap;
use serde_json::Value;

fn parse(text: &str) -> Value {
    serde_json::from_str(text).unwrap()
}

fn cluster(level: u32, files: usize) -> Cluster {
    Cluster {
        level,
        files: (0..files).map(|i| format!("f{}", i)).collect(),
        internal_edges: 4,
    }
}

fn stats(above: usize, edges: usize, clusters: Vec<Cluster>) -> DsmStats {
    DsmStats {
        size: 5,
        edge_count: edges,
        density: 0.25f64.to_bits(),
        above_diagonal: above,
        below_diagonal: 6,
        same_level: 1,
        propagation_cost: (1.0f64 / 3.0).to_bits(),
        clusters,
    }
}

fn state(imports: usize) -> McpState {
    McpState {
        scan_root: None,
        cached_snapshot: Some(Snapshot {
            root: FileNode {
                path: ".".to_string(),
                is_dir: true,
                lines: 0,
                logic: 0,
                comments: 0,
                blanks: 0,
                funcs: 0,
                lang: String::new(),
                sa: None,
                children: None,
            },
            import_graph: (0..imports)
                .map(|i| ImportEdge {
                    from_file: format!("f{}", i),
                    to_file: "g".to_string(),
                    mod_declaration: false,
                })
                .collect(),
            call_graph: vec![],
            entry_points: vec![],
            exec_depth: StringHashMap::new(),
        }),
        cached_health: None,
        cached_arch: None,
        cached_evolution: None,
    }
}

fn ask(args: &str, tier: Tier, state: &McpState) -> Result<Value, String> {
    handle_dsm(
        &parse(args),
        &tier,
        state,
        |imports: &Vec<ImportEdge>| Dsm { level_breaks: vec![1, 2, 3], matrix: imports.len() },
        |dsm: &Dsm<usize>| stats(0, dsm.matrix, vec![cluster(0, 12)]),
        |dsm: &Dsm<usize>, files: usize| format!("{} in {}", dsm.matrix, files),
    )
}

#[test]
fn figures_of_the_matrix_are_shown() {
    let value = dsm_reply(&stats(2, 9, vec![cluster(3, 2)]), 4, &None, &Tier::Free);
    assert_eq!(
        value,
        parse(
            r#"{"size": 5, "edge_count": 9, "density": 2500, "above_diagonal": 2, "below_diagonal": 6,
                "same_level": 1, "propagation_cost": 3333, "level_breaks": 4,
                "interpretation": "Significant architectural inversions detected",
                "clusters": [{"level": 3, "files_count": 2, "internal_edges": 4}]}"#
        )
    );
}

#[test]
fn figures_without_limit_are_shown_as_the_greatest_number() {
    let mut figures = stats(0, 1, vec![]);
    figures.density = f64::INFINITY.to_bits();
    figures.propagation_cost = f64::NAN.to_bits();
    let value = dsm_reply(&figures, 0, &None, &Tier::Free);
    assert_eq!(value["density"], Value::from(u32::MAX));
    assert_eq!(value["propagation_cost"], Value::from(0));
}

#[test]
fn pro_gets_ten_files_of_five_clusters() {
    let clusters = (0..7).map(|i| cluster(i, 12)).collect();
    let value = dsm_reply(&stats(0, 9, clusters), 4, &Some("m".to_string()), &Tier::Pro);
    assert_eq!(value["matrix"], Value::from("m"));
    let shown = value["clusters"].as_array().unwrap();
    assert_eq!(shown.len(), 5);
    assert_eq!(
        shown[4],
        parse(
            r#"{"level": 4, "files": 12, "internal_edges": 4,
                "file_list": ["f0", "f1", "f2", "f3", "f4", "f5", "f6", "f7", "f8", "f9"]}"#
        )
    );
}

#[test]
fn free_clusters_name_no_file() {
    let mut other = cluster(0, 2);
    other.files = vec!["secret".to_string(), "hidden".to_string()];
    let a = dsm_reply(&stats(1, 9, vec![cluster(0, 2)]), 4, &None, &Tier::Free);
    let b = dsm_reply(&stats(1, 9, vec![other]), 4, &None, &Tier::Free);
    assert_eq!(a, b);
}

#[test]
fn layering_is_judged_by_the_share_of_inversions() {
    assert_eq!(interpret(&stats(0, 9, vec![])), "Clean layering: all dependencies flow downward");
    assert_eq!(interpret(&stats(1, 5, vec![])), "Mostly clean layering with minor inversions");
    assert_eq!(interpret(&stats(2, 10, vec![])), "Mostly clean layering with minor inversions");
    assert_eq!(interpret(&stats(3, 14, vec![])), "Significant architectural inversions detected");
    assert_eq!(interpret(&stats(1, 0, vec![])), "Significant architectural inversions detected");
}

#[test]
fn more_than_a_fifth_is_what_doubles_say_it_is() {
    for edges in 1..200usize {
        for above in 1..=edges {
            let many = above as f64 / edges as f64 > 0.2;
            assert_eq!(many, 5 * above > edges);
            let text = interpret(&stats(above, edges, vec![]));
            assert_eq!(many, text == "Significant architectural inversions detected");
        }
    }
}

#[test]
fn the_matrix_is_printed_for_pro_on_request() {
    assert!(asks_for_matrix(&parse(r#"{"format": "text"}"#), &Tier::Pro));
    assert!(!asks_for_matrix(&parse(r#"{"format": "text"}"#), &Tier::Free));
    assert!(!asks_for_matrix(&parse(r#"{"format": "stats"}"#), &Tier::Pro));
    assert!(!asks_for_matrix(&parse("{}"), &Tier::Pro));
    let reply = ask(r#"{"format": "text"}"#, Tier::Pro, &state(7)).unwrap();
    assert_eq!(reply["matrix"], Value::from("7 in 30"));
    assert_eq!(reply["edge_count"], Value::from(7));
    assert_eq!(reply["level_breaks"], Value::from(3));
    let reply = ask(r#"{"format": "text"}"#, Tier::Free, &state(7)).unwrap();
    assert!(reply.get("matrix").is_none());
    let reply = ask("{}", Tier::Pro, &state(7)).unwrap();
    assert!(reply.get("matrix").is_none());
}

#[test]
fn dsm_needs_a_scan() {
    let mut empty = state(0);
    empty.cached_snapshot = None;
    assert_eq!(ask("{}", Tier::Pro, &empty), Err("No scan data. Call 'scan' first.".to_string()));
}
