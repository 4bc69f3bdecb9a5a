use sentrux::coupling::{collect_links, compute_fan_maps, count_of, file_coupling};
use sentrux::pairs::PairSet;
use sentrux::snapshot::{CallEdge, FileNode, ImportEdge, Snapshot};
use sentrux::StringHashMap;

fn snapshot(imports: &[(&str, &str, bool)], calls: &[(&str, &str)]) -> Snapshot {
    Snapshot {
        root: FileNode {
            path: ".".to_string(),
            is_dir: true,
            lines: 0,
            logic: 0,
            comments: 0,
            blanks: 0,
            funcs: 0,
            lang: String::new(),
            sa: None,
            children: None,
        },
        import_graph: imports
            .iter()
            .map(|(a, b, m)| ImportEdge {
                from_file: a.to_string(),
                to_file: b.to_string(),
                mod_declaration: *m,
            })
            .collect(),
        call_graph: calls
            .iter()
            .map(|(a, b)| CallEdge { from_file: a.to_string(), to_file: b.to_string() })
            .collect(),
        entry_points: vec![],
        exec_depth: StringHashMap::new(),
    }
}

fn sample() -> Snapshot {
    snapshot(
        &[
            ("a", "b", false),
            ("a", "c", true),
            ("a", "b", false),
            ("b", "c", false),
            ("c", "c", false),
        ],
        &[("a", "b"), ("a", "c"), ("b", "a"), ("b", "a"), ("ab", "")],
    )
}

#[test]
fn dependencies_are_met_once_in_order() {
    let scan = sample();
    let links: Vec<(&str, &str)> = collect_links(&scan).iter().map(|l| (l.from, l.to)).collect();
    assert_eq!(
        links,
        vec![("a", "b"), ("b", "c"), ("c", "c"), ("a", "c"), ("b", "a"), ("ab", "")]
    );
}

#[test]
fn declarations_of_submodules_do_not_count() {
    let scan = snapshot(&[("a", "b", true)], &[]);
    assert!(collect_links(&scan).is_empty());
    assert!(file_coupling(&scan, "a").imports.is_empty());
}

#[test]
fn the_coupling_of_a_file_has_both_directions() {
    let scan = sample();
    let c = file_coupling(&scan, "c");
    assert_eq!(c.imports, vec!["c"]);
    assert_eq!(c.imported_by, vec!["b", "c", "a"]);
    let a = file_coupling(&scan, "a");
    assert_eq!(a.imports, vec!["b", "c"]);
    assert_eq!(a.imported_by, vec!["b"]);
    let none = file_coupling(&scan, "z");
    assert!(none.imports.is_empty() && none.imported_by.is_empty());
}

#[test]
fn fan_maps_count_what_the_coupling_lists() {
    let scan = sample();
    let (fan_out, fan_in) = compute_fan_maps(&scan);
    for path in ["a", "b", "c", "ab", "", "z"] {
        let c = file_coupling(&scan, path);
        assert_eq!(count_of(&fan_out, path), c.imports.len());
        assert_eq!(count_of(&fan_in, path), c.imported_by.len());
    }
    assert_eq!(fan_out.len(), 4);
    assert_eq!(fan_in.len(), 4);
}

#[test]
fn pairs_are_told_apart_by_both_parts() {
    let mut set = PairSet::new();
    assert!(set.insert("a", "b"));
    assert!(set.insert("b", "a"));
    assert!(set.insert("ab", ""));
    assert!(set.insert("", "ab"));
    assert!(!set.insert("a", "b"));
    assert!(!set.insert("", "ab"));
}
