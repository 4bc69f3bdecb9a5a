use sentrux::snapshot::{FileNode, FuncInfo, Snapshot, StructuralAnalysis};
use sentrux::tree::{build_complexity_map, build_known_files, collect_complexity, collect_files, extract_max_cc, flatten_files_ref, greatest_cc, greatest_cog};
use sentrux::{StringHashMap, StringHashSet};

fn func(cc: Option<u32>, cog: Option<u32>) -> FuncInfo {
    FuncInfo { n: "f".to_string(), ln: 1, cc, cog, pc: None, is_public: false }
}

fn node(path: &str, is_dir: bool, sa: Option<StructuralAnalysis>, children: Option<Vec<FileNode>>) -> FileNode {
    FileNode {
        path: path.to_string(),
        is_dir,
        lines: 0,
        logic: 0,
        comments: 0,
        blanks: 0,
        funcs: 0,
        lang: "rust".to_string(),
        sa,
        children,
    }
}

fn file(path: &str, ccs: &[Option<u32>]) -> FileNode {
    let functions = ccs.iter().map(|cc| func(*cc, None)).collect();
    node(path, false, Some(StructuralAnalysis { functions: Some(functions) }), None)
}

fn dir(path: &str, children: Vec<FileNode>) -> FileNode {
    node(path, true, None, Some(children))
}

fn snapshot(root: FileNode) -> Snapshot {
    Snapshot {
        root,
        import_graph: vec![],
        call_graph: vec![],
        entry_points: vec![],
        exec_depth: StringHashMap::new(),
    }
}

fn sample() -> Snapshot {
    snapshot(dir(
        ".",
        vec![
            file("a.rs", &[Some(3), None, Some(7), Some(2)]),
            dir("src", vec![file("src/b.rs", &[None]), dir("src/c", vec![file("src/c/d.rs", &[])])]),
            node("e.bin", false, None, None),
            node("f.css", false, Some(StructuralAnalysis { functions: None }), None),
        ],
    ))
}

#[test]
fn the_greatest_complexity_is_found() {
    assert_eq!(extract_max_cc(&file("a", &[Some(3), None, Some(7), Some(2)])), Some(7));
    assert_eq!(extract_max_cc(&file("a", &[Some(0)])), Some(0));
    assert_eq!(greatest_cc(&vec![func(Some(1), None), func(Some(5), Some(9))]), Some(5));
    assert_eq!(greatest_cog(&vec![func(Some(1), None), func(Some(5), Some(9)), func(None, Some(2))]), Some(9));
    assert_eq!(greatest_cog(&vec![]), None);
}

#[test]
fn complexity_is_one_where_none_was_measured() {
    assert_eq!(extract_max_cc(&file("a", &[])), Some(1));
    assert_eq!(extract_max_cc(&file("a", &[None, None])), Some(1));
}

#[test]
fn files_without_functions_have_no_complexity() {
    assert_eq!(extract_max_cc(&node("a", false, None, None)), None);
    let sa = Some(StructuralAnalysis { functions: None });
    assert_eq!(extract_max_cc(&node("a", false, sa, None)), None);
}

#[test]
fn the_complexity_map_has_the_parsed_files() {
    let map = build_complexity_map(&sample());
    assert_eq!(map.len(), 3);
    assert_eq!(map.get("a.rs"), Some(&7));
    assert_eq!(map.get("src/b.rs"), Some(&1));
    assert_eq!(map.get("src/c/d.rs"), Some(&1));
    assert_eq!(map.get("e.bin"), None);
    assert_eq!(map.get("f.css"), None);
}

#[test]
fn directories_have_no_complexity() {
    let sa = Some(StructuralAnalysis { functions: Some(vec![func(Some(9), None)]) });
    let map = build_complexity_map(&snapshot(node("src", true, sa, None)));
    assert_eq!(map.len(), 0);
}

#[test]
fn of_two_files_with_the_same_path_the_later_counts() {
    let root = dir(".", vec![file("a", &[Some(9)]), dir("d", vec![file("a", &[Some(2)])])]);
    assert_eq!(build_complexity_map(&snapshot(root)).get("a"), Some(&2));
}

#[test]
fn known_files_are_all_files() {
    let set = build_known_files(&sample());
    assert_eq!(set.len(), 5);
    for path in ["a.rs", "src/b.rs", "src/c/d.rs", "e.bin", "f.css"] {
        assert!(set.contains(path));
    }
    assert!(!set.contains("src"));
    assert!(!set.contains("."));
}

#[test]
fn every_path_with_a_complexity_is_known() {
    let (map, set) = (build_complexity_map(&sample()), build_known_files(&sample()));
    for path in ["a.rs", "src/b.rs", "src/c/d.rs", "e.bin", "f.css", "src", "."] {
        assert!(map.get(path).is_none() || set.contains(path));
    }
}

#[test]
fn collecting_adds_to_what_is_there() {
    let mut map = StringHashMap::new();
    map.insert("x".to_string(), 4);
    map.insert("a".to_string(), 4);
    collect_complexity(&file("a", &[Some(6)]), &mut map);
    assert_eq!(map.get("x"), Some(&4));
    assert_eq!(map.get("a"), Some(&6));
    let mut set = StringHashSet::new();
    set.insert("x".to_string());
    collect_files(&file("a", &[]), &mut set);
    assert!(set.contains("x") && set.contains("a"));
    assert_eq!(set.len(), 2);
}

#[test]
fn a_file_may_have_children() {
    let root = node("a", false, None, Some(vec![file("a/b", &[Some(3)])]));
    let flat: Vec<String> = flatten_files_ref(&root).iter().map(|f| f.path.clone()).collect();
    assert_eq!(flat, vec!["a", "a/b"]);
}

#[test]
fn flattening_lists_files_in_the_order_of_the_scan() {
    let scan = sample();
    let flat: Vec<&str> = flatten_files_ref(&scan.root).iter().map(|f| f.path.as_str()).collect();
    assert_eq!(flat, vec!["a.rs", "src/b.rs", "src/c/d.rs", "e.bin", "f.css"]);
}
