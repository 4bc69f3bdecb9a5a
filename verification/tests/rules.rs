use sentrux::reports::{FileMetric, HealthReport};
use sentrux::rules::{check_rules, Boundary, Constraints, Layer, RuleCheckResult, RulesConfig};
use sentrux::snapshot::ImportEdge;

fn edge(from: &str, to: &str) -> ImportEdge {
    ImportEdge { from_file: from.to_string(), to_file: to.to_string(), mod_declaration: false }
}

fn layer(name: &str, paths: &[&str], order: u32) -> Layer {
    Layer {
        name: name.to_string(),
        paths: paths.iter().map(|p| p.to_string()).collect(),
        order,
    }
}

fn boundary(from: &str, to: &str, reason: &str) -> Boundary {
    Boundary { from: from.to_string(), to: to.to_string(), reason: reason.to_string() }
}

fn config(max_cycles: Option<usize>, layers: Vec<Layer>, boundaries: Vec<Boundary>) -> RulesConfig {
    RulesConfig { constraints: Constraints { max_cycles }, layers, boundaries }
}

fn health(cycles: &[&[&str]]) -> HealthReport {
    HealthReport {
        god_files: Vec::<FileMetric>::new(),
        hotspot_files: vec![],
        long_files: vec![],
        circular_dep_files: cycles
            .iter()
            .map(|cycle| cycle.iter().map(|p| p.to_string()).collect())
            .collect(),
        complex_functions: vec![],
        long_functions: vec![],
        cog_complex_functions: vec![],
        high_param_functions: vec![],
        dead_functions: vec![],
        duplicate_groups: vec![],
    }
}

fn pairs(result: &RuleCheckResult) -> Vec<(&str, &str)> {
    result.violations.iter().map(|v| (v.rule.as_str(), v.message.as_str())).collect()
}

// Constraint checks

#[test]
fn constraint_max_cycles_catches_violations() {
    let config = config(Some(0), vec![], vec![]);
    let edges = vec![edge("a.rs", "b.rs"), edge("b.rs", "a.rs")];
    let result = check_rules(&config, &health(&[&["a.rs", "b.rs"]]), &edges);
    assert!(!result.passed, "should fail: cycles exist but max_cycles=0");
    assert!(result.violations.iter().any(|v| v.rule == "max_cycles"));
}

#[test]
fn constraint_passes_when_met() {
    let config = config(Some(5), vec![], vec![]);
    let edges = vec![edge("a.rs", "b.rs")];
    let result = check_rules(&config, &health(&[]), &edges);
    assert!(result.passed, "should pass: 0 cycles <= 5 max");
}

// Layer checks

fn two_layers() -> RulesConfig {
    config(
        None,
        vec![
            layer("infrastructure", &["src/scanner.rs"], 0),
            layer("presentation", &["src/ui/*"], 2),
        ],
        vec![],
    )
}

#[test]
fn layer_violation_detected() {
    // The foundational layer imports a higher one.
    let edges = vec![edge("src/scanner.rs", "src/ui/panel.rs")];
    let result = check_rules(&two_layers(), &health(&[]), &edges);
    assert!(!result.passed);
    assert!(result.violations.iter().any(|v| v.rule == "layer_direction"));
}

#[test]
fn layer_correct_direction_passes() {
    // The higher layer imports the foundational one.
    let edges = vec![edge("src/ui/panel.rs", "src/scanner.rs")];
    let result = check_rules(&two_layers(), &health(&[]), &edges);
    let layer_violations: Vec<_> =
        result.violations.iter().filter(|v| v.rule == "layer_direction").collect();
    assert!(layer_violations.is_empty(), "correct direction should not violate");
}

// Boundary checks

#[test]
fn boundary_violation_detected() {
    let config = config(
        None,
        vec![],
        vec![boundary("src/renderer/*", "src/scanner.rs", "Renderer must not know about scanning")],
    );
    let edges = vec![edge("src/renderer/edges.rs", "src/scanner.rs")];
    let result = check_rules(&config, &health(&[]), &edges);
    assert!(!result.passed);
    assert!(result
        .violations
        .iter()
        .any(|v| v.rule == "boundary" && v.message.contains("Renderer must not know")));
}

#[test]
fn boundary_non_matching_passes() {
    let config = config(None, vec![], vec![boundary("src/renderer/*", "src/scanner.rs", "")]);
    let edges = vec![edge("src/app.rs", "src/scanner.rs")];
    let result = check_rules(&config, &health(&[]), &edges);
    let boundary_violations: Vec<_> =
        result.violations.iter().filter(|v| v.rule == "boundary").collect();
    assert!(boundary_violations.is_empty());
}

// Six layers and two boundaries, as a project would have them: what a boundary forbids, and what
// the order of the layers forbids.

fn fixture_style_config() -> RulesConfig {
    config(
        None,
        vec![
            layer("core", &["src/core/*"], 0),
            layer("analysis", &["src/analysis/*"], 1),
            layer("metrics", &["src/metrics/*"], 2),
            layer("layout", &["src/layout/*"], 3),
            layer("renderer", &["src/renderer/*"], 4),
            layer("app", &["src/app/*"], 5),
        ],
        vec![
            boundary(
                "src/renderer/*",
                "src/analysis/*",
                "Renderer must not depend on analysis directly",
            ),
            boundary("src/layout/*", "src/app/*", "Layout must not depend on app layer"),
        ],
    )
}

#[test]
fn boundary_fires_even_when_layer_direction_is_legal() {
    let config = fixture_style_config();
    let edges = vec![edge("src/renderer/edges.rs", "src/analysis/graph.rs")];
    let result = check_rules(&config, &health(&[]), &edges);
    assert!(!result.passed);
    assert!(result
        .violations
        .iter()
        .any(|v| v.rule == "boundary" && v.message.contains("Renderer must not depend on analysis")));
    assert!(
        result.violations.iter().all(|v| v.rule != "layer_direction"),
        "higher -> lower is the legal layer direction, must not fire"
    );
}

#[test]
fn boundary_and_layer_check_fire_together_for_wrong_direction() {
    let config = fixture_style_config();
    let edges = vec![edge("src/layout/types.rs", "src/app/state.rs")];
    let result = check_rules(&config, &health(&[]), &edges);
    assert!(!result.passed);
    assert!(result.violations.iter().any(|v| v.rule == "layer_direction"));
    assert!(result
        .violations
        .iter()
        .any(|v| v.rule == "boundary" && v.message.contains("Layout must not depend on app")));
}

#[test]
fn boundary_from_match_only_is_allowed() {
    let config = fixture_style_config();
    let edges = vec![edge("src/renderer/colors.rs", "src/core/types.rs")];
    let result = check_rules(&config, &health(&[]), &edges);
    assert!(result.passed);
    assert!(result.violations.is_empty());
}

#[test]
fn boundary_is_directional_reverse_edge_does_not_fire() {
    let config = fixture_style_config();
    let edges = vec![edge("src/analysis/graph.rs", "src/renderer/edges.rs")];
    let result = check_rules(&config, &health(&[]), &edges);
    let boundary_violations: Vec<_> =
        result.violations.iter().filter(|v| v.rule == "boundary").collect();
    assert!(boundary_violations.is_empty());
    assert!(
        result.violations.iter().any(|v| v.rule == "layer_direction"),
        "lower -> higher layer import must be caught by the layer check"
    );
}

#[test]
fn boundary_patterns_match_scan_root_relative_paths_only() {
    let config = fixture_style_config();
    let edges = vec![edge(
        "sentrux-core/src/renderer/colors.rs",
        "sentrux-core/src/analysis/lang_registry.rs",
    )];
    let result = check_rules(&config, &health(&[]), &edges);
    assert!(result.passed, "crate-prefixed paths never match the src/* patterns");
    assert!(result.violations.is_empty());
}

#[test]
fn boundary_reports_one_violation_per_matching_edge() {
    let config = fixture_style_config();
    let edges = vec![
        edge("src/renderer/edges.rs", "src/analysis/graph.rs"),
        edge("src/renderer/colors.rs", "src/analysis/lang_registry.rs"),
    ];
    let result = check_rules(&config, &health(&[]), &edges);
    assert!(!result.passed);
    let boundary_violations: Vec<_> =
        result.violations.iter().filter(|v| v.rule == "boundary").collect();
    assert_eq!(boundary_violations.len(), 2);
}

#[test]
fn empty_rules_always_pass() {
    let config = config(None, vec![], vec![]);
    let edges = vec![edge("a.rs", "b.rs"), edge("b.rs", "a.rs")];
    let result = check_rules(&config, &health(&[&["a.rs", "b.rs"]]), &edges);
    assert!(result.passed, "no rules = no violations");
    assert_eq!(result.rules_checked, 0);
}

// How violations are put

#[test]
fn cycles_up_to_the_limit_pass() {
    let cycles: &[&[&str]] = &[&["a", "b"], &["c", "d"]];
    assert!(check_rules(&config(Some(2), vec![], vec![]), &health(cycles), &vec![]).passed);
    let result = check_rules(&config(Some(1), vec![], vec![]), &health(cycles), &vec![]);
    assert_eq!(pairs(&result), vec![("max_cycles", "2 circular dependencies (max 1)")]);
    assert_eq!(result.rules_checked, 1);
}

#[test]
fn violations_are_put_in_words() {
    let edges = vec![edge("src/layout/types.rs", "src/app/state.rs")];
    let result = check_rules(&fixture_style_config(), &health(&[]), &edges);
    assert_eq!(
        pairs(&result),
        vec![
            (
                "layer_direction",
                "Layer 'layout' (order 3) must not depend on layer 'app' (order 5)",
            ),
            (
                "boundary",
                "src/layout/types.rs must not depend on src/app/state.rs: Layout must not depend on app layer",
            ),
        ]
    );
    assert_eq!(result.rules_checked, 3);
}

#[test]
fn layer_violations_are_reported_once_for_many_edges() {
    let edges = vec![
        edge("src/core/a.rs", "src/app/b.rs"),
        edge("src/core/c.rs", "src/app/d.rs"),
        edge("src/core/a.rs", "src/metrics/m.rs"),
        edge("src/core/e.rs", "src/app/f.rs"),
    ];
    let result = check_rules(&fixture_style_config(), &health(&[]), &edges);
    assert_eq!(
        pairs(&result),
        vec![
            ("layer_direction", "Layer 'core' (order 0) must not depend on layer 'app' (order 5)"),
            (
                "layer_direction",
                "Layer 'core' (order 0) must not depend on layer 'metrics' (order 2)",
            ),
        ]
    );
}

#[test]
fn every_layer_that_a_file_belongs_to_counts() {
    let layers = || vec![layer("all", &["src/**"], 1), layer("ui", &["src/ui/*"], 2)];
    let edges = vec![edge("src/a.rs", "src/ui/b.rs")];
    let reversed = layers().into_iter().rev().collect();
    for layers in [layers(), reversed] {
        let result = check_rules(&config(None, layers, vec![]), &health(&[]), &edges);
        assert_eq!(
            pairs(&result),
            vec![("layer_direction", "Layer 'all' (order 1) must not depend on layer 'ui' (order 2)")]
        );
    }
}

#[test]
fn an_edge_may_break_several_layers() {
    let layers = vec![
        layer("low", &["src/a.rs"], 0),
        layer("middle", &["src/a.rs", "src/b.rs"], 1),
        layer("high", &["src/b.rs"], 2),
    ];
    let edges = vec![edge("src/a.rs", "src/b.rs")];
    let result = check_rules(&config(None, layers, vec![]), &health(&[]), &edges);
    assert_eq!(
        pairs(&result),
        vec![
            ("layer_direction", "Layer 'low' (order 0) must not depend on layer 'middle' (order 1)"),
            ("layer_direction", "Layer 'low' (order 0) must not depend on layer 'high' (order 2)"),
            ("layer_direction", "Layer 'middle' (order 1) must not depend on layer 'high' (order 2)"),
        ]
    );
}

#[test]
fn edges_within_a_layer_are_legal() {
    let edges = vec![edge("src/core/a.rs", "src/core/b.rs")];
    assert!(check_rules(&fixture_style_config(), &health(&[]), &edges).passed);
}

#[test]
fn adding_rules_keeps_the_violations() {
    let edges = vec![
        edge("src/core/a.rs", "src/app/b.rs"),
        edge("src/renderer/a.rs", "src/analysis/b.rs"),
        edge("src/extra/a.rs", "src/app/b.rs"),
    ];
    let cycles: &[&[&str]] = &[&["a", "b"]];
    let narrow = check_rules(&fixture_style_config(), &health(cycles), &edges);
    let mut wider = fixture_style_config();
    wider.constraints.max_cycles = Some(0);
    wider.layers.push(layer("extra", &["src/extra"], 0));
    wider.boundaries.push(boundary("src/extra", "src/app", "no"));
    let wide = check_rules(&wider, &health(cycles), &edges);
    assert_eq!(pairs(&narrow).len(), 2);
    assert_eq!(pairs(&wide).len(), 5);
    for v in pairs(&narrow) {
        assert!(pairs(&wide).contains(&v));
    }
}

#[test]
fn rules_added_anywhere_keep_the_violations() {
    let edges = vec![
        edge("src/core/a.rs", "src/app/b.rs"),
        edge("src/renderer/a.rs", "src/analysis/b.rs"),
    ];
    let narrow = check_rules(&fixture_style_config(), &health(&[]), &edges);
    assert_eq!(pairs(&narrow).len(), 2);
    for place in 0..=2 {
        let mut wider = fixture_style_config();
        wider.layers.insert(place, layer("top", &["src/core"], 9));
        wider.boundaries.insert(place, boundary("src/core", "src/app", "no"));
        let wide = check_rules(&wider, &health(&[]), &edges);
        assert_eq!(pairs(&wide).len(), 3);
        for v in pairs(&narrow) {
            assert!(pairs(&wide).contains(&v));
        }
    }
}
