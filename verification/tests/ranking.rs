use sentrux::double::Double;
use sentrux::ranking::sort;
use sentrux::top_files::{parse_metric, FileRankData, Metric};

fn data(path: &str, cc: u32) -> FileRankData {
    FileRankData {
        path: path.to_string(),
        fan_in: 0,
        fan_out: 0,
        coupling: 0,
        max_cc: cc,
        max_cog: 0,
        instability: Double { mantissa: 0, exponent: 0 },
        instability_points: 0,
        blast_radius: 0,
        churn: 0,
        lines: 0,
        risk_score: Double { mantissa: 0, exponent: 0 },
        risk_points: 0,
    }
}

fn paths(sorted: Vec<FileRankData>) -> Vec<String> {
    sorted.into_iter().map(|d| d.path).collect()
}

#[test]
fn the_highest_come_first_and_ties_go_by_path() {
    let items = vec![data("b", 1), data("z", 5), data("a", 1), data("c", 5), data("B", 1)];
    assert_eq!(paths(sort(&Metric::Complexity, items)), vec!["c", "z", "B", "a", "b"]);
    assert!(sort(&Metric::Complexity, Vec::<FileRankData>::new()).is_empty());
}

#[test]
fn the_order_of_the_scan_does_not_matter() {
    let one = vec![data("b", 1), data("z", 5), data("a", 1), data("c", 5)];
    let two = vec![data("c", 5), data("a", 1), data("z", 5), data("b", 1)];
    assert_eq!(paths(sort(&Metric::Complexity, one)), paths(sort(&Metric::Complexity, two)));
}

#[test]
fn equal_entries_keep_their_order() {
    let mut first = data("a", 1);
    first.lines = 1;
    let mut second = data("a", 1);
    second.lines = 2;
    let sorted = sort(&Metric::Complexity, vec![first, data("0", 0), second]);
    let lines: Vec<u32> = sorted.iter().map(|d| d.lines).collect();
    assert_eq!(lines, vec![1, 2, 0]);
}

#[test]
fn metrics_have_names() {
    assert_eq!(parse_metric("coupling"), Metric::Coupling);
    assert_eq!(parse_metric("fan_in"), Metric::FanIn);
    assert_eq!(parse_metric("fan_out"), Metric::FanOut);
    assert_eq!(parse_metric("complexity"), Metric::Complexity);
    assert_eq!(parse_metric("cognitive"), Metric::Cognitive);
    assert_eq!(parse_metric("instability"), Metric::Instability);
    assert_eq!(parse_metric("blast_radius"), Metric::BlastRadius);
    assert_eq!(parse_metric("churn"), Metric::Churn);
    assert_eq!(parse_metric("risk"), Metric::Risk);
    assert_eq!(parse_metric("anything"), Metric::Risk);
}
