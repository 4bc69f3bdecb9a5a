//! The `top_files` tool: the files that a chosen metric ranks highest.

use crate::coupling::{compute_fan_maps, count_of, counts_sources, counts_targets, degrees_fit, fan_maps_agree_with_file_coupling, sources, targets};
use crate::double::{at_most, below, exponents_of_results, greater, integers_keep_their_order, nearest_is_normal, normal, of_int, product, products_are_zero_with_a_factor_only, products_keep_order, rounded, small_integers_are_exact, small_integers_keep_their_order, small_products_are_exact, zero, Double, Real, BEYOND};
use crate::evolution::ends_evolution;
use crate::file_info::{dependencies_json, look_up, lookup, told_one};
use crate::issues::{in_a_cycle, is_in_cycle, is_listed, issues_are_those_the_report_lists, lists_file};
use crate::json::{entry, first, from_str, from_u64, from_vec, get_count, get_text, json_of, object, put, count_entry, text_entry, Json};
use crate::measures::{compute_instability, instability, instability_in_points, points, scale};
use crate::ranking::{ranked, ranked_is_a_permutation, ranked_is_in_order, ranked_whatever_the_order, sort, tied, Ranking};
use crate::reports::{ArchReport, EvolutionReport, HealthReport, McpState, Tier};
use crate::snapshot::{files, FileNode, FuncInfo, Snapshot};
use crate::text::{comes_before, comes_before_is_irreflexive, comes_before_is_total, comes_before_is_transitive, precedes, same};
use crate::tree::{ccs, cogs, flatten_files_ref, functions, greatest, greatest_cc, greatest_cog, greatest_is_the_greatest, or_default};
use serde_json::Value;
use vstd::prelude::*;

verus! {

/// What files are ranked by, the highest first.
#[derive(Clone, Copy, PartialEq, Eq, Structural, Debug)]
pub enum Metric {
    /// Fan-in and fan-out together.
    Coupling,
    /// How many files depend on the file.
    FanIn,
    /// How many files the file depends on.
    FanOut,
    /// The greatest cyclomatic complexity.
    Complexity,
    /// The greatest cognitive complexity.
    Cognitive,
    /// The share of fan-out in the coupling.
    Instability,
    /// How many files a change can reach.
    BlastRadius,
    /// How often the file changed.
    Churn,
    /// Change, complexity and reach together.
    Risk,
}

/// The metric that `name` means: risk, where it means no other.
pub open spec fn metric_of(name: Seq<char>) -> Metric {
    if name == "coupling"@ {
        Metric::Coupling
    } else if name == "fan_in"@ {
        Metric::FanIn
    } else if name == "fan_out"@ {
        Metric::FanOut
    } else if name == "complexity"@ {
        Metric::Complexity
    } else if name == "cognitive"@ {
        Metric::Cognitive
    } else if name == "instability"@ {
        Metric::Instability
    } else if name == "blast_radius"@ {
        Metric::BlastRadius
    } else if name == "churn"@ {
        Metric::Churn
    } else {
        Metric::Risk
    }
}

/// The metric that `name` means: risk, where it means no other.
pub fn parse_metric(name: &str) -> (metric: Metric)
    ensures
        metric == metric_of(name@),
{
    if same(name, "coupling") {
        Metric::Coupling
    } else if same(name, "fan_in") {
        Metric::FanIn
    } else if same(name, "fan_out") {
        Metric::FanOut
    } else if same(name, "complexity") {
        Metric::Complexity
    } else if same(name, "cognitive") {
        Metric::Cognitive
    } else if same(name, "instability") {
        Metric::Instability
    } else if same(name, "blast_radius") {
        Metric::BlastRadius
    } else if same(name, "churn") {
        Metric::Churn
    } else {
        Metric::Risk
    }
}

/// What a file is ranked by.
pub struct FileRankData {
    /// Its path.
    pub path: String,
    /// How many files depend on it.
    pub fan_in: usize,
    /// How many files it depends on.
    pub fan_out: usize,
    /// Both together.
    pub coupling: usize,
    /// Its greatest cyclomatic complexity.
    pub max_cc: u32,
    /// Its greatest cognitive complexity.
    pub max_cog: u32,
    /// The share of fan-out in the coupling.
    pub instability: Double,
    /// That share in hundredths of a percent.
    pub instability_points: u32,
    /// How many files a change of it can reach.
    pub blast_radius: u32,
    /// How often it changed.
    pub churn: u32,
    /// Number of lines.
    pub lines: u32,
    /// Change, complexity and reach together.
    pub risk_score: Double,
    /// The hundredfold of that as an integer.
    pub risk_points: u64,
}

/// Whether `a` is higher than `b` by this metric.
pub open spec fn higher(metric: Metric, a: FileRankData, b: FileRankData) -> bool {
    match metric {
        Metric::Coupling => a.coupling > b.coupling,
        Metric::FanIn => a.fan_in > b.fan_in,
        Metric::FanOut => a.fan_out > b.fan_out,
        Metric::Complexity => a.max_cc > b.max_cc,
        Metric::Cognitive => a.max_cog > b.max_cog,
        Metric::Instability => below(b.instability@, a.instability@),
        Metric::BlastRadius => a.blast_radius > b.blast_radius,
        Metric::Churn => a.churn > b.churn,
        Metric::Risk => below(b.risk_score@, a.risk_score@),
    }
}

/// Whether `a` is higher than `b` by this metric.
fn is_higher(metric: Metric, a: &FileRankData, b: &FileRankData) -> (r: bool)
    ensures
        r == higher(metric, *a, *b),
{
    match metric {
        Metric::Coupling => a.coupling > b.coupling,
        Metric::FanIn => a.fan_in > b.fan_in,
        Metric::FanOut => a.fan_out > b.fan_out,
        Metric::Complexity => a.max_cc > b.max_cc,
        Metric::Cognitive => a.max_cog > b.max_cog,
        Metric::Instability => b.instability.is_below(a.instability),
        Metric::BlastRadius => a.blast_radius > b.blast_radius,
        Metric::Churn => a.churn > b.churn,
        Metric::Risk => b.risk_score.is_below(a.risk_score),
    }
}

/// Files by a metric, the highest first, and by path among those that are equally high.
impl Ranking<FileRankData> for Metric {
    open spec fn ahead(&self, a: FileRankData, b: FileRankData) -> bool {
        higher(*self, a, b) || (!higher(*self, b, a) && comes_before(a.path@, b.path@))
    }

    proof fn ahead_is_asymmetric(&self, a: FileRankData, b: FileRankData) {
        if comes_before(a.path@, b.path@) && comes_before(b.path@, a.path@) {
            comes_before_is_transitive(a.path@, b.path@, a.path@);
            comes_before_is_irreflexive(a.path@);
        }
    }

    proof fn ahead_splits(&self, a: FileRankData, b: FileRankData, c: FileRankData) {
        if !higher(*self, a, c) && !higher(*self, c, a) && !higher(*self, c, b) && !higher(*self, b, c) {
            comes_before_is_total(a.path@, c.path@);
            comes_before_is_total(c.path@, b.path@);
            if comes_before(c.path@, a.path@) && comes_before(a.path@, b.path@) {
                comes_before_is_transitive(c.path@, a.path@, b.path@);
            }
        }
    }

    fn is_ahead(&self, a: &FileRankData, b: &FileRankData) -> (r: bool) {
        is_higher(*self, a, b) || (!is_higher(*self, b, a) && precedes(a.path.as_str(), b.path.as_str()))
    }
}

/// How often the file `path` changed: never, where no history was read.
pub open spec fn churn_of(evolution: Option<EvolutionReport>, path: Seq<char>) -> u32 {
    match evolution {
        Some(history) => if history.churn@.contains_key(path) {
            history.churn@[path].commit_count
        } else {
            0
        },
        None => 0,
    }
}

/// How risky a file is: the number of its changes, at least one, times its complexity, times its
/// reach, which is its blast radius or its coupling, whichever is greater.
pub open spec fn risk(churn: u32, max_cc: u32, blast_radius: u32, coupling: int) -> Real {
    product(
        product(greater(of_int(churn as int), of_int(1)), of_int(max_cc as int)),
        greater(of_int(blast_radius as int), of_int(coupling)),
    )
}

/// The double that has the value `r`.
pub open spec fn as_double(r: Real) -> Double {
    Double { mantissa: r.mantissa as u64, exponent: r.exponent as i64 }
}

/// What the file `node` is ranked by.
pub open spec fn rank_data(
    links: Seq<(Seq<char>, Seq<char>)>,
    arch: ArchReport,
    evolution: Option<EvolutionReport>,
    node: FileNode,
) -> FileRankData {
    let path = node.path@;
    let fan_in = sources(links, path).len() as int;
    let fan_out = targets(links, path).len() as int;
    let blast_radius = or_default(lookup(arch.blast_radius@, path), 0);
    let churn = churn_of(evolution, path);
    let max_cc = match functions(node) {
        Some(funcs) => or_default(greatest(ccs(funcs)), 1),
        None => 1,
    };
    let max_cog = match functions(node) {
        Some(funcs) => or_default(greatest(cogs(funcs)), 0),
        None => 0,
    };
    let score = risk(churn, max_cc, blast_radius, fan_in + fan_out);
    FileRankData {
        path: node.path,
        fan_in: fan_in as usize,
        fan_out: fan_out as usize,
        coupling: (fan_in + fan_out) as usize,
        max_cc,
        max_cog,
        instability: as_double(instability(fan_in, fan_out)),
        instability_points: points(instability(fan_in, fan_out)) as u32,
        blast_radius,
        churn,
        lines: node.lines,
        risk_score: as_double(score),
        risk_points: at_most(rounded(product(score, of_int(100))), u64::MAX as int) as u64,
    }
}

/// What the file `node` is ranked by.
fn rank_file(
    node: &FileNode,
    fan_in: usize,
    fan_out: usize,
    arch: &ArchReport,
    evolution: &Option<EvolutionReport>,
    Ghost(links): Ghost<Seq<(Seq<char>, Seq<char>)>>,
) -> (data: FileRankData)
    requires
        fan_in == sources(links, node.path@).len(),
        fan_out == targets(links, node.path@).len(),
        fan_in + fan_out <= usize::MAX,
    ensures
        data == rank_data(links, *arch, *evolution, *node),
{
    let path: &str = node.path.as_str();
    let coupling: usize = fan_in + fan_out;
    let blast_radius: u32 = look_up(&arch.blast_radius, path).unwrap_or(0);
    let (max_cc, max_cog): (u32, u32) = match &node.sa {
        Some(sa) => match &sa.functions {
            Some(funcs) => (greatest_cc(funcs).unwrap_or(1), greatest_cog(funcs).unwrap_or(0)),
            None => (1, 0),
        },
        None => (1, 0),
    };
    let churn: u32 = match evolution {
        Some(history) => match history.churn.get(path) {
            Some(c) => c.commit_count,
            None => 0,
        },
        None => 0,
    };
    let share: Double = compute_instability(fan_in, fan_out);
    let reach: Double = Double::of_u64(blast_radius as u64).max(Double::of_u64(coupling as u64));
    let changes: Double = Double::of_u64(churn as u64).max(Double::of_u64(1));
    let score: Double = changes.times(Double::of_u64(max_cc as u64)).times(reach);
    let shown: Double = score.times(Double::of_u64(100));
    FileRankData {
        path: node.path.clone(),
        fan_in,
        fan_out,
        coupling,
        max_cc,
        max_cog,
        instability: share,
        instability_points: scale(share, 10000),
        blast_radius,
        churn,
        lines: node.lines,
        risk_score: score,
        risk_points: shown.to_u64(),
    }
}

/// Whether a file is ranked: its language is known and it is no test.
pub open spec fn is_source(node: FileNode, is_test: bool) -> bool {
    node.lang@.len() > 0 && node.lang@ != "unknown"@ && !is_test
}

/// Those of `nodes` that are ranked; `tests` says which are test files.
pub open spec fn source_files(nodes: Seq<FileNode>, tests: Seq<bool>) -> Seq<FileNode>
    decreases nodes.len(),
{
    if nodes.len() == 0 {
        Seq::empty()
    } else {
        let before = source_files(nodes.drop_last(), tests);
        if is_source(nodes.last(), tests[nodes.len() - 1]) {
            before.push(nodes.last())
        } else {
            before
        }
    }
}

/// The ranked files, the highest first, `limit` of them at most.
pub open spec fn top(
    snapshot: Snapshot,
    arch: ArchReport,
    evolution: Option<EvolutionReport>,
    tests: Seq<bool>,
    metric: Metric,
    limit: int,
) -> Seq<FileRankData> {
    let data = source_files(files(snapshot.root), tests).map_values(
        |node: FileNode| rank_data(snapshot.links(), arch, evolution, node),
    );
    first(ranked(metric, data), limit)
}

/// All ranked files, in the order of the scan.
fn rank_files(
    snapshot: &Snapshot,
    nodes: &Vec<&FileNode>,
    arch: &ArchReport,
    evolution: &Option<EvolutionReport>,
    tests: &Vec<bool>,
) -> (ranks: Vec<FileRankData>)
    requires
        snapshot.fits(),
        tests.len() == nodes.len(),
    ensures
        ranks@ == source_files(nodes@.map_values(|f: &FileNode| *f), tests@).map_values(
            |node: FileNode| rank_data(snapshot.links(), *arch, *evolution, node),
        ),
{
    let (fan_out_map, fan_in_map) = compute_fan_maps(snapshot);
    let ghost links: Seq<(Seq<char>, Seq<char>)> = snapshot.links();
    let ghost all: Seq<FileNode> = nodes@.map_values(|f: &FileNode| *f);
    let ghost rank = |node: FileNode| rank_data(snapshot.links(), *arch, *evolution, node);
    let mut ranks: Vec<FileRankData> = Vec::new();
    assert(ranks@ =~= source_files(all.take(0), tests@).map_values(rank));
    for i in 0..nodes.len()
        invariant
            snapshot.fits(),
            tests.len() == nodes.len(),
            links == snapshot.links(),
            counts_targets(fan_out_map@, links),
            counts_sources(fan_in_map@, links),
            all == nodes@.map_values(|f: &FileNode| *f),
            rank == |node: FileNode| rank_data(snapshot.links(), *arch, *evolution, node),
            ranks@ == source_files(all.take(i as int), tests@).map_values(rank),
    {
        let node: &FileNode = nodes[i];
        assert(all.take(i + 1).drop_last() =~= all.take(i as int));
        if !node.lang.as_str().is_empty() && !same(node.lang.as_str(), "unknown") && !tests[i] {
            let fan_in: usize = count_of(&fan_in_map, node.path.as_str());
            let fan_out: usize = count_of(&fan_out_map, node.path.as_str());
            proof {
                fan_maps_agree_with_file_coupling(*snapshot, fan_out_map@, fan_in_map@, node.path@);
                degrees_fit(*snapshot, node.path@);
            }
            ranks.push(rank_file(node, fan_in, fan_out, arch, evolution, Ghost(links)));
        }
        assert(ranks@ =~= source_files(all.take(i + 1), tests@).map_values(rank));
    }
    assert(all.take(nodes.len() as int) =~= all);
    ranks
}

/// A ranked file as a JSON object. `place` counts from zero; changes and risk are shown where a
/// history was read.
pub open spec fn entry_json(data: FileRankData, place: int, has_history: bool) -> Json {
    let entries = map![
        "rank"@ => Json::Int(place + 1),
        "path"@ => Json::Str(data.path@),
        "fan_in"@ => Json::Int(data.fan_in as int),
        "fan_out"@ => Json::Int(data.fan_out as int),
        "coupling"@ => Json::Int(data.coupling as int),
        "max_cc"@ => Json::Int(data.max_cc as int),
        "max_cognitive"@ => Json::Int(data.max_cog as int),
        "instability"@ => Json::Int(data.instability_points as int),
        "blast_radius"@ => Json::Int(data.blast_radius as int),
        "lines"@ => Json::Int(data.lines as int),
    ];
    if has_history {
        Json::Obj(
            entries.insert("churn"@, Json::Int(data.churn as int)).insert(
                "risk_score"@,
                Json::Int(data.risk_points as int),
            ),
        )
    } else {
        Json::Obj(entries)
    }
}

/// A ranked file as a JSON object.
fn entry_value(data: &FileRankData, place: usize, has_history: bool) -> (value: Value)
    requires
        place < usize::MAX,
    ensures
        json_of(value) == entry_json(*data, place as int, has_history),
{
    let mut value: Value = object();
    put(&mut value, "rank", from_u64(place as u64 + 1));
    put(&mut value, "path", from_str(data.path.as_str()));
    put(&mut value, "fan_in", from_u64(data.fan_in as u64));
    put(&mut value, "fan_out", from_u64(data.fan_out as u64));
    put(&mut value, "coupling", from_u64(data.coupling as u64));
    put(&mut value, "max_cc", from_u64(data.max_cc as u64));
    put(&mut value, "max_cognitive", from_u64(data.max_cog as u64));
    put(&mut value, "instability", from_u64(data.instability_points as u64));
    put(&mut value, "blast_radius", from_u64(data.blast_radius as u64));
    put(&mut value, "lines", from_u64(data.lines as u64));
    if has_history {
        put(&mut value, "churn", from_u64(data.churn as u64));
        put(&mut value, "risk_score", from_u64(data.risk_points));
    }
    value
}

/// The ranked files as JSON objects.
pub open spec fn entries_json(ranks: Seq<FileRankData>, has_history: bool) -> Seq<Json> {
    Seq::new(ranks.len(), |i: int| entry_json(ranks[i], i, has_history))
}

/// Whether the health report points out the file `path`.
pub open spec fn is_unhealthy(health: HealthReport, path: Seq<char>) -> bool {
    ||| lists_file(health.god_files@, path)
    ||| lists_file(health.hotspot_files@, path)
    ||| in_a_cycle(health.circular_dep_files@, path)
}

/// How many of `ranks` the health report points out.
pub open spec fn count_unhealthy(health: HealthReport, ranks: Seq<FileRankData>) -> int
    decreases ranks.len(),
{
    if ranks.len() == 0 {
        0
    } else {
        count_unhealthy(health, ranks.drop_last()) + if is_unhealthy(health, ranks.last().path@) {
            1int
        } else {
            0
        }
    }
}

/// How many of `ranks` the health report points out.
fn tally_unhealthy(health: &HealthReport, ranks: &Vec<FileRankData>) -> (n: usize)
    ensures
        n == count_unhealthy(*health, ranks@),
{
    let mut n: usize = 0;
    for i in 0..ranks.len()
        invariant
            n <= i,
            n == count_unhealthy(*health, ranks@.take(i as int)),
    {
        assert(ranks@.take(i + 1).drop_last() =~= ranks@.take(i as int));
        let path: &str = ranks[i].path.as_str();
        if is_listed(&health.god_files, path) || is_listed(&health.hotspot_files, path)
            || is_in_cycle(&health.circular_dep_files, path) {
            n += 1;
        }
    }
    assert(ranks@.take(ranks.len() as int) =~= ranks@);
    n
}

/// The remark on a ranking by `metric` for which no history was read, where it lacks one.
pub open spec fn note_of(metric: Seq<char>, has_history: bool) -> Option<Seq<char>> {
    if has_history {
        None
    } else if metric == "risk"@ {
        Some(
            "Risk scores use churn=1 (default). Run git_stats first for accurate churn-weighted risk."@,
        )
    } else if metric == "churn"@ {
        Some("No git history loaded. Run git_stats first to get churn data."@)
    } else {
        None
    }
}

/// The answer with the files that `metric` ranks highest, `limit` of them at most. `tests` says of
/// each file whether it is a test file.
pub open spec fn top_files_json(
    snapshot: Snapshot,
    health: HealthReport,
    arch: ArchReport,
    evolution: Option<EvolutionReport>,
    tests: Seq<bool>,
    metric: Seq<char>,
    limit: int,
) -> Json {
    let shown = top(snapshot, arch, evolution, tests, metric_of(metric), limit);
    let has_history = evolution is Some;
    let entries = map![
        "metric"@ => Json::Str(metric),
        "total_source_files"@ => Json::Int(source_files(files(snapshot.root), tests).len() as int),
        "showing"@ => Json::Int(shown.len() as int),
        "files"@ => Json::Arr(entries_json(shown, has_history)),
    ];
    let entries = match note_of(metric, has_history) {
        Some(note) => entries.insert("note"@, Json::Str(note)),
        None => entries,
    };
    Json::Obj(
        entries.insert(
            "issues_overlap"@,
            Json::Obj(
                map![
                    "files_with_health_issues"@ => Json::Int(count_unhealthy(health, shown)),
                    "out_of"@ => Json::Int(shown.len() as int),
                ],
            ),
        ),
    )
}

/// The answer with the files that `metric` ranks highest, `limit` of them at most. `tests` says of
/// each file, in the order of the scan, whether it is a test file.
pub fn top_files(
    snapshot: &Snapshot,
    health: &HealthReport,
    arch: &ArchReport,
    evolution: &Option<EvolutionReport>,
    tests: &Vec<bool>,
    metric: &str,
    limit: u64,
) -> (value: Value)
    requires
        snapshot.fits(),
        tests.len() == files(snapshot.root).len(),
    ensures
        json_of(value) == top_files_json(*snapshot, *health, *arch, *evolution, tests@, metric@, limit as int),
{
    let nodes: Vec<&FileNode> = flatten_files_ref(&snapshot.root);
    proof {
        assert(nodes@.map_values(|f: &FileNode| *f).len() == nodes.len());
    }
    let ranks: Vec<FileRankData> = rank_files(snapshot, &nodes, arch, evolution, tests);
    let total: usize = ranks.len();
    let mut shown: Vec<FileRankData> = sort(&parse_metric(metric), ranks);
    let ghost full: Seq<FileRankData> = shown@;
    if (shown.len() as u64) > limit {
        shown.truncate(limit as usize);
    }
    assert(shown@ =~= first(full, limit as int));
    let has_history: bool = evolution.is_some();
    let mut items: Vec<Value> = Vec::new();
    for i in 0..shown.len()
        invariant
            items.len() == i,
            forall|j: int|
                0 <= j < i ==> json_of(#[trigger] items@[j]) == entry_json(shown@[j], j, has_history),
    {
        items.push(entry_value(&shown[i], i, has_history));
    }
    assert(items@.map_values(|v: Value| json_of(v)) =~= entries_json(shown@, has_history));
    let mut value: Value = object();
    put(&mut value, "metric", from_str(metric));
    put(&mut value, "total_source_files", from_u64(total as u64));
    put(&mut value, "showing", from_u64(shown.len() as u64));
    put(&mut value, "files", from_vec(items));
    if same(metric, "risk") && !has_history {
        put(
            &mut value,
            "note",
            from_str(
                "Risk scores use churn=1 (default). Run git_stats first for accurate churn-weighted risk.",
            ),
        );
    } else if same(metric, "churn") && !has_history {
        put(
            &mut value,
            "note",
            from_str("No git history loaded. Run git_stats first to get churn data."),
        );
    }
    let mut overlap: Value = object();
    put(&mut overlap, "files_with_health_issues", from_u64(tally_unhealthy(health, &shown) as u64));
    put(&mut overlap, "out_of", from_u64(shown.len() as u64));
    put(&mut value, "issues_overlap", overlap);
    value
}

/// The metric that a request asks for: risk, where it names none.
pub open spec fn requested_metric(args: Json) -> Seq<char> {
    match text_entry(args, "metric"@) {
        Some(name) => name,
        None => "risk"@,
    }
}

/// How many files a request asks for: 10 where it does not say, and 50 at most.
pub open spec fn requested_limit(args: Json) -> int {
    match count_entry(args, "limit"@) {
        Some(n) => at_most(n, 50),
        None => 10,
    }
}

/// Whether `is_test_file` told of each of `nodes` what `tests` says.
pub open spec fn told<T: Fn(&str) -> bool>(
    is_test_file: T,
    nodes: Seq<FileNode>,
    tests: Seq<bool>,
) -> bool {
    &&& tests.len() == nodes.len()
    &&& forall|i: int|
        0 <= i < nodes.len() ==> told_one(is_test_file, nodes[i].path@, #[trigger] tests[i])
}

/// Whether `reply` answers a request with the files that the metric ranks highest, of which
/// `is_test_file` was asked.
pub open spec fn answers_top_files<T: Fn(&str) -> bool>(
    args: Json,
    snapshot: Snapshot,
    health: HealthReport,
    arch: ArchReport,
    evolution: Option<EvolutionReport>,
    is_test_file: T,
    reply: Json,
) -> bool {
    exists|tests: Seq<bool>|
        {
            &&& #[trigger] told(is_test_file, files(snapshot.root), tests)
            &&& reply == top_files_json(
                snapshot,
                health,
                arch,
                evolution,
                tests,
                requested_metric(args),
                requested_limit(args),
            )
        }
}

/// Answers a request for the files that a metric ranks highest.
///
/// `is_test_file` tells test files, which are not ranked, by their path.
pub fn handle_top_files<T: Fn(&str) -> bool>(
    args: &Value,
    _tier: &Tier,
    state: &McpState,
    is_test_file: T,
) -> (reply: Result<Value, String>)
    requires
        forall|path: &str| is_test_file.requires((path,)),
        state.cached_snapshot matches Some(snapshot) ==> snapshot.fits(),
    ensures
        match (state.cached_snapshot, state.cached_health, state.cached_arch) {
            (Some(snapshot), Some(health), Some(arch)) => exists|tests: Seq<bool>|
                {
                    &&& #[trigger] told(is_test_file, files(snapshot.root), tests)
                    &&& reply is Ok
                    &&& json_of(reply->Ok_0) == top_files_json(
                        snapshot,
                        health,
                        arch,
                        state.cached_evolution,
                        tests,
                        requested_metric(json_of(*args)),
                        requested_limit(json_of(*args)),
                    )
                },
            _ => reply is Err && reply->Err_0@ == "No scan data. Call 'scan' first."@,
        },
        state.cached_snapshot is Some && state.cached_health is Some && state.cached_arch is Some ==> reply is Ok
            && answers_top_files(
            json_of(*args),
            state.cached_snapshot->0,
            state.cached_health->0,
            state.cached_arch->0,
            state.cached_evolution,
            is_test_file,
            json_of(reply->Ok_0),
        ),
{
    match (&state.cached_snapshot, &state.cached_health, &state.cached_arch) {
        (Some(snapshot), Some(health), Some(arch)) => {
            let metric: &str = match get_text(args, "metric") {
                Some(name) => name,
                None => "risk",
            };
            let limit: u64 = match get_count(args, "limit") {
                Some(n) => if n < 50 {
                    n
                } else {
                    50
                },
                None => 10,
            };
            let nodes: Vec<&FileNode> = flatten_files_ref(&snapshot.root);
            let ghost all: Seq<FileNode> = nodes@.map_values(|f: &FileNode| *f);
            let mut tests: Vec<bool> = Vec::new();
            for i in 0..nodes.len()
                invariant
                    forall|path: &str| is_test_file.requires((path,)),
                    all == nodes@.map_values(|f: &FileNode| *f),
                    tests.len() == i,
                    forall|j: int|
                        0 <= j < i ==> told_one(is_test_file, all[j].path@, #[trigger] tests@[j]),
            {
                let path: &str = nodes[i].path.as_str();
                let is_test: bool = is_test_file(path);
                assert(told_one(is_test_file, all[i as int].path@, is_test));
                tests.push(is_test);
            }
            assert(told(is_test_file, files(snapshot.root), tests@));
            Ok(top_files(snapshot, health, arch, &state.cached_evolution, &tests, metric, limit))
        },
        _ => Err("No scan data. Call 'scan' first.".to_owned()),
    }
}

/// As many files are shown as are ranked, and no more than the limit.
pub proof fn as_many_are_shown_as_the_limit_allows(
    snapshot: Snapshot,
    arch: ArchReport,
    evolution: Option<EvolutionReport>,
    tests: Seq<bool>,
    metric: Metric,
    limit: int,
)
    requires
        limit >= 0,
    ensures
        top(snapshot, arch, evolution, tests, metric, limit).len() == at_most(
            source_files(files(snapshot.root), tests).len() as int,
            limit,
        ),
{
    let data = source_files(files(snapshot.root), tests).map_values(
        |node: FileNode| rank_data(snapshot.links(), arch, evolution, node),
    );
    ranked_is_a_permutation(metric, data);
}

/// No request gets more than fifty files.
pub proof fn no_more_than_fifty_are_asked_for(args: Json)
    ensures
        0 <= requested_limit(args) <= 50,
{
}

/// The files are shown with the highest first, and by path among those that are equally high; and
/// none that is left out stands ahead of one that is shown.
pub proof fn the_highest_are_shown_first(
    snapshot: Snapshot,
    arch: ArchReport,
    evolution: Option<EvolutionReport>,
    tests: Seq<bool>,
    metric: Metric,
    limit: int,
)
    requires
        limit >= 0,
    ensures
        ({
            let all = ranked(
                metric,
                source_files(files(snapshot.root), tests).map_values(
                    |node: FileNode| rank_data(snapshot.links(), arch, evolution, node),
                ),
            );
            let shown = top(snapshot, arch, evolution, tests, metric, limit);
            &&& forall|i: int| 0 <= i < shown.len() ==> #[trigger] shown[i] == all[i]
            &&& forall|i: int, j: int|
                #![trigger shown[i], all[j]]
                0 <= i < shown.len() && i < j < all.len() ==> !higher(metric, all[j], shown[i]) && (higher(
                    metric,
                    shown[i],
                    all[j],
                ) || !comes_before(all[j].path@, shown[i].path@))
        }),
{
    let data = source_files(files(snapshot.root), tests).map_values(
        |node: FileNode| rank_data(snapshot.links(), arch, evolution, node),
    );
    let all = ranked(metric, data);
    let shown = top(snapshot, arch, evolution, tests, metric, limit);
    ranked_is_in_order(metric, data);
    assert forall|i: int, j: int|
        #![trigger shown[i], all[j]]
        0 <= i < shown.len() && i < j < all.len() implies !higher(metric, all[j], shown[i]) && (higher(
        metric,
        shown[i],
        all[j],
    ) || !comes_before(all[j].path@, shown[i].path@)) by {
        assert(!metric.ahead(all[j], all[i]));
    }
}

/// The ranking does not depend on the order of the scan, as no two files have the same path.
pub proof fn ranking_does_not_depend_on_the_scan(metric: Metric, s: Seq<FileRankData>, t: Seq<FileRankData>)
    requires
        s.to_multiset() == t.to_multiset(),
        forall|i: int, j: int|
            0 <= i < j < s.len() ==> (#[trigger] s[i]).path@ != (#[trigger] s[j]).path@,
    ensures
        ranked(metric, s) == ranked(metric, t),
{
    assert forall|x: FileRankData, y: FileRankData| s.contains(x) && s.contains(y) && #[trigger] tied(
        metric,
        x,
        y,
    ) implies x == y by {
        comes_before_is_total(x.path@, y.path@);
        let i = choose|i: int| 0 <= i < s.len() && s[i] == x;
        let j = choose|j: int| 0 <= j < s.len() && s[j] == y;
        if i < j {
            assert(s[i].path@ != s[j].path@);
        } else if j < i {
            assert(s[j].path@ != s[i].path@);
        }
    }
    ranked_whatever_the_order(metric, s, t);
}

/// A file that never changed is as risky as one that changed once.
pub proof fn no_change_counts_as_one(max_cc: u32, blast_radius: u32, coupling: int)
    ensures
        risk(0, max_cc, blast_radius, coupling) == risk(1, max_cc, blast_radius, coupling),
{
    small_integers_keep_their_order(0, 1);
    small_integers_keep_their_order(1, 1);
}

proof fn lemma_greater_is_positive(a: int, b: int)
    requires
        a >= 0,
        b >= 0,
    ensures
        normal(greater(of_int(a), of_int(b))),
        greater(of_int(a), of_int(b)).mantissa > 0 <==> a > 0 || b > 0,
{
    nearest_is_normal(a, 1, 0);
    nearest_is_normal(b, 1, 0);
}

/// Complex code that something depends on is risky even if it never changed: its risk is zero only
/// where its complexity or its reach is.
pub proof fn risk_is_never_zeroed_by_the_history(churn: u32, max_cc: u32, blast_radius: u32, coupling: int)
    requires
        coupling >= 0,
    ensures
        below(zero(), risk(churn, max_cc, blast_radius, coupling)) <==> max_cc > 0 && (blast_radius > 0
            || coupling > 0),
{
    let changes = greater(of_int(churn as int), of_int(1));
    lemma_greater_is_positive(churn as int, 1);
    lemma_greater_is_positive(blast_radius as int, coupling);
    nearest_is_normal(max_cc as int, 1, 0);
    products_are_zero_with_a_factor_only(changes, of_int(max_cc as int));
    products_are_zero_with_a_factor_only(
        product(changes, of_int(max_cc as int)),
        greater(of_int(blast_radius as int), of_int(coupling)),
    );
}

/// The greater of two integers.
pub open spec fn larger(a: int, b: int) -> int {
    if a < b {
        b
    } else {
        a
    }
}

/// As long as its hundredfold can be counted in 53 bits, the risk is the product of the three
/// integers, and what is shown is its hundredfold.
pub proof fn small_risks_are_exact(churn: u32, max_cc: u32, blast_radius: u32, coupling: int)
    requires
        coupling >= 0,
        100 * (larger(churn as int, 1) * max_cc * larger(blast_radius as int, coupling)) < BEYOND,
    ensures
        risk(churn, max_cc, blast_radius, coupling) == of_int(
            larger(churn as int, 1) * max_cc * larger(blast_radius as int, coupling),
        ),
        rounded(product(risk(churn, max_cc, blast_radius, coupling), of_int(100))) == 100 * (larger(
            churn as int,
            1,
        ) * max_cc * larger(blast_radius as int, coupling)),
{
    let c = larger(churn as int, 1);
    let m = max_cc as int;
    let r = larger(blast_radius as int, coupling);
    let n = c * m * r;
    let changes = greater(of_int(churn as int), of_int(1));
    let reach = greater(of_int(blast_radius as int), of_int(coupling));
    small_integers_keep_their_order(churn as int, 1);
    assert(changes == of_int(c));
    if m == 0 || r == 0 {
        assert(n == 0) by (nonlinear_arith)
            requires
                n == c * m * r,
                m == 0 || r == 0,
        ;
        let first = product(changes, of_int(m));
        lemma_greater_is_positive(churn as int, 1);
        lemma_greater_is_positive(blast_radius as int, coupling);
        nearest_is_normal(m, 1, 0);
        products_are_zero_with_a_factor_only(changes, of_int(m));
        products_are_zero_with_a_factor_only(first, reach);
    } else {
        assert(c * m <= n && r <= n && n >= 1) by (nonlinear_arith)
            requires
                n == c * m * r,
                c >= 1,
                m >= 1,
                r >= 1,
        ;
        small_integers_keep_their_order(blast_radius as int, coupling);
        assert(reach == of_int(r));
        assert(c * m >= 0) by (nonlinear_arith)
            requires
                c >= 1,
                m >= 1,
        ;
        small_products_are_exact(c, m);
        small_products_are_exact(c * m, r);
    }
    assert(n >= 0) by (nonlinear_arith)
        requires
            n == c * m * r,
            c >= 1,
            m >= 0,
            r >= 0,
    ;
    small_products_are_exact(n, 100);
    small_integers_are_exact(n * 100);
}

/// No more files with issues are counted than are shown.
pub proof fn no_more_issues_than_files(health: HealthReport, ranks: Seq<FileRankData>)
    ensures
        0 <= count_unhealthy(health, ranks) <= ranks.len(),
    decreases ranks.len(),
{
    if ranks.len() > 0 {
        no_more_issues_than_files(health, ranks.drop_last());
    }
}

/// Changes and risk of a file are shown just when a history was read.
pub proof fn changes_are_shown_with_a_history(data: FileRankData, place: int, has_history: bool)
    ensures
        entry(entry_json(data, place, has_history), "churn"@) == if has_history {
            Some(Json::Int(data.churn as int))
        } else {
            None
        },
        entry(entry_json(data, place, has_history), "risk_score"@) == if has_history {
            Some(Json::Int(data.risk_points as int))
        } else {
            None
        },
{
    lemma_entry_keys();
}

proof fn lemma_entry_keys()
    ensures
        "rank"@.len() == 4,
        "path"@.len() == 4,
        "fan_in"@.len() == 6,
        "fan_out"@.len() == 7,
        "coupling"@.len() == 8,
        "max_cc"@.len() == 6,
        "max_cognitive"@.len() == 13,
        "instability"@.len() == 11,
        "blast_radius"@.len() == 12,
        "lines"@.len() == 5,
        "churn"@.len() == 5,
        "risk_score"@.len() == 10,
        "rank"@[0] == 'r',
        "path"@[0] == 'p',
        "fan_in"@[0] == 'f',
        "max_cc"@[0] == 'm',
        "lines"@[0] == 'l',
        "churn"@[0] == 'c',
{
    reveal_strlit("rank");
    reveal_strlit("path");
    reveal_strlit("fan_in");
    reveal_strlit("fan_out");
    reveal_strlit("coupling");
    reveal_strlit("max_cc");
    reveal_strlit("max_cognitive");
    reveal_strlit("instability");
    reveal_strlit("blast_radius");
    reveal_strlit("lines");
    reveal_strlit("churn");
    reveal_strlit("risk_score");
}

proof fn lemma_dependency_keys()
    ensures
        "imports"@.len() == 7,
        "imported_by"@.len() == 11,
        "imports"@[0] == 'i',
        "fan_out"@[0] == 'f',
        "imported_by"@[1] == 'm',
        "instability"@[1] == 'n',
{
    reveal_strlit("fan_out");
    reveal_strlit("imports");
    reveal_strlit("imported_by");
    reveal_strlit("instability");
}

/// Of a file that is ranked, both tools show the same fan-in, fan-out and instability.
pub proof fn both_tools_show_the_same_coupling(
    snapshot: Snapshot,
    arch: ArchReport,
    evolution: Option<EvolutionReport>,
    node: FileNode,
    place: int,
)
    requires
        snapshot.fits(),
    ensures
        ({
            let ranked = entry_json(
                rank_data(snapshot.links(), arch, evolution, node),
                place,
                evolution is Some,
            );
            let single = dependencies_json(snapshot.links(), node.path@);
            &&& entry(ranked, "fan_in"@) is Some
            &&& entry(ranked, "fan_in"@) == entry(single, "fan_in"@)
            &&& entry(ranked, "fan_out"@) is Some
            &&& entry(ranked, "fan_out"@) == entry(single, "fan_out"@)
            &&& entry(ranked, "instability"@) is Some
            &&& entry(ranked, "instability"@) == entry(single, "instability"@)
        }),
{
    let fan_in = sources(snapshot.links(), node.path@).len() as int;
    let fan_out = targets(snapshot.links(), node.path@).len() as int;
    degrees_fit(snapshot, node.path@);
    lemma_entry_keys();
    lemma_dependency_keys();
    instability_in_points(fan_in, fan_out);
}

proof fn lemma_greater_of_integers(a: int, b: int)
    requires
        a >= 0,
        b >= 0,
    ensures
        greater(of_int(a), of_int(b)) == of_int(larger(a, b)),
{
    if a <= b {
        integers_keep_their_order(a, b);
    } else {
        integers_keep_their_order(b, a);
    }
}

/// More changes, more complexity or a wider reach make a file no less risky.
pub proof fn more_makes_no_less_risky(
    churn: u32,
    max_cc: u32,
    blast_radius: u32,
    coupling: int,
    more_churn: u32,
    more_cc: u32,
    more_radius: u32,
    more_coupling: int,
)
    requires
        churn <= more_churn,
        max_cc <= more_cc,
        blast_radius <= more_radius,
        0 <= coupling <= more_coupling,
    ensures
        !below(
            risk(more_churn, more_cc, more_radius, more_coupling),
            risk(churn, max_cc, blast_radius, coupling),
        ),
{
    let c = of_int(larger(churn as int, 1));
    let d = of_int(larger(more_churn as int, 1));
    let m = of_int(max_cc as int);
    let n = of_int(more_cc as int);
    let r = of_int(larger(blast_radius as int, coupling));
    let s = of_int(larger(more_radius as int, more_coupling));
    lemma_greater_of_integers(churn as int, 1);
    lemma_greater_of_integers(more_churn as int, 1);
    lemma_greater_of_integers(blast_radius as int, coupling);
    lemma_greater_of_integers(more_radius as int, more_coupling);
    integers_keep_their_order(larger(churn as int, 1), larger(more_churn as int, 1));
    integers_keep_their_order(max_cc as int, more_cc as int);
    integers_keep_their_order(
        larger(blast_radius as int, coupling),
        larger(more_radius as int, more_coupling),
    );
    products_keep_order(c, d, m);
    products_keep_order(m, n, d);
    products_keep_order(n, n, d);
    products_are_zero_with_a_factor_only(c, m);
    products_are_zero_with_a_factor_only(d, m);
    products_are_zero_with_a_factor_only(d, n);
    let p = product(c, m);
    let q = product(d, n);
    assert(product(d, m) == product(m, d)) by {
        products_keep_order(d, d, m);
    }
    assert(!below(q, p));
    products_keep_order(p, q, r);
    products_keep_order(r, s, q);
    products_keep_order(q, q, r);
    products_keep_order(s, s, q);
    products_are_zero_with_a_factor_only(p, r);
    products_are_zero_with_a_factor_only(q, r);
    products_are_zero_with_a_factor_only(q, s);
}

/// Once the history was read, files are ranked with the number of changes that it holds.
pub proof fn rankings_use_the_history_that_was_read(
    report: EvolutionReport,
    tier: Tier,
    before: McpState,
    after: McpState,
    answer: Result<Value, String>,
    links: Seq<(Seq<char>, Seq<char>)>,
    arch: ArchReport,
    node: FileNode,
)
    requires
        ends_evolution(Ok(report), tier, before, after, answer),
    ensures
        after.cached_evolution is Some,
        rank_data(links, arch, after.cached_evolution, node).churn == if report.churn@.contains_key(
            node.path@,
        ) {
            report.churn@[node.path@].commit_count
        } else {
            0
        },
{
}

proof fn lemma_reply_keys()
    ensures
        "metric"@.len() == 6,
        "total_source_files"@.len() == 18,
        "showing"@.len() == 7,
        "files"@.len() == 5,
        "note"@.len() == 4,
        "issues_overlap"@.len() == 14,
{
    reveal_strlit("metric");
    reveal_strlit("total_source_files");
    reveal_strlit("showing");
    reveal_strlit("files");
    reveal_strlit("note");
    reveal_strlit("issues_overlap");
}

proof fn lemma_overlap_keys()
    ensures
        "files_with_health_issues"@.len() == 24,
        "out_of"@.len() == 6,
{
    reveal_strlit("files_with_health_issues");
    reveal_strlit("out_of");
}

proof fn lemma_metric_names()
    ensures
        "coupling"@.len() == 8,
        "fan_in"@.len() == 6,
        "fan_out"@.len() == 7,
        "complexity"@.len() == 10,
        "cognitive"@.len() == 9,
        "instability"@.len() == 11,
        "blast_radius"@.len() == 12,
        "churn"@.len() == 5,
        "risk"@.len() == 4,
{
    reveal_strlit("coupling");
    reveal_strlit("fan_in");
    reveal_strlit("fan_out");
    reveal_strlit("complexity");
    reveal_strlit("cognitive");
    reveal_strlit("instability");
    reveal_strlit("blast_radius");
    reveal_strlit("churn");
    reveal_strlit("risk");
}


/// Whether `a` may stand in front of `b` where their figures are `x` and `y`: by the greater figure,
/// and by path among equal ones.
pub open spec fn stands_in_front(x: int, y: int, a: Seq<char>, b: Seq<char>) -> bool {
    x > y || (x == y && !comes_before(b, a))
}

/// Down the list, the figure that the metric is named after does not grow, and files with the same
/// figure stand in the order of their paths. Instability and risk are compared as doubles; a name
/// that is none of a metric ranks by risk.
pub proof fn figures_do_not_grow_down_the_list(
    snapshot: Snapshot,
    arch: ArchReport,
    evolution: Option<EvolutionReport>,
    tests: Seq<bool>,
    name: Seq<char>,
    limit: int,
    i: int,
    j: int,
)
    requires
        limit >= 0,
        0 <= i < j < top(snapshot, arch, evolution, tests, metric_of(name), limit).len(),
    ensures
        ({
            let shown = top(snapshot, arch, evolution, tests, metric_of(name), limit);
            let a = shown[i];
            let b = shown[j];
            &&& name == "coupling"@ ==> stands_in_front(a.coupling as int, b.coupling as int, a.path@, b.path@)
            &&& name == "fan_in"@ ==> stands_in_front(a.fan_in as int, b.fan_in as int, a.path@, b.path@)
            &&& name == "fan_out"@ ==> stands_in_front(a.fan_out as int, b.fan_out as int, a.path@, b.path@)
            &&& name == "complexity"@ ==> stands_in_front(a.max_cc as int, b.max_cc as int, a.path@, b.path@)
            &&& name == "cognitive"@ ==> stands_in_front(a.max_cog as int, b.max_cog as int, a.path@, b.path@)
            &&& name == "blast_radius"@ ==> stands_in_front(a.blast_radius as int, b.blast_radius as int, a.path@, b.path@)
            &&& name == "churn"@ ==> stands_in_front(a.churn as int, b.churn as int, a.path@, b.path@)
            &&& name == "instability"@ ==> !below(a.instability@, b.instability@) && (below(
                b.instability@,
                a.instability@,
            ) || !comes_before(b.path@, a.path@))
            &&& name != "coupling"@ && name != "fan_in"@ && name != "fan_out"@ && name != "complexity"@ && name
                != "cognitive"@ && name != "instability"@ && name != "blast_radius"@ && name != "churn"@ ==> !below(
                a.risk_score@,
                b.risk_score@,
            ) && (below(b.risk_score@, a.risk_score@) || !comes_before(b.path@, a.path@))
        }),
{
    let metric = metric_of(name);
    let data = source_files(files(snapshot.root), tests).map_values(
        |node: FileNode| rank_data(snapshot.links(), arch, evolution, node),
    );
    let all = ranked(metric, data);
    ranked_is_in_order(metric, data);
    lemma_metric_names();
    assert(!metric.ahead(all[j], all[i]));
}

/// The same holds of the integers that are shown: under the name of the figure, the number of a file
/// is no less than that of any file below it.
pub proof fn shown_figures_do_not_grow_down_the_list(
    snapshot: Snapshot,
    health: HealthReport,
    arch: ArchReport,
    evolution: Option<EvolutionReport>,
    tests: Seq<bool>,
    metric: Seq<char>,
    limit: int,
    i: int,
    j: int,
)
    requires
        limit >= 0,
        0 <= i < j < top(snapshot, arch, evolution, tests, metric_of(metric), limit).len(),
    ensures
        entry(top_files_json(snapshot, health, arch, evolution, tests, metric, limit), "files"@) matches Some(Json::Arr(shown)) && {
            &&& shown.len() == top(snapshot, arch, evolution, tests, metric_of(metric), limit).len()
            &&& metric == "coupling"@ ==> entry(shown[i], "coupling"@) is Some && entry(shown[j], "coupling"@) is Some
                && entry(shown[i], "coupling"@)->0->Int_0 >= entry(shown[j], "coupling"@)->0->Int_0
            &&& metric == "fan_in"@ ==> entry(shown[i], "fan_in"@) is Some && entry(shown[j], "fan_in"@) is Some
                && entry(shown[i], "fan_in"@)->0->Int_0 >= entry(shown[j], "fan_in"@)->0->Int_0
            &&& metric == "fan_out"@ ==> entry(shown[i], "fan_out"@) is Some && entry(shown[j], "fan_out"@) is Some
                && entry(shown[i], "fan_out"@)->0->Int_0 >= entry(shown[j], "fan_out"@)->0->Int_0
            &&& metric == "complexity"@ ==> entry(shown[i], "max_cc"@) is Some && entry(shown[j], "max_cc"@) is Some
                && entry(shown[i], "max_cc"@)->0->Int_0 >= entry(shown[j], "max_cc"@)->0->Int_0
            &&& metric == "cognitive"@ ==> entry(shown[i], "max_cognitive"@) is Some && entry(shown[j], "max_cognitive"@) is Some
                && entry(shown[i], "max_cognitive"@)->0->Int_0 >= entry(shown[j], "max_cognitive"@)->0->Int_0
            &&& metric == "blast_radius"@ ==> entry(shown[i], "blast_radius"@) is Some && entry(shown[j], "blast_radius"@) is Some
                && entry(shown[i], "blast_radius"@)->0->Int_0 >= entry(shown[j], "blast_radius"@)->0->Int_0
            &&& metric == "churn"@ && evolution is Some ==> entry(shown[i], "churn"@) is Some && entry(shown[j], "churn"@) is Some
                && entry(shown[i], "churn"@)->0->Int_0 >= entry(shown[j], "churn"@)->0->Int_0
        },
{
    let shown = top(snapshot, arch, evolution, tests, metric_of(metric), limit);
    lemma_reply_keys();
    figures_are_shown_under_their_names(shown[i], i, evolution is Some);
    figures_are_shown_under_their_names(shown[j], j, evolution is Some);
    figures_do_not_grow_down_the_list(snapshot, arch, evolution, tests, metric, limit, i, j);
}

/// Of a ranked file each figure is shown under its name, and its place, counted from one.
pub proof fn figures_are_shown_under_their_names(data: FileRankData, place: int, has_history: bool)
    ensures
        ({
            let shown = entry_json(data, place, has_history);
            &&& entry(shown, "rank"@) == Some(Json::Int(place + 1))
            &&& entry(shown, "path"@) == Some(Json::Str(data.path@))
            &&& entry(shown, "fan_in"@) == Some(Json::Int(data.fan_in as int))
            &&& entry(shown, "fan_out"@) == Some(Json::Int(data.fan_out as int))
            &&& entry(shown, "coupling"@) == Some(Json::Int(data.coupling as int))
            &&& entry(shown, "max_cc"@) == Some(Json::Int(data.max_cc as int))
            &&& entry(shown, "max_cognitive"@) == Some(Json::Int(data.max_cog as int))
            &&& entry(shown, "instability"@) == Some(Json::Int(data.instability_points as int))
            &&& entry(shown, "blast_radius"@) == Some(Json::Int(data.blast_radius as int))
            &&& entry(shown, "lines"@) == Some(Json::Int(data.lines as int))
            &&& has_history ==> entry(shown, "churn"@) == Some(Json::Int(data.churn as int))
            &&& has_history ==> entry(shown, "risk_score"@) == Some(Json::Int(data.risk_points as int))
        }),
{
    lemma_entry_keys();
}

/// The reply names the metric that was asked for, counts the ranked files and those shown, lists
/// them with their places, and counts those that the health report points out.
pub proof fn the_reply_lists_the_ranking(
    snapshot: Snapshot,
    health: HealthReport,
    arch: ArchReport,
    evolution: Option<EvolutionReport>,
    tests: Seq<bool>,
    metric: Seq<char>,
    limit: int,
    i: int,
)
    ensures
        ({
            let reply = top_files_json(snapshot, health, arch, evolution, tests, metric, limit);
            let shown = top(snapshot, arch, evolution, tests, metric_of(metric), limit);
            &&& entry(reply, "metric"@) == Some(Json::Str(metric))
            &&& entry(reply, "total_source_files"@) == Some(
                Json::Int(source_files(files(snapshot.root), tests).len() as int),
            )
            &&& entry(reply, "showing"@) == Some(Json::Int(shown.len() as int))
            &&& entry(reply, "files"@) matches Some(Json::Arr(list)) && {
                &&& list.len() == shown.len()
                &&& 0 <= i < shown.len() ==> list[i] == entry_json(shown[i], i, evolution is Some)
            }
            &&& entry(reply, "issues_overlap"@) matches Some(overlap) && {
                &&& entry(overlap, "out_of"@) == Some(Json::Int(shown.len() as int))
                &&& entry(overlap, "files_with_health_issues"@) == Some(
                    Json::Int(
                        shown.filter(|data: FileRankData| is_unhealthy(health, data.path@)).len() as int,
                    ),
                )
            }
        }),
{
    lemma_reply_keys();
    lemma_overlap_keys();
    lemma_count_unhealthy(health, top(snapshot, arch, evolution, tests, metric_of(metric), limit));
}

proof fn lemma_count_unhealthy(health: HealthReport, ranks: Seq<FileRankData>)
    ensures
        count_unhealthy(health, ranks) == ranks.filter(
            |data: FileRankData| is_unhealthy(health, data.path@),
        ).len(),
    decreases ranks.len(),
{
    reveal(Seq::filter);
    if ranks.len() > 0 {
        lemma_count_unhealthy(health, ranks.drop_last());
    }
}

/// A file is pointed out just when it is listed as a god file or a hotspot, or is in a cycle.
pub proof fn unhealthy_files_are_those_listed(health: HealthReport, path: Seq<char>)
    ensures
        is_unhealthy(health, path) <==> {
            ||| exists|i: int| 0 <= i < health.god_files@.len() && (#[trigger] health.god_files@[i]).path@ == path
            ||| exists|i: int|
                0 <= i < health.hotspot_files@.len() && (#[trigger] health.hotspot_files@[i]).path@ == path
            ||| exists|i: int, j: int|
                0 <= i < health.circular_dep_files@.len() && 0 <= j < health.circular_dep_files@[i]@.len()
                    && (#[trigger] health.circular_dep_files@[i]@[j])@ == path
        },
{
    issues_are_those_the_report_lists(health, path);
}

/// A remark is made just where no history was read and the metric is risk or churn, which need one.
pub proof fn a_missing_history_is_remarked_on(
    snapshot: Snapshot,
    health: HealthReport,
    arch: ArchReport,
    evolution: Option<EvolutionReport>,
    tests: Seq<bool>,
    metric: Seq<char>,
    limit: int,
)
    ensures
        ({
            let note = entry(top_files_json(snapshot, health, arch, evolution, tests, metric, limit), "note"@);
            &&& note is Some <==> evolution is None && (metric == "risk"@ || metric == "churn"@)
            &&& evolution is None && metric == "risk"@ ==> note == Some(
                Json::Str(
                    "Risk scores use churn=1 (default). Run git_stats first for accurate churn-weighted risk."@,
                ),
            )
            &&& evolution is None && metric == "churn"@ ==> note == Some(
                Json::Str("No git history loaded. Run git_stats first to get churn data."@),
            )
        }),
{
    lemma_reply_keys();
    lemma_metric_names();
}

/// Each figure that a file is ranked by is that of the file: its neighbours in both directions, what
/// the maps hold for its path, and the greatest complexities of its functions, one and none where
/// nothing was measured.
pub proof fn files_are_ranked_by_their_own_figures(
    snapshot: Snapshot,
    arch: ArchReport,
    evolution: Option<EvolutionReport>,
    node: FileNode,
)
    requires
        snapshot.fits(),
    ensures
        ({
            let data = rank_data(snapshot.links(), arch, evolution, node);
            let path = node.path@;
            &&& data.path@ == path
            &&& data.lines == node.lines
            &&& data.fan_in == sources(snapshot.links(), path).len()
            &&& data.fan_out == targets(snapshot.links(), path).len()
            &&& data.coupling == data.fan_in + data.fan_out
            &&& data.instability_points == points(instability(data.fan_in as int, data.fan_out as int))
            &&& data.blast_radius == if arch.blast_radius@.contains_key(path) {
                arch.blast_radius@[path]
            } else {
                0
            }
            &&& data.churn == if evolution is Some && evolution->0.churn@.contains_key(path) {
                evolution->0.churn@[path].commit_count
            } else {
                0
            }
            &&& node.sa is None || node.sa->0.functions is None ==> data.max_cc == 1 && data.max_cog == 0
            &&& node.sa is Some && node.sa->0.functions is Some ==> {
                let funcs = node.sa->0.functions->0@;
                &&& forall|i: int|
                    0 <= i < funcs.len() && (#[trigger] funcs[i]).cc is Some ==> funcs[i].cc->0 <= data.max_cc
                &&& forall|i: int|
                    0 <= i < funcs.len() && (#[trigger] funcs[i]).cog is Some ==> funcs[i].cog->0 <= data.max_cog
                &&& (exists|i: int| 0 <= i < funcs.len() && (#[trigger] funcs[i]).cc is Some) ==> exists|i: int|
                    0 <= i < funcs.len() && (#[trigger] funcs[i]).cc == Some(data.max_cc)
                &&& (exists|i: int| 0 <= i < funcs.len() && (#[trigger] funcs[i]).cog is Some) ==> exists|i: int|
                    0 <= i < funcs.len() && (#[trigger] funcs[i]).cog == Some(data.max_cog)
                &&& (forall|i: int| 0 <= i < funcs.len() ==> (#[trigger] funcs[i]).cc is None) ==> data.max_cc
                    == 1
                &&& (forall|i: int| 0 <= i < funcs.len() ==> (#[trigger] funcs[i]).cog is None) ==> data.max_cog
                    == 0
            }
        }),
{
    let path = node.path@;
    degrees_fit(snapshot, path);
    instability_in_points(
        sources(snapshot.links(), path).len() as int,
        targets(snapshot.links(), path).len() as int,
    );
    if node.sa is Some && node.sa->0.functions is Some {
        let funcs = node.sa->0.functions->0@;
        lemma_greatest_of(funcs, ccs(funcs), cogs(funcs));
    }
}

proof fn lemma_greatest_of(funcs: Seq<FuncInfo>, cc: Seq<Option<u32>>, cog: Seq<Option<u32>>)
    requires
        cc == ccs(funcs),
        cog == cogs(funcs),
    ensures
        forall|i: int|
            0 <= i < funcs.len() && (#[trigger] funcs[i]).cc is Some ==> greatest(cc) is Some && funcs[i].cc->0
                <= greatest(cc)->0,
        forall|i: int|
            0 <= i < funcs.len() && (#[trigger] funcs[i]).cog is Some ==> greatest(cog) is Some && funcs[i].cog->0
                <= greatest(cog)->0,
        greatest(cc) is Some ==> exists|i: int| 0 <= i < funcs.len() && (#[trigger] funcs[i]).cc == greatest(cc),
        greatest(cog) is Some ==> exists|i: int|
            0 <= i < funcs.len() && (#[trigger] funcs[i]).cog == greatest(cog),
{
    greatest_is_the_greatest(cc);
    greatest_is_the_greatest(cog);
    assert(forall|i: int| 0 <= i < funcs.len() ==> (#[trigger] funcs[i]).cc == cc[i]);
    assert(forall|i: int| 0 <= i < funcs.len() ==> (#[trigger] funcs[i]).cog == cog[i]);
    if greatest(cc) is Some {
        let i = choose|i: int| 0 <= i < cc.len() && cc[i] == greatest(cc);
        assert(funcs[i].cc == greatest(cc));
    }
    if greatest(cog) is Some {
        let i = choose|i: int| 0 <= i < cog.len() && cog[i] == greatest(cog);
        assert(funcs[i].cog == greatest(cog));
    }
}

/// The risk that a file is ranked by is that of its own figures, and its hundredfold is shown, or the
/// greatest `u64` where that is greater.
pub proof fn files_are_ranked_by_their_own_risk(
    snapshot: Snapshot,
    arch: ArchReport,
    evolution: Option<EvolutionReport>,
    node: FileNode,
)
    requires
        snapshot.fits(),
    ensures
        ({
            let data = rank_data(snapshot.links(), arch, evolution, node);
            let exact = larger(data.churn as int, 1) * data.max_cc * larger(
                data.blast_radius as int,
                data.fan_in + data.fan_out,
            );
            100 * exact < BEYOND ==> data.risk_points == 100 * exact
        }),
{
    let path = node.path@;
    let data = rank_data(snapshot.links(), arch, evolution, node);
    let coupling = (sources(snapshot.links(), path).len() + targets(snapshot.links(), path).len()) as int;
    degrees_fit(snapshot, path);
    let exact = larger(data.churn as int, 1) * data.max_cc * larger(data.blast_radius as int, coupling);
    if 100 * exact < BEYOND {
        small_risks_are_exact(data.churn, data.max_cc, data.blast_radius, coupling);
        assert(exact >= 0) by (nonlinear_arith)
            requires
                exact == larger(data.churn as int, 1) * data.max_cc * larger(data.blast_radius as int, coupling),
                larger(data.churn as int, 1) >= 0,
                larger(data.blast_radius as int, coupling) >= 0,
        ;
    }
}

/// The files that are ranked are those with a language that is known and that are no tests, in the
/// order of the scan.
pub proof fn source_files_are_known_and_no_tests(nodes: Seq<FileNode>, node: FileNode, tests: Seq<bool>)
    ensures
        source_files(Seq::empty(), tests).len() == 0,
        source_files(nodes.push(node), tests) == if node.lang@.len() > 0 && node.lang@ != "unknown"@
            && !tests[nodes.len() as int] {
            source_files(nodes, tests).push(node)
        } else {
            source_files(nodes, tests)
        },
{
    assert(nodes.push(node).drop_last() =~= nodes);
}

proof fn lemma_source_files(nodes: Seq<FileNode>, tests: Seq<bool>, x: FileNode)
    ensures
        source_files(nodes, tests).contains(x) <==> exists|k: int|
            {
                &&& 0 <= k < nodes.len()
                &&& #[trigger] nodes[k] == x
                &&& x.lang@.len() > 0
                &&& x.lang@ != "unknown"@
                &&& !tests[k]
            },
    decreases nodes.len(),
{
    if nodes.len() > 0 {
        let shorter = nodes.drop_last();
        let n = nodes.len() - 1;
        let before = source_files(shorter, tests);
        let after = source_files(nodes, tests);
        lemma_source_files(shorter, tests, x);
        assert(nodes[n] == nodes.last());
        assert(forall|k: int| 0 <= k < n ==> #[trigger] nodes[k] == shorter[k]);
        if before.contains(x) {
            let j = choose|j: int| 0 <= j < before.len() && before[j] == x;
            assert(after[j] == x);
            let k = choose|k: int|
                {
                    &&& 0 <= k < shorter.len()
                    &&& #[trigger] shorter[k] == x
                    &&& x.lang@.len() > 0
                    &&& x.lang@ != "unknown"@
                    &&& !tests[k]
                };
            assert(nodes[k] == x);
        }
        if after.contains(x) {
            let j = choose|j: int| 0 <= j < after.len() && after[j] == x;
            if j < before.len() {
                assert(before[j] == x);
            }
        }
        if is_source(nodes.last(), tests[n]) && nodes.last() == x {
            assert(after[after.len() - 1] == x);
        }
        if exists|k: int|
            {
                &&& 0 <= k < nodes.len()
                &&& #[trigger] nodes[k] == x
                &&& x.lang@.len() > 0
                &&& x.lang@ != "unknown"@
                &&& !tests[k]
            } {
            let k = choose|k: int|
                {
                    &&& 0 <= k < nodes.len()
                    &&& #[trigger] nodes[k] == x
                    &&& x.lang@.len() > 0
                    &&& x.lang@ != "unknown"@
                    &&& !tests[k]
                };
            if k < n {
                assert(shorter[k] == x);
            }
        }
    }
}

/// Each file that is shown is a scanned file with a language that is known and no test: its place in
/// the scan.
pub proof fn only_source_files_are_shown(
    snapshot: Snapshot,
    arch: ArchReport,
    evolution: Option<EvolutionReport>,
    tests: Seq<bool>,
    metric: Metric,
    limit: int,
    i: int,
) -> (k: int)
    requires
        limit >= 0,
        0 <= i < top(snapshot, arch, evolution, tests, metric, limit).len(),
    ensures
        0 <= k < files(snapshot.root).len(),
        files(snapshot.root)[k].lang@.len() > 0,
        files(snapshot.root)[k].lang@ != "unknown"@,
        !tests[k],
        top(snapshot, arch, evolution, tests, metric, limit)[i] == rank_data(
            snapshot.links(),
            arch,
            evolution,
            files(snapshot.root)[k],
        ),
{
    broadcast use vstd::seq_lib::group_to_multiset_ensures;

    let nodes = files(snapshot.root);
    let chosen = source_files(nodes, tests);
    let data = chosen.map_values(|node: FileNode| rank_data(snapshot.links(), arch, evolution, node));
    let all = ranked(metric, data);
    let shown = top(snapshot, arch, evolution, tests, metric, limit);
    assert(shown[i] == all[i]);
    ranked_is_a_permutation(metric, data);
    assert(all.contains(all[i]));
    assert(all.to_multiset().count(all[i]) > 0);
    assert(data.contains(all[i]));
    let j = choose|j: int| 0 <= j < data.len() && data[j] == all[i];
    assert(chosen.contains(chosen[j]));
    lemma_source_files(nodes, tests, chosen[j]);
    choose|k: int|
        {
            &&& 0 <= k < nodes.len()
            &&& #[trigger] nodes[k] == chosen[j]
            &&& chosen[j].lang@.len() > 0
            &&& chosen[j].lang@ != "unknown"@
            &&& !tests[k]
        }
}

/// Every scanned file with a known language that is no test is shown, where there are no more of
/// them than the limit.
pub proof fn all_source_files_are_shown_within_the_limit(
    snapshot: Snapshot,
    arch: ArchReport,
    evolution: Option<EvolutionReport>,
    tests: Seq<bool>,
    metric: Metric,
    limit: int,
    k: int,
)
    requires
        source_files(files(snapshot.root), tests).len() <= limit,
        0 <= k < files(snapshot.root).len(),
        files(snapshot.root)[k].lang@.len() > 0,
        files(snapshot.root)[k].lang@ != "unknown"@,
        !tests[k],
    ensures
        top(snapshot, arch, evolution, tests, metric, limit).contains(
            rank_data(snapshot.links(), arch, evolution, files(snapshot.root)[k]),
        ),
{
    broadcast use vstd::seq_lib::group_to_multiset_ensures;

    let nodes = files(snapshot.root);
    let chosen = source_files(nodes, tests);
    let rank = |node: FileNode| rank_data(snapshot.links(), arch, evolution, node);
    let data = chosen.map_values(rank);
    let all = ranked(metric, data);
    lemma_source_files(nodes, tests, nodes[k]);
    assert(chosen.contains(nodes[k]));
    let j = choose|j: int| 0 <= j < chosen.len() && chosen[j] == nodes[k];
    assert(data[j] == rank(nodes[k]));
    assert(data.contains(rank(nodes[k])));
    ranked_is_a_permutation(metric, data);
    assert(all.to_multiset().count(rank(nodes[k])) > 0);
    assert(all.contains(rank(nodes[k])));
}

/// The metric of a request is the text that it holds under `metric`, and risk without one; the limit
/// is the number that it holds under `limit`, fifty where that is greater, and ten without one.
pub proof fn metric_and_limit_are_those_of_the_request(args: Json)
    ensures
        (args is Obj && args->Obj_0.contains_key("metric"@) && args->Obj_0["metric"@] is Str)
            ==> requested_metric(args) == args->Obj_0["metric"@]->Str_0,
        !(args is Obj && args->Obj_0.contains_key("metric"@) && args->Obj_0["metric"@] is Str)
            ==> requested_metric(args) == "risk"@,
        (args is Obj && args->Obj_0.contains_key("limit"@) && args->Obj_0["limit"@] is Int
            && args->Obj_0["limit"@]->Int_0 >= 0) ==> {
            let n = args->Obj_0["limit"@]->Int_0;
            &&& n <= 50 ==> requested_limit(args) == n
            &&& n > 50 ==> requested_limit(args) == 50
        },
        !(args is Obj && args->Obj_0.contains_key("limit"@) && args->Obj_0["limit"@] is Int
            && args->Obj_0["limit"@]->Int_0 >= 0) ==> requested_limit(args) == 10,
{
}

/// Different names of metrics mean different metrics.
pub proof fn metric_names_are_told_apart(a: Seq<char>, b: Seq<char>)
    requires
        metric_of(a) == metric_of(b),
        metric_of(a) != Metric::Risk,
    ensures
        a == b,
{
    lemma_metric_names();
}

/// Of each file in turn it was asked whether its path is that of a test.
pub proof fn each_file_is_asked_about_by_its_path<T: Fn(&str) -> bool>(
    is_test_file: T,
    nodes: Seq<FileNode>,
    tests: Seq<bool>,
    i: int,
)
    requires
        told(is_test_file, nodes, tests),
        0 <= i < nodes.len(),
    ensures
        tests.len() == nodes.len(),
        exists|asked: &str| asked@ == nodes[i].path@ && #[trigger] is_test_file.ensures((asked,), tests[i]),
{
    assert(told_one(is_test_file, nodes[i].path@, tests[i]));
}

/// The doubles that files are ranked by are the instability and the risk of the figures that are
/// shown.
pub proof fn files_are_compared_by_the_figures_shown(
    snapshot: Snapshot,
    arch: ArchReport,
    evolution: Option<EvolutionReport>,
    node: FileNode,
)
    requires
        snapshot.fits(),
    ensures
        ({
            let data = rank_data(snapshot.links(), arch, evolution, node);
            &&& data.instability@ == instability(data.fan_in as int, data.fan_out as int)
            &&& data.risk_score@ == risk(
                data.churn,
                data.max_cc,
                data.blast_radius,
                data.fan_in + data.fan_out,
            )
        }),
{
    let path = node.path@;
    let data = rank_data(snapshot.links(), arch, evolution, node);
    let fan_in = sources(snapshot.links(), path).len() as int;
    let fan_out = targets(snapshot.links(), path).len() as int;
    degrees_fit(snapshot, path);
    let c = of_int(larger(data.churn as int, 1));
    let m = of_int(data.max_cc as int);
    let r = of_int(larger(data.blast_radius as int, fan_in + fan_out));
    nearest_is_normal(larger(data.churn as int, 1), 1, 0);
    nearest_is_normal(data.max_cc as int, 1, 0);
    nearest_is_normal(larger(data.blast_radius as int, fan_in + fan_out), 1, 0);
    lemma_greater_of_integers(data.churn as int, 1);
    lemma_greater_of_integers(data.blast_radius as int, fan_in + fan_out);
    exponents_of_results(larger(data.churn as int, 1), c, m);
    exponents_of_results(data.max_cc as int, c, m);
    products_are_zero_with_a_factor_only(c, m);
    exponents_of_results(larger(data.blast_radius as int, fan_in + fan_out), product(c, m), r);
    products_are_zero_with_a_factor_only(product(c, m), r);
    let total = fan_in + fan_out;
    if total > 0 {
        nearest_is_normal(fan_out, 1, 0);
        nearest_is_normal(total, 1, 0);
        exponents_of_results(fan_out, of_int(fan_out), of_int(total));
        exponents_of_results(total, of_int(fan_out), of_int(total));
        nearest_is_normal(
            of_int(fan_out).mantissa,
            of_int(total).mantissa,
            of_int(fan_out).exponent - of_int(total).exponent,
        );
    }
}

/// The reply is for the metric that was asked for, lists no more files than were asked for, and each
/// with its place.
pub proof fn the_ranking_asked_for_is_shown<T: Fn(&str) -> bool>(
    args: Json,
    snapshot: Snapshot,
    health: HealthReport,
    arch: ArchReport,
    evolution: Option<EvolutionReport>,
    is_test_file: T,
    reply: Json,
    i: int,
) -> (tests: Seq<bool>)
    requires
        answers_top_files(args, snapshot, health, arch, evolution, is_test_file, reply),
    ensures
        tests.len() == files(snapshot.root).len(),
        entry(reply, "metric"@) == Some(Json::Str(requested_metric(args))),
        entry(reply, "total_source_files"@) == Some(
            Json::Int(source_files(files(snapshot.root), tests).len() as int),
        ),
        entry(reply, "files"@) matches Some(Json::Arr(list)) && {
            &&& list.len() == at_most(
                source_files(files(snapshot.root), tests).len() as int,
                requested_limit(args),
            )
            &&& 0 <= i < list.len() ==> entry(list[i], "rank"@) == Some(Json::Int(i + 1))
            &&& 0 <= i < list.len() ==> (entry(list[i], "churn"@) is Some <==> evolution is Some)
        },
{
    let metric = requested_metric(args);
    let limit = requested_limit(args);
    let tests = choose|tests: Seq<bool>|
        {
            &&& #[trigger] told(is_test_file, files(snapshot.root), tests)
            &&& reply == top_files_json(snapshot, health, arch, evolution, tests, metric, limit)
        };
    let shown = top(snapshot, arch, evolution, tests, metric_of(metric), limit);
    metric_and_limit_are_those_of_the_request(args);
    no_more_than_fifty_are_asked_for(args);
    as_many_are_shown_as_the_limit_allows(snapshot, arch, evolution, tests, metric_of(metric), limit);
    the_reply_lists_the_ranking(snapshot, health, arch, evolution, tests, metric, limit, i);
    if 0 <= i < shown.len() {
        figures_are_shown_under_their_names(shown[i], i, evolution is Some);
        changes_are_shown_with_a_history(shown[i], i, evolution is Some);
    }
    tests
}

} // verus!
