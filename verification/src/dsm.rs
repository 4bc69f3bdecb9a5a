//! The `dsm` tool: the design structure matrix of the scanned code.

use crate::double::{below, half_even, lemma_half_even_range, nearest, nearest_after_shift, of_bits, of_int, quotient, shift_of_fraction, small_quotients_are_rounded_once, zero, Double, BEYOND, LEAST};
use crate::json::{entry, first, from_str, from_strings, from_u64, from_vec, get_text, json_of, object, put, strings, text_entry, views, Json};
use crate::measures::{points_of, to_points};
use crate::reports::{Cluster, Dsm, DsmStats, McpState, Tier};
use crate::snapshot::ImportEdge;
use serde_json::Value;
use vstd::arithmetic::power2::{lemma2_to64, lemma2_to64_rest, lemma_pow2_strictly_increases, lemma_pow2_unfold, pow2};
use vstd::prelude::*;

verus! {

/// The bits of the double nearest to a fifth.
pub const FIFTH: u64 = 0x3FC9_9999_9999_999A;

/// How many files a printed matrix has at most.
pub const MATRIX_FILES: usize = 30;

/// Whether more than a fifth of `edges` dependencies, `above` of them, point to a higher level.
pub open spec fn many_above(above: usize, edges: usize) -> bool {
    below(
        of_bits(FIFTH),
        quotient(of_int(above as int), of_int(if edges == 0 { 1 } else { edges as int })),
    )
}

/// What the figures say of the layering.
pub open spec fn interpretation(stats: DsmStats) -> Seq<char> {
    if stats.above_diagonal == 0 {
        "Clean layering: all dependencies flow downward"@
    } else if many_above(stats.above_diagonal, stats.edge_count) {
        "Significant architectural inversions detected"@
    } else {
        "Mostly clean layering with minor inversions"@
    }
}

/// What the figures say of the layering.
pub fn interpret(stats: &DsmStats) -> (text: &'static str)
    ensures
        text@ == interpretation(*stats),
{
    if stats.above_diagonal == 0 {
        return "Clean layering: all dependencies flow downward";
    }
    let edges: usize = if stats.edge_count == 0 { 1 } else { stats.edge_count };
    let share: Double = Double::of_u64(stats.above_diagonal as u64).over(Double::of_u64(edges as u64));
    if Double::of_bits(FIFTH).is_below(share) {
        "Significant architectural inversions detected"
    } else {
        "Mostly clean layering with minor inversions"
    }
}

/// A cluster as a JSON object; its files are named in the pro tier only.
pub open spec fn cluster_json(cluster: Cluster, tier: Tier) -> Json {
    if tier is Pro {
        Json::Obj(
            map![
                "level"@ => Json::Int(cluster.level as int),
                "files"@ => Json::Int(cluster.files@.len() as int),
                "internal_edges"@ => Json::Int(cluster.internal_edges as int),
                "file_list"@ => strings(views(first(cluster.files@, 10))),
            ],
        )
    } else {
        Json::Obj(
            map![
                "level"@ => Json::Int(cluster.level as int),
                "files_count"@ => Json::Int(cluster.files@.len() as int),
                "internal_edges"@ => Json::Int(cluster.internal_edges as int),
            ],
        )
    }
}

/// A cluster as a JSON object.
fn cluster_value(cluster: &Cluster, tier: &Tier) -> (value: Value)
    ensures
        json_of(value) == cluster_json(*cluster, *tier),
{
    let mut value: Value = object();
    put(&mut value, "level", from_u64(cluster.level as u64));
    if tier.is_pro() {
        put(&mut value, "files", from_u64(cluster.files.len() as u64));
        put(&mut value, "internal_edges", from_u64(cluster.internal_edges as u64));
        put(&mut value, "file_list", from_strings(&cluster.files, 10));
    } else {
        put(&mut value, "files_count", from_u64(cluster.files.len() as u64));
        put(&mut value, "internal_edges", from_u64(cluster.internal_edges as u64));
    }
    value
}

/// The first clusters as JSON objects, five of them at most.
pub open spec fn clusters_json(clusters: Seq<Cluster>, tier: Tier) -> Json {
    Json::Arr(first(clusters, 5).map_values(|cluster: Cluster| cluster_json(cluster, tier)))
}

/// The first clusters as JSON objects, five of them at most.
fn clusters_value(clusters: &Vec<Cluster>, tier: &Tier) -> (value: Value)
    ensures
        json_of(value) == clusters_json(clusters@, *tier),
{
    let count: usize = if clusters.len() < 5 { clusters.len() } else { 5 };
    let mut items: Vec<Value> = Vec::new();
    for i in 0..count
        invariant
            items.len() == i,
            count <= clusters.len(),
            forall|j: int| 0 <= j < i ==> json_of(#[trigger] items@[j]) == cluster_json(clusters@[j], *tier),
    {
        items.push(cluster_value(&clusters[i], tier));
    }
    assert(items@.map_values(|v: Value| json_of(v)) =~= first(clusters@, 5).map_values(
        |cluster: Cluster| cluster_json(cluster, *tier),
    ));
    from_vec(items)
}

/// The matrix in figures, with the matrix itself where `matrix` holds it in print.
pub open spec fn dsm_json(stats: DsmStats, level_breaks: int, matrix: Option<Seq<char>>, tier: Tier) -> Json {
    let entries = map![
        "size"@ => Json::Int(stats.size as int),
        "edge_count"@ => Json::Int(stats.edge_count as int),
        "density"@ => Json::Int(points_of(stats.density)),
        "above_diagonal"@ => Json::Int(stats.above_diagonal as int),
        "below_diagonal"@ => Json::Int(stats.below_diagonal as int),
        "same_level"@ => Json::Int(stats.same_level as int),
        "propagation_cost"@ => Json::Int(points_of(stats.propagation_cost)),
        "level_breaks"@ => Json::Int(level_breaks),
        "interpretation"@ => Json::Str(interpretation(stats)),
    ];
    let entries = match matrix {
        Some(text) => entries.insert("matrix"@, Json::Str(text)),
        None => entries,
    };
    Json::Obj(entries.insert("clusters"@, clusters_json(stats.clusters@, tier)))
}

/// What `text` holds, where it is there.
pub open spec fn optional_view(text: Option<String>) -> Option<Seq<char>> {
    match text {
        Some(t) => Some(t@),
        None => None,
    }
}

/// The matrix in figures, with the matrix itself where `matrix` holds it in print.
pub fn dsm_reply(stats: &DsmStats, level_breaks: usize, matrix: &Option<String>, tier: &Tier) -> (value: Value)
    ensures
        json_of(value) == dsm_json(*stats, level_breaks as int, optional_view(*matrix), *tier),
{
    let mut value: Value = object();
    put(&mut value, "size", from_u64(stats.size as u64));
    put(&mut value, "edge_count", from_u64(stats.edge_count as u64));
    put(&mut value, "density", from_u64(to_points(stats.density) as u64));
    put(&mut value, "above_diagonal", from_u64(stats.above_diagonal as u64));
    put(&mut value, "below_diagonal", from_u64(stats.below_diagonal as u64));
    put(&mut value, "same_level", from_u64(stats.same_level as u64));
    put(&mut value, "propagation_cost", from_u64(to_points(stats.propagation_cost) as u64));
    put(&mut value, "level_breaks", from_u64(level_breaks as u64));
    put(&mut value, "interpretation", from_str(interpret(stats)));
    if let Some(text) = matrix {
        put(&mut value, "matrix", from_str(text.as_str()));
    }
    put(&mut value, "clusters", clusters_value(&stats.clusters, tier));
    value
}

/// Whether a request is answered with the matrix in print: it asks for it, and the tier is pro.
pub open spec fn wants_matrix(args: Json, tier: Tier) -> bool {
    tier is Pro && text_entry(args, "format"@) == Some("text"@)
}

/// Whether a request is answered with the matrix in print.
pub fn asks_for_matrix(args: &Value, tier: &Tier) -> (r: bool)
    ensures
        r == wants_matrix(json_of(*args), *tier),
{
    if !tier.is_pro() {
        return false;
    }
    match get_text(args, "format") {
        Some(format) => crate::text::same(format, "text"),
        None => false,
    }
}

/// Whether `reply` answers a request with the matrix that `build_dsm` made of the imports, the
/// figures that `compute_stats` took of it and, where it is wanted, what `render_text` printed.
pub open spec fn answers_dsm<
    M,
    B: FnOnce(&Vec<ImportEdge>) -> Dsm<M>,
    C: FnOnce(&Dsm<M>) -> DsmStats,
    R: FnOnce(&Dsm<M>, usize) -> String,
>(
    args: Json,
    tier: Tier,
    imports: Vec<ImportEdge>,
    build_dsm: B,
    compute_stats: C,
    render_text: R,
    reply: Json,
) -> bool {
    exists|dsm: Dsm<M>, stats: DsmStats, matrix: Option<String>|
        {
            &&& build_dsm.ensures((&imports,), dsm)
            &&& compute_stats.ensures((&dsm,), stats)
            &&& match matrix {
                Some(text) => wants_matrix(args, tier) && render_text.ensures((&dsm, MATRIX_FILES), text),
                None => !wants_matrix(args, tier),
            }
            &&& reply == #[trigger] dsm_json(
                stats,
                dsm.level_breaks@.len() as int,
                optional_view(matrix),
                tier,
            )
        }
}

/// Answers a request for the design structure matrix.
///
/// `build_dsm` makes the matrix of the imports, `compute_stats` takes its figures, and
/// `render_text` prints it with no more than the given number of files.
pub fn handle_dsm<
    M,
    B: FnOnce(&Vec<ImportEdge>) -> Dsm<M>,
    C: FnOnce(&Dsm<M>) -> DsmStats,
    R: FnOnce(&Dsm<M>, usize) -> String,
>(
    args: &Value,
    tier: &Tier,
    state: &McpState,
    build_dsm: B,
    compute_stats: C,
    render_text: R,
) -> (reply: Result<Value, String>)
    requires
        forall|imports: &Vec<ImportEdge>| build_dsm.requires((imports,)),
        forall|dsm: &Dsm<M>| compute_stats.requires((dsm,)),
        forall|dsm: &Dsm<M>, files: usize| render_text.requires((dsm, files)),
    ensures
        match state.cached_snapshot {
            None => reply is Err && reply->Err_0@ == "No scan data. Call 'scan' first."@,
            Some(snapshot) => exists|dsm: Dsm<M>, stats: DsmStats, matrix: Option<String>|
                {
                    &&& build_dsm.ensures((&snapshot.import_graph,), dsm)
                    &&& compute_stats.ensures((&dsm,), stats)
                    &&& match matrix {
                        Some(text) => wants_matrix(json_of(*args), *tier) && render_text.ensures(
                            (&dsm, MATRIX_FILES),
                            text,
                        ),
                        None => !wants_matrix(json_of(*args), *tier),
                    }
                    &&& reply is Ok
                    &&& json_of(reply->Ok_0) == #[trigger] dsm_json(
                        stats,
                        dsm.level_breaks@.len() as int,
                        optional_view(matrix),
                        *tier,
                    )
                },
        },
        state.cached_snapshot matches Some(snapshot) ==> reply is Ok && answers_dsm(
            json_of(*args),
            *tier,
            snapshot.import_graph,
            build_dsm,
            compute_stats,
            render_text,
            json_of(reply->Ok_0),
        ),
{
    match &state.cached_snapshot {
        Some(snapshot) => {
            let dsm: Dsm<M> = build_dsm(&snapshot.import_graph);
            let stats: DsmStats = compute_stats(&dsm);
            let matrix: Option<String> = if asks_for_matrix(args, tier) {
                Some(render_text(&dsm, MATRIX_FILES))
            } else {
                None
            };
            Ok(dsm_reply(&stats, dsm.level_breaks.len(), &matrix, tier))
        },
        None => Err("No scan data. Call 'scan' first.".to_owned()),
    }
}

/// The mantissa of the double nearest to a fifth.
spec fn fifth() -> int {
    0x19_9999_9999_999A
}

proof fn lemma_fifth()
    ensures
        of_bits(FIFTH).mantissa == fifth(),
        of_bits(FIFTH).exponent == -55,
        5 * fifth() == 0x80_0000_0000_0000 + 2,
{
    assert(FIFTH / LEAST == 1020);
    assert(FIFTH % LEAST == 0x9_9999_9999_999A);
}

/// Rounding `n / b` gives more than `m`, an even number, just when it is above `m + 1/2`.
proof fn lemma_rounds_above(n: int, b: int, m: int)
    requires
        n >= 0,
        b > 0,
        m % 2 == 0,
    ensures
        (half_even(n, b) > m) == (2 * n > (2 * m + 1) * b),
{
    let q = n / b;
    let r = n % b;
    assert(n == b * q + r && 0 <= r < b) by (nonlinear_arith)
        requires
            b > 0,
            q == n / b,
            r == n % b,
    ;
    if q > m {
        assert(2 * n > (2 * m + 1) * b) by (nonlinear_arith)
            requires
                n == b * q + r,
                0 <= r,
                q >= m + 1,
                b > 0,
        ;
    } else if q < m {
        assert(2 * n <= (2 * m + 1) * b) by (nonlinear_arith)
            requires
                n == b * q + r,
                r < b,
                q + 1 <= m,
                b > 0,
        ;
    } else {
        assert(2 * n - (2 * m + 1) * b == 2 * r - b) by (nonlinear_arith)
            requires
                n == b * q + r,
                q == m,
        ;
    }
}

/// The share of inversions is found to be more than a fifth just when it is, as long as there are
/// not so many dependencies that a share just above a fifth has the same double as a fifth.
pub proof fn inversions_are_many_above_a_fifth(above: usize, edges: usize)
    requires
        edges > 0,
        9 * edges < 0x100_0000_0000_0000,
        above < BEYOND,
    ensures
        many_above(above, edges) == (5 * above > edges),
{
    let a = above as int;
    let b = edges as int;
    lemma_fifth();
    lemma2_to64();
    lemma2_to64_rest();
    if a == 0 {
        lemma_no_inversions(b);
    } else {
        small_quotients_are_rounded_once(a, b);
        assert(a < b * BEYOND) by (nonlinear_arith)
            requires
                a < BEYOND,
                b >= 1,
        ;
        let k = shift_of_fraction(a, b);
        let n = a * pow2(k);
        nearest_after_shift(a, b, 0, k);
        lemma_half_even_range(n, b);
        if 4 * a >= b {
            if k >= 55 {
                if k > 55 {
                    lemma_pow2_strictly_increases(55, k);
                }
                assert(a * pow2(k) >= b * BEYOND) by (nonlinear_arith)
                    requires
                        4 * a >= b,
                        b > 0,
                        pow2(k) >= 0x80_0000_0000_0000,
                ;
            }
        } else if 8 * a < b {
            if k < 56 {
                if k < 55 {
                    lemma_pow2_strictly_increases(k, 55);
                }
                assert(a * pow2(k) < b * LEAST) by (nonlinear_arith)
                    requires
                        8 * a < b,
                        a > 0,
                        0 <= pow2(k) <= 0x80_0000_0000_0000,
                ;
            }
        } else {
            if k < 55 {
                lemma_pow2_strictly_increases(k, 55);
                if k < 54 {
                    lemma_pow2_strictly_increases(k, 54);
                }
                assert(a * pow2(k) < b * LEAST) by (nonlinear_arith)
                    requires
                        4 * a < b,
                        a > 0,
                        0 <= pow2(k) <= 0x40_0000_0000_0000,
                ;
            }
            if k > 55 {
                lemma_pow2_unfold(56);
                if k > 56 {
                    lemma_pow2_strictly_increases(56, k);
                }
                assert(a * pow2(k) >= b * BEYOND) by (nonlinear_arith)
                    requires
                        8 * a >= b,
                        b > 0,
                        pow2(k) >= 0x100_0000_0000_0000,
                ;
            }
            lemma_rounds_above(n, b, fifth());
            assert((2 * n > (2 * fifth() + 1) * b) == (5 * a > b)) by (nonlinear_arith)
                requires
                    n == a * 0x80_0000_0000_0000,
                    5 * fifth() == 0x80_0000_0000_0000 + 2,
                    0 < 9 * b < 0x100_0000_0000_0000,
                    a > 0,
            ;
        }
    }
}

/// No share is not more than a fifth.
proof fn lemma_no_inversions(b: int)
    requires
        0 < b < BEYOND,
    ensures
        !below(of_bits(FIFTH), quotient(of_int(0), of_int(b))),
{
    let d = of_int(b).mantissa;
    lemma_fifth();
    assert(of_int(0) == zero());
    assert(0 < d * LEAST || d <= 0) by (nonlinear_arith);
    assert(nearest(0, d, 0 - of_int(b).exponent).mantissa <= 0);
}

/// Whether two clusters have the same figures, whatever files are in them.
pub open spec fn same_figures(a: Cluster, b: Cluster) -> bool {
    &&& a.level == b.level
    &&& a.files@.len() == b.files@.len()
    &&& a.internal_edges == b.internal_edges
}

/// What the free tier is told of the matrix depends on figures alone: no file is named.
pub proof fn free_matrix_names_no_file(a: DsmStats, b: DsmStats, level_breaks: int)
    requires
        a.size == b.size,
        a.edge_count == b.edge_count,
        a.density == b.density,
        a.above_diagonal == b.above_diagonal,
        a.below_diagonal == b.below_diagonal,
        a.same_level == b.same_level,
        a.propagation_cost == b.propagation_cost,
        a.clusters@.len() == b.clusters@.len(),
        forall|i: int| 0 <= i < a.clusters@.len() ==> same_figures(#[trigger] a.clusters@[i], b.clusters@[i]),
    ensures
        dsm_json(a, level_breaks, None, Tier::Free) == dsm_json(b, level_breaks, None, Tier::Free),
{
    let f = |cluster: Cluster| cluster_json(cluster, Tier::Free);
    let p = first(a.clusters@, 5);
    let q = first(b.clusters@, 5);
    assert forall|i: int| 0 <= i < p.len() implies f(#[trigger] p[i]) == f(q[i]) by {
        assert(p[i] == a.clusters@[i] && q[i] == b.clusters@[i]);
        assert(same_figures(a.clusters@[i], b.clusters@[i]));
    }
    assert(p.map_values(f) =~= q.map_values(f));
    assert(interpretation(a) == interpretation(b));
}

/// The free tier never gets the matrix in print, whatever a request asks for.
pub proof fn free_matrix_is_not_printed(args: Json)
    ensures
        !wants_matrix(args, Tier::Free),
{
}

proof fn lemma_reply_keys()
    ensures
        "size"@.len() == 4,
        "edge_count"@.len() == 10,
        "density"@.len() == 7,
        "above_diagonal"@.len() == 14,
        "below_diagonal"@.len() == 14,
        "same_level"@.len() == 10,
        "propagation_cost"@.len() == 16,
        "level_breaks"@.len() == 12,
        "interpretation"@.len() == 14,
        "matrix"@.len() == 6,
        "clusters"@.len() == 8,
        "edge_count"@[0] == 'e',
        "same_level"@[0] == 's',
        "above_diagonal"@[0] == 'a',
        "below_diagonal"@[0] == 'b',
        "interpretation"@[0] == 'i',
{
    reveal_strlit("size");
    reveal_strlit("edge_count");
    reveal_strlit("density");
    reveal_strlit("above_diagonal");
    reveal_strlit("below_diagonal");
    reveal_strlit("same_level");
    reveal_strlit("propagation_cost");
    reveal_strlit("level_breaks");
    reveal_strlit("interpretation");
    reveal_strlit("matrix");
    reveal_strlit("clusters");
}

proof fn lemma_cluster_keys()
    ensures
        "level"@.len() == 5,
        "files"@.len() == 5,
        "files_count"@.len() == 11,
        "internal_edges"@.len() == 14,
        "file_list"@.len() == 9,
        "level"@[0] == 'l',
        "files"@[0] == 'f',
{
    reveal_strlit("level");
    reveal_strlit("files");
    reveal_strlit("files_count");
    reveal_strlit("internal_edges");
    reveal_strlit("file_list");
}


/// In both tiers each figure of the matrix is shown under its name, and the matrix itself where it
/// is there.
pub proof fn figures_are_shown_under_their_names(
    stats: DsmStats,
    level_breaks: int,
    matrix: Option<Seq<char>>,
    tier: Tier,
)
    ensures
        ({
            let reply = dsm_json(stats, level_breaks, matrix, tier);
            &&& entry(reply, "size"@) == Some(Json::Int(stats.size as int))
            &&& entry(reply, "edge_count"@) == Some(Json::Int(stats.edge_count as int))
            &&& entry(reply, "density"@) == Some(Json::Int(points_of(stats.density)))
            &&& entry(reply, "above_diagonal"@) == Some(Json::Int(stats.above_diagonal as int))
            &&& entry(reply, "below_diagonal"@) == Some(Json::Int(stats.below_diagonal as int))
            &&& entry(reply, "same_level"@) == Some(Json::Int(stats.same_level as int))
            &&& entry(reply, "propagation_cost"@) == Some(Json::Int(points_of(stats.propagation_cost)))
            &&& entry(reply, "level_breaks"@) == Some(Json::Int(level_breaks))
            &&& entry(reply, "matrix"@) == match matrix {
                Some(text) => Some(Json::Str(text)),
                None => None,
            }
        }),
{
    lemma_reply_keys();
}

/// What the layering is said to be follows from the figures: clean without inversions, and otherwise
/// by whether the inversions are more than a fifth of the dependencies.
pub proof fn layering_is_judged_by_inversions(
    stats: DsmStats,
    level_breaks: int,
    matrix: Option<Seq<char>>,
    tier: Tier,
)
    requires
        9 * stats.edge_count < 0x100_0000_0000_0000,
        stats.above_diagonal < BEYOND,
    ensures
        entry(dsm_json(stats, level_breaks, matrix, tier), "interpretation"@) == Some(
            Json::Str(
                if stats.above_diagonal == 0 {
                    "Clean layering: all dependencies flow downward"@
                } else if 5 * stats.above_diagonal > stats.edge_count {
                    "Significant architectural inversions detected"@
                } else {
                    "Mostly clean layering with minor inversions"@
                },
            ),
        ),
{
    lemma_reply_keys();
    if stats.edge_count > 0 {
        inversions_are_many_above_a_fifth(stats.above_diagonal, stats.edge_count);
    } else {
        inversions_are_many_above_a_fifth(stats.above_diagonal, 1);
    }
}

/// The first five clusters are shown. Both tiers are told the level, the number of files and the
/// number of internal edges of each; its first ten files are named in the pro tier only.
pub proof fn clusters_are_shown_field_by_field(
    stats: DsmStats,
    level_breaks: int,
    matrix: Option<Seq<char>>,
    tier: Tier,
    i: int,
)
    requires
        0 <= i < 5,
        i < stats.clusters@.len(),
    ensures
        entry(dsm_json(stats, level_breaks, matrix, tier), "clusters"@) matches Some(Json::Arr(shown)) && {
            let cluster = stats.clusters@[i];
            &&& shown.len() == if stats.clusters@.len() < 5 { stats.clusters@.len() as int } else { 5 }
            &&& entry(shown[i], "level"@) == Some(Json::Int(cluster.level as int))
            &&& entry(shown[i], "internal_edges"@) == Some(Json::Int(cluster.internal_edges as int))
            &&& tier is Pro ==> {
                &&& entry(shown[i], "files"@) == Some(Json::Int(cluster.files@.len() as int))
                &&& entry(shown[i], "files_count"@) is None
                &&& entry(shown[i], "file_list"@) matches Some(Json::Arr(list)) && {
                    &&& list.len() == if cluster.files@.len() < 10 { cluster.files@.len() as int } else { 10 }
                    &&& forall|j: int| 0 <= j < list.len() ==> #[trigger] list[j] == Json::Str(cluster.files@[j]@)
                }
            }
            &&& tier is Free ==> {
                &&& entry(shown[i], "files_count"@) == Some(Json::Int(cluster.files@.len() as int))
                &&& entry(shown[i], "files"@) is None
                &&& entry(shown[i], "file_list"@) is None
            }
        },
{
    lemma_reply_keys();
    lemma_cluster_keys();
}

/// The matrix is printed just for requests of the pro tier that hold `text` under `format`.
pub proof fn the_matrix_is_printed_on_request(args: Json, tier: Tier)
    ensures
        wants_matrix(args, tier) <==> (tier is Pro && args is Obj && args->Obj_0.contains_key("format"@)
            && args->Obj_0["format"@] == Json::Str("text"@)),
{
}

/// The reply shows the figures of the matrix of the imports, how many levels it has, and what was
/// printed of it with thirty files, just where the pro tier asked for text.
pub proof fn the_matrix_of_the_imports_is_shown<
    M,
    B: FnOnce(&Vec<ImportEdge>) -> Dsm<M>,
    C: FnOnce(&Dsm<M>) -> DsmStats,
    R: FnOnce(&Dsm<M>, usize) -> String,
>(
    args: Json,
    tier: Tier,
    imports: Vec<ImportEdge>,
    build_dsm: B,
    compute_stats: C,
    render_text: R,
    reply: Json,
) -> (shown: (Dsm<M>, DsmStats))
    requires
        answers_dsm(args, tier, imports, build_dsm, compute_stats, render_text, reply),
    ensures
        ({
            let (dsm, stats) = shown;
            let asked = tier is Pro && args is Obj && args->Obj_0.contains_key("format"@)
                && args->Obj_0["format"@] == Json::Str("text"@);
            &&& build_dsm.ensures((&imports,), dsm)
            &&& compute_stats.ensures((&dsm,), stats)
            &&& entry(reply, "size"@) == Some(Json::Int(stats.size as int))
            &&& entry(reply, "edge_count"@) == Some(Json::Int(stats.edge_count as int))
            &&& entry(reply, "level_breaks"@) == Some(Json::Int(dsm.level_breaks@.len() as int))
            &&& asked ==> exists|text: String| #[trigger]
                render_text.ensures((&dsm, 30usize), text) && entry(reply, "matrix"@) == Some(Json::Str(text@))
            &&& !asked ==> entry(reply, "matrix"@) is None
        }),
{
    let (dsm, stats, matrix) = choose|dsm: Dsm<M>, stats: DsmStats, matrix: Option<String>|
        {
            &&& build_dsm.ensures((&imports,), dsm)
            &&& compute_stats.ensures((&dsm,), stats)
            &&& match matrix {
                Some(text) => wants_matrix(args, tier) && render_text.ensures((&dsm, MATRIX_FILES), text),
                None => !wants_matrix(args, tier),
            }
            &&& reply == #[trigger] dsm_json(
                stats,
                dsm.level_breaks@.len() as int,
                optional_view(matrix),
                tier,
            )
        };
    figures_are_shown_under_their_names(
        stats,
        dsm.level_breaks@.len() as int,
        optional_view(matrix),
        tier,
    );
    if let Some(text) = matrix {
        assert(render_text.ensures((&dsm, MATRIX_FILES), text));
    }
    (dsm, stats)
}

} // verus!
