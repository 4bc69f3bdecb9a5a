//! The `file_info` tool: all that is known of a single file.

use crate::coupling::{calls_join, degrees_fit, each_neighbour_is_listed_once, file_coupling, imports_join, sources, targets, Coupling};
use crate::evolution::ends_evolution;
use crate::issues::{find_issues, issue_parts, issues_json, issues_of, issues_value, summarize, summary_of, Issues};
use crate::json::{duplicate, entry, from_bool, from_optional, from_str, from_strings, from_u64, from_vec, get_text, json_of, object, optional_int, put, strings, text_entry, views, Json};
use crate::measures::{compute_instability, instability, points, points_of, scale, to_points};
use crate::ranking::{placed, ranked, ranked_is_a_permutation, ranked_is_in_order, sort, Ranking};
use crate::reports::{ArchReport, AuthorInfo, CouplingPair, EvolutionReport, FileChurn, HealthReport, McpState, TemporalHotspot, Tier};
use crate::snapshot::{files, EntryPoint, FileNode, FuncInfo, Snapshot};
use crate::text::{chars_of, clean_path, ends_and_starts_are_parts, ends_with, has_suffix, plain_path, same};
use crate::tree::{flatten_files_ref, functions, has_path, or_default};
use serde_json::Value;
use vstd::hash_map::StringHashMap;
use vstd::prelude::*;
use vstd::seq_lib::to_multiset_build;

verus! {

/// Whether `path` names `node`: it is its path, or a tail of it that starts at a directory.
pub open spec fn names(node: FileNode, path: Seq<char>) -> bool {
    node.path@ == path || ends_with(node.path@, seq!['/'] + path)
}

/// The first of `nodes` whose path is `path`.
pub open spec fn file_at(nodes: Seq<FileNode>, path: Seq<char>) -> Option<FileNode>
    decreases nodes.len(),
{
    if nodes.len() == 0 {
        None
    } else if nodes[0].path@ == path {
        Some(nodes[0])
    } else {
        file_at(nodes.drop_first(), path)
    }
}

/// The first of `nodes` that `path` names.
pub open spec fn first_named(nodes: Seq<FileNode>, path: Seq<char>) -> Option<FileNode>
    decreases nodes.len(),
{
    if nodes.len() == 0 {
        None
    } else if names(nodes[0], path) {
        Some(nodes[0])
    } else {
        first_named(nodes.drop_first(), path)
    }
}

/// The file that `path` asks for: the first of `nodes` with that path, and only where there is
/// none, the first that `path` names.
pub open spec fn find_file(nodes: Seq<FileNode>, path: Seq<char>) -> Option<FileNode> {
    match file_at(nodes, path) {
        Some(node) => Some(node),
        None => first_named(nodes, path),
    }
}

/// What is answered where no file has the name `path`.
pub open spec fn not_found(path: Seq<char>) -> Seq<char> {
    "File '"@ + path
        + "' not found in scan. Check the path is relative to the scanned root."@
}

/// The first of `nodes` whose path is `path`.
fn node_at<'a>(nodes: &Vec<&'a FileNode>, path: &str) -> (found: Option<&'a FileNode>)
    ensures
        match found {
            Some(node) => file_at(nodes@.map_values(|f: &FileNode| *f), path@) == Some(*node),
            None => file_at(nodes@.map_values(|f: &FileNode| *f), path@) is None,
        },
{
    let ghost all: Seq<FileNode> = nodes@.map_values(|f: &FileNode| *f);
    assert(all.skip(0) =~= all);
    for i in 0..nodes.len()
        invariant
            all == nodes@.map_values(|f: &FileNode| *f),
            file_at(all, path@) == file_at(all.skip(i as int), path@),
    {
        assert(all.skip(i as int)[0] == *nodes[i as int]);
        if same(nodes[i].path.as_str(), path) {
            return Some(nodes[i]);
        }
        assert(all.skip(i as int).drop_first() =~= all.skip(i + 1));
    }
    None
}

/// The file that `path` asks for: the first of `nodes` with that path, and only where there is
/// none, the first that `path` names.
pub fn find_node<'a>(nodes: &Vec<&'a FileNode>, path: &str) -> (found: Option<&'a FileNode>)
    ensures
        match found {
            Some(node) => find_file(nodes@.map_values(|f: &FileNode| *f), path@) == Some(*node),
            None => find_file(nodes@.map_values(|f: &FileNode| *f), path@) is None,
        },
{
    if let Some(node) = node_at(nodes, path) {
        return Some(node);
    }
    let ghost all: Seq<FileNode> = nodes@.map_values(|f: &FileNode| *f);
    let tail: Vec<char> = chars_of("/".to_owned().concat(path).as_str());
    proof {
        reveal_strlit("/");
        assert("/"@ =~= seq!['/']);
        assert(all.skip(0) =~= all);
        lemma_file_at(all, path@);
    }
    for i in 0..nodes.len()
        invariant
            all == nodes@.map_values(|f: &FileNode| *f),
            tail@ == seq!['/'] + path@,
            file_at(all, path@) is None,
            !has_path(all, path@),
            first_named(all, path@) == first_named(all.skip(i as int), path@),
    {
        assert(all.skip(i as int)[0] == all[i as int]);
        if has_suffix(&chars_of(nodes[i].path.as_str()), &tail) {
            return Some(nodes[i]);
        }
        assert(all.skip(i as int).drop_first() =~= all.skip(i + 1));
    }
    None
}

/// Functions by cyclomatic complexity, the highest first.
pub struct ByComplexity;

impl<'a> Ranking<&'a FuncInfo> for ByComplexity {
    open spec fn ahead(&self, a: &'a FuncInfo, b: &'a FuncInfo) -> bool {
        or_default(a.cc, 0) > or_default(b.cc, 0)
    }

    proof fn ahead_is_asymmetric(&self, a: &'a FuncInfo, b: &'a FuncInfo) {
    }

    proof fn ahead_splits(&self, a: &'a FuncInfo, b: &'a FuncInfo, c: &'a FuncInfo) {
    }

    fn is_ahead(&self, a: &&'a FuncInfo, b: &&'a FuncInfo) -> (r: bool) {
        a.cc.unwrap_or(0) > b.cc.unwrap_or(0)
    }
}

/// A function as a JSON object.
pub open spec fn func_json(func: FuncInfo) -> Json {
    Json::Obj(
        map![
            "name"@ => Json::Str(func.n@),
            "lines"@ => Json::Int(func.ln as int),
            "cc"@ => optional_int(func.cc),
            "cognitive"@ => optional_int(func.cog),
            "params"@ => optional_int(func.pc),
            "is_public"@ => Json::Bool(func.is_public),
        ],
    )
}

/// `funcs`, the most complex first.
pub open spec fn by_complexity(funcs: Seq<FuncInfo>) -> Seq<FuncInfo> {
    ranked(ByComplexity, funcs.map_values(|f: FuncInfo| &f)).map_values(|f: &FuncInfo| *f)
}

/// The functions of a file, the most complex first, as JSON objects.
pub open spec fn function_details(node: FileNode) -> Seq<Json> {
    match functions(node) {
        Some(funcs) => by_complexity(funcs).map_values(|f: FuncInfo| func_json(f)),
        None => Seq::empty(),
    }
}

/// A function as a JSON object.
fn func_value(func: &FuncInfo) -> (value: Value)
    ensures
        json_of(value) == func_json(*func),
{
    let mut value: Value = object();
    put(&mut value, "name", from_str(func.n.as_str()));
    put(&mut value, "lines", from_u64(func.ln as u64));
    put(&mut value, "cc", from_optional(func.cc));
    put(&mut value, "cognitive", from_optional(func.cog));
    put(&mut value, "params", from_optional(func.pc));
    put(&mut value, "is_public", from_bool(func.is_public));
    value
}

/// The functions of a file, the most complex first, as JSON objects.
fn function_values(node: &FileNode) -> (items: Vec<Value>)
    ensures
        items@.map_values(|v: Value| json_of(v)) == function_details(*node),
{
    let mut items: Vec<Value> = Vec::new();
    if let Some(sa) = &node.sa {
        if let Some(funcs) = &sa.functions {
            let mut unsorted: Vec<&FuncInfo> = Vec::new();
            for i in 0..funcs.len()
                invariant
                    unsorted.len() == i,
                    forall|j: int| 0 <= j < i ==> *(#[trigger] unsorted@[j]) == funcs@[j],
            {
                unsorted.push(&funcs[i]);
            }
            assert(unsorted@ =~= funcs@.map_values(|f: FuncInfo| &f));
            let sorted: Vec<&FuncInfo> = sort(&ByComplexity, unsorted);
            for i in 0..sorted.len()
                invariant
                    items.len() == i,
                    forall|j: int| 0 <= j < i ==> json_of(#[trigger] items@[j]) == func_json(*sorted@[j]),
            {
                items.push(func_value(sorted[i]));
            }
            assert(items@.map_values(|v: Value| json_of(v)) =~= by_complexity(funcs@).map_values(
                |f: FuncInfo| func_json(f),
            ));
            return items;
        }
    }
    assert(items@.map_values(|v: Value| json_of(v)) =~= Seq::<Json>::empty());
    items
}

/// The lines of a file as a JSON object.
pub open spec fn lines_json(node: FileNode) -> Json {
    Json::Obj(
        map![
            "total"@ => Json::Int(node.lines as int),
            "logic"@ => Json::Int(node.logic as int),
            "comments"@ => Json::Int(node.comments as int),
            "blanks"@ => Json::Int(node.blanks as int),
        ],
    )
}

/// The lines of a file as a JSON object.
fn lines_value(node: &FileNode) -> (value: Value)
    ensures
        json_of(value) == lines_json(*node),
{
    let mut value: Value = object();
    put(&mut value, "total", from_u64(node.lines as u64));
    put(&mut value, "logic", from_u64(node.logic as u64));
    put(&mut value, "comments", from_u64(node.comments as u64));
    put(&mut value, "blanks", from_u64(node.blanks as u64));
    value
}

/// The functions of a file as a JSON object.
pub open spec fn functions_json(node: FileNode) -> Json {
    Json::Obj(
        map![
            "count"@ => Json::Int(node.funcs as int),
            "details"@ => Json::Arr(function_details(node)),
        ],
    )
}

/// The functions of a file as a JSON object.
fn functions_value(node: &FileNode) -> (value: Value)
    ensures
        json_of(value) == functions_json(*node),
{
    let mut value: Value = object();
    put(&mut value, "count", from_u64(node.funcs as u64));
    put(&mut value, "details", from_vec(function_values(node)));
    value
}

/// The dependencies of the file `path` as a JSON object, by `links`.
pub open spec fn dependencies_json(links: Seq<(Seq<char>, Seq<char>)>, path: Seq<char>) -> Json {
    let fan_in = sources(links, path).len() as int;
    let fan_out = targets(links, path).len() as int;
    Json::Obj(
        map![
            "fan_in"@ => Json::Int(fan_in),
            "fan_out"@ => Json::Int(fan_out),
            "instability"@ => Json::Int(points(instability(fan_in, fan_out))),
            "imports"@ => strings(targets(links, path)),
            "imported_by"@ => strings(sources(links, path)),
        ],
    )
}

/// The dependencies of the file `path` as a JSON object.
fn dependencies_value(snapshot: &Snapshot, path: &str) -> (value: Value)
    requires
        snapshot.fits(),
    ensures
        json_of(value) == dependencies_json(snapshot.links(), path@),
{
    let coupling: Coupling = file_coupling(snapshot, path);
    let fan_in: usize = coupling.imported_by.len();
    let fan_out: usize = coupling.imports.len();
    proof {
        degrees_fit(*snapshot, path@);
        assert(views(coupling.imported_by@).len() == fan_in);
        assert(views(coupling.imports@).len() == fan_out);
    }
    let mut value: Value = object();
    put(&mut value, "fan_in", from_u64(fan_in as u64));
    put(&mut value, "fan_out", from_u64(fan_out as u64));
    put(&mut value, "instability", from_u64(scale(compute_instability(fan_in, fan_out), 10000) as u64));
    put(&mut value, "imports", from_strings(&coupling.imports, fan_out));
    put(&mut value, "imported_by", from_strings(&coupling.imported_by, fan_in));
    value
}

/// What `map` holds for `path`.
pub open spec fn lookup(map: Map<Seq<char>, u32>, path: Seq<char>) -> Option<u32> {
    if map.contains_key(path) {
        Some(map[path])
    } else {
        None
    }
}

/// What `map` holds for `path`.
pub fn look_up(map: &StringHashMap<u32>, path: &str) -> (n: Option<u32>)
    ensures
        n == lookup(map@, path@),
{
    match map.get(path) {
        Some(n) => Some(*n),
        None => None,
    }
}

/// Where the file `path` stands in the architecture, as a JSON object.
pub open spec fn architecture_json(arch: ArchReport, depth: Map<Seq<char>, u32>, path: Seq<char>) -> Json {
    Json::Obj(
        map![
            "level"@ => optional_int(lookup(arch.levels@, path)),
            "max_level"@ => Json::Int(arch.max_level as int),
            "blast_radius"@ => optional_int(lookup(arch.blast_radius@, path)),
            "exec_depth"@ => optional_int(lookup(depth, path)),
        ],
    )
}

/// Where the file `path` stands in the architecture, as a JSON object.
fn architecture_value(arch: &ArchReport, depth: &StringHashMap<u32>, path: &str) -> (value: Value)
    ensures
        json_of(value) == architecture_json(*arch, depth@, path@),
{
    let mut value: Value = object();
    put(&mut value, "level", from_optional(look_up(&arch.levels, path)));
    put(&mut value, "max_level", from_u64(arch.max_level as u64));
    put(&mut value, "blast_radius", from_optional(look_up(&arch.blast_radius, path)));
    put(&mut value, "exec_depth", from_optional(look_up(depth, path)));
    value
}

/// How often a file changed, as a JSON object.
pub open spec fn churn_json(churn: FileChurn) -> Json {
    Json::Obj(
        map![
            "commits"@ => Json::Int(churn.commit_count as int),
            "lines_added"@ => Json::Int(churn.lines_added as int),
            "lines_removed"@ => Json::Int(churn.lines_removed as int),
            "total_churn"@ => Json::Int(churn.total_churn as int),
        ],
    )
}

/// How often a file changed, as a JSON object.
fn churn_value(churn: &FileChurn) -> (value: Value)
    ensures
        json_of(value) == churn_json(*churn),
{
    let mut value: Value = object();
    put(&mut value, "commits", from_u64(churn.commit_count as u64));
    put(&mut value, "lines_added", from_u64(churn.lines_added as u64));
    put(&mut value, "lines_removed", from_u64(churn.lines_removed as u64));
    put(&mut value, "total_churn", from_u64(churn.total_churn as u64));
    value
}

/// Who wrote a file, as a JSON object.
pub open spec fn authors_json(author: AuthorInfo) -> Json {
    Json::Obj(
        map![
            "count"@ => Json::Int(author.author_count as int),
            "primary"@ => Json::Str(author.primary_author@),
            "primary_ratio"@ => Json::Int(points_of(author.primary_ratio)),
            "all"@ => json_of(author.authors),
        ],
    )
}

/// Who wrote a file, as a JSON object.
fn authors_value(author: &AuthorInfo) -> (value: Value)
    ensures
        json_of(value) == authors_json(*author),
{
    let mut value: Value = object();
    put(&mut value, "count", from_u64(author.author_count as u64));
    put(&mut value, "primary", from_str(author.primary_author.as_str()));
    put(&mut value, "primary_ratio", from_u64(to_points(author.primary_ratio) as u64));
    put(&mut value, "all", duplicate(&author.authors));
    value
}

/// The first of `hotspots` that is the file `path`.
pub open spec fn find_hotspot(hotspots: Seq<TemporalHotspot>, path: Seq<char>) -> Option<TemporalHotspot>
    decreases hotspots.len(),
{
    if hotspots.len() == 0 {
        None
    } else if hotspots[0].file@ == path {
        Some(hotspots[0])
    } else {
        find_hotspot(hotspots.drop_first(), path)
    }
}

/// The first of `hotspots` that is the file `path`.
fn hotspot_of<'a>(hotspots: &'a Vec<TemporalHotspot>, path: &str) -> (found: Option<&'a TemporalHotspot>)
    ensures
        match found {
            Some(h) => find_hotspot(hotspots@, path@) == Some(*h),
            None => find_hotspot(hotspots@, path@) is None,
        },
{
    assert(hotspots@.skip(0) =~= hotspots@);
    for i in 0..hotspots.len()
        invariant
            find_hotspot(hotspots@, path@) == find_hotspot(hotspots@.skip(i as int), path@),
    {
        assert(hotspots@.skip(i as int)[0] == hotspots@[i as int]);
        if same(hotspots[i].file.as_str(), path) {
            return Some(&hotspots[i]);
        }
        assert(hotspots@.skip(i as int).drop_first() =~= hotspots@.skip(i + 1));
    }
    None
}

/// A risky file as a JSON object, without its name.
pub open spec fn hotspot_json(hotspot: TemporalHotspot) -> Json {
    Json::Obj(
        map![
            "risk_score"@ => json_of(hotspot.risk_score),
            "churn"@ => Json::Int(hotspot.churn_count as int),
            "complexity"@ => Json::Int(hotspot.max_complexity as int),
        ],
    )
}

/// A risky file as a JSON object, without its name.
fn hotspot_value(hotspot: &TemporalHotspot) -> (value: Value)
    ensures
        json_of(value) == hotspot_json(*hotspot),
{
    let mut value: Value = object();
    put(&mut value, "risk_score", duplicate(&hotspot.risk_score));
    put(&mut value, "churn", from_u64(hotspot.churn_count as u64));
    put(&mut value, "complexity", from_u64(hotspot.max_complexity as u64));
    value
}

/// A file that changes together with `path`, as a JSON object.
pub open spec fn pair_json(pair: CouplingPair, path: Seq<char>) -> Json {
    Json::Obj(
        map![
            "coupled_with"@ => Json::Str(if pair.file_a@ == path {
                pair.file_b@
            } else {
                pair.file_a@
            }),
            "co_changes"@ => Json::Int(pair.co_change_count as int),
            "strength"@ => Json::Int(points_of(pair.coupling_strength)),
        ],
    )
}

/// Those of `pairs` that `path` is in, as JSON objects.
pub open spec fn pairs_json(pairs: Seq<CouplingPair>, path: Seq<char>) -> Seq<Json>
    decreases pairs.len(),
{
    if pairs.len() == 0 {
        Seq::empty()
    } else {
        let before = pairs_json(pairs.drop_last(), path);
        if pairs.last().file_a@ == path || pairs.last().file_b@ == path {
            before.push(pair_json(pairs.last(), path))
        } else {
            before
        }
    }
}

/// Those of `pairs` that `path` is in, as JSON objects.
fn pair_values(pairs: &Vec<CouplingPair>, path: &str) -> (items: Vec<Value>)
    ensures
        items@.map_values(|v: Value| json_of(v)) == pairs_json(pairs@, path@),
{
    let ghost held = |v: Value| json_of(v);
    let mut items: Vec<Value> = Vec::new();
    assert(items@.map_values(held) =~= Seq::<Json>::empty());
    for i in 0..pairs.len()
        invariant
            held == |v: Value| json_of(v),
            items@.map_values(held) == pairs_json(pairs@.take(i as int), path@),
    {
        let pair: &CouplingPair = &pairs[i];
        assert(pairs@.take(i + 1).drop_last() =~= pairs@.take(i as int));
        let first: bool = same(pair.file_a.as_str(), path);
        if first || same(pair.file_b.as_str(), path) {
            let other: &str = if first { pair.file_b.as_str() } else { pair.file_a.as_str() };
            let mut value: Value = object();
            put(&mut value, "coupled_with", from_str(other));
            put(&mut value, "co_changes", from_u64(pair.co_change_count as u64));
            put(&mut value, "strength", from_u64(to_points(pair.coupling_strength) as u64));
            assert(json_of(value) == pair_json(*pair, path@));
            items.push(value);
        }
        assert(items@.map_values(held) =~= pairs_json(pairs@.take(i + 1), path@));
    }
    assert(pairs@.take(pairs.len() as int) =~= pairs@);
    items
}

/// `entries`, and `json` under `key` where it is there.
pub open spec fn with_optional(entries: Map<Seq<char>, Json>, key: Seq<char>, json: Option<Json>) -> Map<
    Seq<char>,
    Json,
> {
    match json {
        Some(j) => entries.insert(key, j),
        None => entries,
    }
}

/// The history of the file `path` as a JSON object: only what is known of it has an entry.
pub open spec fn history_json(evolution: EvolutionReport, path: Seq<char>) -> Json {
    let entries = with_optional(
        Map::empty(),
        "churn"@,
        if evolution.churn@.contains_key(path) {
            Some(churn_json(evolution.churn@[path]))
        } else {
            None
        },
    );
    let entries = with_optional(
        entries,
        "code_age_days"@,
        match lookup(evolution.code_age@, path) {
            Some(days) => Some(Json::Int(days as int)),
            None => None,
        },
    );
    let entries = with_optional(
        entries,
        "authors"@,
        if evolution.authors@.contains_key(path) {
            Some(authors_json(evolution.authors@[path]))
        } else {
            None
        },
    );
    let entries = with_optional(
        entries,
        "temporal_hotspot"@,
        match find_hotspot(evolution.hotspots@, path) {
            Some(hotspot) => Some(hotspot_json(hotspot)),
            None => None,
        },
    );
    let pairs = pairs_json(evolution.coupling_pairs@, path);
    Json::Obj(
        with_optional(
            entries,
            "change_coupling"@,
            if pairs.len() > 0 {
                Some(Json::Arr(pairs))
            } else {
                None
            },
        ),
    )
}

/// The history of the file `path` as a JSON object.
fn history_value(evolution: &EvolutionReport, path: &str) -> (value: Value)
    ensures
        json_of(value) == history_json(*evolution, path@),
{
    let mut value: Value = object();
    if let Some(churn) = evolution.churn.get(path) {
        put(&mut value, "churn", churn_value(churn));
    }
    if let Some(days) = evolution.code_age.get(path) {
        put(&mut value, "code_age_days", from_u64(*days as u64));
    }
    if let Some(author) = evolution.authors.get(path) {
        put(&mut value, "authors", authors_value(author));
    }
    if let Some(hotspot) = hotspot_of(&evolution.hotspots, path) {
        put(&mut value, "temporal_hotspot", hotspot_value(hotspot));
    }
    let pairs: Vec<Value> = pair_values(&evolution.coupling_pairs, path);
    proof {
        assert(pairs@.map_values(|v: Value| json_of(v)).len() == pairs.len());
    }
    if pairs.len() > 0 {
        put(&mut value, "change_coupling", from_vec(pairs));
    }
    value
}

/// Whether execution starts in the file `path`.
pub open spec fn is_entry(points: Seq<EntryPoint>, path: Seq<char>) -> bool {
    exists|i: int| 0 <= i < points.len() && (#[trigger] points[i]).file@ == path
}

/// Whether execution starts in the file `path`.
fn starts_in(points: &Vec<EntryPoint>, path: &str) -> (r: bool)
    ensures
        r == is_entry(points@, path@),
{
    for i in 0..points.len()
        invariant
            forall|j: int| 0 <= j < i ==> (#[trigger] points@[j]).file@ != path@,
    {
        if same(points[i].file.as_str(), path) {
            return true;
        }
    }
    false
}

/// All that is known of the file `node`, which was asked for as `path`. `is_test` says whether
/// `path` is a test file; `evolution` is the history, where it was read.
pub open spec fn file_info_json(
    snapshot: Snapshot,
    health: HealthReport,
    arch: ArchReport,
    evolution: Option<EvolutionReport>,
    node: FileNode,
    path: Seq<char>,
    is_test: bool,
) -> Json {
    let issues = issues_of(health, path);
    let entries = map![
        "path"@ => Json::Str(path),
        "lang"@ => Json::Str(node.lang@),
        "is_test"@ => Json::Bool(is_test),
        "is_entry_point"@ => Json::Bool(is_entry(snapshot.entry_points@, path)),
        "lines"@ => lines_json(node),
        "functions"@ => functions_json(node),
        "dependencies"@ => dependencies_json(snapshot.links(), path),
        "architecture"@ => architecture_json(arch, snapshot.exec_depth@, path),
        "issues"@ => issues_json(issues),
        "summary"@ => Json::Str(summary_of(issue_parts(issues, node.lines))),
    ];
    match evolution {
        Some(history) => Json::Obj(entries.insert("git_history"@, history_json(history, path))),
        None => Json::Obj(entries),
    }
}

/// What is answered to a request for the file `path`: all that is known of the file with that path
/// or, where there is none, of the first that `path` names; or that there is no such file.
pub open spec fn file_info_reply(
    reply: Result<Value, String>,
    snapshot: Snapshot,
    health: HealthReport,
    arch: ArchReport,
    evolution: Option<EvolutionReport>,
    path: Seq<char>,
    is_test: bool,
) -> bool {
    match find_file(files(snapshot.root), path) {
        Some(node) => reply is Ok && json_of(reply->Ok_0) == file_info_json(
            snapshot,
            health,
            arch,
            evolution,
            node,
            path,
            is_test,
        ),
        None => reply is Err && reply->Err_0@ == not_found(path),
    }
}

/// All that is known of the file that `path` asks for: the one with that path or, where there is
/// none, the first that `path` names. `is_test` says whether `path` is a test file.
pub fn file_info(
    snapshot: &Snapshot,
    health: &HealthReport,
    arch: &ArchReport,
    evolution: &Option<EvolutionReport>,
    path: &str,
    is_test: bool,
) -> (reply: Result<Value, String>)
    requires
        snapshot.fits(),
    ensures
        file_info_reply(reply, *snapshot, *health, *arch, *evolution, path@, is_test),
{
    let nodes: Vec<&FileNode> = flatten_files_ref(&snapshot.root);
    let node: &FileNode = match find_node(&nodes, path) {
        Some(node) => node,
        None => {
            let message: String = "File '".to_owned().concat(path).concat(
                "' not found in scan. Check the path is relative to the scanned root.",
            );
            return Err(message);
        },
    };
    let issues: Issues = find_issues(health, path);
    let mut value: Value = object();
    put(&mut value, "path", from_str(path));
    put(&mut value, "lang", from_str(node.lang.as_str()));
    put(&mut value, "is_test", from_bool(is_test));
    put(&mut value, "is_entry_point", from_bool(starts_in(&snapshot.entry_points, path)));
    put(&mut value, "lines", lines_value(node));
    put(&mut value, "functions", functions_value(node));
    put(&mut value, "dependencies", dependencies_value(snapshot, path));
    put(&mut value, "architecture", architecture_value(arch, &snapshot.exec_depth, path));
    put(&mut value, "issues", issues_value(&issues));
    put(&mut value, "summary", from_str(summarize(&issues, node.lines).as_str()));
    if let Some(history) = evolution {
        put(&mut value, "git_history", history_value(history, path));
    }
    Ok(value)
}

/// The path that a request asks for, in the form that scanned paths have.
pub open spec fn requested_path(args: Json) -> Option<Seq<char>> {
    match text_entry(args, "path"@) {
        Some(raw) => Some(plain_path(raw)),
        None => None,
    }
}

/// Whether `is_test_file` told `is_test` of the file `path`.
pub open spec fn told_one<T: Fn(&str) -> bool>(is_test_file: T, path: Seq<char>, is_test: bool) -> bool {
    exists|asked: &str| asked@ == path && #[trigger] is_test_file.ensures((asked,), is_test)
}

/// Whether `reply` answers a request for the file `path`, of which `is_test_file` was asked.
pub open spec fn answers_file_info<T: Fn(&str) -> bool>(
    is_test_file: T,
    snapshot: Snapshot,
    health: HealthReport,
    arch: ArchReport,
    evolution: Option<EvolutionReport>,
    path: Seq<char>,
    reply: Result<Value, String>,
) -> bool {
    ||| told_one(is_test_file, path, true) && file_info_reply(
        reply,
        snapshot,
        health,
        arch,
        evolution,
        path,
        true,
    )
    ||| told_one(is_test_file, path, false) && file_info_reply(
        reply,
        snapshot,
        health,
        arch,
        evolution,
        path,
        false,
    )
}

/// Answers a request for a file: all that is known of it.
///
/// `is_test_file` tells test files by their path.
pub fn handle_file_info<T: Fn(&str) -> bool>(
    args: &Value,
    _tier: &Tier,
    state: &McpState,
    is_test_file: T,
) -> (reply: Result<Value, String>)
    requires
        forall|path: &str| is_test_file.requires((path,)),
        state.cached_snapshot matches Some(snapshot) ==> snapshot.fits(),
    ensures
        match (state.cached_snapshot, state.cached_health, state.cached_arch) {
            (Some(snapshot), Some(health), Some(arch)) => match requested_path(json_of(*args)) {
                Some(path) => {
                    ||| told_one(is_test_file, path, true) && file_info_reply(
                        reply,
                        snapshot,
                        health,
                        arch,
                        state.cached_evolution,
                        path,
                        true,
                    )
                    ||| told_one(is_test_file, path, false) && file_info_reply(
                        reply,
                        snapshot,
                        health,
                        arch,
                        state.cached_evolution,
                        path,
                        false,
                    )
                },
                None => reply is Err && reply->Err_0@ == "Missing 'path' argument"@,
            },
            _ => reply is Err && reply->Err_0@ == "No scan data. Call 'scan' first."@,
        },
        state.cached_snapshot is Some && state.cached_health is Some && state.cached_arch is Some
            && requested_path(json_of(*args)) is Some ==> answers_file_info(
            is_test_file,
            state.cached_snapshot->0,
            state.cached_health->0,
            state.cached_arch->0,
            state.cached_evolution,
            requested_path(json_of(*args))->0,
            reply,
        ),
{
    match (&state.cached_snapshot, &state.cached_health, &state.cached_arch) {
        (Some(snapshot), Some(health), Some(arch)) => match get_text(args, "path") {
            Some(raw) => {
                let path: &str = clean_path(raw);
                let is_test: bool = is_test_file(path);
                let reply = file_info(snapshot, health, arch, &state.cached_evolution, path, is_test);
                proof {
                    if is_test {
                        assert(told_one(is_test_file, path@, true));
                    } else {
                        assert(told_one(is_test_file, path@, false));
                    }
                }
                reply
            },
            None => Err("Missing 'path' argument".to_owned()),
        },
        _ => Err("No scan data. Call 'scan' first.".to_owned()),
    }
}

proof fn lemma_placed_adds(s: Seq<&FuncInfo>, x: &FuncInfo)
    ensures
        placed(ByComplexity, s, x).map_values(|f: &FuncInfo| *f).to_multiset() == s.map_values(
            |f: &FuncInfo| *f,
        ).to_multiset().insert(*x),
    decreases s.len(),
{
    let deref = |f: &FuncInfo| *f;
    let t = placed(ByComplexity, s, x);
    if s.len() > 0 && ByComplexity.ahead(x, s.last()) {
        let shorter = s.drop_last();
        let before = placed(ByComplexity, shorter, x);
        lemma_placed_adds(shorter, x);
        assert(t.map_values(deref) =~= before.map_values(deref).push(*s.last()));
        assert(s.map_values(deref) =~= shorter.map_values(deref).push(*s.last()));
        to_multiset_build(before.map_values(deref), *s.last());
        to_multiset_build(shorter.map_values(deref), *s.last());
        assert(t.map_values(deref).to_multiset() =~= s.map_values(deref).to_multiset().insert(*x));
    } else {
        assert(t.map_values(deref) =~= s.map_values(deref).push(*x));
        to_multiset_build(s.map_values(deref), *x);
    }
}

proof fn lemma_sorted_keeps_each(s: Seq<&FuncInfo>)
    ensures
        ranked(ByComplexity, s).map_values(|f: &FuncInfo| *f).to_multiset() == s.map_values(
            |f: &FuncInfo| *f,
        ).to_multiset(),
    decreases s.len(),
{
    let deref = |f: &FuncInfo| *f;
    if s.len() > 0 {
        let shorter = s.drop_last();
        lemma_sorted_keeps_each(shorter);
        lemma_placed_adds(ranked(ByComplexity, shorter), s.last());
        assert(s.map_values(deref) =~= shorter.map_values(deref).push(*s.last()));
        to_multiset_build(shorter.map_values(deref), *s.last());
    }
}

/// The functions of a file are listed with the most complex first, and each as often as it occurs.
pub proof fn functions_are_listed_worst_first(funcs: Seq<FuncInfo>)
    ensures
        forall|i: int, j: int|
            0 <= i < j < by_complexity(funcs).len() ==> or_default((#[trigger] by_complexity(funcs)[i]).cc, 0)
                >= or_default((#[trigger] by_complexity(funcs)[j]).cc, 0),
        by_complexity(funcs).to_multiset() == funcs.to_multiset(),
{
    let s = funcs.map_values(|f: FuncInfo| &f);
    let r = ranked(ByComplexity, s);
    let t = by_complexity(funcs);
    ranked_is_in_order(ByComplexity, s);
    assert forall|i: int, j: int| 0 <= i < j < t.len() implies or_default((#[trigger] t[i]).cc, 0)
        >= or_default((#[trigger] t[j]).cc, 0) by {
        assert(!ByComplexity.ahead(r[j], r[i]));
    }
    lemma_sorted_keeps_each(s);
    assert(s.map_values(|f: &FuncInfo| *f) =~= funcs);
}

/// The history of a file is shown just when one was read.
pub proof fn history_is_shown_once_read(
    snapshot: Snapshot,
    health: HealthReport,
    arch: ArchReport,
    evolution: Option<EvolutionReport>,
    node: FileNode,
    path: Seq<char>,
    is_test: bool,
)
    ensures
        entry(
            file_info_json(snapshot, health, arch, evolution, node, path, is_test),
            "git_history"@,
        ) == match evolution {
            Some(history) => Some(history_json(history, path)),
            None => None,
        },
{
    reveal_strlit("git_history");
    reveal_strlit("path");
    reveal_strlit("lang");
    reveal_strlit("is_test");
    reveal_strlit("is_entry_point");
    reveal_strlit("lines");
    reveal_strlit("functions");
    reveal_strlit("dependencies");
    reveal_strlit("architecture");
    reveal_strlit("issues");
    reveal_strlit("summary");
    assert("git_history"@.len() == 11);
    assert("path"@.len() == 4);
    assert("lang"@.len() == 4);
    assert("is_test"@.len() == 7);
    assert("is_entry_point"@.len() == 14);
    assert("lines"@.len() == 5);
    assert("functions"@.len() == 9);
    assert("dependencies"@.len() == 12);
    assert("architecture"@.len() == 12);
    assert("issues"@.len() == 6);
    assert("summary"@.len() == 7);
}

/// Once the history was read, the answer for a file shows what that history says of it; and a
/// failed attempt to read it changes no answer.
pub proof fn files_show_the_history_that_was_read(
    outcome: Result<EvolutionReport, String>,
    tier: Tier,
    before: McpState,
    after: McpState,
    answer: Result<Value, String>,
    snapshot: Snapshot,
    health: HealthReport,
    arch: ArchReport,
    path: Seq<char>,
    is_test: bool,
    reply: Result<Value, String>,
)
    requires
        ends_evolution(outcome, tier, before, after, answer),
        file_info_reply(reply, snapshot, health, arch, after.cached_evolution, path, is_test),
        reply is Ok,
    ensures
        match outcome {
            Ok(report) => entry(json_of(reply->Ok_0), "git_history"@) == Some(history_json(report, path)),
            Err(_) => file_info_reply(
                reply,
                snapshot,
                health,
                arch,
                before.cached_evolution,
                path,
                is_test,
            ),
        },
{
    if let Some(node) = find_file(files(snapshot.root), path) {
        history_is_shown_once_read(snapshot, health, arch, after.cached_evolution, node, path, is_test);
    }
}

proof fn lemma_file_at(nodes: Seq<FileNode>, path: Seq<char>)
    ensures
        file_at(nodes, path) matches Some(node) ==> nodes.contains(node) && node.path@ == path,
        has_path(nodes, path) <==> file_at(nodes, path) is Some,
    decreases nodes.len(),
{
    if nodes.len() > 0 {
        let rest = nodes.drop_first();
        lemma_file_at(rest, path);
        if let Some(node) = file_at(rest, path) {
            let i = choose|i: int| 0 <= i < rest.len() && rest[i] == node;
            assert(nodes[i + 1] == node);
        }
        if has_path(nodes, path) {
            let i = choose|i: int| 0 <= i < nodes.len() && (#[trigger] nodes[i]).path@ == path;
            if i > 0 {
                assert(rest[i - 1] == nodes[i]);
            }
        }
        assert(nodes[0] == nodes.first());
    }
}

proof fn lemma_first_named(nodes: Seq<FileNode>, path: Seq<char>)
    ensures
        first_named(nodes, path) matches Some(node) ==> nodes.contains(node) && names(node, path),
        forall|i: int|
            0 <= i < nodes.len() && names(#[trigger] nodes[i], path) ==> first_named(nodes, path) is Some,
    decreases nodes.len(),
{
    if nodes.len() > 0 {
        let rest = nodes.drop_first();
        lemma_first_named(rest, path);
        if let Some(node) = first_named(rest, path) {
            let i = choose|i: int| 0 <= i < rest.len() && rest[i] == node;
            assert(nodes[i + 1] == node);
        }
        assert forall|i: int| 0 <= i < nodes.len() && names(#[trigger] nodes[i], path) implies first_named(
            nodes,
            path,
        ) is Some by {
            if i > 0 {
                assert(rest[i - 1] == nodes[i]);
            }
        }
        assert(nodes[0] == nodes.first());
    }
}

/// The path of a scanned file finds a file with that very path, whatever other paths end in it.
/// Any other path finds a file that it names, wherever there is one.
pub proof fn scanned_paths_are_found(nodes: Seq<FileNode>, path: Seq<char>)
    ensures
        has_path(nodes, path) ==> find_file(nodes, path) is Some && find_file(nodes, path)->0.path@
            == path,
        find_file(nodes, path) matches Some(node) ==> nodes.contains(node) && names(node, path),
        forall|i: int|
            0 <= i < nodes.len() && names(#[trigger] nodes[i], path) ==> find_file(nodes, path) is Some,
{
    lemma_file_at(nodes, path);
    lemma_first_named(nodes, path);
}

proof fn lemma_reply_keys()
    ensures
        "path"@.len() == 4,
        "lang"@.len() == 4,
        "is_test"@.len() == 7,
        "is_entry_point"@.len() == 14,
        "lines"@.len() == 5,
        "functions"@.len() == 9,
        "dependencies"@.len() == 12,
        "architecture"@.len() == 12,
        "issues"@.len() == 6,
        "summary"@.len() == 7,
        "git_history"@.len() == 11,
        "path"@[0] == 'p',
        "lang"@[0] == 'l',
        "is_test"@[0] == 'i',
        "summary"@[0] == 's',
        "dependencies"@[0] == 'd',
        "architecture"@[0] == 'a',
{
    reveal_strlit("path");
    reveal_strlit("lang");
    reveal_strlit("is_test");
    reveal_strlit("is_entry_point");
    reveal_strlit("lines");
    reveal_strlit("functions");
    reveal_strlit("dependencies");
    reveal_strlit("architecture");
    reveal_strlit("issues");
    reveal_strlit("summary");
    reveal_strlit("git_history");
}

proof fn lemma_lines_keys()
    ensures
        "total"@.len() == 5,
        "logic"@.len() == 5,
        "comments"@.len() == 8,
        "blanks"@.len() == 6,
        "total"@[0] == 't',
        "logic"@[0] == 'l',
{
    reveal_strlit("total");
    reveal_strlit("logic");
    reveal_strlit("comments");
    reveal_strlit("blanks");
}

proof fn lemma_functions_keys()
    ensures
        "count"@.len() == 5,
        "details"@.len() == 7,
{
    reveal_strlit("count");
    reveal_strlit("details");
}

proof fn lemma_func_keys()
    ensures
        "name"@.len() == 4,
        "lines"@.len() == 5,
        "cc"@.len() == 2,
        "cognitive"@.len() == 9,
        "params"@.len() == 6,
        "is_public"@.len() == 9,
        "cognitive"@[0] == 'c',
        "is_public"@[0] == 'i',
{
    reveal_strlit("name");
    reveal_strlit("lines");
    reveal_strlit("cc");
    reveal_strlit("cognitive");
    reveal_strlit("params");
    reveal_strlit("is_public");
}

proof fn lemma_dependencies_keys()
    ensures
        "fan_in"@.len() == 6,
        "fan_out"@.len() == 7,
        "instability"@.len() == 11,
        "imports"@.len() == 7,
        "imported_by"@.len() == 11,
        "fan_out"@[0] == 'f',
        "imports"@[0] == 'i',
        "instability"@[1] == 'n',
        "imported_by"@[1] == 'm',
{
    reveal_strlit("fan_in");
    reveal_strlit("fan_out");
    reveal_strlit("instability");
    reveal_strlit("imports");
    reveal_strlit("imported_by");
}

proof fn lemma_architecture_keys()
    ensures
        "level"@.len() == 5,
        "max_level"@.len() == 9,
        "blast_radius"@.len() == 12,
        "exec_depth"@.len() == 10,
{
    reveal_strlit("level");
    reveal_strlit("max_level");
    reveal_strlit("blast_radius");
    reveal_strlit("exec_depth");
}

proof fn lemma_history_keys()
    ensures
        "churn"@.len() == 5,
        "code_age_days"@.len() == 13,
        "authors"@.len() == 7,
        "temporal_hotspot"@.len() == 16,
        "change_coupling"@.len() == 15,
{
    reveal_strlit("churn");
    reveal_strlit("code_age_days");
    reveal_strlit("authors");
    reveal_strlit("temporal_hotspot");
    reveal_strlit("change_coupling");
}

proof fn lemma_churn_keys()
    ensures
        "commits"@.len() == 7,
        "lines_added"@.len() == 11,
        "lines_removed"@.len() == 13,
        "total_churn"@.len() == 11,
        "lines_added"@[0] == 'l',
        "total_churn"@[0] == 't',
{
    reveal_strlit("commits");
    reveal_strlit("lines_added");
    reveal_strlit("lines_removed");
    reveal_strlit("total_churn");
}

proof fn lemma_authors_keys()
    ensures
        "count"@.len() == 5,
        "primary"@.len() == 7,
        "primary_ratio"@.len() == 13,
        "all"@.len() == 3,
{
    reveal_strlit("count");
    reveal_strlit("primary");
    reveal_strlit("primary_ratio");
    reveal_strlit("all");
}

proof fn lemma_hotspot_keys()
    ensures
        "risk_score"@.len() == 10,
        "churn"@.len() == 5,
        "complexity"@.len() == 10,
        "risk_score"@[0] == 'r',
        "complexity"@[0] == 'c',
{
    reveal_strlit("risk_score");
    reveal_strlit("churn");
    reveal_strlit("complexity");
}

proof fn lemma_pair_keys()
    ensures
        "coupled_with"@.len() == 12,
        "co_changes"@.len() == 10,
        "strength"@.len() == 8,
{
    reveal_strlit("coupled_with");
    reveal_strlit("co_changes");
    reveal_strlit("strength");
}


/// A file is shown under the path that was asked for, with its own language and numbers of lines,
/// and as an entry point just when execution starts there.
pub proof fn a_file_is_shown_with_its_lines(
    snapshot: Snapshot,
    health: HealthReport,
    arch: ArchReport,
    evolution: Option<EvolutionReport>,
    node: FileNode,
    path: Seq<char>,
    is_test: bool,
)
    ensures
        ({
            let reply = file_info_json(snapshot, health, arch, evolution, node, path, is_test);
            &&& entry(reply, "path"@) == Some(Json::Str(path))
            &&& entry(reply, "lang"@) == Some(Json::Str(node.lang@))
            &&& entry(reply, "is_test"@) == Some(Json::Bool(is_test))
            &&& entry(reply, "is_entry_point"@) == Some(
                Json::Bool(
                    exists|i: int|
                        0 <= i < snapshot.entry_points@.len() && (#[trigger] snapshot.entry_points@[i]).file@ == path,
                ),
            )
            &&& entry(reply, "lines"@) matches Some(lines) && {
                &&& entry(lines, "total"@) == Some(Json::Int(node.lines as int))
                &&& entry(lines, "logic"@) == Some(Json::Int(node.logic as int))
                &&& entry(lines, "comments"@) == Some(Json::Int(node.comments as int))
                &&& entry(lines, "blanks"@) == Some(Json::Int(node.blanks as int))
            }
        }),
{
    lemma_reply_keys();
    lemma_lines_keys();
}

/// The functions of a file are shown, as many as the parser reports, and of each its own name,
/// length, complexities, number of parameters and visibility.
pub proof fn functions_are_shown_field_by_field(
    snapshot: Snapshot,
    health: HealthReport,
    arch: ArchReport,
    evolution: Option<EvolutionReport>,
    node: FileNode,
    path: Seq<char>,
    is_test: bool,
    i: int,
)
    requires
        node.sa is Some,
        node.sa->0.functions is Some,
        0 <= i < node.sa->0.functions->0@.len(),
    ensures
        entry(file_info_json(snapshot, health, arch, evolution, node, path, is_test), "functions"@) matches Some(shown) && {
            let func = by_complexity(node.sa->0.functions->0@)[i];
            &&& entry(shown, "count"@) == Some(Json::Int(node.funcs as int))
            &&& entry(shown, "details"@) matches Some(Json::Arr(details)) && {
                &&& details.len() == node.sa->0.functions->0@.len()
                &&& entry(details[i], "name"@) == Some(Json::Str(func.n@))
                &&& entry(details[i], "lines"@) == Some(Json::Int(func.ln as int))
                &&& entry(details[i], "cc"@) == Some(
                    if func.cc is Some { Json::Int(func.cc->0 as int) } else { Json::Null },
                )
                &&& entry(details[i], "cognitive"@) == Some(
                    if func.cog is Some { Json::Int(func.cog->0 as int) } else { Json::Null },
                )
                &&& entry(details[i], "params"@) == Some(
                    if func.pc is Some { Json::Int(func.pc->0 as int) } else { Json::Null },
                )
                &&& entry(details[i], "is_public"@) == Some(Json::Bool(func.is_public))
            }
        },
{
    let funcs = node.sa->0.functions->0@;
    lemma_reply_keys();
    lemma_functions_keys();
    lemma_func_keys();
    ranked_is_a_permutation(ByComplexity, funcs.map_values(|f: FuncInfo| &f));
    assert(function_details(node)[i] == func_json(by_complexity(funcs)[i]));
}

/// Of a file that the parser reports no functions for none is shown, but their number is.
pub proof fn no_functions_are_shown_without_a_report(
    snapshot: Snapshot,
    health: HealthReport,
    arch: ArchReport,
    evolution: Option<EvolutionReport>,
    node: FileNode,
    path: Seq<char>,
    is_test: bool,
)
    requires
        node.sa is None || node.sa->0.functions is None,
    ensures
        entry(file_info_json(snapshot, health, arch, evolution, node, path, is_test), "functions"@) matches Some(shown) && {
            &&& entry(shown, "count"@) == Some(Json::Int(node.funcs as int))
            &&& entry(shown, "details"@) == Some(Json::Arr(Seq::empty()))
        },
{
    lemma_reply_keys();
    lemma_functions_keys();
}

/// Under `imports` stand the files that the file depends on, under `imported_by` those that depend
/// on it, each once; fan-out and fan-in are their numbers.
pub proof fn neighbours_are_shown_by_direction(
    snapshot: Snapshot,
    health: HealthReport,
    arch: ArchReport,
    evolution: Option<EvolutionReport>,
    node: FileNode,
    path: Seq<char>,
    is_test: bool,
    other: Seq<char>,
)
    ensures
        entry(file_info_json(snapshot, health, arch, evolution, node, path, is_test), "dependencies"@) matches Some(shown) && {
            &&& entry(shown, "imports"@) matches Some(Json::Arr(imports)) && {
                &&& entry(shown, "fan_out"@) == Some(Json::Int(imports.len() as int))
                &&& imports.no_duplicates()
                &&& imports.contains(Json::Str(other)) <==> imports_join(snapshot.import_graph@, path, other)
                    || calls_join(snapshot.call_graph@, path, other)
            }
            &&& entry(shown, "imported_by"@) matches Some(Json::Arr(importers)) && {
                &&& entry(shown, "fan_in"@) == Some(Json::Int(importers.len() as int))
                &&& importers.no_duplicates()
                &&& importers.contains(Json::Str(other)) <==> imports_join(snapshot.import_graph@, other, path)
                    || calls_join(snapshot.call_graph@, other, path)
            }
            &&& entry(shown, "instability"@) == Some(
                Json::Int(
                    points(
                        instability(
                            sources(snapshot.links(), path).len() as int,
                            targets(snapshot.links(), path).len() as int,
                        ),
                    ),
                ),
            )
        },
{
    lemma_reply_keys();
    lemma_dependencies_keys();
    each_neighbour_is_listed_once(snapshot, path, other);
    lemma_strings(targets(snapshot.links(), path), other);
    lemma_strings(sources(snapshot.links(), path), other);
}

proof fn lemma_strings(texts: Seq<Seq<char>>, other: Seq<char>)
    requires
        texts.no_duplicates(),
    ensures
        strings(texts)->Arr_0.no_duplicates(),
        strings(texts)->Arr_0.len() == texts.len(),
        strings(texts)->Arr_0.contains(Json::Str(other)) <==> texts.contains(other),
{
    let shown = strings(texts)->Arr_0;
    if texts.contains(other) {
        let i = choose|i: int| 0 <= i < texts.len() && texts[i] == other;
        assert(shown[i] == Json::Str(other));
    }
    if shown.contains(Json::Str(other)) {
        let i = choose|i: int| 0 <= i < shown.len() && shown[i] == Json::Str(other);
        assert(texts[i] == other);
    }
    assert forall|i: int, j: int| 0 <= i < shown.len() && 0 <= j < shown.len() && i != j implies shown[i]
        != shown[j] by {
        assert(texts[i] != texts[j]);
    }
}

/// Where a file stands in the architecture is shown by what each map holds for its path, and as
/// `null` where a map holds nothing.
pub proof fn the_place_of_a_file_is_shown_by_its_path(
    snapshot: Snapshot,
    health: HealthReport,
    arch: ArchReport,
    evolution: Option<EvolutionReport>,
    node: FileNode,
    path: Seq<char>,
    is_test: bool,
)
    ensures
        entry(file_info_json(snapshot, health, arch, evolution, node, path, is_test), "architecture"@) matches Some(shown) && {
            &&& entry(shown, "level"@) == Some(
                if arch.levels@.contains_key(path) { Json::Int(arch.levels@[path] as int) } else { Json::Null },
            )
            &&& entry(shown, "max_level"@) == Some(Json::Int(arch.max_level as int))
            &&& entry(shown, "blast_radius"@) == Some(
                if arch.blast_radius@.contains_key(path) {
                    Json::Int(arch.blast_radius@[path] as int)
                } else {
                    Json::Null
                },
            )
            &&& entry(shown, "exec_depth"@) == Some(
                if snapshot.exec_depth@.contains_key(path) {
                    Json::Int(snapshot.exec_depth@[path] as int)
                } else {
                    Json::Null
                },
            )
        },
{
    lemma_reply_keys();
    lemma_architecture_keys();
}

/// The issues of a file are those that the report lists under the path that was asked for, and the
/// summary puts them in words.
pub proof fn issues_are_shown_for_the_path(
    snapshot: Snapshot,
    health: HealthReport,
    arch: ArchReport,
    evolution: Option<EvolutionReport>,
    node: FileNode,
    path: Seq<char>,
    is_test: bool,
)
    ensures
        entry(file_info_json(snapshot, health, arch, evolution, node, path, is_test), "issues"@) == Some(issues_json(issues_of(health, path))),
        entry(file_info_json(snapshot, health, arch, evolution, node, path, is_test), "summary"@) == Some(
            Json::Str(summary_of(issue_parts(issues_of(health, path), node.lines))),
        ),
{
    lemma_reply_keys();
}

/// How often a file changed, how old it is and who wrote it are shown just where the history knows
/// it, each figure under its name.
pub proof fn the_history_of_a_file_is_shown_by_its_path(evolution: EvolutionReport, path: Seq<char>)
    ensures
        ({
            let shown = history_json(evolution, path);
            &&& entry(shown, "churn"@) is Some <==> evolution.churn@.contains_key(path)
            &&& entry(shown, "churn"@) matches Some(churn) ==> {
                let known = evolution.churn@[path];
                &&& entry(churn, "commits"@) == Some(Json::Int(known.commit_count as int))
                &&& entry(churn, "lines_added"@) == Some(Json::Int(known.lines_added as int))
                &&& entry(churn, "lines_removed"@) == Some(Json::Int(known.lines_removed as int))
                &&& entry(churn, "total_churn"@) == Some(Json::Int(known.total_churn as int))
            }
            &&& entry(shown, "code_age_days"@) == if evolution.code_age@.contains_key(path) {
                Some(Json::Int(evolution.code_age@[path] as int))
            } else {
                None
            }
            &&& entry(shown, "authors"@) is Some <==> evolution.authors@.contains_key(path)
            &&& entry(shown, "authors"@) matches Some(authors) ==> {
                let known = evolution.authors@[path];
                &&& entry(authors, "count"@) == Some(Json::Int(known.author_count as int))
                &&& entry(authors, "primary"@) == Some(Json::Str(known.primary_author@))
                &&& entry(authors, "primary_ratio"@) == Some(Json::Int(points_of(known.primary_ratio)))
                &&& entry(authors, "all"@) == Some(json_of(known.authors))
            }
        }),
{
    lemma_history_keys();
    lemma_churn_keys();
    lemma_authors_keys();
}

proof fn lemma_find_hotspot(hotspots: Seq<TemporalHotspot>, path: Seq<char>, i: int)
    ensures
        find_hotspot(hotspots, path) is Some <==> exists|k: int|
            0 <= k < hotspots.len() && (#[trigger] hotspots[k]).file@ == path,
        0 <= i < hotspots.len() && hotspots[i].file@ == path && (forall|k: int|
            0 <= k < i ==> (#[trigger] hotspots[k]).file@ != path) ==> find_hotspot(hotspots, path) == Some(
            hotspots[i],
        ),
    decreases hotspots.len(),
{
    if hotspots.len() > 0 {
        let rest = hotspots.drop_first();
        lemma_find_hotspot(rest, path, i - 1);
        assert(forall|k: int| 0 <= k < rest.len() ==> #[trigger] rest[k] == hotspots[k + 1]);
        if exists|k: int| 0 <= k < rest.len() && (#[trigger] rest[k]).file@ == path {
            let k = choose|k: int| 0 <= k < rest.len() && (#[trigger] rest[k]).file@ == path;
            assert(hotspots[k + 1].file@ == path);
        }
        if exists|k: int| 0 <= k < hotspots.len() && (#[trigger] hotspots[k]).file@ == path {
            let k = choose|k: int| 0 <= k < hotspots.len() && (#[trigger] hotspots[k]).file@ == path;
            if k > 0 {
                assert(rest[k - 1].file@ == path);
            }
        }
        if 0 < i < hotspots.len() && hotspots[i].file@ == path && (forall|k: int|
            0 <= k < i ==> (#[trigger] hotspots[k]).file@ != path) {
            assert(hotspots[0].file@ != path);
            assert forall|k: int| 0 <= k < i - 1 implies (#[trigger] rest[k]).file@ != path by {
                assert(hotspots[k + 1].file@ != path);
            }
            assert(rest[i - 1] == hotspots[i]);
        }
    }
}

/// A file is shown as risky just when one of the risky files of the report has its path, and then
/// with the figures of the first of them.
pub proof fn risky_files_are_shown_as_such(evolution: EvolutionReport, path: Seq<char>, i: int)
    ensures
        entry(history_json(evolution, path), "temporal_hotspot"@) is Some <==> exists|k: int|
            0 <= k < evolution.hotspots@.len() && (#[trigger] evolution.hotspots@[k]).file@ == path,
        0 <= i < evolution.hotspots@.len() && evolution.hotspots@[i].file@ == path && (forall|k: int|
            0 <= k < i ==> (#[trigger] evolution.hotspots@[k]).file@ != path) ==> (entry(
            history_json(evolution, path),
            "temporal_hotspot"@,
        ) matches Some(shown) && {
            let hotspot = evolution.hotspots@[i];
            &&& entry(shown, "risk_score"@) == Some(json_of(hotspot.risk_score))
            &&& entry(shown, "churn"@) == Some(Json::Int(hotspot.churn_count as int))
            &&& entry(shown, "complexity"@) == Some(Json::Int(hotspot.max_complexity as int))
        }),
{
    lemma_history_keys();
    lemma_hotspot_keys();
    lemma_find_hotspot(evolution.hotspots@, path, i);
}

/// Those of `pairs` that `path` is in, on either side.
pub open spec fn pairs_with(pairs: Seq<CouplingPair>, path: Seq<char>) -> Seq<CouplingPair> {
    pairs.filter(|pair: CouplingPair| pair.file_a@ == path || pair.file_b@ == path)
}

proof fn lemma_pairs(pairs: Seq<CouplingPair>, path: Seq<char>)
    ensures
        pairs_json(pairs, path) == pairs_with(pairs, path).map_values(
            |pair: CouplingPair| pair_json(pair, path),
        ),
    decreases pairs.len(),
{
    reveal(Seq::filter);
    let f = |pair: CouplingPair| pair_json(pair, path);
    if pairs.len() == 0 {
        assert(pairs_json(pairs, path) =~= pairs_with(pairs, path).map_values(f));
    } else {
        let shorter = pairs.drop_last();
        let last = pairs.last();
        lemma_pairs(shorter, path);
        if last.file_a@ == path || last.file_b@ == path {
            assert(pairs_with(pairs, path) =~= pairs_with(shorter, path).push(last));
            assert(pairs_with(pairs, path).map_values(f) =~= pairs_with(shorter, path).map_values(f).push(
                f(last),
            ));
        } else {
            assert(pairs_with(pairs, path) =~= pairs_with(shorter, path));
        }
    }
}

/// The files that change together with a file are shown just where there are any: one for each pair
/// that it is in, in their order, and of each the other file, the number of common changes and the
/// strength.
pub proof fn files_that_change_together_are_shown(evolution: EvolutionReport, path: Seq<char>, i: int)
    ensures
        ({
            let pairs = pairs_with(evolution.coupling_pairs@, path);
            let shown = entry(history_json(evolution, path), "change_coupling"@);
            &&& shown is Some <==> pairs.len() > 0
            &&& 0 <= i < pairs.len() ==> (shown matches Some(Json::Arr(list)) && {
                &&& list.len() == pairs.len()
                &&& entry(list[i], "coupled_with"@) == Some(
                    Json::Str(if pairs[i].file_a@ == path { pairs[i].file_b@ } else { pairs[i].file_a@ }),
                )
                &&& entry(list[i], "co_changes"@) == Some(Json::Int(pairs[i].co_change_count as int))
                &&& entry(list[i], "strength"@) == Some(Json::Int(points_of(pairs[i].coupling_strength)))
            })
        }),
{
    lemma_history_keys();
    lemma_pair_keys();
    lemma_pairs(evolution.coupling_pairs@, path);
}

/// A path names a file just when it is its path, or what follows a slash in it up to the end.
pub proof fn names_are_paths_and_their_tails(node: FileNode, path: Seq<char>)
    ensures
        names(node, path) <==> node.path@ == path || exists|dir: Seq<char>|
            node.path@ == #[trigger] (dir + (seq!['/'] + path)),
{
    ends_and_starts_are_parts(node.path@, seq!['/'] + path);
}

proof fn lemma_first_at(nodes: Seq<FileNode>, path: Seq<char>, i: int)
    requires
        0 <= i < nodes.len(),
    ensures
        nodes[i].path@ == path && (forall|k: int| 0 <= k < i ==> (#[trigger] nodes[k]).path@ != path)
            ==> file_at(nodes, path) == Some(nodes[i]),
        names(nodes[i], path) && (forall|k: int| 0 <= k < i ==> !names(#[trigger] nodes[k], path))
            ==> first_named(nodes, path) == Some(nodes[i]),
    decreases nodes.len(),
{
    if i > 0 {
        let rest = nodes.drop_first();
        lemma_first_at(rest, path, i - 1);
        assert(forall|k: int| 0 <= k < rest.len() ==> #[trigger] rest[k] == nodes[k + 1]);
        if forall|k: int| 0 <= k < i ==> (#[trigger] nodes[k]).path@ != path {
            assert(nodes[0].path@ != path);
            assert(forall|k: int| 0 <= k < i - 1 ==> (#[trigger] rest[k]).path@ != path);
        }
        if forall|k: int| 0 <= k < i ==> !names(#[trigger] nodes[k], path) {
            assert(!names(nodes[0], path));
            assert(forall|k: int| 0 <= k < i - 1 ==> !names(#[trigger] rest[k], path));
        }
    }
}

/// Of several files with a path the first is found; and where none has it, the first that the path
/// names.
pub proof fn the_first_file_is_found(nodes: Seq<FileNode>, path: Seq<char>, i: int)
    requires
        0 <= i < nodes.len(),
    ensures
        nodes[i].path@ == path && (forall|k: int| 0 <= k < i ==> (#[trigger] nodes[k]).path@ != path)
            ==> find_file(nodes, path) == Some(nodes[i]),
        !has_path(nodes, path) && names(nodes[i], path) && (forall|k: int|
            0 <= k < i ==> !names(#[trigger] nodes[k], path)) ==> find_file(nodes, path) == Some(nodes[i]),
{
    lemma_first_at(nodes, path, i);
    lemma_file_at(nodes, path);
}

/// A request is answered just where the path names a scanned file, and with the path as it was asked
/// for.
pub proof fn requests_for_scanned_files_are_answered(
    reply: Result<Value, String>,
    snapshot: Snapshot,
    health: HealthReport,
    arch: ArchReport,
    evolution: Option<EvolutionReport>,
    path: Seq<char>,
    is_test: bool,
)
    requires
        file_info_reply(reply, snapshot, health, arch, evolution, path, is_test),
    ensures
        reply is Ok <==> exists|i: int|
            0 <= i < files(snapshot.root).len() && names(#[trigger] files(snapshot.root)[i], path),
        reply is Ok ==> entry(json_of(reply->Ok_0), "path"@) == Some(Json::Str(path)),
{
    let nodes = files(snapshot.root);
    scanned_paths_are_found(nodes, path);
    if let Some(node) = find_file(nodes, path) {
        let i = choose|i: int| 0 <= i < nodes.len() && nodes[i] == node;
        assert(names(nodes[i], path));
        a_file_is_shown_with_its_lines(snapshot, health, arch, evolution, node, path, is_test);
    }
}

/// The path of a request is the text that it holds under `path`, cleaned; without one there is none.
pub proof fn the_path_is_that_of_the_request(args: Json)
    ensures
        (args is Obj && args->Obj_0.contains_key("path"@) && args->Obj_0["path"@] is Str) ==> requested_path(
            args,
        ) == Some(plain_path(args->Obj_0["path"@]->Str_0)),
        !(args is Obj && args->Obj_0.contains_key("path"@) && args->Obj_0["path"@] is Str) ==> requested_path(
            args,
        ) is None,
{
}

/// Whether a file is shown as a test is what was told of the path that was asked for, cleaned.
pub proof fn test_files_are_told_by_the_path_asked_for<T: Fn(&str) -> bool>(
    is_test_file: T,
    snapshot: Snapshot,
    health: HealthReport,
    arch: ArchReport,
    evolution: Option<EvolutionReport>,
    path: Seq<char>,
    reply: Result<Value, String>,
)
    requires
        answers_file_info(is_test_file, snapshot, health, arch, evolution, path, reply),
        reply is Ok,
    ensures
        entry(json_of(reply->Ok_0), "is_test"@) == Some(Json::Bool(true)) || entry(
            json_of(reply->Ok_0),
            "is_test"@,
        ) == Some(Json::Bool(false)),
        entry(json_of(reply->Ok_0), "is_test"@) == Some(Json::Bool(true)) ==> exists|asked: &str|
            asked@ == path && #[trigger] is_test_file.ensures((asked,), true),
        entry(json_of(reply->Ok_0), "is_test"@) == Some(Json::Bool(false)) ==> exists|asked: &str|
            asked@ == path && #[trigger] is_test_file.ensures((asked,), false),
        entry(json_of(reply->Ok_0), "path"@) == Some(Json::Str(path)),
{
    if let Some(node) = find_file(files(snapshot.root), path) {
        if told_one(is_test_file, path, true) && file_info_reply(
            reply,
            snapshot,
            health,
            arch,
            evolution,
            path,
            true,
        ) {
            a_file_is_shown_with_its_lines(snapshot, health, arch, evolution, node, path, true);
        } else {
            a_file_is_shown_with_its_lines(snapshot, health, arch, evolution, node, path, false);
        }
    }
}

} // verus!
