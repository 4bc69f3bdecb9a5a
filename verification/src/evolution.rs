//! The `git_stats` tool: what the history of the scanned code shows.

use crate::json::{count_entry, duplicate, entry, first, from_str, from_u64, from_vec, get_count, json_of, object, put, Json};
use crate::measures::{number_json, scale_bits, scaled_bits};
use crate::reports::{EvolutionReport, McpState, TemporalHotspot, Tier};
use crate::snapshot::{files, Snapshot};
use crate::text::ends_with;
use crate::tree::{build_complexity_map, build_known_files, complexities_are_those_of_files, max_cc, paths, with_complexities};
use serde_json::Value;
use vstd::hash_map::StringHashMap;
use vstd::hash_set::StringHashSet;
use vstd::prelude::*;

verus! {

/// How many days back a request asks to look, where it says so; only the low 32 bits count.
pub open spec fn requested_days(args: Json) -> Option<u32> {
    match count_entry(args, "days"@) {
        Some(n) => Some((n % 0x1_0000_0000) as u32),
        None => None,
    }
}

/// How many days back a request asks to look, where it says so.
pub fn get_days(args: &Value) -> (days: Option<u32>)
    ensures
        days == requested_days(json_of(*args)),
{
    match get_count(args, "days") {
        Some(n) => Some((n % 0x1_0000_0000) as u32),
        None => None,
    }
}

/// A risky file as a JSON object.
pub open spec fn named_hotspot_json(hotspot: TemporalHotspot) -> Json {
    Json::Obj(
        map![
            "file"@ => Json::Str(hotspot.file@),
            "risk_score"@ => json_of(hotspot.risk_score),
            "churn"@ => Json::Int(hotspot.churn_count as int),
            "complexity"@ => Json::Int(hotspot.max_complexity as int),
        ],
    )
}

/// What the history shows, as a JSON object; risky files are named in the pro tier only.
pub open spec fn evolution_json(report: EvolutionReport, tier: Tier) -> Json {
    let entries = map![
        "lookback_days"@ => Json::Int(report.lookback_days as int),
        "commits_analyzed"@ => Json::Int(report.commits_analyzed as int),
        "files_with_churn"@ => Json::Int(report.churn@.len() as int),
        "single_author_ratio"@ => number_json(report.single_author_ratio@),
        "coupling_pairs_found"@ => Json::Int(report.coupling_pairs@.len() as int),
        "hotspot_count"@ => Json::Int(report.hotspots@.len() as int),
        "bus_factor_solo_files"@ => Json::Int(
            scaled_bits(report.single_author_ratio@, report.churn@.len() as int),
        ),
    ];
    if tier is Pro {
        Json::Obj(
            entries.insert(
                "top_hotspots"@,
                Json::Arr(
                    first(report.hotspots@, 10).map_values(
                        |hotspot: TemporalHotspot| named_hotspot_json(hotspot),
                    ),
                ),
            ),
        )
    } else {
        Json::Obj(entries)
    }
}

/// The riskiest files as JSON objects, ten of them at most.
fn hotspot_values(hotspots: &Vec<TemporalHotspot>) -> (items: Vec<Value>)
    ensures
        items@.map_values(|v: Value| json_of(v)) == first(hotspots@, 10).map_values(
            |hotspot: TemporalHotspot| named_hotspot_json(hotspot),
        ),
{
    let count: usize = if hotspots.len() < 10 { hotspots.len() } else { 10 };
    let mut items: Vec<Value> = Vec::new();
    for i in 0..count
        invariant
            items.len() == i,
            count <= hotspots.len(),
            forall|j: int| 0 <= j < i ==> json_of(#[trigger] items@[j]) == named_hotspot_json(hotspots@[j]),
    {
        let hotspot: &TemporalHotspot = &hotspots[i];
        let mut value: Value = object();
        put(&mut value, "file", from_str(hotspot.file.as_str()));
        put(&mut value, "risk_score", duplicate(&hotspot.risk_score));
        put(&mut value, "churn", from_u64(hotspot.churn_count as u64));
        put(&mut value, "complexity", from_u64(hotspot.max_complexity as u64));
        items.push(value);
    }
    assert(items@.map_values(|v: Value| json_of(v)) =~= first(hotspots@, 10).map_values(
        |hotspot: TemporalHotspot| named_hotspot_json(hotspot),
    ));
    items
}

/// What the history shows, as a JSON object.
pub fn evolution_reply(report: &EvolutionReport, tier: &Tier) -> (value: Value)
    ensures
        json_of(value) == evolution_json(*report, *tier),
{
    let churned: usize = report.churn.len();
    let mut value: Value = object();
    put(&mut value, "lookback_days", from_u64(report.lookback_days as u64));
    put(&mut value, "commits_analyzed", from_u64(report.commits_analyzed as u64));
    put(&mut value, "files_with_churn", from_u64(churned as u64));
    put(&mut value, "single_author_ratio", report.single_author_ratio.to_json());
    put(&mut value, "coupling_pairs_found", from_u64(report.coupling_pairs.len() as u64));
    put(&mut value, "hotspot_count", from_u64(report.hotspots.len() as u64));
    put(
        &mut value,
        "bus_factor_solo_files",
        from_u64(scale_bits(report.single_author_ratio.bits(), churned as u64) as u64),
    );
    if tier.is_pro() {
        put(&mut value, "top_hotspots", from_vec(hotspot_values(&report.hotspots)));
    }
    value
}

/// How a request for the history ends, where reading it came to `outcome`: a report is kept for
/// other tools and answered, a failure is answered and leaves all as it was.
pub open spec fn ends_evolution(
    outcome: Result<EvolutionReport, String>,
    tier: Tier,
    before: McpState,
    after: McpState,
    reply: Result<Value, String>,
) -> bool {
    match outcome {
        Ok(report) => {
            &&& reply is Ok
            &&& json_of(reply->Ok_0) == evolution_json(report, tier)
            &&& after == (McpState { cached_evolution: Some(report), ..before })
        },
        Err(error) => {
            &&& reply is Err
            &&& reply->Err_0@ == "Evolution analysis failed: "@ + error@
            &&& after == before
        },
    }
}

/// Takes in what reading the history came to: a report is kept for other tools and answered, a
/// failure is answered and leaves all as it was.
pub fn finish_evolution(
    outcome: Result<EvolutionReport, String>,
    tier: &Tier,
    state: &mut McpState,
) -> (reply: Result<Value, String>)
    ensures
        ends_evolution(outcome, *tier, *old(state), *final(state), reply),
{
    match outcome {
        Ok(report) => {
            let value: Value = evolution_reply(&report, tier);
            state.cached_evolution = Some(report);
            Ok(value)
        },
        Err(error) => Err("Evolution analysis failed: ".to_owned().concat(error.as_str())),
    }
}

/// What reading the history needs to know: where, of which files, and how far back.
pub struct EvolutionRequest {
    /// The scanned directory.
    pub root: String,
    /// The paths of the scanned files.
    pub known: StringHashSet,
    /// The complexity of files, by path.
    pub complexity: StringHashMap<u32>,
    /// How many days back to look, where the request says so.
    pub days: Option<u32>,
}

/// Whether `request` asks for the history of the scanned code, as `args` want it.
pub open spec fn asks_for_history(request: EvolutionRequest, args: Json, root: Seq<char>, snapshot: Snapshot) -> bool {
    &&& request.root@ == root
    &&& request.known@ == paths(files(snapshot.root))
    &&& request.complexity@ == with_complexities(Map::empty(), files(snapshot.root))
    &&& request.days == requested_days(args)
}

/// What reading the history needs to know, or why there is none to read.
pub fn begin_evolution(args: &Value, state: &McpState) -> (request: Result<EvolutionRequest, String>)
    ensures
        match (state.scan_root, state.cached_snapshot) {
            (None, _) => request is Err && request->Err_0@ == "No scan root. Call 'scan' first."@,
            (Some(_), None) => request is Err && request->Err_0@ == "No scan data. Call 'scan' first."@,
            (Some(root), Some(snapshot)) => request is Ok && asks_for_history(
                request->Ok_0,
                json_of(*args),
                root@,
                snapshot,
            ),
        },
{
    match (&state.scan_root, &state.cached_snapshot) {
        (None, _) => Err("No scan root. Call 'scan' first.".to_owned()),
        (Some(_), None) => Err("No scan data. Call 'scan' first.".to_owned()),
        (Some(root), Some(snapshot)) => Ok(
            EvolutionRequest {
                root: root.clone(),
                known: build_known_files(snapshot),
                complexity: build_complexity_map(snapshot),
                days: get_days(args),
            },
        ),
    }
}

/// Whether a request for the history of the scan ended as reading it came to.
pub open spec fn answers_evolution<F: FnOnce(&EvolutionRequest) -> Result<EvolutionReport, String>>(
    args: Json,
    tier: Tier,
    root: Seq<char>,
    snapshot: Snapshot,
    compute: F,
    before: McpState,
    after: McpState,
    reply: Result<Value, String>,
) -> bool {
    exists|request: EvolutionRequest, outcome: Result<EvolutionReport, String>|
        {
            &&& asks_for_history(request, args, root, snapshot)
            &&& #[trigger] compute.ensures((&request,), outcome)
            &&& ends_evolution(outcome, tier, before, after, reply)
        }
}

/// Answers a request for the history of the scanned code, and keeps the report for other tools.
///
/// `compute_evolution` reads the history.
pub fn handle_evolution<F: FnOnce(&EvolutionRequest) -> Result<EvolutionReport, String>>(
    args: &Value,
    tier: &Tier,
    state: &mut McpState,
    compute_evolution: F,
) -> (reply: Result<Value, String>)
    requires
        forall|request: &EvolutionRequest| compute_evolution.requires((request,)),
    ensures
        match (old(state).scan_root, old(state).cached_snapshot) {
            (None, _) => {
                &&& reply is Err
                &&& reply->Err_0@ == "No scan root. Call 'scan' first."@
                &&& *final(state) == *old(state)
            },
            (Some(_), None) => {
                &&& reply is Err
                &&& reply->Err_0@ == "No scan data. Call 'scan' first."@
                &&& *final(state) == *old(state)
            },
            (Some(root), Some(snapshot)) => exists|request: EvolutionRequest, outcome: Result<EvolutionReport, String>|
                {
                    &&& asks_for_history(request, json_of(*args), root@, snapshot)
                    &&& #[trigger] compute_evolution.ensures((&request,), outcome)
                    &&& ends_evolution(outcome, *tier, *old(state), *final(state), reply)
                },
        },
        old(state).scan_root is Some && old(state).cached_snapshot is Some ==> answers_evolution(
            json_of(*args),
            *tier,
            old(state).scan_root->0@,
            old(state).cached_snapshot->0,
            compute_evolution,
            *old(state),
            *final(state),
            reply,
        ),
{
    match begin_evolution(args, state) {
        Ok(request) => {
            let outcome: Result<EvolutionReport, String> = compute_evolution(&request);
            finish_evolution(outcome, tier, state)
        },
        Err(error) => Err(error),
    }
}

/// What the free tier is told of the history is what the pro tier is told, without the risky files.
pub proof fn free_history_is_pro_history_without_names(report: EvolutionReport)
    ensures
        evolution_json(report, Tier::Free) == Json::Obj(
            evolution_json(report, Tier::Pro)->Obj_0.remove("top_hotspots"@),
        ),
{
    reveal_strlit("top_hotspots");
    reveal_strlit("lookback_days");
    reveal_strlit("commits_analyzed");
    reveal_strlit("files_with_churn");
    reveal_strlit("single_author_ratio");
    reveal_strlit("coupling_pairs_found");
    reveal_strlit("hotspot_count");
    reveal_strlit("bus_factor_solo_files");
    let free = evolution_json(report, Tier::Free)->Obj_0;
    assert("top_hotspots"@.len() == 12);
    assert("lookback_days"@.len() == 13);
    assert("commits_analyzed"@.len() == 16);
    assert("files_with_churn"@.len() == 16);
    assert("single_author_ratio"@.len() == 19);
    assert("coupling_pairs_found"@.len() == 20);
    assert("hotspot_count"@.len() == 13);
    assert("bus_factor_solo_files"@.len() == 21);
    assert(!free.contains_key("top_hotspots"@));
    assert(evolution_json(report, Tier::Pro)->Obj_0.remove("top_hotspots"@) =~= free);
}

/// What the free tier is told of the history depends on counts and on a share: no path, no author
/// and no commit of a file is in it.
pub proof fn free_history_names_no_file(a: EvolutionReport, b: EvolutionReport)
    requires
        a.lookback_days == b.lookback_days,
        a.commits_analyzed == b.commits_analyzed,
        a.churn@.len() == b.churn@.len(),
        a.single_author_ratio@ == b.single_author_ratio@,
        a.coupling_pairs@.len() == b.coupling_pairs@.len(),
        a.hotspots@.len() == b.hotspots@.len(),
    ensures
        evolution_json(a, Tier::Free) == evolution_json(b, Tier::Free),
{
}

proof fn lemma_reply_keys()
    ensures
        "lookback_days"@.len() == 13,
        "commits_analyzed"@.len() == 16,
        "files_with_churn"@.len() == 16,
        "single_author_ratio"@.len() == 19,
        "coupling_pairs_found"@.len() == 20,
        "hotspot_count"@.len() == 13,
        "bus_factor_solo_files"@.len() == 21,
        "top_hotspots"@.len() == 12,
        "lookback_days"@[0] == 'l',
        "hotspot_count"@[0] == 'h',
        "commits_analyzed"@[0] == 'c',
        "files_with_churn"@[0] == 'f',
{
    reveal_strlit("lookback_days");
    reveal_strlit("commits_analyzed");
    reveal_strlit("files_with_churn");
    reveal_strlit("single_author_ratio");
    reveal_strlit("coupling_pairs_found");
    reveal_strlit("hotspot_count");
    reveal_strlit("bus_factor_solo_files");
    reveal_strlit("top_hotspots");
}

proof fn lemma_hotspot_keys()
    ensures
        "file"@.len() == 4,
        "risk_score"@.len() == 10,
        "churn"@.len() == 5,
        "complexity"@.len() == 10,
        "risk_score"@[0] == 'r',
        "complexity"@[0] == 'c',
{
    reveal_strlit("file");
    reveal_strlit("risk_score");
    reveal_strlit("churn");
    reveal_strlit("complexity");
}


/// In both tiers each count of the history is shown under its name.
pub proof fn counts_are_shown_under_their_names(report: EvolutionReport, tier: Tier)
    ensures
        ({
            let reply = evolution_json(report, tier);
            &&& entry(reply, "lookback_days"@) == Some(Json::Int(report.lookback_days as int))
            &&& entry(reply, "commits_analyzed"@) == Some(Json::Int(report.commits_analyzed as int))
            &&& entry(reply, "files_with_churn"@) == Some(Json::Int(report.churn@.len() as int))
            &&& entry(reply, "single_author_ratio"@) == Some(number_json(report.single_author_ratio@))
            &&& entry(reply, "coupling_pairs_found"@) == Some(Json::Int(report.coupling_pairs@.len() as int))
            &&& entry(reply, "hotspot_count"@) == Some(Json::Int(report.hotspots@.len() as int))
            &&& entry(reply, "bus_factor_solo_files"@) == Some(
                Json::Int(scaled_bits(report.single_author_ratio@, report.churn@.len() as int)),
            )
            &&& entry(reply, "top_hotspots"@) is Some <==> tier is Pro
        }),
{
    lemma_reply_keys();
}

/// The pro tier is shown the first ten risky files, and of each its own path, risk, number of
/// changes and complexity.
pub proof fn hotspots_are_shown_field_by_field(report: EvolutionReport, i: int)
    requires
        0 <= i < 10,
        i < report.hotspots@.len(),
    ensures
        entry(evolution_json(report, Tier::Pro), "top_hotspots"@) matches Some(Json::Arr(shown)) && {
            &&& shown.len() == if report.hotspots@.len() < 10 { report.hotspots@.len() as int } else { 10 }
            &&& entry(shown[i], "file"@) == Some(Json::Str(report.hotspots@[i].file@))
            &&& entry(shown[i], "risk_score"@) == Some(json_of(report.hotspots@[i].risk_score))
            &&& entry(shown[i], "churn"@) == Some(Json::Int(report.hotspots@[i].churn_count as int))
            &&& entry(shown[i], "complexity"@) == Some(Json::Int(report.hotspots@[i].max_complexity as int))
        },
{
    lemma_reply_keys();
    lemma_hotspot_keys();
}

/// The history is read as far back as the request says under `days`, where it says so: the number
/// itself where it has 32 bits, and its low 32 bits otherwise.
pub proof fn days_are_those_of_the_request(args: Json)
    ensures
        (args is Obj && args->Obj_0.contains_key("days"@) && args->Obj_0["days"@] is Int
            && args->Obj_0["days"@]->Int_0 >= 0) ==> {
            let n = args->Obj_0["days"@]->Int_0;
            &&& requested_days(args) is Some
            &&& (n - requested_days(args)->0) % 0x1_0000_0000 == 0
            &&& n <= u32::MAX ==> requested_days(args)->0 == n
        },
        !(args is Obj && args->Obj_0.contains_key("days"@) && args->Obj_0["days"@] is Int
            && args->Obj_0["days"@]->Int_0 >= 0) ==> requested_days(args) is None,
{
}

/// The history is read of the scanned directory, for the paths of all scanned files and no others,
/// and with the complexity of those that the parser reports functions for.
pub proof fn the_history_is_that_of_the_scan(
    request: EvolutionRequest,
    args: Json,
    root: Seq<char>,
    snapshot: Snapshot,
)
    requires
        asks_for_history(request, args, root, snapshot),
    ensures
        request.root@ == root,
        forall|p: Seq<char>| #[trigger]
            request.known@.contains(p) <==> exists|i: int|
                0 <= i < files(snapshot.root).len() && (#[trigger] files(snapshot.root)[i]).path@ == p,
        forall|p: Seq<char>| #[trigger]
            request.complexity@.contains_key(p) <==> exists|i: int|
                0 <= i < files(snapshot.root).len() && (#[trigger] files(snapshot.root)[i]).path@ == p && max_cc(
                    files(snapshot.root)[i],
                ) is Some,
        request.days == requested_days(args),
{
    complexities_are_those_of_files(files(snapshot.root));
}

/// What the server has of the scan stays; the history is the one that was read, or the one that was
/// there where reading failed, and then the reason is passed on.
pub proof fn only_the_history_changes(
    outcome: Result<EvolutionReport, String>,
    tier: Tier,
    before: McpState,
    after: McpState,
    reply: Result<Value, String>,
)
    requires
        ends_evolution(outcome, tier, before, after, reply),
    ensures
        after.scan_root == before.scan_root,
        after.cached_snapshot == before.cached_snapshot,
        after.cached_health == before.cached_health,
        after.cached_arch == before.cached_arch,
        reply is Ok <==> outcome is Ok,
        outcome matches Ok(report) ==> after.cached_evolution == Some(report),
        outcome matches Err(error) ==> after.cached_evolution == before.cached_evolution && ends_with(
            reply->Err_0@,
            error@,
        ),
{
    if let Err(error) = outcome {
        let head = "Evolution analysis failed: "@;
        assert((head + error@).skip(head.len() as int) =~= error@);
    }
}

/// The history of the scanned directory is read as far back as was asked for. What was read is kept,
/// and its counts are answered; where reading failed, all stays as it was.
pub proof fn the_history_that_is_answered_is_kept<
    F: FnOnce(&EvolutionRequest) -> Result<EvolutionReport, String>,
>(
    args: Json,
    tier: Tier,
    root: Seq<char>,
    snapshot: Snapshot,
    compute: F,
    before: McpState,
    after: McpState,
    reply: Result<Value, String>,
) -> (request: EvolutionRequest)
    requires
        answers_evolution(args, tier, root, snapshot, compute, before, after, reply),
    ensures
        request.root@ == root,
        request.days == requested_days(args),
        exists|outcome: Result<EvolutionReport, String>| #[trigger]
            compute.ensures((&request,), outcome) && (outcome is Ok <==> reply is Ok),
        after.cached_snapshot == before.cached_snapshot,
        reply is Err ==> after == before,
        reply is Ok ==> after.cached_evolution is Some && {
            let report = after.cached_evolution->0;
            &&& entry(json_of(reply->Ok_0), "lookback_days"@) == Some(Json::Int(report.lookback_days as int))
            &&& entry(json_of(reply->Ok_0), "commits_analyzed"@) == Some(
                Json::Int(report.commits_analyzed as int),
            )
            &&& entry(json_of(reply->Ok_0), "files_with_churn"@) == Some(
                Json::Int(report.churn@.len() as int),
            )
            &&& entry(json_of(reply->Ok_0), "hotspot_count"@) == Some(
                Json::Int(report.hotspots@.len() as int),
            )
        },
{
    let (request, outcome) = choose|request: EvolutionRequest, outcome: Result<EvolutionReport, String>|
        {
            &&& asks_for_history(request, args, root, snapshot)
            &&& #[trigger] compute.ensures((&request,), outcome)
            &&& ends_evolution(outcome, tier, before, after, reply)
        };
    only_the_history_changes(outcome, tier, before, after, reply);
    if let Ok(report) = outcome {
        counts_are_shown_under_their_names(report, tier);
    }
    request
}

} // verus!
