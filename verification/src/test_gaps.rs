//! The `test_gaps` tool: the risky source files that no test covers.

use crate::json::{count_entry, duplicate, entry, first, from_str, from_u64, from_vec, get_count, json_of, object, put, Json};
use crate::measures::{points_of, to_points};
use crate::reports::{McpState, TestCoverage, TestGap, TestGapReport, Tier};
use crate::snapshot::{files, Snapshot};
use crate::tree::{build_complexity_map, complexities_are_those_of_files, max_cc, with_complexities};
use serde_json::Value;
use vstd::hash_map::StringHashMap;
use vstd::prelude::*;

verus! {

/// How many untested files a request asks for: 20 where it does not say.
pub open spec fn requested_gaps(args: Json) -> int {
    match count_entry(args, "limit"@) {
        Some(n) => n,
        None => 20,
    }
}

/// A source file without a test, as a JSON object.
pub open spec fn gap_json(gap: TestGap) -> Json {
    Json::Obj(
        map![
            "file"@ => Json::Str(gap.file@),
            "risk_score"@ => json_of(gap.risk_score),
            "complexity"@ => Json::Int(gap.max_complexity as int),
            "fan_in"@ => Json::Int(gap.fan_in as int),
            "lang"@ => Json::Str(gap.lang@),
        ],
    )
}

/// A test file as a JSON object.
pub open spec fn coverage_json(coverage: TestCoverage) -> Json {
    Json::Obj(
        map![
            "test"@ => Json::Str(coverage.test_file@),
            "covers"@ => json_of(coverage.covers),
        ],
    )
}

/// Which source files have tests, as a JSON object; files are named in the pro tier only, and
/// `limit` of those without a test at most.
pub open spec fn test_gaps_json(report: TestGapReport, limit: int, tier: Tier) -> Json {
    let entries = map![
        "coverage_score"@ => json_of(report.coverage_score),
        "source_files"@ => Json::Int(report.source_files as int),
        "test_files"@ => Json::Int(report.test_files as int),
        "tested"@ => Json::Int(report.tested_source_files as int),
        "untested"@ => Json::Int(report.untested_source_files as int),
        "coverage_ratio"@ => Json::Int(points_of(report.coverage_ratio)),
    ];
    if tier is Pro {
        Json::Obj(
            entries.insert(
                "riskiest_untested"@,
                Json::Arr(first(report.gaps@, limit).map_values(|gap: TestGap| gap_json(gap))),
            ).insert(
                "test_files_detail"@,
                Json::Arr(
                    first(report.test_coverage@, 10).map_values(
                        |coverage: TestCoverage| coverage_json(coverage),
                    ),
                ),
            ),
        )
    } else {
        Json::Obj(entries)
    }
}

/// The first source files without a test as JSON objects, `limit` of them at most.
fn gap_values(gaps: &Vec<TestGap>, limit: u64) -> (items: Vec<Value>)
    ensures
        items@.map_values(|v: Value| json_of(v)) == first(gaps@, limit as int).map_values(
            |gap: TestGap| gap_json(gap),
        ),
{
    let count: usize = if (gaps.len() as u64) < limit { gaps.len() } else { limit as usize };
    let mut items: Vec<Value> = Vec::new();
    for i in 0..count
        invariant
            items.len() == i,
            count <= gaps.len(),
            forall|j: int| 0 <= j < i ==> json_of(#[trigger] items@[j]) == gap_json(gaps@[j]),
    {
        let gap: &TestGap = &gaps[i];
        let mut value: Value = object();
        put(&mut value, "file", from_str(gap.file.as_str()));
        put(&mut value, "risk_score", duplicate(&gap.risk_score));
        put(&mut value, "complexity", from_u64(gap.max_complexity as u64));
        put(&mut value, "fan_in", from_u64(gap.fan_in as u64));
        put(&mut value, "lang", from_str(gap.lang.as_str()));
        items.push(value);
    }
    assert(items@.map_values(|v: Value| json_of(v)) =~= first(gaps@, limit as int).map_values(
        |gap: TestGap| gap_json(gap),
    ));
    items
}

/// The first test files as JSON objects, ten of them at most.
fn coverage_values(tests: &Vec<TestCoverage>) -> (items: Vec<Value>)
    ensures
        items@.map_values(|v: Value| json_of(v)) == first(tests@, 10).map_values(
            |coverage: TestCoverage| coverage_json(coverage),
        ),
{
    let count: usize = if tests.len() < 10 { tests.len() } else { 10 };
    let mut items: Vec<Value> = Vec::new();
    for i in 0..count
        invariant
            items.len() == i,
            count <= tests.len(),
            forall|j: int| 0 <= j < i ==> json_of(#[trigger] items@[j]) == coverage_json(tests@[j]),
    {
        let coverage: &TestCoverage = &tests[i];
        let mut value: Value = object();
        put(&mut value, "test", from_str(coverage.test_file.as_str()));
        put(&mut value, "covers", duplicate(&coverage.covers));
        items.push(value);
    }
    assert(items@.map_values(|v: Value| json_of(v)) =~= first(tests@, 10).map_values(
        |coverage: TestCoverage| coverage_json(coverage),
    ));
    items
}

/// Which source files have tests, as a JSON object.
pub fn test_gaps_reply(report: &TestGapReport, limit: u64, tier: &Tier) -> (value: Value)
    ensures
        json_of(value) == test_gaps_json(*report, limit as int, *tier),
{
    let mut value: Value = object();
    put(&mut value, "coverage_score", duplicate(&report.coverage_score));
    put(&mut value, "source_files", from_u64(report.source_files as u64));
    put(&mut value, "test_files", from_u64(report.test_files as u64));
    put(&mut value, "tested", from_u64(report.tested_source_files as u64));
    put(&mut value, "untested", from_u64(report.untested_source_files as u64));
    put(&mut value, "coverage_ratio", from_u64(to_points(report.coverage_ratio) as u64));
    if tier.is_pro() {
        put(&mut value, "riskiest_untested", from_vec(gap_values(&report.gaps, limit)));
        put(&mut value, "test_files_detail", from_vec(coverage_values(&report.test_coverage)));
    }
    value
}

/// Whether `compute` came to `report` for the scan `snapshot` and the complexity of its files.
pub open spec fn reported<F: FnOnce(&Snapshot, &StringHashMap<u32>) -> TestGapReport>(
    compute: F,
    snapshot: Snapshot,
    report: TestGapReport,
) -> bool {
    exists|complexity: &StringHashMap<u32>|
        {
            &&& complexity@ == with_complexities(Map::empty(), files(snapshot.root))
            &&& #[trigger] compute.ensures((&snapshot, complexity), report)
        }
}

/// Whether `reply` answers a request with what `compute` came to for the scan.
pub open spec fn answers_test_gaps<F: FnOnce(&Snapshot, &StringHashMap<u32>) -> TestGapReport>(
    args: Json,
    tier: Tier,
    snapshot: Snapshot,
    compute: F,
    reply: Json,
) -> bool {
    exists|report: TestGapReport|
        {
            &&& #[trigger] reported(compute, snapshot, report)
            &&& reply == test_gaps_json(report, requested_gaps(args), tier)
        }
}

/// Answers a request for the source files that no test covers.
///
/// `compute_test_gaps` finds them, given the scan and the complexity of its files by path.
pub fn handle_test_gaps<F: FnOnce(&Snapshot, &StringHashMap<u32>) -> TestGapReport>(
    args: &Value,
    tier: &Tier,
    state: &McpState,
    compute_test_gaps: F,
) -> (reply: Result<Value, String>)
    requires
        forall|snapshot: &Snapshot, complexity: &StringHashMap<u32>|
            compute_test_gaps.requires((snapshot, complexity)),
    ensures
        match state.cached_snapshot {
            None => reply is Err && reply->Err_0@ == "No scan data. Call 'scan' first."@,
            Some(snapshot) => exists|report: TestGapReport|
                {
                    &&& #[trigger] reported(compute_test_gaps, snapshot, report)
                    &&& reply is Ok
                    &&& json_of(reply->Ok_0) == test_gaps_json(
                        report,
                        requested_gaps(json_of(*args)),
                        *tier,
                    )
                },
        },
        state.cached_snapshot matches Some(snapshot) ==> reply is Ok && answers_test_gaps(
            json_of(*args),
            *tier,
            snapshot,
            compute_test_gaps,
            json_of(reply->Ok_0),
        ),
{
    match &state.cached_snapshot {
        Some(snapshot) => {
            let complexity: StringHashMap<u32> = build_complexity_map(snapshot);
            let report: TestGapReport = compute_test_gaps(snapshot, &complexity);
            assert(reported(compute_test_gaps, *snapshot, report));
            let limit: u64 = match get_count(args, "limit") {
                Some(n) => n,
                None => 20,
            };
            Ok(test_gaps_reply(&report, limit, tier))
        },
        None => Err("No scan data. Call 'scan' first.".to_owned()),
    }
}

/// What the free tier is told of the tests is what the pro tier is told, without the files.
pub proof fn free_gaps_are_pro_gaps_without_names(report: TestGapReport, limit: int)
    ensures
        test_gaps_json(report, limit, Tier::Free) == Json::Obj(
            test_gaps_json(report, limit, Tier::Pro)->Obj_0.remove("riskiest_untested"@).remove(
                "test_files_detail"@,
            ),
        ),
{
    reveal_strlit("riskiest_untested");
    reveal_strlit("test_files_detail");
    reveal_strlit("coverage_score");
    reveal_strlit("source_files");
    reveal_strlit("test_files");
    reveal_strlit("tested");
    reveal_strlit("untested");
    reveal_strlit("coverage_ratio");
    let free = test_gaps_json(report, limit, Tier::Free)->Obj_0;
    assert("riskiest_untested"@.len() == 17);
    assert("test_files_detail"@.len() == 17);
    assert("coverage_score"@.len() == 14);
    assert("source_files"@.len() == 12);
    assert("test_files"@.len() == 10);
    assert("tested"@.len() == 6);
    assert("untested"@.len() == 8);
    assert("coverage_ratio"@.len() == 14);
    assert(!free.contains_key("riskiest_untested"@));
    assert(!free.contains_key("test_files_detail"@));
    assert(test_gaps_json(report, limit, Tier::Pro)->Obj_0.remove("riskiest_untested"@).remove(
        "test_files_detail"@,
    ) =~= free);
}

/// What the free tier is told of the tests depends on counts, a score and a share, and not on how
/// many files were asked for.
pub proof fn free_gaps_name_no_file(a: TestGapReport, b: TestGapReport, m: int, n: int)
    requires
        json_of(a.coverage_score) == json_of(b.coverage_score),
        a.source_files == b.source_files,
        a.test_files == b.test_files,
        a.tested_source_files == b.tested_source_files,
        a.untested_source_files == b.untested_source_files,
        a.coverage_ratio == b.coverage_ratio,
    ensures
        test_gaps_json(a, m, Tier::Free) == test_gaps_json(b, n, Tier::Free),
{
}

proof fn lemma_reply_keys()
    ensures
        "coverage_score"@.len() == 14,
        "source_files"@.len() == 12,
        "test_files"@.len() == 10,
        "tested"@.len() == 6,
        "untested"@.len() == 8,
        "coverage_ratio"@.len() == 14,
        "riskiest_untested"@.len() == 17,
        "test_files_detail"@.len() == 17,
        "coverage_score"@[9] == 's',
        "coverage_ratio"@[9] == 'r',
        "riskiest_untested"@[0] == 'r',
        "test_files_detail"@[0] == 't',
{
    reveal_strlit("coverage_score");
    reveal_strlit("source_files");
    reveal_strlit("test_files");
    reveal_strlit("tested");
    reveal_strlit("untested");
    reveal_strlit("coverage_ratio");
    reveal_strlit("riskiest_untested");
    reveal_strlit("test_files_detail");
}

proof fn lemma_gap_keys()
    ensures
        "file"@.len() == 4,
        "risk_score"@.len() == 10,
        "complexity"@.len() == 10,
        "fan_in"@.len() == 6,
        "lang"@.len() == 4,
        "file"@[0] == 'f',
        "lang"@[0] == 'l',
        "risk_score"@[0] == 'r',
        "complexity"@[0] == 'c',
{
    reveal_strlit("file");
    reveal_strlit("risk_score");
    reveal_strlit("complexity");
    reveal_strlit("fan_in");
    reveal_strlit("lang");
}

proof fn lemma_coverage_keys()
    ensures
        "test"@.len() == 4,
        "covers"@.len() == 6,
{
    reveal_strlit("test");
    reveal_strlit("covers");
}


/// In both tiers each score and count is shown under its name.
pub proof fn scores_are_shown_under_their_names(report: TestGapReport, limit: int, tier: Tier)
    ensures
        ({
            let reply = test_gaps_json(report, limit, tier);
            &&& entry(reply, "coverage_score"@) == Some(json_of(report.coverage_score))
            &&& entry(reply, "source_files"@) == Some(Json::Int(report.source_files as int))
            &&& entry(reply, "test_files"@) == Some(Json::Int(report.test_files as int))
            &&& entry(reply, "tested"@) == Some(Json::Int(report.tested_source_files as int))
            &&& entry(reply, "untested"@) == Some(Json::Int(report.untested_source_files as int))
            &&& entry(reply, "coverage_ratio"@) == Some(Json::Int(points_of(report.coverage_ratio)))
            &&& entry(reply, "riskiest_untested"@) is Some <==> tier is Pro
            &&& entry(reply, "test_files_detail"@) is Some <==> tier is Pro
        }),
{
    lemma_reply_keys();
}

/// The pro tier is shown the first untested files, as many as were asked for, and of each its own
/// path, risk, complexity, fan-in and language.
pub proof fn gaps_are_shown_field_by_field(report: TestGapReport, limit: int, i: int)
    requires
        0 <= i < limit,
        i < report.gaps@.len(),
    ensures
        entry(test_gaps_json(report, limit, Tier::Pro), "riskiest_untested"@) matches Some(Json::Arr(shown)) && {
            &&& shown.len() == if report.gaps@.len() < limit { report.gaps@.len() as int } else { limit }
            &&& entry(shown[i], "file"@) == Some(Json::Str(report.gaps@[i].file@))
            &&& entry(shown[i], "risk_score"@) == Some(json_of(report.gaps@[i].risk_score))
            &&& entry(shown[i], "complexity"@) == Some(Json::Int(report.gaps@[i].max_complexity as int))
            &&& entry(shown[i], "fan_in"@) == Some(Json::Int(report.gaps@[i].fan_in as int))
            &&& entry(shown[i], "lang"@) == Some(Json::Str(report.gaps@[i].lang@))
        },
{
    lemma_reply_keys();
    lemma_gap_keys();
}

/// The pro tier is shown the first ten test files, and of each its path and what it covers.
pub proof fn tests_are_shown_field_by_field(report: TestGapReport, limit: int, i: int)
    requires
        0 <= i < 10,
        i < report.test_coverage@.len(),
    ensures
        entry(test_gaps_json(report, limit, Tier::Pro), "test_files_detail"@) matches Some(Json::Arr(shown)) && {
            &&& shown.len() == if report.test_coverage@.len() < 10 { report.test_coverage@.len() as int } else { 10 }
            &&& entry(shown[i], "test"@) == Some(Json::Str(report.test_coverage@[i].test_file@))
            &&& entry(shown[i], "covers"@) == Some(json_of(report.test_coverage@[i].covers))
        },
{
    lemma_reply_keys();
    lemma_coverage_keys();
}

/// As many untested files are asked for as the request says under `limit`, and twenty where it does
/// not say.
pub proof fn gaps_are_asked_for_by_limit(args: Json)
    ensures
        (args is Obj && args->Obj_0.contains_key("limit"@) && args->Obj_0["limit"@] is Int
            && args->Obj_0["limit"@]->Int_0 >= 0) ==> requested_gaps(args) == args->Obj_0["limit"@]->Int_0,
        !(args is Obj && args->Obj_0.contains_key("limit"@) && args->Obj_0["limit"@] is Int
            && args->Obj_0["limit"@]->Int_0 >= 0) ==> requested_gaps(args) == 20,
{
}

/// The analysis is given the complexity of each file that the parser reports functions for, and of
/// no other.
pub proof fn gaps_are_found_with_the_complexities<F: FnOnce(&Snapshot, &StringHashMap<u32>) -> TestGapReport>(
    compute: F,
    snapshot: Snapshot,
    report: TestGapReport,
)
    requires
        reported(compute, snapshot, report),
    ensures
        exists|complexity: &StringHashMap<u32>|
            {
                &&& #[trigger] compute.ensures((&snapshot, complexity), report)
                &&& forall|p: Seq<char>| #[trigger]
                    complexity@.contains_key(p) <==> exists|i: int|
                        0 <= i < files(snapshot.root).len() && (#[trigger] files(snapshot.root)[i]).path@ == p
                            && max_cc(files(snapshot.root)[i]) is Some
            },
{
    complexities_are_those_of_files(files(snapshot.root));
}

/// The reply shows the scores of the report that the analysis made of the scan and, in the pro tier,
/// as many untested files as were asked for.
pub proof fn the_gaps_of_the_scan_are_shown<F: FnOnce(&Snapshot, &StringHashMap<u32>) -> TestGapReport>(
    args: Json,
    tier: Tier,
    snapshot: Snapshot,
    compute: F,
    reply: Json,
) -> (report: TestGapReport)
    requires
        answers_test_gaps(args, tier, snapshot, compute, reply),
    ensures
        exists|complexity: &StringHashMap<u32>| #[trigger] compute.ensures((&snapshot, complexity), report),
        entry(reply, "coverage_score"@) == Some(json_of(report.coverage_score)),
        entry(reply, "untested"@) == Some(Json::Int(report.untested_source_files as int)),
        entry(reply, "riskiest_untested"@) is Some <==> tier is Pro,
        tier is Pro ==> (entry(reply, "riskiest_untested"@) matches Some(Json::Arr(shown)) && shown.len()
            == if report.gaps@.len() < requested_gaps(args) {
            report.gaps@.len() as int
        } else {
            requested_gaps(args)
        }),
{
    let report = choose|report: TestGapReport|
        {
            &&& #[trigger] reported(compute, snapshot, report)
            &&& reply == test_gaps_json(report, requested_gaps(args), tier)
        };
    scores_are_shown_under_their_names(report, requested_gaps(args), tier);
    gaps_are_asked_for_by_limit(args);
    lemma_reply_keys();
    report
}

} // verus!
