//! The tools as a server announces them.

use crate::json::{from_str, from_vec, json_of, object, put, strings, Json};
use crate::reports::Tier;
use crate::top_files::{metric_of, Metric};
use serde_json::Value;
use vstd::prelude::*;

verus! {

/// Which function answers the requests for a tool.
#[derive(Clone, Copy, PartialEq, Eq, Structural, Debug)]
pub enum Handler {
    /// `handle_evolution`
    Evolution,
    /// `handle_dsm`
    Dsm,
    /// `handle_test_gaps`
    TestGaps,
    /// `handle_file_info`
    FileInfo,
    /// `handle_top_files`
    TopFiles,
}

/// A tool as a server announces it.
pub struct ToolDef {
    /// Its name.
    pub name: &'static str,
    /// What it does.
    pub description: &'static str,
    /// The JSON schema of the arguments of a request.
    pub input_schema: Value,
    /// The lowest tier that may use it.
    pub min_tier: Tier,
    /// Which function answers requests for it.
    pub handler: Handler,
    /// Whether it makes the history that was read out of date.
    pub invalidates_evolution: bool,
}

/// What `git_stats` does.
pub const EVOLUTION_DESCRIPTION: &'static str = "Git history analysis: code churn, hotspots (churn x complexity), bus factor, change coupling. Enriches top_files (churn/risk metrics), suggest_refactoring (merge suggestions), impact_analysis (change coupling), and file_info (per-file git history). Requires a git repository.";

/// What `dsm` does.
pub const DSM_DESCRIPTION: &'static str = "Get the Design Structure Matrix: NxN dependency matrix showing file relationships, clusters, and inversions.";

/// What `test_gaps` does.
pub const TEST_GAPS_DESCRIPTION: &'static str = "Find high-risk source files with zero test coverage. Cross-references test file detection with import graph and complexity.";

/// What `file_info` does.
pub const FILE_INFO_DESCRIPTION: &'static str = "Per-file deep dive — the most granular view of a single file. Shows: function-level complexity, coupling (fan-in/out, instability), architecture position (level, blast radius), git history (churn, authors, code age), and all detected issues. Git history fields are available when git_stats has been called.";

/// What `top_files` does.
pub const TOP_FILES_DESCRIPTION: &'static str = "Ranked file listing by a chosen metric — the middle layer between 'health' (project-level) and 'file_info' (single file). Unlike health's per-root-cause lists, this provides a unified cross-metric ranking. Metrics: 'coupling' (fan-in + fan-out), 'fan_in', 'fan_out', 'complexity' (max cyclomatic), 'cognitive' (max cognitive), 'instability', 'blast_radius', 'churn', 'risk' (churn × complexity × coupling composite). Churn/risk metrics are more accurate when git_stats has been called.";

/// The schema of an argument of the type `kind`.
pub open spec fn argument_json(kind: Seq<char>, description: Seq<char>) -> Json {
    Json::Obj(map!["type"@ => Json::Str(kind), "description"@ => Json::Str(description)])
}

/// The schema of the arguments of a request.
pub open spec fn schema_json(arguments: Map<Seq<char>, Json>) -> Json {
    Json::Obj(map!["type"@ => Json::Str("object"@), "properties"@ => Json::Obj(arguments)])
}

/// The schema of an argument of the type `kind`.
fn argument(kind: &str, description: &str) -> (value: Value)
    ensures
        json_of(value) == argument_json(kind@, description@),
{
    let mut value: Value = object();
    put(&mut value, "type", from_str(kind));
    put(&mut value, "description", from_str(description));
    value
}

/// The schema of the arguments of a request.
fn schema(arguments: Value) -> (value: Value)
    requires
        json_of(arguments) is Obj,
    ensures
        json_of(value) == schema_json(json_of(arguments)->Obj_0),
{
    let mut value: Value = object();
    put(&mut value, "type", from_str("object"));
    put(&mut value, "properties", arguments);
    value
}

/// The tool `git_stats`.
pub fn evolution_def() -> (def: ToolDef)
    ensures
        def.name@ == "git_stats"@,
        def.description@ == EVOLUTION_DESCRIPTION@,
        json_of(def.input_schema) == schema_json(
            map!["days"@ => argument_json("integer"@, "Lookback window in days (default 90)"@)],
        ),
        def.min_tier is Free,
        def.handler is Evolution,
        !def.invalidates_evolution,
{
    let mut arguments: Value = object();
    put(&mut arguments, "days", argument("integer", "Lookback window in days (default 90)"));
    ToolDef {
        name: "git_stats",
        description: EVOLUTION_DESCRIPTION,
        input_schema: schema(arguments),
        min_tier: Tier::Free,
        handler: Handler::Evolution,
        invalidates_evolution: false,
    }
}

/// The tool `dsm`.
pub fn dsm_def() -> (def: ToolDef)
    ensures
        def.name@ == "dsm"@,
        def.description@ == DSM_DESCRIPTION@,
        json_of(def.input_schema) == schema_json(
            map![
                "format"@ => argument_json(
                    "string"@,
                    "Output format: 'text' for ASCII matrix, 'stats' for summary statistics (default: stats)"@,
                ),
            ],
        ),
        def.min_tier is Free,
        def.handler is Dsm,
        !def.invalidates_evolution,
{
    let mut arguments: Value = object();
    put(
        &mut arguments,
        "format",
        argument(
            "string",
            "Output format: 'text' for ASCII matrix, 'stats' for summary statistics (default: stats)",
        ),
    );
    ToolDef {
        name: "dsm",
        description: DSM_DESCRIPTION,
        input_schema: schema(arguments),
        min_tier: Tier::Free,
        handler: Handler::Dsm,
        invalidates_evolution: false,
    }
}

/// The tool `test_gaps`.
pub fn test_gaps_def() -> (def: ToolDef)
    ensures
        def.name@ == "test_gaps"@,
        def.description@ == TEST_GAPS_DESCRIPTION@,
        json_of(def.input_schema) == schema_json(
            map![
                "limit"@ => argument_json("integer"@, "Top-N riskiest untested files (default 20)"@),
            ],
        ),
        def.min_tier is Free,
        def.handler is TestGaps,
        !def.invalidates_evolution,
{
    let mut arguments: Value = object();
    put(&mut arguments, "limit", argument("integer", "Top-N riskiest untested files (default 20)"));
    ToolDef {
        name: "test_gaps",
        description: TEST_GAPS_DESCRIPTION,
        input_schema: schema(arguments),
        min_tier: Tier::Free,
        handler: Handler::TestGaps,
        invalidates_evolution: false,
    }
}

/// The tool `file_info`.
pub fn file_info_def() -> (def: ToolDef)
    ensures
        def.name@ == "file_info"@,
        def.description@ == FILE_INFO_DESCRIPTION@,
        json_of(def.input_schema) == Json::Obj(
            schema_json(
                map![
                    "path"@ => argument_json(
                        "string"@,
                        "Relative file path as shown by scan (e.g. 'src/app.rs')"@,
                    ),
                ],
            )->Obj_0.insert("required"@, strings(seq!["path"@])),
        ),
        def.min_tier is Pro,
        def.handler is FileInfo,
        !def.invalidates_evolution,
{
    let mut arguments: Value = object();
    put(
        &mut arguments,
        "path",
        argument("string", "Relative file path as shown by scan (e.g. 'src/app.rs')"),
    );
    let mut input_schema: Value = schema(arguments);
    let required: Vec<Value> = vec![from_str("path")];
    proof {
        assert(required@.map_values(|v: Value| json_of(v)) =~= seq!["path"@].map_values(
            |t: Seq<char>| Json::Str(t),
        ));
    }
    put(&mut input_schema, "required", from_vec(required));
    ToolDef {
        name: "file_info",
        description: FILE_INFO_DESCRIPTION,
        input_schema,
        min_tier: Tier::Pro,
        handler: Handler::FileInfo,
        invalidates_evolution: false,
    }
}

/// The names of the metrics that files can be ranked by.
pub open spec fn metric_names() -> Seq<Seq<char>> {
    seq![
        "coupling"@,
        "fan_in"@,
        "fan_out"@,
        "complexity"@,
        "cognitive"@,
        "instability"@,
        "blast_radius"@,
        "churn"@,
        "risk"@,
    ]
}

/// The names of the metrics that files can be ranked by.
fn metric_values() -> (value: Value)
    ensures
        json_of(value) == strings(metric_names()),
{
    let names: Vec<Value> = vec![
        from_str("coupling"),
        from_str("fan_in"),
        from_str("fan_out"),
        from_str("complexity"),
        from_str("cognitive"),
        from_str("instability"),
        from_str("blast_radius"),
        from_str("churn"),
        from_str("risk"),
    ];
    proof {
        assert(names@.map_values(|v: Value| json_of(v)) =~= metric_names().map_values(
            |t: Seq<char>| Json::Str(t),
        ));
    }
    from_vec(names)
}

/// The tool `top_files`.
pub fn top_files_def() -> (def: ToolDef)
    ensures
        def.name@ == "top_files"@,
        def.description@ == TOP_FILES_DESCRIPTION@,
        json_of(def.input_schema) == schema_json(
            map![
                "metric"@ => Json::Obj(
                    map![
                        "type"@ => Json::Str("string"@),
                        "description"@ => Json::Str(
                            "Metric to rank by: coupling, fan_in, fan_out, complexity, cognitive, instability, blast_radius, churn, risk (default: risk)"@,
                        ),
                        "enum"@ => strings(metric_names()),
                    ],
                ),
                "limit"@ => argument_json(
                    "integer"@,
                    "Number of files to return (default 10, max 50)"@,
                ),
            ],
        ),
        def.min_tier is Pro,
        def.handler is TopFiles,
        !def.invalidates_evolution,
{
    let mut metric: Value = argument(
        "string",
        "Metric to rank by: coupling, fan_in, fan_out, complexity, cognitive, instability, blast_radius, churn, risk (default: risk)",
    );
    put(&mut metric, "enum", metric_values());
    let mut arguments: Value = object();
    put(&mut arguments, "metric", metric);
    put(&mut arguments, "limit", argument("integer", "Number of files to return (default 10, max 50)"));
    ToolDef {
        name: "top_files",
        description: TOP_FILES_DESCRIPTION,
        input_schema: schema(arguments),
        min_tier: Tier::Pro,
        handler: Handler::TopFiles,
        invalidates_evolution: false,
    }
}

/// The two tools that show files to the pro tier are announced in these words.
pub proof fn tools_for_files_are_announced_in_words()
    ensures
        FILE_INFO_DESCRIPTION@ == "Per-file deep dive — the most granular view of a single file. Shows: function-level complexity, coupling (fan-in/out, instability), architecture position (level, blast radius), git history (churn, authors, code age), and all detected issues. Git history fields are available when git_stats has been called."@,
        TOP_FILES_DESCRIPTION@ == "Ranked file listing by a chosen metric — the middle layer between 'health' (project-level) and 'file_info' (single file). Unlike health's per-root-cause lists, this provides a unified cross-metric ranking. Metrics: 'coupling' (fan-in + fan-out), 'fan_in', 'fan_out', 'complexity' (max cyclomatic), 'cognitive' (max cognitive), 'instability', 'blast_radius', 'churn', 'risk' (churn × complexity × coupling composite). Churn/risk metrics are more accurate when git_stats has been called."@,
{
}

/// Every metric that is announced is understood, each as another one.
pub proof fn announced_metrics_are_understood(i: int, j: int)
    requires
        0 <= i < metric_names().len(),
        0 <= j < metric_names().len(),
    ensures
        i != j ==> metric_of(metric_names()[i]) != metric_of(metric_names()[j]),
        metric_of(metric_names()[i]) == Metric::Risk <==> metric_names()[i] == "risk"@,
{
    lemma_metric_names();
}

proof fn lemma_metric_names()
    ensures
        "coupling"@.len() == 8,
        "fan_in"@.len() == 6,
        "fan_out"@.len() == 7,
        "complexity"@.len() == 10,
        "cognitive"@.len() == 9,
        "instability"@.len() == 11,
        "blast_radius"@.len() == 12,
        "churn"@.len() == 5,
        "risk"@.len() == 4,
{
    reveal_strlit("coupling");
    reveal_strlit("fan_in");
    reveal_strlit("fan_out");
    reveal_strlit("complexity");
    reveal_strlit("cognitive");
    reveal_strlit("instability");
    reveal_strlit("blast_radius");
    reveal_strlit("churn");
    reveal_strlit("risk");
}

} // verus!
