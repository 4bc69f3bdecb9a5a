//! What the health report says of a single file.

use crate::json::{entry, from_bool, from_u64, json_of, object, put, views, Json};
use crate::reports::{DuplicateGroup, FileMetric, FuncMetric, HealthReport};
use crate::text::{decimal, join, joined, same, starts_with, to_decimal};
use serde_json::Value;
use vstd::prelude::*;

verus! {

/// Whether one of `metrics` is about the file `path`.
pub open spec fn lists_file(metrics: Seq<FileMetric>, path: Seq<char>) -> bool {
    exists|i: int| 0 <= i < metrics.len() && (#[trigger] metrics[i]).path@ == path
}

/// Whether `path` is one of `texts`.
pub open spec fn lists_text(texts: Seq<String>, path: Seq<char>) -> bool {
    exists|i: int| 0 <= i < texts.len() && (#[trigger] texts[i])@ == path
}

/// Whether `path` is in one of `cycles`.
pub open spec fn in_a_cycle(cycles: Seq<Vec<String>>, path: Seq<char>) -> bool {
    exists|i: int| 0 <= i < cycles.len() && lists_text((#[trigger] cycles[i])@, path)
}

/// How many of `metrics` are about functions of the file `path`.
pub open spec fn count_functions(metrics: Seq<FuncMetric>, path: Seq<char>) -> nat
    decreases metrics.len(),
{
    if metrics.len() == 0 {
        0
    } else {
        count_functions(metrics.drop_last(), path) + if metrics.last().file@ == path {
            1nat
        } else {
            0
        }
    }
}

/// How many of `instances` are in the file `path`.
pub open spec fn count_instances(instances: Seq<(String, String, u32)>, path: Seq<char>) -> nat
    decreases instances.len(),
{
    if instances.len() == 0 {
        0
    } else {
        count_instances(instances.drop_last(), path) + if instances.last().0@ == path {
            1nat
        } else {
            0
        }
    }
}

/// How many instances of duplicates are in the file `path`.
pub open spec fn count_duplicates(groups: Seq<DuplicateGroup>, path: Seq<char>) -> nat
    decreases groups.len(),
{
    if groups.len() == 0 {
        0
    } else {
        count_duplicates(groups.drop_last(), path) + count_instances(groups.last().instances@, path)
    }
}

/// What the health report says of a file.
pub struct Issues {
    /// It depends on too many others.
    pub is_god_file: bool,
    /// Many depend on it and it is unstable.
    pub is_hotspot: bool,
    /// It has too many lines.
    pub is_large_file: bool,
    /// It is in a dependency cycle.
    pub in_cycle: bool,
    /// Its functions of too high a cyclomatic complexity.
    pub complex: usize,
    /// Its functions with too many lines.
    pub long: usize,
    /// Its functions of too high a cognitive complexity.
    pub cog_complex: usize,
    /// Its functions with too many parameters.
    pub high_param: usize,
    /// Its functions that nothing calls.
    pub dead: usize,
    /// Its functions that are written more than once.
    pub duplicate: usize,
}

/// What the health report says of a file, with counts that have no limit.
pub struct FileIssues {
    /// It depends on too many others.
    pub is_god_file: bool,
    /// Many depend on it and it is unstable.
    pub is_hotspot: bool,
    /// It has too many lines.
    pub is_large_file: bool,
    /// It is in a dependency cycle.
    pub in_cycle: bool,
    /// Its functions of too high a cyclomatic complexity.
    pub complex: nat,
    /// Its functions with too many lines.
    pub long: nat,
    /// Its functions of too high a cognitive complexity.
    pub cog_complex: nat,
    /// Its functions with too many parameters.
    pub high_param: nat,
    /// Its functions that nothing calls.
    pub dead: nat,
    /// Its functions that are written more than once.
    pub duplicate: nat,
}

impl View for Issues {
    type V = FileIssues;

    open spec fn view(&self) -> FileIssues {
        FileIssues {
            is_god_file: self.is_god_file,
            is_hotspot: self.is_hotspot,
            is_large_file: self.is_large_file,
            in_cycle: self.in_cycle,
            complex: self.complex as nat,
            long: self.long as nat,
            cog_complex: self.cog_complex as nat,
            high_param: self.high_param as nat,
            dead: self.dead as nat,
            duplicate: self.duplicate as nat,
        }
    }
}

/// What `health` says of the file `path`.
pub open spec fn issues_of(health: HealthReport, path: Seq<char>) -> FileIssues {
    FileIssues {
        is_god_file: lists_file(health.god_files@, path),
        is_hotspot: lists_file(health.hotspot_files@, path),
        is_large_file: lists_file(health.long_files@, path),
        in_cycle: in_a_cycle(health.circular_dep_files@, path),
        complex: count_functions(health.complex_functions@, path),
        long: count_functions(health.long_functions@, path),
        cog_complex: count_functions(health.cog_complex_functions@, path),
        high_param: count_functions(health.high_param_functions@, path),
        dead: count_functions(health.dead_functions@, path),
        duplicate: count_duplicates(health.duplicate_groups@, path),
    }
}

/// Whether one of `metrics` is about the file `path`.
pub fn is_listed(metrics: &Vec<FileMetric>, path: &str) -> (r: bool)
    ensures
        r == lists_file(metrics@, path@),
{
    for i in 0..metrics.len()
        invariant
            forall|j: int| 0 <= j < i ==> (#[trigger] metrics@[j]).path@ != path@,
    {
        if same(metrics[i].path.as_str(), path) {
            return true;
        }
    }
    false
}

/// Whether `path` is one of `texts`.
pub fn is_among(texts: &Vec<String>, path: &str) -> (r: bool)
    ensures
        r == lists_text(texts@, path@),
{
    for i in 0..texts.len()
        invariant
            forall|j: int| 0 <= j < i ==> (#[trigger] texts@[j])@ != path@,
    {
        if same(texts[i].as_str(), path) {
            return true;
        }
    }
    false
}

/// Whether `path` is in one of `cycles`.
pub fn is_in_cycle(cycles: &Vec<Vec<String>>, path: &str) -> (r: bool)
    ensures
        r == in_a_cycle(cycles@, path@),
{
    for i in 0..cycles.len()
        invariant
            forall|j: int| 0 <= j < i ==> !lists_text((#[trigger] cycles@[j])@, path@),
    {
        if is_among(&cycles[i], path) {
            return true;
        }
    }
    false
}

/// How many of `metrics` are about functions of the file `path`.
fn tally(metrics: &Vec<FuncMetric>, path: &str) -> (n: usize)
    ensures
        n == count_functions(metrics@, path@),
{
    let mut n: usize = 0;
    for i in 0..metrics.len()
        invariant
            n <= i,
            n == count_functions(metrics@.take(i as int), path@),
    {
        assert(metrics@.take(i + 1).drop_last() =~= metrics@.take(i as int));
        if same(metrics[i].file.as_str(), path) {
            n += 1;
        }
    }
    assert(metrics@.take(metrics.len() as int) =~= metrics@);
    n
}

/// Appends the names of those of `instances` that are in the file `path`.
fn append_instances<'a>(
    instances: &'a Vec<(String, String, u32)>,
    path: &str,
    found: &mut Vec<&'a String>,
)
    ensures
        final(found).len() == old(found).len() + count_instances(instances@, path@),
{
    for i in 0..instances.len()
        invariant
            found.len() == old(found).len() + count_instances(instances@.take(i as int), path@),
    {
        assert(instances@.take(i + 1).drop_last() =~= instances@.take(i as int));
        if same(instances[i].0.as_str(), path) {
            found.push(&instances[i].1);
        }
    }
    assert(instances@.take(instances.len() as int) =~= instances@);
}

/// How many instances of duplicates are in the file `path`.
fn tally_duplicates(groups: &Vec<DuplicateGroup>, path: &str) -> (n: usize)
    ensures
        n == count_duplicates(groups@, path@),
{
    let mut found: Vec<&String> = Vec::new();
    for i in 0..groups.len()
        invariant
            found.len() == count_duplicates(groups@.take(i as int), path@),
    {
        assert(groups@.take(i + 1).drop_last() =~= groups@.take(i as int));
        append_instances(&groups[i].instances, path, &mut found);
    }
    assert(groups@.take(groups.len() as int) =~= groups@);
    found.len()
}

/// What `health` says of the file `path`.
pub fn find_issues(health: &HealthReport, path: &str) -> (issues: Issues)
    ensures
        issues@ == issues_of(*health, path@),
{
    Issues {
        is_god_file: is_listed(&health.god_files, path),
        is_hotspot: is_listed(&health.hotspot_files, path),
        is_large_file: is_listed(&health.long_files, path),
        in_cycle: is_in_cycle(&health.circular_dep_files, path),
        complex: tally(&health.complex_functions, path),
        long: tally(&health.long_functions, path),
        cog_complex: tally(&health.cog_complex_functions, path),
        high_param: tally(&health.high_param_functions, path),
        dead: tally(&health.dead_functions, path),
        duplicate: tally_duplicates(&health.duplicate_groups, path),
    }
}

/// `parts`, and `text` behind them where it is true.
pub open spec fn noted(parts: Seq<Seq<char>>, holds: bool, text: Seq<char>) -> Seq<Seq<char>> {
    if holds {
        parts.push(text)
    } else {
        parts
    }
}

/// `parts`, and the number `n` of `what` behind them where it is not zero.
pub open spec fn counted(parts: Seq<Seq<char>>, n: nat, what: Seq<char>) -> Seq<Seq<char>> {
    noted(parts, n > 0, decimal(n) + what)
}

/// A file's issues in words, one by one; `lines` is the number of its lines.
pub open spec fn issue_parts(issues: FileIssues, lines: u32) -> Seq<Seq<char>> {
    let p = noted(Seq::empty(), issues.is_god_file, "god file (high fan-out)"@);
    let p = noted(p, issues.is_hotspot, "hotspot (high fan-in + unstable)"@);
    let p = noted(p, issues.is_large_file, "large file (>"@ + decimal(lines as nat) + " lines)"@);
    let p = noted(p, issues.in_cycle, "in circular dependency"@);
    let p = counted(p, issues.complex, " complex function(s)"@);
    let p = counted(p, issues.long, " long function(s)"@);
    let p = counted(p, issues.cog_complex, " cognitively complex function(s)"@);
    let p = counted(p, issues.high_param, " high-param function(s)"@);
    let p = counted(p, issues.dead, " dead function(s)"@);
    counted(p, issues.duplicate, " duplicate function(s)"@)
}

/// The issues `parts` in one sentence.
pub open spec fn summary_of(parts: Seq<Seq<char>>) -> Seq<char> {
    if parts.len() == 0 {
        "No issues detected."@
    } else {
        decimal(parts.len()) + " issue(s): "@ + joined(parts, ", "@)
    }
}

/// Appends `text` where it is true.
fn note(parts: &mut Vec<String>, holds: bool, text: &str)
    ensures
        views(final(parts)@) == noted(views(old(parts)@), holds, text@),
{
    if holds {
        parts.push(text.to_owned());
    }
    assert(views(parts@) =~= noted(views(old(parts)@), holds, text@));
}

/// Appends the number `n` of `what` where it is not zero.
fn note_count(parts: &mut Vec<String>, n: usize, what: &str)
    ensures
        views(final(parts)@) == counted(views(old(parts)@), n as nat, what@),
{
    let text: String = to_decimal(n as u64).concat(what);
    note(parts, n > 0, text.as_str());
}

/// A file's issues in one sentence; `lines` is the number of its lines.
pub fn summarize(issues: &Issues, lines: u32) -> (summary: String)
    ensures
        summary@ == summary_of(issue_parts(issues@, lines)),
{
    let mut parts: Vec<String> = Vec::new();
    assert(views(parts@) =~= Seq::<Seq<char>>::empty());
    let large: String = "large file (>".to_owned().concat(to_decimal(lines as u64).as_str()).concat(
        " lines)",
    );
    note(&mut parts, issues.is_god_file, "god file (high fan-out)");
    note(&mut parts, issues.is_hotspot, "hotspot (high fan-in + unstable)");
    note(&mut parts, issues.is_large_file, large.as_str());
    note(&mut parts, issues.in_cycle, "in circular dependency");
    note_count(&mut parts, issues.complex, " complex function(s)");
    note_count(&mut parts, issues.long, " long function(s)");
    note_count(&mut parts, issues.cog_complex, " cognitively complex function(s)");
    note_count(&mut parts, issues.high_param, " high-param function(s)");
    note_count(&mut parts, issues.dead, " dead function(s)");
    note_count(&mut parts, issues.duplicate, " duplicate function(s)");
    assert(views(parts@) == issue_parts(issues@, lines));
    if parts.len() == 0 {
        "No issues detected.".to_owned()
    } else {
        let count: String = to_decimal(parts.len() as u64).concat(" issue(s): ");
        count.concat(join(&parts, ", ").as_str())
    }
}

/// The issues as a JSON object.
pub open spec fn issues_json(issues: FileIssues) -> Json {
    Json::Obj(
        map![
            "is_god_file"@ => Json::Bool(issues.is_god_file),
            "is_hotspot"@ => Json::Bool(issues.is_hotspot),
            "is_large_file"@ => Json::Bool(issues.is_large_file),
            "in_cycle"@ => Json::Bool(issues.in_cycle),
            "complex_functions"@ => Json::Int(issues.complex as int),
            "long_functions"@ => Json::Int(issues.long as int),
            "cog_complex_functions"@ => Json::Int(issues.cog_complex as int),
            "high_param_functions"@ => Json::Int(issues.high_param as int),
            "dead_functions"@ => Json::Int(issues.dead as int),
            "duplicate_functions"@ => Json::Int(issues.duplicate as int),
        ],
    )
}

/// The issues as a JSON object.
pub(crate) fn issues_value(issues: &Issues) -> (value: Value)
    ensures
        json_of(value) == issues_json(issues@),
{
    let mut value: Value = object();
    put(&mut value, "is_god_file", from_bool(issues.is_god_file));
    put(&mut value, "is_hotspot", from_bool(issues.is_hotspot));
    put(&mut value, "is_large_file", from_bool(issues.is_large_file));
    put(&mut value, "in_cycle", from_bool(issues.in_cycle));
    put(&mut value, "complex_functions", from_u64(issues.complex as u64));
    put(&mut value, "long_functions", from_u64(issues.long as u64));
    put(&mut value, "cog_complex_functions", from_u64(issues.cog_complex as u64));
    put(&mut value, "high_param_functions", from_u64(issues.high_param as u64));
    put(&mut value, "dead_functions", from_u64(issues.dead as u64));
    put(&mut value, "duplicate_functions", from_u64(issues.duplicate as u64));
    value
}

/// Whether `issues` names any.
pub open spec fn any_issue(issues: FileIssues) -> bool {
    ||| issues.is_god_file
    ||| issues.is_hotspot
    ||| issues.is_large_file
    ||| issues.in_cycle
    ||| issues.complex > 0
    ||| issues.long > 0
    ||| issues.cog_complex > 0
    ||| issues.high_param > 0
    ||| issues.dead > 0
    ||| issues.duplicate > 0
}

/// A file has no issue in words just when it has none, and is then said to have none.
pub proof fn no_words_without_issues(issues: FileIssues, lines: u32)
    ensures
        issue_parts(issues, lines).len() == 0 <==> !any_issue(issues),
        !any_issue(issues) ==> summary_of(issue_parts(issues, lines)) == "No issues detected."@,
{
}

proof fn lemma_issue_keys()
    ensures
        "is_god_file"@.len() == 11,
        "is_hotspot"@.len() == 10,
        "is_large_file"@.len() == 13,
        "in_cycle"@.len() == 8,
        "complex_functions"@.len() == 17,
        "long_functions"@.len() == 14,
        "cog_complex_functions"@.len() == 21,
        "high_param_functions"@.len() == 20,
        "dead_functions"@.len() == 14,
        "duplicate_functions"@.len() == 19,
        "long_functions"@[0] == 'l',
        "dead_functions"@[0] == 'd',
{
    reveal_strlit("is_god_file");
    reveal_strlit("is_hotspot");
    reveal_strlit("is_large_file");
    reveal_strlit("in_cycle");
    reveal_strlit("complex_functions");
    reveal_strlit("long_functions");
    reveal_strlit("cog_complex_functions");
    reveal_strlit("high_param_functions");
    reveal_strlit("dead_functions");
    reveal_strlit("duplicate_functions");
}


proof fn lemma_count_functions(metrics: Seq<FuncMetric>, path: Seq<char>)
    ensures
        count_functions(metrics, path) == metrics.filter(|m: FuncMetric| m.file@ == path).len(),
    decreases metrics.len(),
{
    reveal(Seq::filter);
    if metrics.len() > 0 {
        lemma_count_functions(metrics.drop_last(), path);
    }
}

proof fn lemma_count_instances(instances: Seq<(String, String, u32)>, path: Seq<char>)
    ensures
        count_instances(instances, path) == instances.filter(|t: (String, String, u32)| t.0@ == path).len(),
    decreases instances.len(),
{
    reveal(Seq::filter);
    if instances.len() > 0 {
        lemma_count_instances(instances.drop_last(), path);
    }
}

/// All instances of `groups`, one group after the other.
pub open spec fn instances_of(groups: Seq<DuplicateGroup>) -> Seq<(String, String, u32)>
    decreases groups.len(),
{
    if groups.len() == 0 {
        Seq::empty()
    } else {
        instances_of(groups.drop_last()) + groups.last().instances@
    }
}

proof fn lemma_count_duplicates(groups: Seq<DuplicateGroup>, path: Seq<char>)
    ensures
        count_duplicates(groups, path) == instances_of(groups).filter(
            |t: (String, String, u32)| t.0@ == path,
        ).len(),
    decreases groups.len(),
{
    reveal(Seq::filter);
    let p = |t: (String, String, u32)| t.0@ == path;
    if groups.len() > 0 {
        lemma_count_duplicates(groups.drop_last(), path);
        lemma_count_instances(groups.last().instances@, path);
        Seq::filter_distributes_over_add(instances_of(groups.drop_last()), groups.last().instances@, p);
    }
}

/// What is said of a file is what the report lists of it: its entries among the files and cycles,
/// and the number of its functions in each of the lists.
pub proof fn issues_are_those_the_report_lists(health: HealthReport, path: Seq<char>)
    ensures
        ({
            let issues = issues_of(health, path);
            let of_file = |m: FuncMetric| m.file@ == path;
            &&& issues.is_god_file <==> exists|i: int|
                0 <= i < health.god_files@.len() && (#[trigger] health.god_files@[i]).path@ == path
            &&& issues.is_hotspot <==> exists|i: int|
                0 <= i < health.hotspot_files@.len() && (#[trigger] health.hotspot_files@[i]).path@ == path
            &&& issues.is_large_file <==> exists|i: int|
                0 <= i < health.long_files@.len() && (#[trigger] health.long_files@[i]).path@ == path
            &&& issues.in_cycle <==> exists|i: int, j: int|
                0 <= i < health.circular_dep_files@.len() && 0 <= j < health.circular_dep_files@[i]@.len()
                    && (#[trigger] health.circular_dep_files@[i]@[j])@ == path
            &&& issues.complex == health.complex_functions@.filter(of_file).len()
            &&& issues.long == health.long_functions@.filter(of_file).len()
            &&& issues.cog_complex == health.cog_complex_functions@.filter(of_file).len()
            &&& issues.high_param == health.high_param_functions@.filter(of_file).len()
            &&& issues.dead == health.dead_functions@.filter(of_file).len()
            &&& issues.duplicate == instances_of(health.duplicate_groups@).filter(
                |t: (String, String, u32)| t.0@ == path,
            ).len()
        }),
{
    let cycles = health.circular_dep_files@;
    if in_a_cycle(cycles, path) {
        let i = choose|i: int| 0 <= i < cycles.len() && lists_text((#[trigger] cycles[i])@, path);
        let j = choose|j: int| 0 <= j < cycles[i]@.len() && (#[trigger] cycles[i]@[j])@ == path;
        assert(cycles[i]@[j]@ == path);
    }
    if exists|i: int, j: int|
        0 <= i < cycles.len() && 0 <= j < cycles[i]@.len() && (#[trigger] cycles[i]@[j])@ == path {
        let (i, j) = choose|i: int, j: int|
            0 <= i < cycles.len() && 0 <= j < cycles[i]@.len() && (#[trigger] cycles[i]@[j])@ == path;
        assert(lists_text(cycles[i]@, path));
    }
    lemma_count_functions(health.complex_functions@, path);
    lemma_count_functions(health.long_functions@, path);
    lemma_count_functions(health.cog_complex_functions@, path);
    lemma_count_functions(health.high_param_functions@, path);
    lemma_count_functions(health.dead_functions@, path);
    lemma_count_duplicates(health.duplicate_groups@, path);
}

/// A report that lists more of a file has more issues of it: an entry more is an issue more.
pub proof fn each_entry_is_counted(metrics: Seq<FuncMetric>, more: FuncMetric, path: Seq<char>)
    ensures
        count_functions(metrics.push(more), path) == count_functions(metrics, path) + if more.file@ == path {
            1int
        } else {
            0
        },
{
    assert(metrics.push(more).drop_last() =~= metrics);
}

/// Each issue is shown under its name.
pub proof fn issues_are_shown_under_their_names(issues: FileIssues)
    ensures
        entry(issues_json(issues), "is_god_file"@) == Some(Json::Bool(issues.is_god_file)),
        entry(issues_json(issues), "is_hotspot"@) == Some(Json::Bool(issues.is_hotspot)),
        entry(issues_json(issues), "is_large_file"@) == Some(Json::Bool(issues.is_large_file)),
        entry(issues_json(issues), "in_cycle"@) == Some(Json::Bool(issues.in_cycle)),
        entry(issues_json(issues), "complex_functions"@) == Some(Json::Int(issues.complex as int)),
        entry(issues_json(issues), "long_functions"@) == Some(Json::Int(issues.long as int)),
        entry(issues_json(issues), "cog_complex_functions"@) == Some(Json::Int(issues.cog_complex as int)),
        entry(issues_json(issues), "high_param_functions"@) == Some(Json::Int(issues.high_param as int)),
        entry(issues_json(issues), "dead_functions"@) == Some(Json::Int(issues.dead as int)),
        entry(issues_json(issues), "duplicate_functions"@) == Some(Json::Int(issues.duplicate as int)),
{
    lemma_issue_keys();
}

/// One where `holds`, and none otherwise.
pub open spec fn one_if(holds: bool) -> nat {
    if holds {
        1
    } else {
        0
    }
}

proof fn lemma_noted(parts: Seq<Seq<char>>, holds: bool, text: Seq<char>, other: Seq<char>)
    ensures
        noted(parts, holds, text).len() == parts.len() + one_if(holds),
        parts.contains(other) ==> noted(parts, holds, text).contains(other),
        holds ==> noted(parts, holds, text).contains(text),
{
    let after = noted(parts, holds, text);
    if parts.contains(other) {
        let i = choose|i: int| 0 <= i < parts.len() && parts[i] == other;
        assert(after[i] == other);
    }
    if holds {
        assert(after[after.len() - 1] == text);
    }
}

/// A file's issues in words are as many as the kinds of issues that it has, and the words for each
/// kind that it has are among them, with its own number.
pub proof fn each_issue_is_put_in_words(issues: FileIssues, lines: u32)
    ensures
        ({
            let parts = issue_parts(issues, lines);
            &&& parts.len() == one_if(issues.is_god_file) + one_if(issues.is_hotspot) + one_if(
                issues.is_large_file,
            ) + one_if(issues.in_cycle) + one_if(issues.complex > 0) + one_if(issues.long > 0) + one_if(
                issues.cog_complex > 0,
            ) + one_if(issues.high_param > 0) + one_if(issues.dead > 0) + one_if(issues.duplicate > 0)
            &&& issues.is_god_file ==> parts.contains("god file (high fan-out)"@)
            &&& issues.is_hotspot ==> parts.contains("hotspot (high fan-in + unstable)"@)
            &&& issues.is_large_file ==> parts.contains(
                "large file (>"@ + decimal(lines as nat) + " lines)"@,
            )
            &&& issues.in_cycle ==> parts.contains("in circular dependency"@)
            &&& issues.complex > 0 ==> parts.contains(decimal(issues.complex) + " complex function(s)"@)
            &&& issues.long > 0 ==> parts.contains(decimal(issues.long) + " long function(s)"@)
            &&& issues.cog_complex > 0 ==> parts.contains(decimal(issues.cog_complex) + " cognitively complex function(s)"@)
            &&& issues.high_param > 0 ==> parts.contains(decimal(issues.high_param) + " high-param function(s)"@)
            &&& issues.dead > 0 ==> parts.contains(decimal(issues.dead) + " dead function(s)"@)
            &&& issues.duplicate > 0 ==> parts.contains(decimal(issues.duplicate) + " duplicate function(s)"@)
        }),
{
    let a = "god file (high fan-out)"@;
    let b = "hotspot (high fan-in + unstable)"@;
    let c = "large file (>"@ + decimal(lines as nat) + " lines)"@;
    let d = "in circular dependency"@;
    let e = decimal(issues.complex) + " complex function(s)"@;
    let f = decimal(issues.long) + " long function(s)"@;
    let g = decimal(issues.cog_complex) + " cognitively complex function(s)"@;
    let h = decimal(issues.high_param) + " high-param function(s)"@;
    let k = decimal(issues.dead) + " dead function(s)"@;
    let l = decimal(issues.duplicate) + " duplicate function(s)"@;
    let p0 = Seq::<Seq<char>>::empty();
    let p1 = noted(p0, issues.is_god_file, a);
    let p2 = noted(p1, issues.is_hotspot, b);
    let p3 = noted(p2, issues.is_large_file, c);
    let p4 = noted(p3, issues.in_cycle, d);
    let p5 = noted(p4, issues.complex > 0, e);
    let p6 = noted(p5, issues.long > 0, f);
    let p7 = noted(p6, issues.cog_complex > 0, g);
    let p8 = noted(p7, issues.high_param > 0, h);
    let p9 = noted(p8, issues.dead > 0, k);
    lemma_noted(p0, issues.is_god_file, a, a);
    lemma_noted(p1, issues.is_hotspot, b, a);
    lemma_noted(p2, issues.is_large_file, c, a);
    lemma_noted(p2, issues.is_large_file, c, b);
    lemma_noted(p3, issues.in_cycle, d, a);
    lemma_noted(p3, issues.in_cycle, d, b);
    lemma_noted(p3, issues.in_cycle, d, c);
    lemma_noted(p4, issues.complex > 0, e, a);
    lemma_noted(p4, issues.complex > 0, e, b);
    lemma_noted(p4, issues.complex > 0, e, c);
    lemma_noted(p4, issues.complex > 0, e, d);
    lemma_noted(p5, issues.long > 0, f, a);
    lemma_noted(p5, issues.long > 0, f, b);
    lemma_noted(p5, issues.long > 0, f, c);
    lemma_noted(p5, issues.long > 0, f, d);
    lemma_noted(p5, issues.long > 0, f, e);
    lemma_noted(p6, issues.cog_complex > 0, g, a);
    lemma_noted(p6, issues.cog_complex > 0, g, b);
    lemma_noted(p6, issues.cog_complex > 0, g, c);
    lemma_noted(p6, issues.cog_complex > 0, g, d);
    lemma_noted(p6, issues.cog_complex > 0, g, e);
    lemma_noted(p6, issues.cog_complex > 0, g, f);
    lemma_noted(p7, issues.high_param > 0, h, a);
    lemma_noted(p7, issues.high_param > 0, h, b);
    lemma_noted(p7, issues.high_param > 0, h, c);
    lemma_noted(p7, issues.high_param > 0, h, d);
    lemma_noted(p7, issues.high_param > 0, h, e);
    lemma_noted(p7, issues.high_param > 0, h, f);
    lemma_noted(p7, issues.high_param > 0, h, g);
    lemma_noted(p8, issues.dead > 0, k, a);
    lemma_noted(p8, issues.dead > 0, k, b);
    lemma_noted(p8, issues.dead > 0, k, c);
    lemma_noted(p8, issues.dead > 0, k, d);
    lemma_noted(p8, issues.dead > 0, k, e);
    lemma_noted(p8, issues.dead > 0, k, f);
    lemma_noted(p8, issues.dead > 0, k, g);
    lemma_noted(p8, issues.dead > 0, k, h);
    lemma_noted(p9, issues.duplicate > 0, l, a);
    lemma_noted(p9, issues.duplicate > 0, l, b);
    lemma_noted(p9, issues.duplicate > 0, l, c);
    lemma_noted(p9, issues.duplicate > 0, l, d);
    lemma_noted(p9, issues.duplicate > 0, l, e);
    lemma_noted(p9, issues.duplicate > 0, l, f);
    lemma_noted(p9, issues.duplicate > 0, l, g);
    lemma_noted(p9, issues.duplicate > 0, l, h);
    lemma_noted(p9, issues.duplicate > 0, l, k);
}

/// The sentence on a file's issues begins with their number and holds them all, in their order.
pub proof fn the_summary_holds_the_parts(parts: Seq<Seq<char>>, part: Seq<char>)
    ensures
        parts.len() > 0 ==> starts_with(summary_of(parts), decimal(parts.len())),
        parts.len() == 0 ==> summary_of(parts) == "No issues detected."@,
        summary_of(parts.push(part)) == if parts.len() == 0 {
            decimal(1) + " issue(s): "@ + part
        } else {
            decimal(parts.len() + 1) + " issue(s): "@ + (joined(parts, ", "@) + ", "@ + part)
        },
{
    let head = decimal(parts.len());
    if parts.len() > 0 {
        assert(summary_of(parts).take(head.len() as int) =~= head);
    }
    assert(parts.push(part).drop_last() =~= parts);
}

} // verus!
