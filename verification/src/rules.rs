//! Architectural rules: a limit on cycles, layers, and boundaries between groups of files.
//!
//! Of two layers the one with the lower order is the more foundational, and dependencies have to
//! run from higher to lower. A file belongs to every layer with a pattern that it matches, and its
//! dependencies are held to all of them. A boundary forbids one group of files to depend on
//! another, whatever the layers say.

use crate::coupling::{distinct, distinct_keeps_each_once};
use crate::glob::{fits_pattern, glob_match};
use crate::issues::{is_among, lists_text};
use crate::json::views;
use crate::reports::HealthReport;
use crate::snapshot::ImportEdge;
use crate::text::{decimal, ends_with, starts_with, to_decimal};
use vstd::prelude::*;
use vstd::seq_lib::lemma_multiset_commutative;

verus! {

/// Limits on what the analyses report.
pub struct Constraints {
    /// The greatest number of dependency cycles, where there is a limit.
    pub max_cycles: Option<usize>,
}

/// A layer of the architecture.
pub struct Layer {
    /// Its name.
    pub name: String,
    /// The patterns of the files that belong to it.
    pub paths: Vec<String>,
    /// Its place; lower is more foundational.
    pub order: u32,
}

/// A dependency that is forbidden.
pub struct Boundary {
    /// The pattern of the files that must not depend.
    pub from: String,
    /// The pattern of the files that they must not depend on.
    pub to: String,
    /// Why.
    pub reason: String,
}

/// The rules.
pub struct RulesConfig {
    /// The limits.
    pub constraints: Constraints,
    /// The layers.
    pub layers: Vec<Layer>,
    /// The boundaries.
    pub boundaries: Vec<Boundary>,
}

/// A rule that is broken.
pub struct RuleViolation {
    /// The rule.
    pub rule: String,
    /// How it is broken.
    pub message: String,
}

impl View for RuleViolation {
    type V = (Seq<char>, Seq<char>);

    open spec fn view(&self) -> (Seq<char>, Seq<char>) {
        (self.rule@, self.message@)
    }
}

/// What checking the rules came to.
pub struct RuleCheckResult {
    /// Whether no rule is broken.
    pub passed: bool,
    /// The rules that are broken.
    pub violations: Vec<RuleViolation>,
    /// How many rules there were.
    pub rules_checked: usize,
}

/// What `violations` say.
pub open spec fn violation_views(violations: Seq<RuleViolation>) -> Seq<(Seq<char>, Seq<char>)> {
    violations.map_values(|v: RuleViolation| v@)
}

/// Whether the file `path` matches one of the patterns of `layer`.
pub open spec fn belongs(layer: Layer, path: Seq<char>) -> bool {
    exists|i: int| 0 <= i < layer.paths@.len() && fits_pattern((#[trigger] layer.paths@[i])@, path)
}

/// How it is put that the layer `from` depends on the higher layer `to`.
pub open spec fn layer_message(from: Layer, to: Layer) -> Seq<char> {
    "Layer '"@ + from.name@ + "' (order "@ + decimal(from.order as nat)
        + ") must not depend on layer '"@ + to.name@ + "' (order "@ + decimal(to.order as nat) + ")"@
}

/// Whether `edge` leads from the layer `from` to the higher layer `to`.
pub open spec fn leads_up(from: Layer, to: Layer, edge: ImportEdge) -> bool {
    &&& belongs(from, edge.from_file@)
    &&& belongs(to, edge.to_file@)
    &&& from.order < to.order
}

/// How `edge` goes against the layers in leading from the layer `from` to higher ones.
pub open spec fn breaches_from(from: Layer, layers: Seq<Layer>, edge: ImportEdge) -> Seq<Seq<char>>
    decreases layers.len(),
{
    if layers.len() == 0 {
        Seq::empty()
    } else {
        let before = breaches_from(from, layers.drop_last(), edge);
        if leads_up(from, layers.last(), edge) {
            before.push(layer_message(from, layers.last()))
        } else {
            before
        }
    }
}

/// How `edge` goes against the layers in leading from one of `origins` to higher ones.
pub open spec fn edge_breaches(origins: Seq<Layer>, layers: Seq<Layer>, edge: ImportEdge) -> Seq<Seq<char>>
    decreases origins.len(),
{
    if origins.len() == 0 {
        Seq::empty()
    } else {
        edge_breaches(origins.drop_last(), layers, edge) + breaches_from(origins.last(), layers, edge)
    }
}

/// How `edges` go against the layers, edge by edge.
pub open spec fn layer_breaches(layers: Seq<Layer>, edges: Seq<ImportEdge>) -> Seq<Seq<char>>
    decreases edges.len(),
{
    if edges.len() == 0 {
        Seq::empty()
    } else {
        layer_breaches(layers, edges.drop_last()) + edge_breaches(layers, layers, edges.last())
    }
}

/// The breaches of the layers, each way of putting it once.
pub open spec fn layer_violations(layers: Seq<Layer>, edges: Seq<ImportEdge>) -> Seq<
    (Seq<char>, Seq<char>),
> {
    distinct(layer_breaches(layers, edges)).map_values(
        |message: Seq<char>| ("layer_direction"@, message),
    )
}

/// How it is put that `edge` crosses `boundary`.
pub open spec fn boundary_message(boundary: Boundary, edge: ImportEdge) -> Seq<char> {
    edge.from_file@ + " must not depend on "@ + edge.to_file@ + ": "@ + boundary.reason@
}

/// Whether `edge` crosses `boundary`: both ends match, in this direction.
pub open spec fn crosses(boundary: Boundary, edge: ImportEdge) -> bool {
    fits_pattern(boundary.from@, edge.from_file@) && fits_pattern(boundary.to@, edge.to_file@)
}

/// The crossings of `boundary`, one for each edge.
pub open spec fn crossings(boundary: Boundary, edges: Seq<ImportEdge>) -> Seq<(Seq<char>, Seq<char>)>
    decreases edges.len(),
{
    if edges.len() == 0 {
        Seq::empty()
    } else {
        let before = crossings(boundary, edges.drop_last());
        if crosses(boundary, edges.last()) {
            before.push(("boundary"@, boundary_message(boundary, edges.last())))
        } else {
            before
        }
    }
}

/// The crossings of each of `boundaries` in turn.
pub open spec fn boundary_violations(boundaries: Seq<Boundary>, edges: Seq<ImportEdge>) -> Seq<
    (Seq<char>, Seq<char>),
>
    decreases boundaries.len(),
{
    if boundaries.len() == 0 {
        Seq::empty()
    } else {
        boundary_violations(boundaries.drop_last(), edges) + crossings(boundaries.last(), edges)
    }
}

/// The violation of the limit on cycles, where `cycles` are too many.
pub open spec fn cycle_violations(limit: Option<usize>, cycles: nat) -> Seq<(Seq<char>, Seq<char>)> {
    match limit {
        Some(max) => if cycles > max {
            seq![
                (
                    "max_cycles"@,
                    decimal(cycles) + " circular dependencies (max "@ + decimal(max as nat) + ")"@,
                ),
            ]
        } else {
            Seq::empty()
        },
        None => Seq::empty(),
    }
}

/// All violations of the rules: the limit on cycles, the layers, the boundaries.
pub open spec fn all_violations(config: RulesConfig, health: HealthReport, edges: Seq<ImportEdge>) -> Seq<
    (Seq<char>, Seq<char>),
> {
    cycle_violations(config.constraints.max_cycles, health.circular_dep_files@.len())
        + layer_violations(config.layers@, edges) + boundary_violations(config.boundaries@, edges)
}

/// How many rules there are: the limit on cycles, the layers, and each boundary.
pub open spec fn rule_count(config: RulesConfig) -> int {
    (if config.constraints.max_cycles is Some { 1int } else { 0 }) + (if config.layers@.len() > 0 {
        1int
    } else {
        0
    }) + config.boundaries@.len()
}

/// Whether the file `path` matches one of the patterns of `layer`.
fn is_in(layer: &Layer, path: &str) -> (r: bool)
    ensures
        r == belongs(*layer, path@),
{
    for i in 0..layer.paths.len()
        invariant
            forall|j: int| 0 <= j < i ==> !fits_pattern((#[trigger] layer.paths@[j])@, path@),
    {
        if glob_match(layer.paths[i].as_str(), path) {
            return true;
        }
    }
    false
}

/// How it is put that the layer `from` depends on the higher layer `to`.
fn layer_text(from: &Layer, to: &Layer) -> (message: String)
    ensures
        message@ == layer_message(*from, *to),
{
    "Layer '".to_owned().concat(from.name.as_str()).concat("' (order ").concat(
        to_decimal(from.order as u64).as_str(),
    ).concat(") must not depend on layer '").concat(to.name.as_str()).concat("' (order ").concat(
        to_decimal(to.order as u64).as_str(),
    ).concat(")")
}

/// Whether `text` is among what `texts` hold.
proof fn lemma_lists_text(texts: Seq<String>, text: Seq<char>)
    ensures
        lists_text(texts, text) <==> views(texts).contains(text),
{
    if lists_text(texts, text) {
        let i = choose|i: int| 0 <= i < texts.len() && (#[trigger] texts[i])@ == text;
        assert(views(texts)[i] == text);
    }
    if views(texts).contains(text) {
        let i = choose|i: int| 0 <= i < views(texts).len() && views(texts)[i] == text;
        assert(texts[i]@ == text);
    }
}

/// A violation put behind others says what it says, and leaves the others as they were.
proof fn lemma_views_push(violations: Seq<RuleViolation>, v: RuleViolation)
    ensures
        violation_views(violations.push(v)) == violation_views(violations).push(v@),
{
    assert(violation_views(violations.push(v)) =~= violation_views(violations).push(v@));
}

/// Appends `message` where it is not there yet.
fn add_message(messages: &mut Vec<String>, message: String, Ghost(met): Ghost<Seq<Seq<char>>>)
    requires
        views(old(messages)@) == distinct(met),
    ensures
        views(final(messages)@) == distinct(met.push(message@)),
{
    proof {
        distinct_keeps_each_once(met);
        lemma_lists_text(messages@, message@);
        assert(distinct(met).contains(message@) <==> met.contains(message@));
        assert(met.push(message@).drop_last() =~= met);
    }
    let ghost text: Seq<char> = message@;
    if !is_among(messages, message.as_str()) {
        messages.push(message);
    }
    assert(views(messages@) =~= distinct(met.push(text)));
}

/// Appends how `edge` goes against the layers in leading from the layer `from`.
fn add_breaches_from(
    from: &Layer,
    layers: &Vec<Layer>,
    edge: &ImportEdge,
    messages: &mut Vec<String>,
    Ghost(met): Ghost<Seq<Seq<char>>>,
)
    requires
        views(old(messages)@) == distinct(met),
    ensures
        views(final(messages)@) == distinct(met + breaches_from(*from, layers@, *edge)),
{
    let starts: bool = is_in(from, edge.from_file.as_str());
    assert(met + breaches_from(*from, layers@.take(0), *edge) =~= met);
    for i in 0..layers.len()
        invariant
            starts == belongs(*from, edge.from_file@),
            views(messages@) == distinct(met + breaches_from(*from, layers@.take(i as int), *edge)),
    {
        let ghost before: Seq<Seq<char>> = breaches_from(*from, layers@.take(i as int), *edge);
        assert(layers@.take(i + 1).drop_last() =~= layers@.take(i as int));
        if starts && from.order < layers[i].order && is_in(&layers[i], edge.to_file.as_str()) {
            let message: String = layer_text(from, &layers[i]);
            assert((met + before).push(message@) =~= met + before.push(message@));
            add_message(messages, message, Ghost(met + before));
        }
    }
    assert(layers@.take(layers.len() as int) =~= layers@);
}

/// Appends how `edge` goes against the layers.
fn add_breaches(
    layers: &Vec<Layer>,
    edge: &ImportEdge,
    messages: &mut Vec<String>,
    Ghost(met): Ghost<Seq<Seq<char>>>,
)
    requires
        views(old(messages)@) == distinct(met),
    ensures
        views(final(messages)@) == distinct(met + edge_breaches(layers@, layers@, *edge)),
{
    assert(met + edge_breaches(layers@.take(0), layers@, *edge) =~= met);
    for i in 0..layers.len()
        invariant
            views(messages@) == distinct(met + edge_breaches(layers@.take(i as int), layers@, *edge)),
    {
        let ghost before: Seq<Seq<char>> = edge_breaches(layers@.take(i as int), layers@, *edge);
        assert(layers@.take(i + 1).drop_last() =~= layers@.take(i as int));
        add_breaches_from(&layers[i], layers, edge, messages, Ghost(met + before));
        assert(met + edge_breaches(layers@.take(i + 1), layers@, *edge) =~= (met + before) + breaches_from(
            layers@[i as int],
            layers@,
            *edge,
        ));
    }
    assert(layers@.take(layers.len() as int) =~= layers@);
}

/// Appends the breaches of the layers, each way of putting it once.
fn check_layers(layers: &Vec<Layer>, edges: &Vec<ImportEdge>, violations: &mut Vec<RuleViolation>)
    ensures
        violation_views(final(violations)@) == violation_views(old(violations)@) + layer_violations(
            layers@,
            edges@,
        ),
{
    let mut messages: Vec<String> = Vec::new();
    assert(views(messages@) =~= distinct(layer_breaches(layers@, edges@.take(0))));
    for i in 0..edges.len()
        invariant
            views(messages@) == distinct(layer_breaches(layers@, edges@.take(i as int))),
    {
        assert(edges@.take(i + 1).drop_last() =~= edges@.take(i as int));
        add_breaches(
            layers,
            &edges[i],
            &mut messages,
            Ghost(layer_breaches(layers@, edges@.take(i as int))),
        );
    }
    assert(edges@.take(edges.len() as int) =~= edges@);
    let ghost found: Seq<(Seq<char>, Seq<char>)> = layer_violations(layers@, edges@);
    let ghost before: Seq<(Seq<char>, Seq<char>)> = violation_views(violations@);
    assert(found.len() == messages.len());
    assert(before + found.take(0) =~= before);
    for i in 0..messages.len()
        invariant
            found.len() == messages.len(),
            forall|j: int| 0 <= j < messages.len() ==> #[trigger] found[j] == ("layer_direction"@, messages@[j]@),
            violation_views(violations@) == before + found.take(i as int),
    {
        let violation = RuleViolation {
            rule: "layer_direction".to_owned(),
            message: messages[i].clone(),
        };
        proof {
            lemma_views_push(violations@, violation);
            assert(violation@ == found[i as int]);
        }
        violations.push(violation);
        assert(violation_views(violations@) =~= before + found.take(i + 1));
    }
    assert(found.take(messages.len() as int) =~= found);
}

/// Appends the crossings of `boundary`, one for each edge.
fn check_boundary(boundary: &Boundary, edges: &Vec<ImportEdge>, violations: &mut Vec<RuleViolation>)
    ensures
        violation_views(final(violations)@) == violation_views(old(violations)@) + crossings(
            *boundary,
            edges@,
        ),
{
    let ghost before: Seq<(Seq<char>, Seq<char>)> = violation_views(violations@);
    assert(before + crossings(*boundary, edges@.take(0)) =~= before);
    for i in 0..edges.len()
        invariant
            violation_views(violations@) == before + crossings(*boundary, edges@.take(i as int)),
    {
        let edge: &ImportEdge = &edges[i];
        assert(edges@.take(i + 1).drop_last() =~= edges@.take(i as int));
        if glob_match(boundary.from.as_str(), edge.from_file.as_str()) && glob_match(
            boundary.to.as_str(),
            edge.to_file.as_str(),
        ) {
            let message: String = edge.from_file.clone().concat(" must not depend on ").concat(
                edge.to_file.as_str(),
            ).concat(": ").concat(boundary.reason.as_str());
            let violation = RuleViolation { rule: "boundary".to_owned(), message };
            proof {
                lemma_views_push(violations@, violation);
                assert(violation@ == ("boundary"@, boundary_message(*boundary, *edge)));
            }
            violations.push(violation);
        }
        assert(violation_views(violations@) =~= before + crossings(*boundary, edges@.take(i + 1)));
    }
    assert(edges@.take(edges.len() as int) =~= edges@);
}

/// Appends the violation of the limit on cycles, where `cycles` are too many.
fn check_cycles(limit: Option<usize>, cycles: usize, violations: &mut Vec<RuleViolation>)
    ensures
        violation_views(final(violations)@) == violation_views(old(violations)@) + cycle_violations(
            limit,
            cycles as nat,
        ),
{
    if let Some(max) = limit {
        if cycles > max {
            let message: String = to_decimal(cycles as u64).concat(" circular dependencies (max ").concat(
                to_decimal(max as u64).as_str(),
            ).concat(")");
            violations.push(RuleViolation { rule: "max_cycles".to_owned(), message });
        }
    }
    assert(violation_views(violations@) =~= violation_views(old(violations)@) + cycle_violations(
        limit,
        cycles as nat,
    ));
}

/// Whether `result` is what checking the rules comes to.
pub open spec fn checks(
    config: RulesConfig,
    health: HealthReport,
    edges: Seq<ImportEdge>,
    result: RuleCheckResult,
) -> bool {
    &&& violation_views(result.violations@) == all_violations(config, health, edges)
    &&& result.passed == (result.violations@.len() == 0)
    &&& result.rules_checked == rule_count(config)
}

/// Checks the rules against the health report and the imports of a scan.
pub fn check_rules(config: &RulesConfig, health: &HealthReport, edges: &Vec<ImportEdge>) -> (result:
    RuleCheckResult)
    requires
        config.boundaries.len() + 2 <= usize::MAX,
    ensures
        violation_views(result.violations@) == all_violations(*config, *health, edges@),
        result.passed == (all_violations(*config, *health, edges@).len() == 0),
        result.passed <==> result.violations@.len() == 0,
        checks(*config, *health, edges@, result),
        result.rules_checked == rule_count(*config),
{
    let mut violations: Vec<RuleViolation> = Vec::new();
    let ghost start: Seq<(Seq<char>, Seq<char>)> = cycle_violations(
        config.constraints.max_cycles,
        health.circular_dep_files@.len(),
    ) + layer_violations(config.layers@, edges@);
    check_cycles(config.constraints.max_cycles, health.circular_dep_files.len(), &mut violations);
    check_layers(&config.layers, edges, &mut violations);
    assert(violation_views(violations@) =~= start + boundary_violations(config.boundaries@.take(0), edges@));
    for i in 0..config.boundaries.len()
        invariant
            violation_views(violations@) == start + boundary_violations(
                config.boundaries@.take(i as int),
                edges@,
            ),
    {
        assert(config.boundaries@.take(i + 1).drop_last() =~= config.boundaries@.take(i as int));
        check_boundary(&config.boundaries[i], edges, &mut violations);
        assert(violation_views(violations@) =~= start + boundary_violations(
            config.boundaries@.take(i + 1),
            edges@,
        ));
    }
    assert(config.boundaries@.take(config.boundaries.len() as int) =~= config.boundaries@);
    let limits: usize = if config.constraints.max_cycles.is_some() { 1 } else { 0 };
    let layered: usize = if config.layers.len() > 0 { 1 } else { 0 };
    assert(violation_views(violations@).len() == violations.len());
    RuleCheckResult {
        passed: violations.len() == 0,
        violations,
        rules_checked: limits + layered + config.boundaries.len(),
    }
}

/// Without rules nothing is broken, whatever the scan found.
pub proof fn no_rules_no_violations(config: RulesConfig, health: HealthReport, edges: Seq<ImportEdge>)
    requires
        config.constraints.max_cycles is None,
        config.layers@.len() == 0,
        config.boundaries@.len() == 0,
    ensures
        all_violations(config, health, edges).len() == 0,
        rule_count(config) == 0,
{
    lemma_no_layers(config.layers@, edges);
}

proof fn lemma_no_layers(layers: Seq<Layer>, edges: Seq<ImportEdge>)
    requires
        layers.len() == 0,
    ensures
        layer_violations(layers, edges).len() == 0,
        layer_breaches(layers, edges).len() == 0,
    decreases edges.len(),
{
    if edges.len() > 0 {
        lemma_no_layers(layers, edges.drop_last());
    }
}

/// Whether one of `edges` goes against the layers in a way that is put as `message`.
pub open spec fn breaks_layers(layers: Seq<Layer>, edges: Seq<ImportEdge>, message: Seq<char>) -> bool {
    exists|k: int, a: int, b: int|
        {
            &&& 0 <= k < edges.len()
            &&& 0 <= a < layers.len()
            &&& 0 <= b < layers.len()
            &&& #[trigger] leads_up(layers[a], layers[b], edges[k])
            &&& message == layer_message(layers[a], layers[b])
        }
}

proof fn lemma_contains_concat<T>(s: Seq<T>, t: Seq<T>, x: T)
    ensures
        (s + t).contains(x) <==> s.contains(x) || t.contains(x),
{
    if s.contains(x) {
        let i = choose|i: int| 0 <= i < s.len() && s[i] == x;
        assert((s + t)[i] == x);
    }
    if t.contains(x) {
        let i = choose|i: int| 0 <= i < t.len() && t[i] == x;
        assert((s + t)[s.len() + i] == x);
    }
    if (s + t).contains(x) {
        let i = choose|i: int| 0 <= i < (s + t).len() && (s + t)[i] == x;
        if i < s.len() {
            assert(s[i] == x);
        } else {
            assert(t[i - s.len()] == x);
        }
    }
}

proof fn lemma_breaches_from(from: Layer, layers: Seq<Layer>, edge: ImportEdge, message: Seq<char>)
    ensures
        breaches_from(from, layers, edge).contains(message) <==> exists|b: int|
            0 <= b < layers.len() && #[trigger] leads_up(from, layers[b], edge) && message == layer_message(
                from,
                layers[b],
            ),
    decreases layers.len(),
{
    if layers.len() > 0 {
        let shorter = layers.drop_last();
        let n = layers.len() - 1;
        let before = breaches_from(from, shorter, edge);
        let after = breaches_from(from, layers, edge);
        lemma_breaches_from(from, shorter, edge, message);
        assert(layers[n] == layers.last());
        if leads_up(from, layers[n], edge) {
            let last = seq![layer_message(from, layers[n])];
            assert(after =~= before + last);
            lemma_contains_concat(before, last, message);
            assert(last.contains(message) <==> message == last[0]);
        }
        if exists|b: int|
            0 <= b < shorter.len() && #[trigger] leads_up(from, shorter[b], edge) && message == layer_message(
                from,
                shorter[b],
            ) {
            let b = choose|b: int|
                0 <= b < shorter.len() && #[trigger] leads_up(from, shorter[b], edge) && message
                    == layer_message(from, shorter[b]);
            assert(layers[b] == shorter[b]);
        }
        if exists|b: int|
            0 <= b < layers.len() && #[trigger] leads_up(from, layers[b], edge) && message == layer_message(
                from,
                layers[b],
            ) {
            let b = choose|b: int|
                0 <= b < layers.len() && #[trigger] leads_up(from, layers[b], edge) && message
                    == layer_message(from, layers[b]);
            if b < n {
                assert(layers[b] == shorter[b]);
            }
        }
    }
}

proof fn lemma_edge_breaches(origins: Seq<Layer>, layers: Seq<Layer>, edge: ImportEdge, message: Seq<char>)
    ensures
        edge_breaches(origins, layers, edge).contains(message) <==> exists|a: int, b: int|
            {
                &&& 0 <= a < origins.len()
                &&& 0 <= b < layers.len()
                &&& #[trigger] leads_up(origins[a], layers[b], edge)
                &&& message == layer_message(origins[a], layers[b])
            },
    decreases origins.len(),
{
    if origins.len() > 0 {
        let shorter = origins.drop_last();
        let n = origins.len() - 1;
        lemma_edge_breaches(shorter, layers, edge, message);
        lemma_breaches_from(origins.last(), layers, edge, message);
        lemma_contains_concat(
            edge_breaches(shorter, layers, edge),
            breaches_from(origins.last(), layers, edge),
            message,
        );
        assert(origins[n] == origins.last());
        if edge_breaches(shorter, layers, edge).contains(message) {
            let (a, b) = choose|a: int, b: int|
                {
                    &&& 0 <= a < shorter.len()
                    &&& 0 <= b < layers.len()
                    &&& #[trigger] leads_up(shorter[a], layers[b], edge)
                    &&& message == layer_message(shorter[a], layers[b])
                };
            assert(leads_up(origins[a], layers[b], edge));
        }
        if breaches_from(origins.last(), layers, edge).contains(message) {
            let b = choose|b: int|
                0 <= b < layers.len() && #[trigger] leads_up(origins.last(), layers[b], edge) && message
                    == layer_message(origins.last(), layers[b]);
            assert(leads_up(origins[n], layers[b], edge));
        }
        if exists|a: int, b: int|
            {
                &&& 0 <= a < origins.len()
                &&& 0 <= b < layers.len()
                &&& #[trigger] leads_up(origins[a], layers[b], edge)
                &&& message == layer_message(origins[a], layers[b])
            } {
            let (a, b) = choose|a: int, b: int|
                {
                    &&& 0 <= a < origins.len()
                    &&& 0 <= b < layers.len()
                    &&& #[trigger] leads_up(origins[a], layers[b], edge)
                    &&& message == layer_message(origins[a], layers[b])
                };
            if a < n {
                assert(leads_up(shorter[a], layers[b], edge));
            } else {
                assert(leads_up(origins.last(), layers[b], edge));
            }
        }
    }
}

/// The layers' breaches are those of the edges.
proof fn lemma_breaches(layers: Seq<Layer>, edges: Seq<ImportEdge>, message: Seq<char>)
    ensures
        layer_breaches(layers, edges).contains(message) <==> breaks_layers(layers, edges, message),
    decreases edges.len(),
{
    if edges.len() > 0 {
        let shorter = edges.drop_last();
        let n = edges.len() - 1;
        lemma_breaches(layers, shorter, message);
        lemma_edge_breaches(layers, layers, edges.last(), message);
        lemma_contains_concat(
            layer_breaches(layers, shorter),
            edge_breaches(layers, layers, edges.last()),
            message,
        );
        assert(edges[n] == edges.last());
        if breaks_layers(layers, shorter, message) {
            let (k, a, b) = choose|k: int, a: int, b: int|
                {
                    &&& 0 <= k < shorter.len()
                    &&& 0 <= a < layers.len()
                    &&& 0 <= b < layers.len()
                    &&& #[trigger] leads_up(layers[a], layers[b], shorter[k])
                    &&& message == layer_message(layers[a], layers[b])
                };
            assert(leads_up(layers[a], layers[b], edges[k]));
        }
        if edge_breaches(layers, layers, edges.last()).contains(message) {
            let (a, b) = choose|a: int, b: int|
                {
                    &&& 0 <= a < layers.len()
                    &&& 0 <= b < layers.len()
                    &&& #[trigger] leads_up(layers[a], layers[b], edges.last())
                    &&& message == layer_message(layers[a], layers[b])
                };
            assert(leads_up(layers[a], layers[b], edges[n]));
        }
        if breaks_layers(layers, edges, message) {
            let (k, a, b) = choose|k: int, a: int, b: int|
                {
                    &&& 0 <= k < edges.len()
                    &&& 0 <= a < layers.len()
                    &&& 0 <= b < layers.len()
                    &&& #[trigger] leads_up(layers[a], layers[b], edges[k])
                    &&& message == layer_message(layers[a], layers[b])
                };
            if k < n {
                assert(leads_up(layers[a], layers[b], shorter[k]));
            } else {
                assert(leads_up(layers[a], layers[b], edges.last()));
            }
        }
    }
}

/// The rule `layer_direction` is broken, in these words, just when an edge goes against the layers
/// in these words; and the words occur once, however many edges do so.
pub proof fn each_breach_is_reported_once(layers: Seq<Layer>, edges: Seq<ImportEdge>, message: Seq<char>)
    ensures
        layer_violations(layers, edges).no_duplicates(),
        layer_violations(layers, edges).contains(("layer_direction"@, message)) <==> breaks_layers(
            layers,
            edges,
            message,
        ),
{
    let met = layer_breaches(layers, edges);
    let found = layer_violations(layers, edges);
    distinct_keeps_each_once(met);
    lemma_breaches(layers, edges, message);
    assert(distinct(met).contains(message) <==> met.contains(message));
    if distinct(met).contains(message) {
        let i = choose|i: int| 0 <= i < distinct(met).len() && distinct(met)[i] == message;
        assert(found[i] == ("layer_direction"@, message));
    }
    if found.contains(("layer_direction"@, message)) {
        let i = choose|i: int| 0 <= i < found.len() && found[i] == ("layer_direction"@, message);
        assert(distinct(met)[i] == message);
    }
    assert forall|i: int, j: int| 0 <= i < found.len() && 0 <= j < found.len() && i != j implies found[i]
        != found[j] by {
        assert(distinct(met)[i] != distinct(met)[j]);
    }
}

/// An edge breaks no layer rule where no layer of the file that it leads to is higher than one of
/// the file that it comes from.
pub proof fn downward_edges_are_legal(layers: Seq<Layer>, edge: ImportEdge)
    requires
        forall|a: int, b: int|
            0 <= a < layers.len() && 0 <= b < layers.len() && belongs(
                #[trigger] layers[a],
                edge.from_file@,
            ) && belongs(#[trigger] layers[b], edge.to_file@) ==> layers[b].order <= layers[a].order,
    ensures
        layer_violations(layers, seq![edge]).len() == 0,
{
    let edges = seq![edge];
    let found = layer_violations(layers, edges);
    if found.len() > 0 {
        let message = distinct(layer_breaches(layers, edges))[0];
        assert(found[0] == ("layer_direction"@, message));
        each_breach_is_reported_once(layers, edges, message);
        let (k, a, b) = choose|k: int, a: int, b: int|
            {
                &&& 0 <= k < edges.len()
                &&& 0 <= a < layers.len()
                &&& 0 <= b < layers.len()
                &&& #[trigger] leads_up(layers[a], layers[b], edges[k])
                &&& message == layer_message(layers[a], layers[b])
            };
        assert(edges[k] == edge);
    }
}

/// The number of edges that cross `boundary`.
pub open spec fn count_crossings(boundary: Boundary, edges: Seq<ImportEdge>) -> nat
    decreases edges.len(),
{
    if edges.len() == 0 {
        0
    } else {
        count_crossings(boundary, edges.drop_last()) + if crosses(boundary, edges.last()) {
            1nat
        } else {
            0
        }
    }
}

/// A boundary is reported once for each edge that crosses it.
pub proof fn each_crossing_is_reported(boundary: Boundary, edges: Seq<ImportEdge>)
    ensures
        crossings(boundary, edges).len() == count_crossings(boundary, edges),
    decreases edges.len(),
{
    if edges.len() > 0 {
        each_crossing_is_reported(boundary, edges.drop_last());
    }
}

proof fn lemma_filter_all<T>(s: Seq<T>, p: spec_fn(T) -> bool)
    requires
        forall|i: int| 0 <= i < s.len() ==> p(#[trigger] s[i]),
    ensures
        s.filter(p) == s,
    decreases s.len(),
{
    reveal(Seq::filter);
    if s.len() > 0 {
        lemma_filter_all(s.drop_last(), p);
        assert(p(s[s.len() - 1]));
        assert(s =~= s.drop_last().push(s.last()));
    }
}

proof fn lemma_filter_none<T>(s: Seq<T>, p: spec_fn(T) -> bool)
    requires
        forall|i: int| 0 <= i < s.len() ==> !p(#[trigger] s[i]),
    ensures
        s.filter(p) == Seq::<T>::empty(),
    decreases s.len(),
{
    reveal(Seq::filter);
    if s.len() > 0 {
        lemma_filter_none(s.drop_last(), p);
        assert(!p(s[s.len() - 1]));
    }
}

proof fn lemma_crossings_rule(boundary: Boundary, edges: Seq<ImportEdge>)
    ensures
        forall|i: int| 0 <= i < crossings(boundary, edges).len() ==> (#[trigger] crossings(boundary, edges)[i]).0
            == "boundary"@,
    decreases edges.len(),
{
    if edges.len() > 0 {
        lemma_crossings_rule(boundary, edges.drop_last());
        let before = crossings(boundary, edges.drop_last());
        let after = crossings(boundary, edges);
        assert forall|i: int| 0 <= i < after.len() implies (#[trigger] after[i]).0 == "boundary"@ by {
            if i < before.len() {
                assert(after[i] == before[i]);
            }
        }
    }
}

proof fn lemma_boundaries_rule(boundaries: Seq<Boundary>, edges: Seq<ImportEdge>)
    ensures
        forall|i: int|
            0 <= i < boundary_violations(boundaries, edges).len() ==> (#[trigger] boundary_violations(
                boundaries,
                edges,
            )[i]).0 == "boundary"@,
    decreases boundaries.len(),
{
    if boundaries.len() > 0 {
        lemma_boundaries_rule(boundaries.drop_last(), edges);
        lemma_crossings_rule(boundaries.last(), edges);
        let before = boundary_violations(boundaries.drop_last(), edges);
        let last = crossings(boundaries.last(), edges);
        let after = boundary_violations(boundaries, edges);
        assert forall|i: int| 0 <= i < after.len() implies (#[trigger] after[i]).0 == "boundary"@ by {
            if i < before.len() {
                assert(after[i] == before[i]);
            } else {
                assert(after[i] == last[i - before.len()]);
            }
        }
    }
}

/// The boundaries are checked by themselves: what is reported of them depends on no other rule and
/// on no layer.
pub proof fn boundaries_stand_alone(config: RulesConfig, health: HealthReport, edges: Seq<ImportEdge>)
    ensures
        all_violations(config, health, edges).filter(|v: (Seq<char>, Seq<char>)| v.0 == "boundary"@)
            == boundary_violations(config.boundaries@, edges),
{
    let p = |v: (Seq<char>, Seq<char>)| v.0 == "boundary"@;
    let a = cycle_violations(config.constraints.max_cycles, health.circular_dep_files@.len());
    let b = layer_violations(config.layers@, edges);
    let c = boundary_violations(config.boundaries@, edges);
    reveal_strlit("boundary");
    reveal_strlit("max_cycles");
    reveal_strlit("layer_direction");
    lemma_boundaries_rule(config.boundaries@, edges);
    assert forall|i: int| 0 <= i < a.len() implies !p(#[trigger] a[i]) by {
        assert("max_cycles"@.len() != "boundary"@.len());
    }
    assert forall|i: int| 0 <= i < b.len() implies !p(#[trigger] b[i]) by {
        assert("layer_direction"@.len() != "boundary"@.len());
    }
    lemma_filter_none(a, p);
    lemma_filter_none(b, p);
    lemma_filter_all(c, p);
    Seq::filter_distributes_over_add(a + b, c, p);
    Seq::filter_distributes_over_add(a, b, p);
    assert(a.filter(p) + b.filter(p) + c.filter(p) =~= c);
}

/// The crossings of one boundary can be taken out of those of all.
proof fn lemma_take_out_boundary(boundaries: Seq<Boundary>, i: int, edges: Seq<ImportEdge>)
    requires
        0 <= i < boundaries.len(),
    ensures
        boundary_violations(boundaries, edges).to_multiset() == boundary_violations(
            boundaries.remove(i),
            edges,
        ).to_multiset().add(crossings(boundaries[i], edges).to_multiset()),
    decreases boundaries.len(),
{
    let shorter = boundaries.drop_last();
    let last = boundaries.last();
    lemma_multiset_commutative(boundary_violations(shorter, edges), crossings(last, edges));
    if i == boundaries.len() - 1 {
        assert(boundaries.remove(i) =~= shorter);
    } else {
        let rest = boundaries.remove(i);
        lemma_take_out_boundary(shorter, i, edges);
        assert(rest.drop_last() =~= shorter.remove(i));
        assert(rest.last() == last);
        lemma_multiset_commutative(boundary_violations(rest.drop_last(), edges), crossings(last, edges));
        assert(boundary_violations(boundaries, edges).to_multiset() =~= boundary_violations(
            rest,
            edges,
        ).to_multiset().add(crossings(boundaries[i], edges).to_multiset()));
    }
}

/// Boundaries that occur more often are crossed no less often.
proof fn lemma_more_boundaries(
    boundaries: Seq<Boundary>,
    more: Seq<Boundary>,
    edges: Seq<ImportEdge>,
    v: (Seq<char>, Seq<char>),
)
    requires
        forall|b: Boundary| #[trigger] boundaries.to_multiset().count(b) <= more.to_multiset().count(b),
    ensures
        boundary_violations(boundaries, edges).to_multiset().count(v) <= boundary_violations(
            more,
            edges,
        ).to_multiset().count(v),
    decreases boundaries.len(),
{
    broadcast use vstd::seq_lib::group_to_multiset_ensures;

    if boundaries.len() == 0 {
        assert(!boundary_violations(boundaries, edges).contains(v));
    } else {
        let n = boundaries.len() - 1;
        let b = boundaries[n];
        assert(boundaries.contains(b));
        assert(boundaries.to_multiset().count(b) > 0);
        assert(more.contains(b));
        let j = choose|j: int| 0 <= j < more.len() && more[j] == b;
        let fewer = boundaries.remove(n);
        let rest = more.remove(j);
        assert(fewer.to_multiset() =~= boundaries.to_multiset().remove(b));
        assert(rest.to_multiset() =~= more.to_multiset().remove(b));
        assert forall|c: Boundary| #[trigger] fewer.to_multiset().count(c) <= rest.to_multiset().count(c) by {
            assert(boundaries.to_multiset().count(c) <= more.to_multiset().count(c));
        }
        lemma_more_boundaries(fewer, rest, edges, v);
        lemma_take_out_boundary(boundaries, n, edges);
        lemma_take_out_boundary(more, j, edges);
    }
}

/// More layers, in whatever order, are broken in every way that fewer are.
proof fn lemma_more_layers(
    layers: Seq<Layer>,
    more: Seq<Layer>,
    edges: Seq<ImportEdge>,
    v: (Seq<char>, Seq<char>),
)
    requires
        forall|layer: Layer| #[trigger] layers.contains(layer) ==> more.contains(layer),
    ensures
        layer_violations(layers, edges).to_multiset().count(v) <= layer_violations(
            more,
            edges,
        ).to_multiset().count(v),
{
    broadcast use vstd::seq_lib::group_to_multiset_ensures;

    let found = layer_violations(layers, edges);
    let wider = layer_violations(more, edges);
    if found.contains(v) {
        let i = choose|i: int| 0 <= i < found.len() && found[i] == v;
        let message = distinct(layer_breaches(layers, edges))[i];
        assert(v == ("layer_direction"@, message));
        each_breach_is_reported_once(layers, edges, message);
        let (k, a, b) = choose|k: int, a: int, b: int|
            {
                &&& 0 <= k < edges.len()
                &&& 0 <= a < layers.len()
                &&& 0 <= b < layers.len()
                &&& #[trigger] leads_up(layers[a], layers[b], edges[k])
                &&& message == layer_message(layers[a], layers[b])
            };
        assert(layers.contains(layers[a]) && layers.contains(layers[b]));
        let c = choose|c: int| 0 <= c < more.len() && more[c] == layers[a];
        let d = choose|d: int| 0 <= d < more.len() && more[d] == layers[b];
        assert(leads_up(more[c], more[d], edges[k]));
        each_breach_is_reported_once(more, edges, message);
        assert(wider.contains(v));
        found.lemma_multiset_has_no_duplicates();
        assert(wider.to_multiset().count(v) > 0);
        assert(found.to_multiset().contains(v));
    } else {
        assert(found.to_multiset().count(v) == 0);
    }
}

/// How often `v` is among all violations: as often as among those of each rule.
proof fn lemma_count_all(
    config: RulesConfig,
    health: HealthReport,
    edges: Seq<ImportEdge>,
    v: (Seq<char>, Seq<char>),
)
    ensures
        all_violations(config, health, edges).to_multiset().count(v) == cycle_violations(
            config.constraints.max_cycles,
            health.circular_dep_files@.len(),
        ).to_multiset().count(v) + layer_violations(config.layers@, edges).to_multiset().count(v)
            + boundary_violations(config.boundaries@, edges).to_multiset().count(v),
{
    let a = cycle_violations(config.constraints.max_cycles, health.circular_dep_files@.len());
    let b = layer_violations(config.layers@, edges);
    lemma_multiset_commutative(a, b);
    lemma_multiset_commutative(a + b, boundary_violations(config.boundaries@, edges));
}

/// Adding rules takes no violation away, wherever they are put: a limit on cycles where there was
/// none, layers and boundaries in front of, between or behind the others. Each violation occurs at
/// least as often as before.
pub proof fn adding_rules_removes_no_violation(
    config: RulesConfig,
    wider: RulesConfig,
    health: HealthReport,
    edges: Seq<ImportEdge>,
    v: (Seq<char>, Seq<char>),
)
    requires
        config.constraints.max_cycles is Some ==> wider.constraints.max_cycles
            == config.constraints.max_cycles,
        forall|layer: Layer| #[trigger] config.layers@.contains(layer) ==> wider.layers@.contains(layer),
        forall|b: Boundary| #[trigger]
            config.boundaries@.to_multiset().count(b) <= wider.boundaries@.to_multiset().count(b),
    ensures
        all_violations(config, health, edges).to_multiset().count(v) <= all_violations(
            wider,
            health,
            edges,
        ).to_multiset().count(v),
        all_violations(config, health, edges).contains(v) ==> all_violations(wider, health, edges).contains(
            v,
        ),
{
    broadcast use vstd::seq_lib::group_to_multiset_ensures;

    let cycles = cycle_violations(config.constraints.max_cycles, health.circular_dep_files@.len());
    lemma_count_all(config, health, edges, v);
    lemma_count_all(wider, health, edges, v);
    lemma_more_layers(config.layers@, wider.layers@, edges, v);
    lemma_more_boundaries(config.boundaries@, wider.boundaries@, edges, v);
    if config.constraints.max_cycles is None {
        assert(!cycles.contains(v));
    }
    if all_violations(config, health, edges).contains(v) {
        assert(all_violations(config, health, edges).to_multiset().count(v) > 0);
        assert(all_violations(wider, health, edges).to_multiset().count(v) > 0);
    }
}

/// Those of `violations` that are of the rule `rule`.
pub open spec fn of_rule(violations: Seq<(Seq<char>, Seq<char>)>, rule: Seq<char>) -> Seq<
    (Seq<char>, Seq<char>),
> {
    violations.filter(|v: (Seq<char>, Seq<char>)| v.0 == rule)
}

/// The violations of one rule among all are those that its own check finds.
proof fn lemma_by_rule(config: RulesConfig, health: HealthReport, edges: Seq<ImportEdge>)
    ensures
        of_rule(all_violations(config, health, edges), "max_cycles"@) == cycle_violations(
            config.constraints.max_cycles,
            health.circular_dep_files@.len(),
        ),
        of_rule(all_violations(config, health, edges), "layer_direction"@) == layer_violations(
            config.layers@,
            edges,
        ),
{
    let p = |v: (Seq<char>, Seq<char>)| v.0 == "max_cycles"@;
    let q = |v: (Seq<char>, Seq<char>)| v.0 == "layer_direction"@;
    let a = cycle_violations(config.constraints.max_cycles, health.circular_dep_files@.len());
    let b = layer_violations(config.layers@, edges);
    let c = boundary_violations(config.boundaries@, edges);
    reveal_strlit("boundary");
    reveal_strlit("max_cycles");
    reveal_strlit("layer_direction");
    lemma_boundaries_rule(config.boundaries@, edges);
    assert("max_cycles"@.len() == 10 && "boundary"@.len() == 8 && "layer_direction"@.len() == 15);
    lemma_filter_all(a, p);
    lemma_filter_none(b, p);
    lemma_filter_none(c, p);
    lemma_filter_none(a, q);
    lemma_filter_all(b, q);
    lemma_filter_none(c, q);
    Seq::filter_distributes_over_add(a + b, c, p);
    Seq::filter_distributes_over_add(a, b, p);
    Seq::filter_distributes_over_add(a + b, c, q);
    Seq::filter_distributes_over_add(a, b, q);
    assert(a.filter(p) + b.filter(p) + c.filter(p) =~= a);
    assert(a.filter(q) + b.filter(q) + c.filter(q) =~= b);
}

proof fn lemma_cycle_violations(limit: Option<usize>, cycles: nat)
    ensures
        limit is Some && cycles > limit->0 ==> cycle_violations(limit, cycles).len() == 1 && starts_with(
            cycle_violations(limit, cycles)[0].1,
            decimal(cycles),
        ),
        !(limit is Some && cycles > limit->0) ==> cycle_violations(limit, cycles).len() == 0,
{
    if let Some(max) = limit {
        let message = decimal(cycles) + " circular dependencies (max "@ + decimal(max as nat) + ")"@;
        assert(message.take(decimal(cycles).len() as int) =~= decimal(cycles));
    }
}

/// The limit on cycles is reported broken once, in words that begin with the number of cycles, just
/// when there is a limit and there are more cycles than it allows. Then the check does not pass.
pub proof fn the_limit_is_broken_by_more_cycles(
    config: RulesConfig,
    health: HealthReport,
    edges: Seq<ImportEdge>,
)
    ensures
        ({
            let limit = config.constraints.max_cycles;
            let cycles = health.circular_dep_files@.len();
            let all = all_violations(config, health, edges);
            let found = of_rule(all, "max_cycles"@);
            &&& limit is Some && cycles > limit->0 ==> found.len() == 1 && starts_with(
                found[0].1,
                decimal(cycles),
            ) && all.len() > 0
            &&& !(limit is Some && cycles > limit->0) ==> found.len() == 0
        }),
{
    lemma_by_rule(config, health, edges);
    lemma_cycle_violations(config.constraints.max_cycles, health.circular_dep_files@.len());
}

/// A scan with at least as many cycles as one that breaks the limit breaks it too.
pub proof fn more_cycles_do_not_pass(
    config: RulesConfig,
    health: HealthReport,
    worse: HealthReport,
    edges: Seq<ImportEdge>,
)
    requires
        health.circular_dep_files@.len() <= worse.circular_dep_files@.len(),
    ensures
        of_rule(all_violations(config, health, edges), "max_cycles"@).len() <= of_rule(
            all_violations(config, worse, edges),
            "max_cycles"@,
        ).len(),
        all_violations(config, health, edges).len() > 0 ==> all_violations(config, worse, edges).len() > 0,
{
    the_limit_is_broken_by_more_cycles(config, health, edges);
    the_limit_is_broken_by_more_cycles(config, worse, edges);
}

/// An edge whose ends match patterns of two layers, the second of a higher order, is reported.
pub proof fn upward_edges_are_reported(
    config: RulesConfig,
    health: HealthReport,
    edges: Seq<ImportEdge>,
    k: int,
    a: int,
    b: int,
    i: int,
    j: int,
)
    requires
        0 <= k < edges.len(),
        0 <= a < config.layers@.len(),
        0 <= b < config.layers@.len(),
        0 <= i < config.layers@[a].paths@.len(),
        0 <= j < config.layers@[b].paths@.len(),
        fits_pattern(config.layers@[a].paths@[i]@, edges[k].from_file@),
        fits_pattern(config.layers@[b].paths@[j]@, edges[k].to_file@),
        config.layers@[a].order < config.layers@[b].order,
    ensures
        all_violations(config, health, edges).contains(
            ("layer_direction"@, layer_message(config.layers@[a], config.layers@[b])),
        ),
{
    let message = layer_message(config.layers@[a], config.layers@[b]);
    let v = ("layer_direction"@, message);
    assert(leads_up(config.layers@[a], config.layers@[b], edges[k]));
    each_breach_is_reported_once(config.layers@, edges, message);
    let first = cycle_violations(config.constraints.max_cycles, health.circular_dep_files@.len());
    let found = layer_violations(config.layers@, edges);
    lemma_contains_concat(first, found, v);
    lemma_contains_concat(first + found, boundary_violations(config.boundaries@, edges), v);
}

proof fn lemma_layer_violations_among_all(
    config: RulesConfig,
    health: HealthReport,
    edges: Seq<ImportEdge>,
    message: Seq<char>,
)
    requires
        all_violations(config, health, edges).contains(("layer_direction"@, message)),
    ensures
        layer_violations(config.layers@, edges).contains(("layer_direction"@, message)),
{
    let v = ("layer_direction"@, message);
    let a = cycle_violations(config.constraints.max_cycles, health.circular_dep_files@.len());
    let b = layer_violations(config.layers@, edges);
    let c = boundary_violations(config.boundaries@, edges);
    reveal_strlit("boundary");
    reveal_strlit("max_cycles");
    reveal_strlit("layer_direction");
    assert("max_cycles"@.len() == 10 && "boundary"@.len() == 8 && "layer_direction"@.len() == 15);
    lemma_boundaries_rule(config.boundaries@, edges);
    lemma_contains_concat(a, b, v);
    lemma_contains_concat(a + b, c, v);
}

/// What is reported of the layers is an edge whose ends match patterns of two layers, the second of
/// a higher order: its place, those of the layers, and those of the patterns.
pub proof fn reported_edges_lead_up(
    config: RulesConfig,
    health: HealthReport,
    edges: Seq<ImportEdge>,
    message: Seq<char>,
) -> (found: (int, int, int, int, int))
    requires
        all_violations(config, health, edges).contains(("layer_direction"@, message)),
    ensures
        ({
            let (k, a, b, i, j) = found;
            &&& 0 <= k < edges.len()
            &&& 0 <= a < config.layers@.len()
            &&& 0 <= b < config.layers@.len()
            &&& 0 <= i < config.layers@[a].paths@.len()
            &&& 0 <= j < config.layers@[b].paths@.len()
            &&& fits_pattern(config.layers@[a].paths@[i]@, edges[k].from_file@)
            &&& fits_pattern(config.layers@[b].paths@[j]@, edges[k].to_file@)
            &&& config.layers@[a].order < config.layers@[b].order
            &&& message == layer_message(config.layers@[a], config.layers@[b])
        }),
{
    let layers = config.layers@;
    lemma_layer_violations_among_all(config, health, edges, message);
    each_breach_is_reported_once(layers, edges, message);
    let (k, a, b) = choose|k: int, a: int, b: int|
        {
            &&& 0 <= k < edges.len()
            &&& 0 <= a < layers.len()
            &&& 0 <= b < layers.len()
            &&& #[trigger] leads_up(layers[a], layers[b], edges[k])
            &&& message == layer_message(layers[a], layers[b])
        };
    let i = choose|i: int|
        0 <= i < layers[a].paths@.len() && fits_pattern((#[trigger] layers[a].paths@[i])@, edges[k].from_file@);
    let j = choose|j: int|
        0 <= j < layers[b].paths@.len() && fits_pattern((#[trigger] layers[b].paths@[j])@, edges[k].to_file@);
    (k, a, b, i, j)
}

proof fn lemma_crossings_filter(boundary: Boundary, edges: Seq<ImportEdge>)
    ensures
        crossings(boundary, edges) == edges.filter(
            |e: ImportEdge|
                fits_pattern(boundary.from@, e.from_file@) && fits_pattern(boundary.to@, e.to_file@),
        ).map_values(|e: ImportEdge| ("boundary"@, boundary_message(boundary, e))),
    decreases edges.len(),
{
    reveal(Seq::filter);
    let p = |e: ImportEdge|
        fits_pattern(boundary.from@, e.from_file@) && fits_pattern(boundary.to@, e.to_file@);
    let f = |e: ImportEdge| ("boundary"@, boundary_message(boundary, e));
    if edges.len() == 0 {
        assert(crossings(boundary, edges) =~= edges.filter(p).map_values(f));
    } else {
        let shorter = edges.drop_last();
        lemma_crossings_filter(boundary, shorter);
        if p(edges.last()) {
            assert(edges.filter(p) =~= shorter.filter(p).push(edges.last()));
            assert(edges.filter(p).map_values(f) =~= shorter.filter(p).map_values(f).push(f(edges.last())));
        } else {
            assert(edges.filter(p) =~= shorter.filter(p));
        }
    }
}

/// A boundary is reported for the edges whose ends match its two patterns, from the first to the
/// second, once for each and in their order; and the words end with the reason.
pub proof fn a_boundary_is_crossed_by_matching_edges(boundary: Boundary, edges: Seq<ImportEdge>)
    ensures
        ({
            let crossing = edges.filter(
                |e: ImportEdge|
                    fits_pattern(boundary.from@, e.from_file@) && fits_pattern(boundary.to@, e.to_file@),
            );
            &&& crossings(boundary, edges).len() == crossing.len()
            &&& forall|i: int|
                0 <= i < crossing.len() ==> {
                    &&& (#[trigger] crossings(boundary, edges)[i]).0 == "boundary"@
                    &&& ends_with(crossings(boundary, edges)[i].1, boundary.reason@)
                    &&& starts_with(crossings(boundary, edges)[i].1, crossing[i].from_file@)
                }
        }),
{
    lemma_crossings_filter(boundary, edges);
    let crossing = edges.filter(
        |e: ImportEdge|
            fits_pattern(boundary.from@, e.from_file@) && fits_pattern(boundary.to@, e.to_file@),
    );
    assert forall|i: int| 0 <= i < crossing.len() implies {
        &&& (#[trigger] crossings(boundary, edges)[i]).0 == "boundary"@
        &&& ends_with(crossings(boundary, edges)[i].1, boundary.reason@)
        &&& starts_with(crossings(boundary, edges)[i].1, crossing[i].from_file@)
    } by {
        let message = boundary_message(boundary, crossing[i]);
        let from = crossing[i].from_file@;
        assert(message.skip(message.len() - boundary.reason@.len()) =~= boundary.reason@);
        assert(message.take(from.len() as int) =~= from);
    }
}

/// The boundaries are checked one by one, in their order.
pub proof fn boundaries_are_checked_in_turn(
    boundaries: Seq<Boundary>,
    boundary: Boundary,
    edges: Seq<ImportEdge>,
)
    ensures
        boundary_violations(boundaries.push(boundary), edges) == boundary_violations(boundaries, edges)
            + crossings(boundary, edges),
        boundary_violations(Seq::empty(), edges).len() == 0,
{
    assert(boundaries.push(boundary).drop_last() =~= boundaries);
}

/// Each boundary is a rule, the limit on cycles is one, and the layers together are one.
pub proof fn each_rule_is_counted(config: RulesConfig, wider: RulesConfig)
    ensures
        rule_count(config) == 0 <==> config.constraints.max_cycles is None && config.layers@.len() == 0
            && config.boundaries@.len() == 0,
        config.layers@ == wider.layers@ && config.boundaries@ == wider.boundaries@
            && config.constraints.max_cycles is None && wider.constraints.max_cycles is Some ==> rule_count(
            wider,
        ) == rule_count(config) + 1,
        config.layers@.len() == 0 && wider.layers@.len() > 0 && config.boundaries@ == wider.boundaries@
            && config.constraints == wider.constraints ==> rule_count(wider) == rule_count(config) + 1,
        config.layers@ == wider.layers@ && config.constraints == wider.constraints ==> rule_count(wider)
            - rule_count(config) == wider.boundaries@.len() - config.boundaries@.len(),
{
}

proof fn lemma_crossing_reported(boundary: Boundary, edges: Seq<ImportEdge>, v: (Seq<char>, Seq<char>))
    ensures
        crossings(boundary, edges).contains(v) <==> exists|k: int|
            0 <= k < edges.len() && crosses(boundary, #[trigger] edges[k]) && v == (
                "boundary"@,
                boundary_message(boundary, edges[k]),
            ),
    decreases edges.len(),
{
    if edges.len() > 0 {
        let shorter = edges.drop_last();
        let n = edges.len() - 1;
        let before = crossings(boundary, shorter);
        let last = ("boundary"@, boundary_message(boundary, edges.last()));
        lemma_crossing_reported(boundary, shorter, v);
        assert(edges[n] == edges.last());
        assert(forall|k: int| 0 <= k < n ==> #[trigger] edges[k] == shorter[k]);
        assert(before.push(last) =~= before + seq![last]);
        lemma_contains_concat(before, seq![last], v);
        assert(seq![last].contains(v) <==> v == seq![last][0]);
        if before.contains(v) {
            let k = choose|k: int|
                0 <= k < shorter.len() && crosses(boundary, #[trigger] shorter[k]) && v == (
                    "boundary"@,
                    boundary_message(boundary, shorter[k]),
                );
            assert(crosses(boundary, edges[k]));
        }
        if exists|k: int|
            0 <= k < edges.len() && crosses(boundary, #[trigger] edges[k]) && v == (
                "boundary"@,
                boundary_message(boundary, edges[k]),
            ) {
            let k = choose|k: int|
                0 <= k < edges.len() && crosses(boundary, #[trigger] edges[k]) && v == (
                    "boundary"@,
                    boundary_message(boundary, edges[k]),
                );
            if k < n {
                assert(crosses(boundary, shorter[k]));
            }
        }
    }
}

proof fn lemma_crossings_reported(boundaries: Seq<Boundary>, edges: Seq<ImportEdge>, v: (Seq<char>, Seq<char>))
    ensures
        boundary_violations(boundaries, edges).contains(v) <==> exists|b: int|
            0 <= b < boundaries.len() && crossings(#[trigger] boundaries[b], edges).contains(v),
    decreases boundaries.len(),
{
    if boundaries.len() > 0 {
        let shorter = boundaries.drop_last();
        let n = boundaries.len() - 1;
        lemma_crossings_reported(shorter, edges, v);
        assert(boundaries[n] == boundaries.last());
        assert(forall|b: int| 0 <= b < n ==> #[trigger] boundaries[b] == shorter[b]);
        lemma_contains_concat(
            boundary_violations(shorter, edges),
            crossings(boundaries.last(), edges),
            v,
        );
        if boundary_violations(shorter, edges).contains(v) {
            let b = choose|b: int|
                0 <= b < shorter.len() && crossings(#[trigger] shorter[b], edges).contains(v);
            assert(crossings(boundaries[b], edges).contains(v));
        }
        if exists|b: int| 0 <= b < boundaries.len() && crossings(#[trigger] boundaries[b], edges).contains(v) {
            let b = choose|b: int|
                0 <= b < boundaries.len() && crossings(#[trigger] boundaries[b], edges).contains(v);
            if b < n {
                assert(crossings(shorter[b], edges).contains(v));
            }
        }
    }
}

/// A scan passes just when it meets every rule: there are no more cycles than the limit, no edge
/// leads from a file of a layer to one of a higher layer, and no edge leads from a file that matches
/// the one pattern of a boundary to one that matches the other.
pub proof fn a_scan_passes_just_when_it_meets_every_rule(
    config: RulesConfig,
    health: HealthReport,
    edges: Seq<ImportEdge>,
    result: RuleCheckResult,
)
    requires
        checks(config, health, edges, result),
    ensures
        result.passed <==> {
            &&& config.constraints.max_cycles is Some ==> health.circular_dep_files@.len()
                <= config.constraints.max_cycles->0
            &&& forall|k: int, a: int, b: int, i: int, j: int|
                #![trigger fits_pattern(config.layers@[a].paths@[i]@, edges[k].from_file@), fits_pattern(config.layers@[b].paths@[j]@, edges[k].to_file@)]
                0 <= k < edges.len() && 0 <= a < config.layers@.len() && 0 <= b < config.layers@.len() && 0 <= i
                    < config.layers@[a].paths@.len() && 0 <= j < config.layers@[b].paths@.len() && fits_pattern(
                    config.layers@[a].paths@[i]@,
                    edges[k].from_file@,
                ) && fits_pattern(config.layers@[b].paths@[j]@, edges[k].to_file@) ==> config.layers@[b].order
                    <= config.layers@[a].order
            &&& forall|k: int, b: int|
                #![trigger config.boundaries@[b], edges[k]]
                0 <= k < edges.len() && 0 <= b < config.boundaries@.len() ==> !(fits_pattern(
                    config.boundaries@[b].from@,
                    edges[k].from_file@,
                ) && fits_pattern(config.boundaries@[b].to@, edges[k].to_file@))
        },
{
    let layers = config.layers@;
    let boundaries = config.boundaries@;
    let all = all_violations(config, health, edges);
    let a1 = cycle_violations(config.constraints.max_cycles, health.circular_dep_files@.len());
    let b1 = layer_violations(layers, edges);
    let c1 = boundary_violations(boundaries, edges);
    assert(violation_views(result.violations@).len() == result.violations@.len());
    lemma_cycle_violations(config.constraints.max_cycles, health.circular_dep_files@.len());
    assert(all.len() == a1.len() + b1.len() + c1.len());
    if result.passed {
        assert forall|k: int, a: int, b: int, i: int, j: int|
            #![trigger fits_pattern(layers[a].paths@[i]@, edges[k].from_file@), fits_pattern(layers[b].paths@[j]@, edges[k].to_file@)]
            0 <= k < edges.len() && 0 <= a < layers.len() && 0 <= b < layers.len() && 0 <= i
                < layers[a].paths@.len() && 0 <= j < layers[b].paths@.len() && fits_pattern(
                layers[a].paths@[i]@,
                edges[k].from_file@,
            ) && fits_pattern(layers[b].paths@[j]@, edges[k].to_file@) implies layers[b].order
            <= layers[a].order by {
            if layers[a].order < layers[b].order {
                upward_edges_are_reported(config, health, edges, k, a, b, i, j);
            }
        }
        assert forall|k: int, b: int|
            #![trigger boundaries[b], edges[k]]
            0 <= k < edges.len() && 0 <= b < boundaries.len() implies !(fits_pattern(
            boundaries[b].from@,
            edges[k].from_file@,
        ) && fits_pattern(boundaries[b].to@, edges[k].to_file@)) by {
            let v = ("boundary"@, boundary_message(boundaries[b], edges[k]));
            if crosses(boundaries[b], edges[k]) {
                lemma_crossing_reported(boundaries[b], edges, v);
                lemma_crossings_reported(boundaries, edges, v);
                assert(c1.contains(v));
            }
        }
    } else if b1.len() > 0 {
        let message = distinct(layer_breaches(layers, edges))[0];
        let v = ("layer_direction"@, message);
        assert(b1[0] == v);
        assert(all[a1.len() as int] == v);
        let (k, a, b, i, j) = reported_edges_lead_up(config, health, edges, message);
        assert(fits_pattern(layers[a].paths@[i]@, edges[k].from_file@));
        assert(fits_pattern(layers[b].paths@[j]@, edges[k].to_file@));
    } else if c1.len() > 0 {
        let v = c1[0];
        assert(c1.contains(v));
        lemma_crossings_reported(boundaries, edges, v);
        let b = choose|b: int|
            0 <= b < boundaries.len() && crossings(#[trigger] boundaries[b], edges).contains(v);
        lemma_crossing_reported(boundaries[b], edges, v);
        let k = choose|k: int|
            0 <= k < edges.len() && crosses(boundaries[b], #[trigger] edges[k]) && v == (
                "boundary"@,
                boundary_message(boundaries[b], edges[k]),
            );
        assert(crosses(boundaries[b], edges[k]));
    }
}

} // verus!
