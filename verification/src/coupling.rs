//! Which file depends on which.
//!
//! A file depends on another where it imports it or calls into it. An import that only declares
//! a submodule does not count, and a pair of files counts once however many edges join it.

use crate::json::views;
use crate::pairs::PairSet;
use crate::snapshot::{CallEdge, ImportEdge, Snapshot};
use crate::text::same;
use vstd::hash_map::StringHashMap;
use vstd::prelude::*;

verus! {

/// The dependency of one file on another.
pub struct Link<'a> {
    /// The file that depends.
    pub from: &'a str,
    /// The file that it depends on.
    pub to: &'a str,
}

impl<'a> View for Link<'a> {
    type V = (Seq<char>, Seq<char>);

    open spec fn view(&self) -> (Seq<char>, Seq<char>) {
        (self.from@, self.to@)
    }
}

/// The pairs of files that `imports` join, declarations of submodules left out.
pub open spec fn import_links(imports: Seq<ImportEdge>) -> Seq<(Seq<char>, Seq<char>)>
    decreases imports.len(),
{
    if imports.len() == 0 {
        Seq::empty()
    } else {
        let edge = imports.last();
        let before = import_links(imports.drop_last());
        if edge.mod_declaration {
            before
        } else {
            before.push((edge.from_file@, edge.to_file@))
        }
    }
}

/// The pairs of files that `calls` join.
pub open spec fn call_links(calls: Seq<CallEdge>) -> Seq<(Seq<char>, Seq<char>)> {
    calls.map_values(|edge: CallEdge| (edge.from_file@, edge.to_file@))
}

/// `s` without what occurred before.
pub open spec fn distinct<T>(s: Seq<T>) -> Seq<T>
    decreases s.len(),
{
    if s.len() == 0 {
        s
    } else {
        let before = distinct(s.drop_last());
        if s.drop_last().contains(s.last()) {
            before
        } else {
            before.push(s.last())
        }
    }
}

/// The dependencies between files, each once, in the order in which they are first met: the
/// imports, then the calls.
pub open spec fn dependencies(imports: Seq<ImportEdge>, calls: Seq<CallEdge>) -> Seq<
    (Seq<char>, Seq<char>),
> {
    distinct(import_links(imports) + call_links(calls))
}

/// What `path` depends on, by `links`.
pub open spec fn targets(links: Seq<(Seq<char>, Seq<char>)>, path: Seq<char>) -> Seq<Seq<char>>
    decreases links.len(),
{
    if links.len() == 0 {
        Seq::empty()
    } else {
        let before = targets(links.drop_last(), path);
        if links.last().0 == path {
            before.push(links.last().1)
        } else {
            before
        }
    }
}

/// What depends on `path`, by `links`.
pub open spec fn sources(links: Seq<(Seq<char>, Seq<char>)>, path: Seq<char>) -> Seq<Seq<char>>
    decreases links.len(),
{
    if links.len() == 0 {
        Seq::empty()
    } else {
        let before = sources(links.drop_last(), path);
        if links.last().1 == path {
            before.push(links.last().0)
        } else {
            before
        }
    }
}

impl Snapshot {
    /// Whether the edges can be counted twice over in a machine word, which holds of any two
    /// vectors that fit in memory together.
    pub open spec fn fits(self) -> bool {
        self.import_graph.len() + self.call_graph.len() <= usize::MAX / 2
    }

    /// The dependencies between the files of the scan.
    pub open spec fn links(self) -> Seq<(Seq<char>, Seq<char>)> {
        dependencies(self.import_graph@, self.call_graph@)
    }
}

/// The pairs that `links` hold.
pub open spec fn link_views(links: Seq<Link>) -> Seq<(Seq<char>, Seq<char>)> {
    links.map_values(|link: Link| link@)
}

/// Leaving out what occurred before keeps each entry, and keeps it once.
pub proof fn distinct_keeps_each_once<T>(s: Seq<T>)
    ensures
        distinct(s).no_duplicates(),
        distinct(s).len() <= s.len(),
        forall|x: T| #[trigger] distinct(s).contains(x) <==> s.contains(x),
    decreases s.len(),
{
    if s.len() > 0 {
        let shorter = s.drop_last();
        distinct_keeps_each_once(shorter);
        assert forall|x: T| #[trigger] distinct(s).contains(x) <==> s.contains(x) by {
            if s.contains(x) {
                let i = choose|i: int| 0 <= i < s.len() && s[i] == x;
                if i < shorter.len() {
                    assert(shorter[i] == x);
                    assert(distinct(shorter).contains(x));
                    let j = choose|j: int| 0 <= j < distinct(shorter).len() && distinct(shorter)[j] == x;
                    assert(distinct(s)[j] == x);
                } else if shorter.contains(x) {
                    assert(distinct(shorter).contains(x));
                } else {
                    assert(distinct(s).last() == x);
                }
            }
            if distinct(s).contains(x) {
                let j = choose|j: int| 0 <= j < distinct(s).len() && distinct(s)[j] == x;
                if j < distinct(shorter).len() {
                    assert(distinct(shorter)[j] == x);
                    assert(distinct(shorter).contains(x));
                    assert(shorter.contains(x));
                    let i = choose|i: int| 0 <= i < shorter.len() && shorter[i] == x;
                    assert(s[i] == x);
                } else {
                    assert(s.last() == x);
                }
            }
        }
        if !shorter.contains(s.last()) {
            assert(!distinct(shorter).contains(s.last()));
        }
    }
}

proof fn lemma_import_links_len(imports: Seq<ImportEdge>)
    ensures
        import_links(imports).len() <= imports.len(),
    decreases imports.len(),
{
    if imports.len() > 0 {
        lemma_import_links_len(imports.drop_last());
    }
}

/// The dependencies of a scan are no more than its edges.
pub proof fn links_are_no_more_than_edges(snapshot: Snapshot)
    ensures
        snapshot.links().len() <= snapshot.import_graph.len() + snapshot.call_graph.len(),
{
    lemma_import_links_len(snapshot.import_graph@);
    distinct_keeps_each_once(import_links(snapshot.import_graph@) + call_links(snapshot.call_graph@));
}

/// A file has no more dependencies than there are.
proof fn lemma_targets_len(links: Seq<(Seq<char>, Seq<char>)>, path: Seq<char>)
    ensures
        targets(links, path).len() <= links.len(),
    decreases links.len(),
{
    if links.len() > 0 {
        lemma_targets_len(links.drop_last(), path);
    }
}

proof fn lemma_sources_len(links: Seq<(Seq<char>, Seq<char>)>, path: Seq<char>)
    ensures
        sources(links, path).len() <= links.len(),
    decreases links.len(),
{
    if links.len() > 0 {
        lemma_sources_len(links.drop_last(), path);
    }
}

/// The two directions of a file's dependencies together can be counted in a machine word.
pub proof fn degrees_fit(snapshot: Snapshot, path: Seq<char>)
    requires
        snapshot.fits(),
    ensures
        targets(snapshot.links(), path).len() + sources(snapshot.links(), path).len() <= usize::MAX,
{
    links_are_no_more_than_edges(snapshot);
    lemma_targets_len(snapshot.links(), path);
    lemma_sources_len(snapshot.links(), path);
}

/// The dependencies between the files of `snapshot`, each once.
pub fn collect_links<'a>(snapshot: &'a Snapshot) -> (links: Vec<Link<'a>>)
    requires
        snapshot.fits(),
    ensures
        link_views(links@) == snapshot.links(),
{
    let mut links: Vec<Link<'a>> = Vec::new();
    let mut seen: PairSet = PairSet::new();
    let ghost mut met: Seq<(Seq<char>, Seq<char>)> = Seq::empty();
    let ghost imports: Seq<ImportEdge> = snapshot.import_graph@;
    let ghost calls: Seq<CallEdge> = snapshot.call_graph@;
    for i in 0..snapshot.import_graph.len()
        invariant
            snapshot.fits(),
            imports == snapshot.import_graph@,
            seen.well_formed(),
            seen.strings() <= 2 * i,
            met == import_links(imports.take(i as int)),
            forall|p: (Seq<char>, Seq<char>)| #[trigger] seen@.contains(p) <==> met.contains(p),
            link_views(links@) == distinct(met),
    {
        let edge: &'a ImportEdge = &snapshot.import_graph[i];
        proof {
            assert(imports.take(i + 1).drop_last() =~= imports.take(i as int));
            assert(imports.take(i + 1).last() == *edge);
        }
        if !edge.mod_declaration {
            let ghost pair = (edge.from_file@, edge.to_file@);
            proof {
                assert(met.push(pair).drop_last() =~= met);
                lemma_contains_push(met, pair);
            }
            if seen.insert(edge.from_file.as_str(), edge.to_file.as_str()) {
                links.push(Link { from: edge.from_file.as_str(), to: edge.to_file.as_str() });
            }
            proof {
                met = met.push(pair);
                assert(link_views(links@) =~= distinct(met));
            }
        }
    }
    assert(imports.take(imports.len() as int) =~= imports);
    assert(met =~= import_links(imports) + call_links(calls.take(0)));
    for i in 0..snapshot.call_graph.len()
        invariant
            snapshot.fits(),
            imports == snapshot.import_graph@,
            calls == snapshot.call_graph@,
            seen.well_formed(),
            seen.strings() <= 2 * (snapshot.import_graph.len() + i),
            met == import_links(imports) + call_links(calls.take(i as int)),
            forall|p: (Seq<char>, Seq<char>)| #[trigger] seen@.contains(p) <==> met.contains(p),
            link_views(links@) == distinct(met),
    {
        let edge: &'a CallEdge = &snapshot.call_graph[i];
        let ghost pair = (edge.from_file@, edge.to_file@);
        proof {
            assert(met.push(pair).drop_last() =~= met);
            lemma_contains_push(met, pair);
        }
        if seen.insert(edge.from_file.as_str(), edge.to_file.as_str()) {
            links.push(Link { from: edge.from_file.as_str(), to: edge.to_file.as_str() });
        }
        proof {
            met = met.push(pair);
            assert(link_views(links@) =~= distinct(met));
            assert(met =~= import_links(imports) + call_links(calls.take(i + 1)));
        }
    }
    assert(calls.take(calls.len() as int) =~= calls);
    links
}

proof fn lemma_contains_push<T>(s: Seq<T>, x: T)
    ensures
        forall|y: T| #[trigger] s.push(x).contains(y) <==> s.contains(y) || y == x,
{
    assert forall|y: T| #[trigger] s.push(x).contains(y) <==> s.contains(y) || y == x by {
        if s.contains(y) {
            let i = choose|i: int| 0 <= i < s.len() && s[i] == y;
            assert(s.push(x)[i] == y);
        }
        assert(s.push(x).last() == x);
    }
}

/// The files that a file depends on, and those that depend on it.
pub struct Coupling {
    /// What the file depends on.
    pub imports: Vec<String>,
    /// What depends on the file.
    pub imported_by: Vec<String>,
}

/// What `path` depends on and what depends on it, in the order of the scan.
pub fn file_coupling(snapshot: &Snapshot, path: &str) -> (coupling: Coupling)
    requires
        snapshot.fits(),
    ensures
        views(coupling.imports@) == targets(snapshot.links(), path@),
        views(coupling.imported_by@) == sources(snapshot.links(), path@),
{
    let links: Vec<Link> = collect_links(snapshot);
    let ghost all: Seq<(Seq<char>, Seq<char>)> = link_views(links@);
    let mut imports: Vec<String> = Vec::new();
    let mut imported_by: Vec<String> = Vec::new();
    for i in 0..links.len()
        invariant
            all == link_views(links@),
            views(imports@) == targets(all.take(i as int), path@),
            views(imported_by@) == sources(all.take(i as int), path@),
    {
        assert(all.take(i + 1).drop_last() =~= all.take(i as int));
        assert(all.take(i + 1).last() == links[i as int]@);
        if same(links[i].from, path) {
            imports.push(links[i].to.to_owned());
        }
        if same(links[i].to, path) {
            imported_by.push(links[i].from.to_owned());
        }
        assert(views(imports@) =~= targets(all.take(i + 1), path@));
        assert(views(imported_by@) =~= sources(all.take(i + 1), path@));
    }
    assert(all.take(links.len() as int) =~= all);
    Coupling { imports, imported_by }
}

/// The count of `path` in `map`, zero where it has none.
pub open spec fn count(map: Map<Seq<char>, usize>, path: Seq<char>) -> int {
    if map.contains_key(path) {
        map[path] as int
    } else {
        0
    }
}

/// Counts one more for `path`.
fn count_one(map: &mut StringHashMap<usize>, path: &str)
    requires
        count(old(map)@, path@) < usize::MAX,
    ensures
        final(map)@ == old(map)@.insert(path@, (count(old(map)@, path@) + 1) as usize),
{
    let before: usize = match map.get(path) {
        Some(n) => *n,
        None => 0,
    };
    map.insert(path.to_owned(), before + 1);
}

/// The count of `path` in `map`, zero where it has none.
pub fn count_of(map: &StringHashMap<usize>, path: &str) -> (n: usize)
    ensures
        n == count(map@, path@),
{
    match map.get(path) {
        Some(n) => *n,
        None => 0,
    }
}

/// Whether `map` holds the number of things each path depends on, for those that depend on any.
pub open spec fn counts_targets(map: Map<Seq<char>, usize>, links: Seq<(Seq<char>, Seq<char>)>) -> bool {
    forall|p: Seq<char>|
        {
            &&& #[trigger] map.contains_key(p) <==> targets(links, p).len() > 0
            &&& map.contains_key(p) ==> map[p] == targets(links, p).len()
        }
}

/// Whether `map` holds the number of things that depend on each path, for those that any depends
/// on.
pub open spec fn counts_sources(map: Map<Seq<char>, usize>, links: Seq<(Seq<char>, Seq<char>)>) -> bool {
    forall|p: Seq<char>|
        {
            &&& #[trigger] map.contains_key(p) <==> sources(links, p).len() > 0
            &&& map.contains_key(p) ==> map[p] == sources(links, p).len()
        }
}

/// How many files each file depends on, and how many depend on it: the fan-out and the fan-in of
/// every file that has any.
pub fn compute_fan_maps(snapshot: &Snapshot) -> (maps: (StringHashMap<usize>, StringHashMap<usize>))
    requires
        snapshot.fits(),
    ensures
        counts_targets(maps.0@, snapshot.links()),
        counts_sources(maps.1@, snapshot.links()),
{
    let links: Vec<Link> = collect_links(snapshot);
    let ghost all: Seq<(Seq<char>, Seq<char>)> = link_views(links@);
    let mut fan_out: StringHashMap<usize> = StringHashMap::new();
    let mut fan_in: StringHashMap<usize> = StringHashMap::new();
    for i in 0..links.len()
        invariant
            all == link_views(links@),
            counts_targets(fan_out@, all.take(i as int)),
            counts_sources(fan_in@, all.take(i as int)),
    {
        let ghost outs: Map<Seq<char>, usize> = fan_out@;
        let ghost ins: Map<Seq<char>, usize> = fan_in@;
        proof {
            assert(all.take(i + 1).drop_last() =~= all.take(i as int));
            assert(all.take(i + 1).last() == links[i as int]@);
            lemma_targets_len(all.take(i as int), links[i as int].from@);
            lemma_sources_len(all.take(i as int), links[i as int].to@);
            assert(outs.contains_key(links[i as int].from@) || !outs.contains_key(links[i as int].from@));
            assert(ins.contains_key(links[i as int].to@) || !ins.contains_key(links[i as int].to@));
        }
        count_one(&mut fan_out, links[i].from);
        count_one(&mut fan_in, links[i].to);
        proof {
            assert forall|p: Seq<char>|
                {
                    &&& #[trigger] fan_out@.contains_key(p) <==> targets(all.take(i + 1), p).len() > 0
                    &&& fan_out@.contains_key(p) ==> fan_out@[p] == targets(all.take(i + 1), p).len()
                } by {
                assert(outs.contains_key(p) || !outs.contains_key(p));
            }
            assert forall|p: Seq<char>|
                {
                    &&& #[trigger] fan_in@.contains_key(p) <==> sources(all.take(i + 1), p).len() > 0
                    &&& fan_in@.contains_key(p) ==> fan_in@[p] == sources(all.take(i + 1), p).len()
                } by {
                assert(ins.contains_key(p) || !ins.contains_key(p));
            }
        }
    }
    assert(all.take(links.len() as int) =~= all);
    (fan_out, fan_in)
}

/// The fan maps and the coupling of a single file count the same dependencies: what the maps hold
/// for a path is the number of files that the coupling of that path lists.
pub proof fn fan_maps_agree_with_file_coupling(
    snapshot: Snapshot,
    fan_out: Map<Seq<char>, usize>,
    fan_in: Map<Seq<char>, usize>,
    path: Seq<char>,
)
    requires
        counts_targets(fan_out, snapshot.links()),
        counts_sources(fan_in, snapshot.links()),
    ensures
        count(fan_out, path) == targets(snapshot.links(), path).len(),
        count(fan_in, path) == sources(snapshot.links(), path).len(),
{
    assert(fan_out.contains_key(path) || !fan_out.contains_key(path));
    assert(fan_in.contains_key(path) || !fan_in.contains_key(path));
}

/// Whether an import that is no declaration of a submodule joins `from` to `to`.
pub open spec fn imports_join(imports: Seq<ImportEdge>, from: Seq<char>, to: Seq<char>) -> bool {
    exists|i: int|
        {
            &&& 0 <= i < imports.len()
            &&& !(#[trigger] imports[i]).mod_declaration
            &&& imports[i].from_file@ == from
            &&& imports[i].to_file@ == to
        }
}

/// Whether a call joins `from` to `to`.
pub open spec fn calls_join(calls: Seq<CallEdge>, from: Seq<char>, to: Seq<char>) -> bool {
    exists|i: int|
        0 <= i < calls.len() && (#[trigger] calls[i]).from_file@ == from && calls[i].to_file@ == to
}

proof fn lemma_import_links(imports: Seq<ImportEdge>, from: Seq<char>, to: Seq<char>)
    ensures
        import_links(imports).contains((from, to)) <==> imports_join(imports, from, to),
    decreases imports.len(),
{
    if imports.len() > 0 {
        let shorter = imports.drop_last();
        let edge = imports.last();
        lemma_import_links(shorter, from, to);
        lemma_contains_push(import_links(shorter), (edge.from_file@, edge.to_file@));
        if imports_join(shorter, from, to) {
            let i = choose|i: int|
                {
                    &&& 0 <= i < shorter.len()
                    &&& !(#[trigger] shorter[i]).mod_declaration
                    &&& shorter[i].from_file@ == from
                    &&& shorter[i].to_file@ == to
                };
            assert(imports[i] == shorter[i]);
        }
        if imports_join(imports, from, to) {
            let i = choose|i: int|
                {
                    &&& 0 <= i < imports.len()
                    &&& !(#[trigger] imports[i]).mod_declaration
                    &&& imports[i].from_file@ == from
                    &&& imports[i].to_file@ == to
                };
            if i < shorter.len() {
                assert(imports[i] == shorter[i]);
            }
        }
        assert(edge == imports[imports.len() - 1]);
    }
}

proof fn lemma_call_links(calls: Seq<CallEdge>, from: Seq<char>, to: Seq<char>)
    ensures
        call_links(calls).contains((from, to)) <==> calls_join(calls, from, to),
{
    if call_links(calls).contains((from, to)) {
        let i = choose|i: int| 0 <= i < call_links(calls).len() && call_links(calls)[i] == (from, to);
        assert(calls[i].from_file@ == from);
    }
    if calls_join(calls, from, to) {
        let i = choose|i: int|
            0 <= i < calls.len() && (#[trigger] calls[i]).from_file@ == from && calls[i].to_file@ == to;
        assert(call_links(calls)[i] == (from, to));
    }
}

/// One file depends on another just when an import that is no declaration of a submodule, or a
/// call, leads from the one to the other; and the dependency counts once.
pub proof fn links_are_what_edges_join(snapshot: Snapshot, from: Seq<char>, to: Seq<char>)
    ensures
        snapshot.links().no_duplicates(),
        snapshot.links().contains((from, to)) <==> imports_join(snapshot.import_graph@, from, to)
            || calls_join(snapshot.call_graph@, from, to),
{
    let a = import_links(snapshot.import_graph@);
    let b = call_links(snapshot.call_graph@);
    distinct_keeps_each_once(a + b);
    lemma_import_links(snapshot.import_graph@, from, to);
    lemma_call_links(snapshot.call_graph@, from, to);
    let pair = (from, to);
    if a.contains(pair) {
        let i = choose|i: int| 0 <= i < a.len() && a[i] == pair;
        assert((a + b)[i] == pair);
    }
    if b.contains(pair) {
        let i = choose|i: int| 0 <= i < b.len() && b[i] == pair;
        assert((a + b)[a.len() + i] == pair);
    }
    if (a + b).contains(pair) {
        let i = choose|i: int| 0 <= i < (a + b).len() && (a + b)[i] == pair;
        if i < a.len() {
            assert(a[i] == pair);
        } else {
            assert(b[i - a.len()] == pair);
        }
    }
    assert(snapshot.links().contains(pair) <==> (a + b).contains(pair));
}

proof fn lemma_targets(links: Seq<(Seq<char>, Seq<char>)>, path: Seq<char>, other: Seq<char>)
    requires
        links.no_duplicates(),
    ensures
        targets(links, path).contains(other) <==> links.contains((path, other)),
        targets(links, path).no_duplicates(),
    decreases links.len(),
{
    if links.len() > 0 {
        let shorter = links.drop_last();
        let last = links.last();
        lemma_targets(shorter, path, other);
        lemma_targets(shorter, path, last.1);
        lemma_contains_push(targets(shorter, path), last.1);
        lemma_contains_push(shorter, last);
        assert(links =~= shorter.push(last));
        assert(!shorter.contains(last));
    }
}

proof fn lemma_sources(links: Seq<(Seq<char>, Seq<char>)>, path: Seq<char>, other: Seq<char>)
    requires
        links.no_duplicates(),
    ensures
        sources(links, path).contains(other) <==> links.contains((other, path)),
        sources(links, path).no_duplicates(),
    decreases links.len(),
{
    if links.len() > 0 {
        let shorter = links.drop_last();
        let last = links.last();
        lemma_sources(shorter, path, other);
        lemma_sources(shorter, path, last.0);
        lemma_contains_push(sources(shorter, path), last.0);
        lemma_contains_push(shorter, last);
        assert(links =~= shorter.push(last));
        assert(!shorter.contains(last));
    }
}

/// What is listed for a file are the files that it depends on, and those that depend on it, each
/// of them once however many edges lead there.
pub proof fn each_neighbour_is_listed_once(snapshot: Snapshot, path: Seq<char>, other: Seq<char>)
    ensures
        targets(snapshot.links(), path).no_duplicates(),
        targets(snapshot.links(), path).contains(other) <==> imports_join(
            snapshot.import_graph@,
            path,
            other,
        ) || calls_join(snapshot.call_graph@, path, other),
        sources(snapshot.links(), path).no_duplicates(),
        sources(snapshot.links(), path).contains(other) <==> imports_join(
            snapshot.import_graph@,
            other,
            path,
        ) || calls_join(snapshot.call_graph@, other, path),
{
    links_are_what_edges_join(snapshot, path, other);
    links_are_what_edges_join(snapshot, other, path);
    lemma_targets(snapshot.links(), path, other);
    lemma_sources(snapshot.links(), path, other);
}

/// The dependencies stand in the order in which they are first met: what is met later comes behind
/// what was met before.
pub proof fn dependencies_stand_in_the_order_of_the_scan<T>(s: Seq<T>, x: T)
    ensures
        distinct(s.push(x)) == if s.contains(x) {
            distinct(s)
        } else {
            distinct(s).push(x)
        },
{
    assert(s.push(x).drop_last() =~= s);
}

/// One more dependency is one more neighbour of each of the two files it joins, behind the others,
/// and of no other file.
pub proof fn a_dependency_is_listed_for_both_its_files(
    links: Seq<(Seq<char>, Seq<char>)>,
    from: Seq<char>,
    to: Seq<char>,
    path: Seq<char>,
)
    ensures
        targets(links.push((from, to)), path) == if path == from {
            targets(links, path).push(to)
        } else {
            targets(links, path)
        },
        sources(links.push((from, to)), path) == if path == to {
            sources(links, path).push(from)
        } else {
            sources(links, path)
        },
{
    assert(links.push((from, to)).drop_last() =~= links);
}

} // verus!
