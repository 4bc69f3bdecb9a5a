//! The scanned tree, file by file: which files there are, and how complex each is.

use crate::snapshot::{files, files_of, own, FileNode, FuncInfo, Snapshot};
use vstd::hash_map::StringHashMap;
use vstd::hash_set::StringHashSet;
use vstd::prelude::*;

verus! {

/// The greatest of the measured `values`, if any was measured.
pub open spec fn greatest(values: Seq<Option<u32>>) -> Option<u32>
    decreases values.len(),
{
    if values.len() == 0 {
        None
    } else {
        match (greatest(values.drop_last()), values.last()) {
            (Some(a), Some(b)) => Some(if a < b { b } else { a }),
            (Some(a), None) => Some(a),
            (None, last) => last,
        }
    }
}

/// `value`, or `default` where there is none.
pub open spec fn or_default(value: Option<u32>, default: u32) -> u32 {
    match value {
        Some(v) => v,
        None => default,
    }
}

/// The functions found in `node`, where the parser reports functions for it.
pub open spec fn functions(node: FileNode) -> Option<Seq<FuncInfo>> {
    match node.sa {
        Some(sa) => match sa.functions {
            Some(funcs) => Some(funcs@),
            None => None,
        },
        None => None,
    }
}

/// The cyclomatic complexities of `funcs`.
pub open spec fn ccs(funcs: Seq<FuncInfo>) -> Seq<Option<u32>> {
    funcs.map_values(|f: FuncInfo| f.cc)
}

/// The cognitive complexities of `funcs`.
pub open spec fn cogs(funcs: Seq<FuncInfo>) -> Seq<Option<u32>> {
    funcs.map_values(|f: FuncInfo| f.cog)
}

/// The greatest cyclomatic complexity in `node`, 1 where none was measured, and nothing where
/// the parser reports no functions.
pub open spec fn max_cc(node: FileNode) -> Option<u32> {
    match functions(node) {
        Some(funcs) => Some(or_default(greatest(ccs(funcs)), 1)),
        None => None,
    }
}

/// `base` with the complexity of each of `nodes` put in under its path, one after the other.
pub open spec fn with_complexities(base: Map<Seq<char>, u32>, nodes: Seq<FileNode>) -> Map<
    Seq<char>,
    u32,
>
    decreases nodes.len(),
{
    if nodes.len() == 0 {
        base
    } else {
        let before = with_complexities(base, nodes.drop_last());
        match max_cc(nodes.last()) {
            Some(cc) => before.insert(nodes.last().path@, cc),
            None => before,
        }
    }
}

/// The paths of `nodes`.
pub open spec fn paths(nodes: Seq<FileNode>) -> Set<Seq<char>> {
    Set::new(|p: Seq<char>| has_path(nodes, p))
}

/// Whether one of `nodes` has the path `p`.
pub open spec fn has_path(nodes: Seq<FileNode>, p: Seq<char>) -> bool {
    exists|i: int| 0 <= i < nodes.len() && (#[trigger] nodes[i]).path@ == p
}

proof fn lemma_with_complexities_concat(base: Map<Seq<char>, u32>, a: Seq<FileNode>, b: Seq<FileNode>)
    ensures
        with_complexities(base, a + b) == with_complexities(with_complexities(base, a), b),
    decreases b.len(),
{
    if b.len() == 0 {
        assert(a + b =~= a);
    } else {
        lemma_with_complexities_concat(base, a, b.drop_last());
        assert((a + b).drop_last() =~= a + b.drop_last());
        assert((a + b).last() == b.last());
    }
}

proof fn lemma_paths_concat(a: Seq<FileNode>, b: Seq<FileNode>)
    ensures
        paths(a + b) == paths(a).union(paths(b)),
{
    assert forall|p: Seq<char>| has_path(a + b, p) == (has_path(a, p) || has_path(b, p)) by {
        if has_path(a, p) {
            let i = choose|i: int| 0 <= i < a.len() && (#[trigger] a[i]).path@ == p;
            assert((a + b)[i].path@ == p);
        }
        if has_path(b, p) {
            let i = choose|i: int| 0 <= i < b.len() && (#[trigger] b[i]).path@ == p;
            assert((a + b)[a.len() + i].path@ == p);
        }
        if has_path(a + b, p) {
            let i = choose|i: int| 0 <= i < (a + b).len() && (#[trigger] (a + b)[i]).path@ == p;
            if i < a.len() {
                assert(a[i].path@ == p);
            } else {
                assert(b[i - a.len()].path@ == p);
            }
        }
    }
    assert(paths(a + b) =~= paths(a).union(paths(b)));
}

/// A node is greater than each of its children, in the order that recursion over trees uses.
proof fn lemma_child_is_smaller(node: FileNode, i: int)
    requires
        node.children is Some,
        0 <= i < node.children->0@.len(),
    ensures
        decreases_to!(node => node.children->0@[i]),
{
    assert(decreases_to!(node => node.children));
    assert(decreases_to!(node.children => node.children->0));
    assert(decreases_to!(node.children->0 => node.children->0@));
    assert(decreases_to!(node.children->0@ => node.children->0@[i]));
}

/// The greatest cyclomatic complexity of `funcs`, if any was measured.
pub fn greatest_cc(funcs: &Vec<FuncInfo>) -> (r: Option<u32>)
    ensures
        r == greatest(ccs(funcs@)),
{
    let ghost all: Seq<Option<u32>> = ccs(funcs@);
    let mut found: Option<u32> = None;
    for i in 0..funcs.len()
        invariant
            all == ccs(funcs@),
            found == greatest(all.take(i as int)),
    {
        assert(all.take(i + 1).drop_last() =~= all.take(i as int));
        found = match (found, funcs[i].cc) {
            (Some(a), Some(b)) => Some(if a < b { b } else { a }),
            (Some(a), None) => Some(a),
            (None, last) => last,
        };
    }
    assert(all.take(funcs.len() as int) =~= all);
    found
}

/// The greatest cognitive complexity of `funcs`, if any was measured.
pub fn greatest_cog(funcs: &Vec<FuncInfo>) -> (r: Option<u32>)
    ensures
        r == greatest(cogs(funcs@)),
{
    let ghost all: Seq<Option<u32>> = cogs(funcs@);
    let mut found: Option<u32> = None;
    for i in 0..funcs.len()
        invariant
            all == cogs(funcs@),
            found == greatest(all.take(i as int)),
    {
        assert(all.take(i + 1).drop_last() =~= all.take(i as int));
        found = match (found, funcs[i].cog) {
            (Some(a), Some(b)) => Some(if a < b { b } else { a }),
            (Some(a), None) => Some(a),
            (None, last) => last,
        };
    }
    assert(all.take(funcs.len() as int) =~= all);
    found
}

/// The greatest cyclomatic complexity in `node`: 1 where none of its functions was measured,
/// and nothing where the parser reports no functions.
pub fn extract_max_cc(node: &FileNode) -> (r: Option<u32>)
    ensures
        r == max_cc(*node),
{
    match &node.sa {
        Some(sa) => match &sa.functions {
            Some(funcs) => Some(greatest_cc(funcs).unwrap_or(1)),
            None => None,
        },
        None => None,
    }
}

/// Puts the complexity of every file at and below `node` into `map`, by path.
pub fn collect_complexity(node: &FileNode, map: &mut StringHashMap<u32>)
    ensures
        final(map)@ == with_complexities(old(map)@, files(*node)),
    decreases *node,
{
    let ghost base: Map<Seq<char>, u32> = map@;
    if !node.is_dir {
        if let Some(cc) = extract_max_cc(node) {
            map.insert(node.path.clone(), cc);
        }
    }
    proof {
        if !node.is_dir {
            assert(own(*node).drop_last() =~= Seq::<FileNode>::empty());
            assert(with_complexities(base, Seq::empty()) == base);
        }
    }
    assert(map@ == with_complexities(base, own(*node)));
    if let Some(children) = &node.children {
        assert(own(*node) + files_of(children@.take(0)) =~= own(*node));
        for i in 0..children.len()
            invariant
                node.children == Some(*children),
                map@ == with_complexities(base, own(*node) + files_of(children@.take(i as int))),
        {
            proof {
                let done = children@.take(i as int);
                assert(children@.take(i + 1).drop_last() =~= done);
                assert(own(*node) + files_of(children@.take(i + 1)) =~= (own(*node) + files_of(done))
                    + files(children@[i as int]));
                lemma_with_complexities_concat(
                    base,
                    own(*node) + files_of(done),
                    files(children@[i as int]),
                );
            }
            proof {
                lemma_child_is_smaller(*node, i as int);
            }
            collect_complexity(&children[i], map);
        }
        assert(children@.take(children.len() as int) =~= children@);
    } else {
        assert(files(*node) =~= own(*node));
    }
}

/// The complexity of every file of `snapshot` that the parser reports functions for, by path.
pub fn build_complexity_map(snapshot: &Snapshot) -> (map: StringHashMap<u32>)
    ensures
        map@ == with_complexities(Map::empty(), files(snapshot.root)),
{
    let mut map: StringHashMap<u32> = StringHashMap::new();
    collect_complexity(&snapshot.root, &mut map);
    map
}

/// Puts the path of every file at and below `node` into `set`.
pub fn collect_files(node: &FileNode, set: &mut StringHashSet)
    ensures
        final(set)@ == old(set)@.union(paths(files(*node))),
    decreases *node,
{
    let ghost base: Set<Seq<char>> = set@;
    if !node.is_dir {
        set.insert(node.path.clone());
    }
    proof {
        if !node.is_dir {
            assert(own(*node)[0].path@ == node.path@);
        }
        assert(set@ =~= base.union(paths(own(*node))));
    }
    if let Some(children) = &node.children {
        assert(own(*node) + files_of(children@.take(0)) =~= own(*node));
        for i in 0..children.len()
            invariant
                node.children == Some(*children),
                set@ == base.union(paths(own(*node) + files_of(children@.take(i as int)))),
        {
            proof {
                let done = children@.take(i as int);
                assert(children@.take(i + 1).drop_last() =~= done);
                assert(own(*node) + files_of(children@.take(i + 1)) =~= (own(*node) + files_of(done))
                    + files(children@[i as int]));
                lemma_paths_concat(own(*node) + files_of(done), files(children@[i as int]));
            }
            proof {
                lemma_child_is_smaller(*node, i as int);
            }
            collect_files(&children[i], set);
            assert(set@ =~= base.union(paths(own(*node) + files_of(children@.take(i + 1)))));
        }
        assert(children@.take(children.len() as int) =~= children@);
    } else {
        assert(files(*node) =~= own(*node));
    }
}

/// The paths of the files of `snapshot`.
pub fn build_known_files(snapshot: &Snapshot) -> (set: StringHashSet)
    ensures
        set@ == paths(files(snapshot.root)),
{
    let mut set: StringHashSet = StringHashSet::new();
    collect_files(&snapshot.root, &mut set);
    assert(set@ =~= paths(files(snapshot.root)));
    set
}

/// Appends the files at and below `node` to `found`, parents before children.
fn append_files<'a>(node: &'a FileNode, found: &mut Vec<&'a FileNode>)
    ensures
        final(found)@.map_values(|f: &FileNode| *f) == old(found)@.map_values(|f: &FileNode| *f)
            + files(*node),
    decreases *node,
{
    let ghost deref = |f: &FileNode| *f;
    let ghost base: Seq<FileNode> = found@.map_values(deref);
    if !node.is_dir {
        found.push(node);
    }
    assert(found@.map_values(deref) =~= base + own(*node));
    if let Some(children) = &node.children {
        for i in 0..children.len()
            invariant
                node.children == Some(*children),
                deref == |f: &FileNode| *f,
                found@.map_values(deref) == base + own(*node) + files_of(children@.take(i as int)),
        {
            proof {
                lemma_child_is_smaller(*node, i as int);
            }
            append_files(&children[i], found);
            assert(children@.take(i + 1).drop_last() =~= children@.take(i as int));
            assert(found@.map_values(deref) =~= base + own(*node) + files_of(children@.take(i + 1)));
        }
        assert(children@.take(children.len() as int) =~= children@);
    }
    assert(found@.map_values(deref) =~= base + files(*node));
}

/// The files at and below `node`, parents before children.
pub fn flatten_files_ref<'a>(node: &'a FileNode) -> (found: Vec<&'a FileNode>)
    ensures
        found@.map_values(|f: &FileNode| *f) == files(*node),
{
    let mut found: Vec<&'a FileNode> = Vec::new();
    append_files(node, &mut found);
    assert(found@.map_values(|f: &FileNode| *f) =~= files(*node));
    found
}

/// The greatest value is one of those that were measured, and none of them is greater; there is
/// one just when any was measured.
pub proof fn greatest_is_the_greatest(values: Seq<Option<u32>>)
    ensures
        greatest(values) is Some ==> values.contains(greatest(values)),
        forall|i: int|
            0 <= i < values.len() && (#[trigger] values[i]) is Some ==> greatest(values) is Some
                && values[i]->0 <= greatest(values)->0,
    decreases values.len(),
{
    if values.len() > 0 {
        let shorter = values.drop_last();
        greatest_is_the_greatest(shorter);
        if shorter.contains(greatest(shorter)) {
            let i = choose|i: int| 0 <= i < shorter.len() && shorter[i] == greatest(shorter);
            assert(values[i] == greatest(shorter));
        }
        assert(values[values.len() - 1] == values.last());
        assert forall|i: int| 0 <= i < values.len() && (#[trigger] values[i]) is Some implies greatest(values) is Some
            && values[i]->0 <= greatest(values)->0 by {
            if i < shorter.len() {
                assert(shorter[i] == values[i]);
            }
        }
    }
}

/// The complexity map has an entry for the path of each file that the parser reports functions
/// for, and for no other path. Where two files have the same path, the later one counts.
pub proof fn complexities_are_those_of_files(nodes: Seq<FileNode>)
    ensures
        forall|p: Seq<char>| #[trigger]
            with_complexities(Map::empty(), nodes).contains_key(p) <==> exists|i: int|
                0 <= i < nodes.len() && (#[trigger] nodes[i]).path@ == p && max_cc(nodes[i]) is Some,
        forall|i: int|
            {
                &&& 0 <= i < nodes.len()
                &&& max_cc(#[trigger] nodes[i]) is Some
                &&& forall|j: int|
                    i < j < nodes.len() && max_cc(nodes[j]) is Some ==> (#[trigger] nodes[j]).path@ != nodes[i].path@
            } ==> with_complexities(Map::empty(), nodes)[nodes[i].path@] == max_cc(nodes[i])->0,
    decreases nodes.len(),
{
    if nodes.len() > 0 {
        let shorter = nodes.drop_last();
        let n = nodes.len() - 1;
        let before = with_complexities(Map::empty(), shorter);
        let after = with_complexities(Map::empty(), nodes);
        complexities_are_those_of_files(shorter);
        assert forall|p: Seq<char>| #[trigger] after.contains_key(p) <==> exists|i: int|
            0 <= i < nodes.len() && (#[trigger] nodes[i]).path@ == p && max_cc(nodes[i]) is Some by {
            if before.contains_key(p) {
                let i = choose|i: int|
                    0 <= i < shorter.len() && (#[trigger] shorter[i]).path@ == p && max_cc(shorter[i]) is Some;
                assert(nodes[i] == shorter[i]);
            }
            if exists|i: int|
                0 <= i < nodes.len() && (#[trigger] nodes[i]).path@ == p && max_cc(nodes[i]) is Some {
                let i = choose|i: int|
                    0 <= i < nodes.len() && (#[trigger] nodes[i]).path@ == p && max_cc(nodes[i]) is Some;
                if i < n {
                    assert(shorter[i] == nodes[i]);
                    assert(before.contains_key(p));
                }
            }
            assert(nodes[n] == nodes.last());
        }
        assert forall|i: int|
            {
                &&& 0 <= i < nodes.len()
                &&& max_cc(#[trigger] nodes[i]) is Some
                &&& forall|j: int|
                    i < j < nodes.len() && max_cc(nodes[j]) is Some ==> (#[trigger] nodes[j]).path@ != nodes[i].path@
            } implies after[nodes[i].path@] == max_cc(nodes[i])->0 by {
            if i < n {
                assert(shorter[i] == nodes[i]);
                assert forall|j: int| i < j < shorter.len() && max_cc(shorter[j]) is Some implies (
                #[trigger] shorter[j]).path@ != shorter[i].path@ by {
                    assert(shorter[j] == nodes[j]);
                }
                assert(nodes[n] == nodes.last());
                assert(max_cc(nodes[n]) is Some ==> nodes[n].path@ != nodes[i].path@);
            }
        }
    }
}

/// Every path with a complexity is the path of a file.
pub proof fn complexities_are_of_known_files(nodes: Seq<FileNode>, p: Seq<char>)
    requires
        with_complexities(Map::empty(), nodes).contains_key(p),
    ensures
        paths(nodes).contains(p),
{
    complexities_are_those_of_files(nodes);
}

/// The complexity of a file is the greatest that was measured of its functions, and one where none
/// was; a file that the parser reports no functions for has none.
pub proof fn the_complexity_of_a_file_is_its_greatest(node: FileNode)
    ensures
        max_cc(node) is Some <==> node.sa is Some && node.sa->0.functions is Some,
        max_cc(node) is Some ==> {
            let funcs = node.sa->0.functions->0@;
            &&& forall|i: int|
                0 <= i < funcs.len() && (#[trigger] funcs[i]).cc is Some ==> funcs[i].cc->0 <= max_cc(node)->0
            &&& (exists|i: int| 0 <= i < funcs.len() && (#[trigger] funcs[i]).cc is Some) ==> exists|i: int|
                0 <= i < funcs.len() && (#[trigger] funcs[i]).cc == max_cc(node)
            &&& (forall|i: int| 0 <= i < funcs.len() ==> (#[trigger] funcs[i]).cc is None) ==> max_cc(node)
                == Some(1u32)
        },
{
    if max_cc(node) is Some {
        let funcs = node.sa->0.functions->0@;
        let values = ccs(funcs);
        greatest_is_the_greatest(values);
        assert(forall|i: int| 0 <= i < funcs.len() ==> (#[trigger] funcs[i]).cc == values[i]);
        if greatest(values) is Some {
            let i = choose|i: int| 0 <= i < values.len() && values[i] == greatest(values);
            assert(funcs[i].cc == greatest(values));
        }
    }
}

/// The known paths are those of the files, and no others.
pub proof fn known_paths_are_those_of_files(nodes: Seq<FileNode>, p: Seq<char>)
    ensures
        paths(nodes).contains(p) <==> exists|i: int| 0 <= i < nodes.len() && (#[trigger] nodes[i]).path@ == p,
{
}

} // verus!
