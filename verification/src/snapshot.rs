//! What a scan found: the tree of files, and the edges between files.

use vstd::hash_map::StringHashMap;
use vstd::prelude::*;

verus! {

/// A function of a scanned file.
pub struct FuncInfo {
    /// Name.
    pub n: String,
    /// Number of lines.
    pub ln: u32,
    /// Cyclomatic complexity, where it was measured.
    pub cc: Option<u32>,
    /// Cognitive complexity, where it was measured.
    pub cog: Option<u32>,
    /// Number of parameters, where it was counted.
    pub pc: Option<u32>,
    /// Whether it is public.
    pub is_public: bool,
}

/// What the parser found in a file.
pub struct StructuralAnalysis {
    /// The functions, where the language has them.
    pub functions: Option<Vec<FuncInfo>>,
}

/// A file or a directory of the scanned tree.
pub struct FileNode {
    /// Path relative to the scanned root.
    pub path: String,
    /// Whether this is a directory.
    pub is_dir: bool,
    /// Number of lines.
    pub lines: u32,
    /// Lines with code.
    pub logic: u32,
    /// Lines with comments.
    pub comments: u32,
    /// Blank lines.
    pub blanks: u32,
    /// Number of functions.
    pub funcs: u32,
    /// Language; empty or `unknown` where it was not recognised.
    pub lang: String,
    /// What the parser found, where it could read the file.
    pub sa: Option<StructuralAnalysis>,
    /// The entries of a directory.
    pub children: Option<Vec<FileNode>>,
}

/// A file that imports another.
pub struct ImportEdge {
    /// The importing file.
    pub from_file: String,
    /// The imported file.
    pub to_file: String,
    /// Whether the import only declares a submodule, which is no dependency.
    pub mod_declaration: bool,
}

/// A file that calls into another.
pub struct CallEdge {
    /// The calling file.
    pub from_file: String,
    /// The called file.
    pub to_file: String,
}

/// A place where execution starts.
pub struct EntryPoint {
    /// The file that holds it.
    pub file: String,
}

/// What a scan found.
pub struct Snapshot {
    /// The scanned directory.
    pub root: FileNode,
    /// The imports between files.
    pub import_graph: Vec<ImportEdge>,
    /// The calls between files.
    pub call_graph: Vec<CallEdge>,
    /// Where execution starts.
    pub entry_points: Vec<EntryPoint>,
    /// How deep in the call graph a file is first reached, by path.
    pub exec_depth: StringHashMap<u32>,
}

/// The files at and below `node`, directories left out, parents before children.
pub open spec fn files(node: FileNode) -> Seq<FileNode>
    decreases node,
{
    own(node) + match node.children {
        Some(children) => files_of(children@),
        None => Seq::empty(),
    }
}

/// `node` itself, where it is a file.
pub open spec fn own(node: FileNode) -> Seq<FileNode> {
    if node.is_dir {
        Seq::empty()
    } else {
        seq![node]
    }
}

/// The files at and below each of `nodes` in turn.
pub open spec fn files_of(nodes: Seq<FileNode>) -> Seq<FileNode>
    decreases nodes,
{
    if nodes.len() == 0 {
        Seq::empty()
    } else {
        files_of(nodes.drop_last()) + files(nodes.last())
    }
}

proof fn lemma_files_of(nodes: Seq<FileNode>, x: FileNode)
    ensures
        files_of(nodes).contains(x) <==> exists|i: int|
            0 <= i < nodes.len() && files(#[trigger] nodes[i]).contains(x),
    decreases nodes.len(),
{
    if nodes.len() > 0 {
        let shorter = nodes.drop_last();
        let n = nodes.len() - 1;
        let before = files_of(shorter);
        let last = files(nodes.last());
        lemma_files_of(shorter, x);
        assert(nodes[n] == nodes.last());
        if before.contains(x) {
            let j = choose|j: int| 0 <= j < before.len() && before[j] == x;
            assert((before + last)[j] == x);
            let i = choose|i: int| 0 <= i < shorter.len() && files(#[trigger] shorter[i]).contains(x);
            assert(nodes[i] == shorter[i]);
        }
        if last.contains(x) {
            let j = choose|j: int| 0 <= j < last.len() && last[j] == x;
            assert((before + last)[before.len() + j] == x);
        }
        if files_of(nodes).contains(x) {
            let j = choose|j: int| 0 <= j < (before + last).len() && (before + last)[j] == x;
            if j < before.len() {
                assert(before[j] == x);
            } else {
                assert(last[j - before.len()] == x);
            }
        }
        if exists|i: int| 0 <= i < nodes.len() && files(#[trigger] nodes[i]).contains(x) {
            let i = choose|i: int| 0 <= i < nodes.len() && files(#[trigger] nodes[i]).contains(x);
            if i < n {
                assert(shorter[i] == nodes[i]);
            }
        }
    }
}

/// The files of a tree are the node itself, where it is no directory, and the files of its children;
/// the node comes first.
pub proof fn files_are_those_of_the_tree(node: FileNode, x: FileNode)
    ensures
        files(node).contains(x) <==> (!node.is_dir && x == node) || (node.children is Some && exists|i: int|
            0 <= i < node.children->0@.len() && files(#[trigger] node.children->0@[i]).contains(x)),
        !node.is_dir ==> files(node).len() > 0 && files(node)[0] == node,
{
    let rest = match node.children {
        Some(children) => files_of(children@),
        None => Seq::empty(),
    };
    let first = own(node);
    if let Some(children) = node.children {
        lemma_files_of(children@, x);
    }
    if !node.is_dir {
        assert(first[0] == node);
        assert((first + rest)[0] == node);
    }
    if rest.contains(x) {
        let j = choose|j: int| 0 <= j < rest.len() && rest[j] == x;
        assert((first + rest)[first.len() + j] == x);
    }
    if files(node).contains(x) {
        let j = choose|j: int| 0 <= j < (first + rest).len() && (first + rest)[j] == x;
        if j >= first.len() {
            assert(rest[j - first.len()] == x);
        }
    }
}

/// The files of several trees are those of each in turn.
pub proof fn files_of_trees_come_in_turn(nodes: Seq<FileNode>, node: FileNode)
    ensures
        files_of(nodes.push(node)) == files_of(nodes) + files(node),
        files_of(Seq::empty()).len() == 0,
{
    assert(nodes.push(node).drop_last() =~= nodes);
}

} // verus!
