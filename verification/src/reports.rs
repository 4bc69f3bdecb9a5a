//! What the analyses of a scan report.
//!
//! A field that an analysis measures as a double, and that replies compute with, is held by its
//! IEEE-754 bits. A field that replies only pass on is held as the JSON value that they show.

use crate::measures::Measured;
use crate::snapshot::Snapshot;
use serde_json::Value;
use vstd::hash_map::StringHashMap;
use vstd::prelude::*;

verus! {

/// A file that an analysis points out.
pub struct FileMetric {
    /// Its path.
    pub path: String,
}

/// A function that an analysis points out.
pub struct FuncMetric {
    /// The path of the file that holds it.
    pub file: String,
}

/// Functions with the same body.
pub struct DuplicateGroup {
    /// The file, the name and the number of lines of each.
    pub instances: Vec<(String, String, u32)>,
}

/// What is wrong with the scanned code.
pub struct HealthReport {
    /// Files that depend on too many others.
    pub god_files: Vec<FileMetric>,
    /// Files that many depend on and that are unstable.
    pub hotspot_files: Vec<FileMetric>,
    /// Files with too many lines.
    pub long_files: Vec<FileMetric>,
    /// The files of each dependency cycle.
    pub circular_dep_files: Vec<Vec<String>>,
    /// Functions of too high a cyclomatic complexity.
    pub complex_functions: Vec<FuncMetric>,
    /// Functions with too many lines.
    pub long_functions: Vec<FuncMetric>,
    /// Functions of too high a cognitive complexity.
    pub cog_complex_functions: Vec<FuncMetric>,
    /// Functions with too many parameters.
    pub high_param_functions: Vec<FuncMetric>,
    /// Functions that nothing calls.
    pub dead_functions: Vec<FuncMetric>,
    /// Functions that are written more than once.
    pub duplicate_groups: Vec<DuplicateGroup>,
}

/// How the files are layered.
pub struct ArchReport {
    /// The level of a file, by path.
    pub levels: StringHashMap<u32>,
    /// The highest level.
    pub max_level: u32,
    /// How many files a change of a file can reach, by path.
    pub blast_radius: StringHashMap<u32>,
}

/// How often a file changed.
pub struct FileChurn {
    /// Number of commits.
    pub commit_count: u32,
    /// Lines added.
    pub lines_added: u32,
    /// Lines removed.
    pub lines_removed: u32,
    /// Lines added and removed.
    pub total_churn: u32,
}

/// Who wrote a file.
pub struct AuthorInfo {
    /// Number of authors.
    pub author_count: u32,
    /// The author of most commits.
    pub primary_author: String,
    /// The share of that author, a double by its bits.
    pub primary_ratio: u64,
    /// All authors.
    pub authors: Value,
}

/// A file that changes often and is complex.
pub struct TemporalHotspot {
    /// Its path.
    pub file: String,
    /// How risky it is.
    pub risk_score: Value,
    /// How often it changed.
    pub churn_count: u32,
    /// Its greatest cyclomatic complexity.
    pub max_complexity: u32,
}

/// Two files that change together.
pub struct CouplingPair {
    /// The one file.
    pub file_a: String,
    /// The other file.
    pub file_b: String,
    /// How often they changed together.
    pub co_change_count: u32,
    /// How strongly they are coupled, a double by its bits.
    pub coupling_strength: u64,
}

/// What the history of the scanned code shows.
pub struct EvolutionReport {
    /// How many days back the history was read.
    pub lookback_days: u32,
    /// How many commits it has.
    pub commits_analyzed: u32,
    /// How often each file changed, by path.
    pub churn: StringHashMap<FileChurn>,
    /// The share of files with a single author.
    pub single_author_ratio: Measured,
    /// Files that change together.
    pub coupling_pairs: Vec<CouplingPair>,
    /// Files that change often and are complex, the riskiest first.
    pub hotspots: Vec<TemporalHotspot>,
    /// Days since the last change of a file, by path.
    pub code_age: StringHashMap<u32>,
    /// Who wrote each file, by path.
    pub authors: StringHashMap<AuthorInfo>,
}

/// Files of one level of the design structure matrix.
pub struct Cluster {
    /// The level.
    pub level: u32,
    /// The files.
    pub files: Vec<String>,
    /// Number of dependencies among them.
    pub internal_edges: usize,
}

/// Figures of the design structure matrix.
pub struct DsmStats {
    /// Number of files.
    pub size: usize,
    /// Number of dependencies.
    pub edge_count: usize,
    /// The share of pairs that are dependencies, a double by its bits.
    pub density: u64,
    /// Dependencies on a higher level.
    pub above_diagonal: usize,
    /// Dependencies on a lower level.
    pub below_diagonal: usize,
    /// Dependencies within a level.
    pub same_level: usize,
    /// The share of files that a change reaches on average, a double by its bits.
    pub propagation_cost: u64,
    /// The files, level by level.
    pub clusters: Vec<Cluster>,
}

/// The design structure matrix. How the matrix itself is held is its analysis's own affair.
pub struct Dsm<M> {
    /// Where in the order of files a new level starts.
    pub level_breaks: Vec<usize>,
    /// The matrix.
    pub matrix: M,
}

/// A source file without a test.
pub struct TestGap {
    /// Its path.
    pub file: String,
    /// How risky it is.
    pub risk_score: Value,
    /// Its greatest cyclomatic complexity.
    pub max_complexity: u32,
    /// How many files depend on it.
    pub fan_in: usize,
    /// Its language.
    pub lang: String,
}

/// A test file.
pub struct TestCoverage {
    /// Its path.
    pub test_file: String,
    /// What it covers.
    pub covers: Value,
}

/// Which source files have tests.
pub struct TestGapReport {
    /// The score.
    pub coverage_score: Value,
    /// Number of source files.
    pub source_files: usize,
    /// Number of test files.
    pub test_files: usize,
    /// Number of source files with a test.
    pub tested_source_files: usize,
    /// Number of source files without a test.
    pub untested_source_files: usize,
    /// The share of source files with a test, a double by its bits.
    pub coverage_ratio: u64,
    /// The source files without a test, the riskiest first.
    pub gaps: Vec<TestGap>,
    /// The test files.
    pub test_coverage: Vec<TestCoverage>,
}

/// What a licence allows.
#[derive(Clone, Copy, PartialEq, Eq, Structural, Debug)]
pub enum Tier {
    /// Scores and counts.
    Free,
    /// Files and functions as well.
    Pro,
}

impl Tier {
    /// Whether replies may name files and functions.
    pub fn is_pro(&self) -> (r: bool)
        ensures
            r == (*self is Pro),
    {
        match self {
            Tier::Free => false,
            Tier::Pro => true,
        }
    }
}

/// What the server has at hand of the last scan.
pub struct McpState {
    /// The scanned directory.
    pub scan_root: Option<String>,
    /// What the scan found.
    pub cached_snapshot: Option<Snapshot>,
    /// What is wrong with it.
    pub cached_health: Option<HealthReport>,
    /// How it is layered.
    pub cached_arch: Option<ArchReport>,
    /// What its history shows, once that was asked for.
    pub cached_evolution: Option<EvolutionReport>,
}

} // verus!
