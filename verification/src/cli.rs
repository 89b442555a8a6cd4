use vstd::prelude::*;

verus! {

/// Output format.
#[derive(Debug, Clone, Copy, PartialEq, Eq)]
pub enum OutputFormat {
    Table,
    Json,
}

/// Precise per-author contribution stats that see through squash merges:
/// the options of a run.
#[derive(Debug)]
pub struct Cli {
    /// Path to the git repository.
    pub repo: String,
    /// File glob patterns to exclude from stats (repeatable).
    pub excludes: Vec<String>,
    /// Only include commits after this date (YYYY-MM-DD).
    pub since: Option<String>,
    /// Commit range (e.g. main~50..main).
    pub rev: Option<String>,
    /// Output format.
    pub format: OutputFormat,
    /// GitHub personal access token.
    pub token: Option<String>,
    /// Skip GitHub API lookups for squash-merge attribution.
    pub no_github: bool,
    /// Include bot accounts in the output (excluded by default).
    pub bots: bool,
    /// Use an external `.mailmap` file instead of the repository's own.
    pub mailmap_file: Option<String>,
}

} // verus!
