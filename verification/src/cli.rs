//! The options value that configures a traversal.

use vstd::prelude::*;

verus! {

/// Configuration for a single traversal, assembled by the caller
/// (typically from command-line flags) and read by the filter
/// pipeline and the traversal procedures.
pub struct Args {
    /// Root path to start from; `None` means the current directory.
    pub file_path: Option<String>,
    /// Show hidden entries (names starting with `.`).
    pub all: bool,
    /// Annotate file entries with a human-readable size.
    pub size: bool,
    /// Run the summary-only scan instead of the full render.
    pub summary: bool,
    /// Keep only directory entries.
    pub dirs: bool,
    /// Optional regular expression applied to entry names.
    pub pattern: Option<String>,
    /// If true, entries matching `pattern` are dropped instead of kept.
    pub exclude: bool,
}

/// The name pattern takes part in filtering only when it is present
/// and non-empty.
pub open spec fn pattern_active(opts: Args) -> bool {
    &&& opts.pattern is Some
    &&& opts.pattern->0@.len() > 0
}

} // verus!
