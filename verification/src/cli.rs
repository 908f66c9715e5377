//! Command-line options for a diff invocation, as plain data. Argument
//! parsing itself lives outside the library; these fields carry its result.

use vstd::prelude::*;

verus! {

/// The options of one diff run: the two input paths, the output target, and
/// the mode switches.
#[derive(Debug, Clone)]
pub struct Cli {
    /// Path to the old/original file.
    pub old_file: String,
    /// Path to the new/modified file.
    pub new_file: String,
    /// Output diff file.
    pub output: String,
    /// Colorize output with ANSI escapes.
    pub color: bool,
    /// Export the diff as HTML.
    pub html: bool,
    /// Render a side-by-side HTML diff.
    pub side_by_side: bool,
    /// Unified mode with this many context lines.
    pub unified: Option<usize>,
    /// Hide unchanged lines.
    pub compact: bool,
    /// Print only a summary of changes.
    pub summary: bool,
    /// Word-level diff.
    pub word: bool,
    /// Line-level diff.
    pub line: bool,
}

} // verus!
