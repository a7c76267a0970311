//! The command-line surface: which mode the utility runs in. The argument
//! parsing itself happens outside the library; these are the parsed values.

use vstd::prelude::*;

verus! {

/// The parsed command-line arguments.
#[derive(Debug)]
pub struct Args {
    /// The utility can run in one of many modes.
    pub mode: Option<RunMode>,
}

/// The utility's operating modes.
#[derive(Clone, Copy, Debug, PartialEq, Eq, Structural)]
pub enum RunMode {
    /// Generate a new clean dictionary file and precomputed dictionary file
    /// from the base and bad-words files. This mode will not generate any
    /// boards.
    Files,
    /// Generate boards, using the precomputed word file. Extremely fast for
    /// large numbers of boards.
    Generate,
}

} // verus!
