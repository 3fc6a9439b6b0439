//! The command line: what the program is asked to do.

use crate::json::default_seed;
use vstd::prelude::*;

verus! {

/// Randomize dmw3.
#[derive(Debug, Clone)]
pub struct Cli {
    pub command: Option<Command>,
    pub args: Arguments,
}

/// A subcommand.
#[derive(Debug, Clone)]
pub enum Command {
    /// Mod tools for extracting and rebuilding the ROM.
    Mod { action: ModAction },
}

/// What the mod tools do.
#[derive(Debug, Clone)]
pub enum ModAction {
    /// Extract the ROM's contents to the path.
    Extract { path: String },
    /// Rebuild the ROM from the path.
    Rebuild { path: String },
}

/// The arguments of a randomization.
#[derive(Debug, Clone)]
pub struct Arguments {
    /// The disc image to randomize.
    pub path: Option<String>,
    /// The preset file.
    pub preset: Option<String>,
    /// The seed, which overrides the preset's.
    pub seed: Option<u64>,
    /// The name of the output.
    pub output: Option<String>,
    /// Whether to dump the game's data.
    pub dump: bool,
}

impl Default for Arguments {
    /// No paths, no output name and no dump; the seed is taken from the
    /// clock.
    fn default() -> (r: Self)
        ensures
            r.path is None,
            r.preset is None,
            r.seed is Some,
            r.output is None,
            r.dump == false,
    {
        Arguments { path: None, preset: None, seed: Some(default_seed()), output: None, dump: false }
    }
}

} // verus!
