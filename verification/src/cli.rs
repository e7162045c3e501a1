//! Command-line options and the verbosity-to-log-level mapping.

use vstd::prelude::*;

verus! {

/// The options a run is invoked with: where to write the rendered output,
/// an optional glob pattern of paths to ignore, how verbose to be, and the
/// root path of the configuration tree to parse.
pub struct Args {
    /// Output file name.
    pub output: String,
    /// Ignore files whose path matches this glob pattern.
    pub ignore: Option<String>,
    /// Verbosity level (0 = off, 1 = info, 2 and up = debug).
    pub verbose: u8,
    /// Path to the root of the configuration tree.
    pub path: String,
}

impl Args {
    /// The log level that the chosen verbosity stands for.
    pub fn log_level(&self) -> (r: &'static str)
        ensures
            self.verbose == 0 ==> r@ == "off"@,
            self.verbose == 1 ==> r@ == "info"@,
            self.verbose >= 2 ==> r@ == "debug"@,
    {
        match self.verbose {
            0 => "off",
            1 => "info",
            _ => "debug",
        }
    }
}

} // verus!
