use vstd::prelude::*;

verus! {

/// The command line of the program.
pub struct Args {
    /// Path to the profiles file.
    pub config_path: Option<String>,
    /// Whether to report each variable's paths.
    pub verbose: bool,
    pub command: Commands,
}

/// What the program is asked to do.
pub enum Commands {
    /// Sets the variables of one or more profiles in the parent process.
    SetProfiles { profile_names: Vec<String> },
    /// Opens a process with the profiles applied.
    Open { process: Option<String> },
}

} // verus!
