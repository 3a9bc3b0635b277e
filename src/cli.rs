use vstd::prelude::*;

use crate::versioning::Increment;

verus! {

/// The command line: the `--version` flag and an optional subcommand.
pub struct Cli {
    pub version: bool,
    pub command: Option<Commands>,
}

/// The two subcommands.
pub enum Commands {
    /// Computes the version after the latest matching tag or branch.
    NextVersion(NextVersionArgs),
    /// Finds the latest version tag or branch matching a pattern.
    LastVersion(LastVersionArgs),
}

/// Arguments of the next-version command.
pub struct NextVersionArgs {
    /// The component to advance.
    pub increment: Increment,
    /// Print progress of the repository operations.
    pub verbose: bool,
    /// The naming pattern; the default pattern when absent.
    pub pattern: Option<String>,
    /// Create the new tag or branch instead of printing it.
    pub create: bool,
    /// Where the candidate names come from.
    pub source: VersionSourceName,
}

/// Arguments of the last-version command.
pub struct LastVersionArgs {
    /// The naming pattern; the default pattern when absent.
    pub pattern: Option<String>,
    /// Print progress of the repository operations.
    pub verbose: bool,
    /// Where the candidate names come from.
    pub source: VersionSourceName,
    /// Check the version out instead of printing it.
    pub checkout: bool,
}

/// Whether versions are tags or branches.
#[derive(Clone, Copy, Debug, PartialEq, Eq, Structural)]
pub enum VersionSourceName {
    Tag,
    Branch,
}

/// Options shared by the repository operations.
#[derive(Clone, Copy, Debug, PartialEq, Eq, Structural)]
pub struct CommandOptions {
    pub verbose: bool,
}

impl Default for CommandOptions {
    fn default() -> (r: Self)
        ensures
            !r.verbose,
    {
        CommandOptions { verbose: false }
    }
}

} // verus!
