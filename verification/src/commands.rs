//! The command surface: the two operating modes a caller selects, and the
//! decision that maps an interactively typed mode number to a command.

use vstd::prelude::*;

verus! {

/// Parsed command-line input: the selected subcommand, if one was given on
/// the command line, and the verbose flag.
#[derive(Debug, PartialEq, Eq)]
pub struct Cli {
    /// Subcommand to execute; `None` falls back to the interactive menu.
    pub command: Option<Commands>,
    /// Whether verbose logging was requested.
    pub verbose: bool,
}

/// The two operating modes.
#[derive(Debug, Clone, Copy, PartialEq, Eq, Structural)]
pub enum Commands {
    /// Run the configured backup jobs.
    BackupToSsd,
    /// Replicate the configured directory skeleton.
    CreateFolders,
}

/// The interactive menu's decision: mode number one selects the backup run,
/// mode number two the skeleton replication, anything else is rejected and
/// the menu asks again.
pub fn command_for_mode(mode: u32) -> (r: Option<Commands>)
    ensures
        r == (if mode == 1 {
            Some(Commands::BackupToSsd)
        } else if mode == 2 {
            Some(Commands::CreateFolders)
        } else {
            None::<Commands>
        }),
{
    if mode == 1 {
        Some(Commands::BackupToSsd)
    } else if mode == 2 {
        Some(Commands::CreateFolders)
    } else {
        None
    }
}

} // verus!
