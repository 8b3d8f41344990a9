//! The command line: what the user asked the drive to do.

use vstd::prelude::*;

verus! {

/// The parsed command line: a subcommand, or none to start the drive.
pub struct Args {
    pub command: Option<Cmd>,
}

/// What the user can ask of the drive.
pub enum Cmd {
    /// Add a folder to the drive, under `name` or else its directory name.
    Add { source: String, name: Option<String> },
    /// Remove a folder from the drive by name.
    Remove { name: String },
    /// List the configured folders.
    List,
    /// Stop the drive.
    Stop,
    /// Set where the drive is mounted.
    Config { mountpoint: String },
    /// Prepare `/run/media/$USER/scrubfs` for the drive (run with sudo).
    Setup,
}

} // verus!
