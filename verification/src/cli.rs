//! The commands of the command line and the settings it can override.
use vstd::prelude::*;

verus! {

/// A subcommand of the command line; without one the program runs as the
/// daemon.
#[derive(Debug, Clone, PartialEq, Eq)]
pub enum Command {
    /// Cycle the card profile off and back on once (also `toggle`).
    Cycle,
    /// Print the default card from the config file.
    GetDefaultCard,
    /// Print the default profile from the config file.
    GetDefaultProfile,
    /// Install and enable the service (systemd or OpenRC).
    InstallService,
    /// List available audio cards.
    ListCards,
    /// List available profiles for the card.
    ListProfiles,
    /// Set the default card and signal the daemon.
    SetDefaultCard { value: String },
    /// Set the default profile and signal the daemon.
    SetDefaultProfile { value: String },
    /// Disable and remove the service (systemd or OpenRC).
    UninstallService,
}

/// The card and profile given on the command line, if any.
#[derive(Debug, Clone, PartialEq, Eq, Default)]
pub struct Overrides {
    pub card: Option<String>,
    pub profile: Option<String>,
}

} // verus!
