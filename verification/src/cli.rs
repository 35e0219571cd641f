//! The command line: options and subcommands.
use vstd::prelude::*;

verus! {

/// The command line of the proxy.
#[derive(Debug, Clone)]
pub struct Cli {
    /// Port the server listens on.
    pub port: u16,
    /// Address the server listens on.
    pub host: String,
    /// The subcommand; without one the server runs.
    pub command: Option<Commands>,
}

/// The subcommands.
#[derive(Debug, Clone)]
pub enum Commands {
    /// Manage the settings.
    Config { action: ConfigCommands },
    /// Manage the launchd service.
    Service { action: ServiceCommands },
}

/// The `config` subcommands.
#[derive(Debug, Clone)]
pub enum ConfigCommands {
    /// Show every setting, secret values masked.
    List,
    /// Show one setting.
    Get { key: String },
    /// Set one setting.
    SetValue { key: String, value: String },
    /// Remove one setting.
    Unset { key: String },
}

/// The `service` subcommands.
#[derive(Debug, Clone, Copy, PartialEq, Eq, Structural)]
pub enum ServiceCommands {
    /// Write the property list and load it.
    Install,
    /// Unload the service and remove the property list.
    Uninstall,
    /// Load the service.
    Start,
    /// Unload the service.
    Stop,
    /// Show the state, process id and log directory.
    Status,
}

} // verus!
