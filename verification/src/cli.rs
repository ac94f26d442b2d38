//! The command surface: the options each command accepts.

use vstd::prelude::*;

verus! {

/// Options of the manifest-creation command.
pub struct InitOptions {
    /// Skip prompts and use defaults.
    pub yes: bool,
}

/// Options of the install command.
pub struct InstallOptions {
    /// Packages to install, each `name` or `name@range`.
    pub packages: Vec<String>,
    /// Save as development dependencies.
    pub save_dev: bool,
    /// Install from the lockfile without updating it.
    pub frozen: bool,
    /// Do not record the installed packages in the manifest.
    pub no_save: bool,
    /// Concurrent operations (default: four per CPU).
    pub concurrency: Option<usize>,
    /// Batch size for processing, clamped to 10 through 100.
    pub batch_size: Option<usize>,
    /// Skip progress display.
    pub no_progress: bool,
}

/// Options of the listing command.
pub struct ListOptions {
    /// Display only this many levels.
    pub depth: Option<usize>,
    /// Show only development dependencies.
    pub dev: bool,
    /// Show only production dependencies.
    pub production: bool,
    /// Show only outdated packages.
    pub outdated: bool,
}

/// One invocation of the manager.
pub enum Command {
    Init(InitOptions),
    Install(InstallOptions),
    List(ListOptions),
}

} // verus!
