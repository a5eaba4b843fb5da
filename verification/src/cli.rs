//! The command line of the tool, as plain values.
use vstd::prelude::*;

verus! {

/// Fast batch image compression powered by TinyPNG.
#[derive(Debug)]
pub struct Cli {
    /// Files or directories to compress (recursive). Omitted with a subcommand.
    pub paths: Vec<String>,
    pub run: RunArgs,
    pub command: Option<Command>,
}

/// The flags of a compression run.
#[derive(Debug, Clone)]
pub struct RunArgs {
    /// Write compressed files to this directory (default: next to the originals).
    pub output: Option<String>,
    /// Overwrite originals instead of writing `compressed_*` alongside.
    pub overwrite: bool,
    /// Comma-separated extensions (default: png,jpg,jpeg,webp).
    pub ext: Option<String>,
    /// Skip files smaller than this (e.g. 10k, 1m) [default: 10k].
    pub min_size: Option<String>,
    /// Do not skip files prefixed with `compressed_`.
    pub no_skip_compressed: bool,
    /// Parallel compression workers [default: 4].
    pub concurrency: Option<usize>,
    /// Scan and report, don't compress.
    pub dry_run: bool,
    /// NDJSON machine-readable output.
    pub json: bool,
    /// Suppress progress; print only the summary.
    pub quiet: bool,
    /// Verbose logging to stderr.
    pub verbose: bool,
}

/// The subcommands.
#[derive(Debug)]
pub enum Command {
    /// Manage TinyPNG API keys.
    Keys { action: KeysAction },
    /// Manage local configuration.
    Config { action: ConfigAction },
}

/// The actions of `keys`.
#[derive(Debug)]
pub enum KeysAction {
    /// Show configured key sources and counts (hashes only).
    List { json: bool },
    /// Probe each key for health and quota.
    Test { json: bool, concurrency: usize },
    /// Append a key to the config file.
    Add { key: String },
    /// Remove a key by value or hash prefix.
    Remove { identifier: String },
}

/// The actions of `config`.
#[derive(Debug)]
pub enum ConfigAction {
    /// Show current config.
    Get { key: Option<String> },
    /// Set a config value.
    SetValue { key: String, value: String },
    /// Print config file path.
    Path,
    /// Open config in the editor.
    Edit,
}

} // verus!
