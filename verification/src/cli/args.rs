//! The commands, as they come out of the command line.
use vstd::prelude::*;

verus! {

/// A command line; without a command the window is opened.
pub struct Cli {
    pub cmd: Option<Cmd>,
}

#[derive(Clone, Copy, Debug, PartialEq, Eq, Structural)]
pub enum Mode {
    Mirror,
    Sync,
    Enrich,
}

impl Mode {
    pub open spec fn text(self) -> Seq<char> {
        match self {
            Mode::Mirror => "mirror"@,
            Mode::Sync => "sync"@,
            Mode::Enrich => "enrich"@,
        }
    }

    pub fn as_str(self) -> (r: &'static str)
        ensures
            r@ == self.text(),
    {
        match self {
            Mode::Mirror => "mirror",
            Mode::Sync => "sync",
            Mode::Enrich => "enrich",
        }
    }
}

#[allow(inconsistent_fields)]
pub enum Cmd {
    /// Tell about this machine.
    Probe,
    /// List the jobs.
    Jobs,
    /// Run jobs: scan, compare and, where told to, apply.
    Run {
        job: Option<String>,
        all: bool,
        prefix: Option<String>,
        apply: bool,
        i_know: bool,
        accept_caps: bool,
        verbose: bool,
        watch: bool,
        interval: Option<u64>,
        auto_apply: bool,
    },
    /// Open the window.
    Gui,
    /// List the presets of what is junk, or the patterns of some of them.
    Junk { patterns: Option<Vec<String>> },
    /// Scan a directory into a table.
    Scan {
        root: String,
        out: Option<String>,
        no_hash: bool,
        rigor: String,
        evidence: Option<String>,
        cache: Option<String>,
        force_rehash: bool,
        fast: bool,
        symlinks_direct: bool,
        junk: Vec<String>,
        exclude: Vec<String>,
        progress: bool,
    },
    /// Compare two tables into a plan.
    Compare {
        source: String,
        target: String,
        mode: Mode,
        archive: Option<String>,
        resolve_newer: bool,
        case_sensitive: bool,
        out: Option<String>,
    },
    /// List marked territories.
    Territories { root: String },
    /// Write a job for every marked territory.
    GenJobs {
        root: String,
        target_root: String,
        mode: String,
        rigor: String,
        remote_host: Option<String>,
        remote_root_base: Option<String>,
        remote_exe: Option<String>,
        junk: Vec<String>,
        force: bool,
    },
    /// Write what comes in to a file.
    Recv { path: String },
    /// Print chunk tables.
    Chunks { root: String, files: Vec<String> },
    /// Pack a plan with what it needs.
    Pack { plan: String, out: String, source_root: Option<String> },
    /// Apply a package.
    ApplyPack {
        pkg: String,
        target_root: Option<String>,
        apply: bool,
        remove_pkg: bool,
        versioning: bool,
        verbose: bool,
    },
    /// List the versions that a root keeps.
    Versions { root: String, prune: Option<usize> },
    /// Bring files of a version back.
    Restore { root: String, version: String, files: Vec<String>, apply: bool },
    /// Mark a root as mounted.
    Mark { root: String, job: String, note: String },
    /// List what was run.
    History { job: Option<String>, limit: usize, prune_days: Option<u64> },
    Logs { cmd: LogsCmd },
    Trash { cmd: TrashCmd },
    Cred { cmd: CredCmd },
    /// Connect to a root and tell what it can do.
    Caps { phrase: String },
    /// Apply a plan.
    Apply {
        plan: String,
        apply: bool,
        source_root: Option<String>,
        target_root: Option<String>,
        trash: Option<String>,
        verify: bool,
        versioning: bool,
        delta: bool,
        no_fsync: bool,
        verbose: bool,
    },
}

pub enum CredCmd {
    Store { phrase: String, stdin: bool },
    Rm { phrase: String },
    Ls,
    Test { phrase: String },
}

pub enum LogsCmd {
    List { job: Option<String>, limit: usize },
    Show { run_id: String, errors: bool, items: bool, plan: bool, limit: usize },
    Prune { keep_days: Option<u64>, max_total_mb: Option<u64> },
    Dir,
}

pub enum TrashCmd {
    Runs,
    Find { pattern: String },
    Restore { pattern: String, into: String, run: Option<String>, apply: bool },
    Prune { keep_days: i64, max_gib: u64, no_staggered: bool, apply: bool },
}

} // verus!
