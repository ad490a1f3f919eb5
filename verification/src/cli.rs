//! The command-line options of the two programs, as plain values.
use vstd::prelude::*;

verus! {

/// Options of the search program.
pub struct SearchCli {
    pub patterns: Vec<String>,
    pub ignore_case: bool,
    pub basename: bool,
    pub regex: bool,
    pub existing: bool,
    pub limit: Option<usize>,
    pub count: bool,
    pub null: bool,
    pub size: Option<String>,
    pub modified: Option<String>,
    pub mime_type: Option<String>,
    pub gnu: bool,
    pub stats: bool,
    pub database: Option<String>,
    pub table: bool,
    pub json: bool,
    pub plain: bool,
    pub icons: bool,
    pub color: ColorMode,
    pub verbose: bool,
    pub generate_completions: Option<Shell>,
    pub help: bool,
    pub version: bool,
    pub follow: bool,
    pub all: bool,
    pub wholename: bool,
    pub nofollow: bool,
    pub h_flag: bool,
    pub max_database_age: Option<String>,
    pub regextype: Option<String>,
    pub require_visibility: bool,
}

/// Options of the index updater.
pub struct UpdateArgs {
    pub localpaths: Vec<String>,
    pub prunepaths: Vec<String>,
    pub incremental: bool,
    pub force: bool,
    pub dry_run: bool,
    pub parallel: Option<usize>,
    pub database: Option<String>,
    pub quiet: bool,
    pub verbose: bool,
    pub no_magic_mime: bool,
    pub install_cron: bool,
}

/// The updater's command line.
pub struct UpdateCli {
    pub args: UpdateArgs,
    pub version: bool,
}

/// The shells that completion scripts are printed for.
#[derive(Clone, Copy, PartialEq, Eq, Structural, Debug)]
pub enum Shell {
    Bash,
    Zsh,
    Fish,
}

/// When output is colored.
#[derive(Clone, Copy, PartialEq, Eq, Structural, Debug)]
pub enum ColorMode {
    Auto,
    Always,
    Never,
}

} // verus!
