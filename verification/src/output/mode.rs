//! How the search program reports its results.
use vstd::prelude::*;
use crate::cli::{ColorMode, SearchCli};

verus! {

/// The form the results take.
#[derive(Clone, Copy, PartialEq, Eq, Structural, Debug)]
pub enum OutputMode {
    /// Only the number of results.
    Count,
    /// A JSON array of the entries.
    Json,
    /// Paths each ended by a NUL byte.
    Null,
    /// Paths one per line.
    Plain,
    /// A table shown through the pager.
    Table,
    /// Paths one per line, for output that is not a terminal.
    Lines,
}

/// The form asked for: a count first, then JSON, NUL-ended, plain; a table when asked
/// for or when standard output is a terminal; lines otherwise.
pub fn output_mode(cli: &SearchCli, stdout_is_tty: bool) -> (m: OutputMode)
    ensures
        m == (if cli.count {
            OutputMode::Count
        } else if cli.json {
            OutputMode::Json
        } else if cli.null {
            OutputMode::Null
        } else if cli.plain {
            OutputMode::Plain
        } else if cli.table || stdout_is_tty {
            OutputMode::Table
        } else {
            OutputMode::Lines
        }),
{
    if cli.count {
        OutputMode::Count
    } else if cli.json {
        OutputMode::Json
    } else if cli.null {
        OutputMode::Null
    } else if cli.plain {
        OutputMode::Plain
    } else if cli.table || stdout_is_tty {
        OutputMode::Table
    } else {
        OutputMode::Lines
    }
}

/// A search needs a pattern or a filter.
pub fn has_criteria(cli: &SearchCli) -> (b: bool)
    ensures
        b == (cli.patterns@.len() > 0 || cli.size is Some || cli.modified is Some || cli.mime_type is Some),
{
    cli.patterns.len() > 0 || cli.size.is_some() || cli.modified.is_some() || cli.mime_type.is_some()
}

/// Whether output is colored: as asked, or when standard output is a terminal.
pub fn color_enabled(mode: ColorMode, stdout_is_tty: bool) -> (b: bool)
    ensures
        b == match mode {
            ColorMode::Always => true,
            ColorMode::Never => false,
            ColorMode::Auto => stdout_is_tty,
        },
{
    match mode {
        ColorMode::Always => true,
        ColorMode::Never => false,
        ColorMode::Auto => stdout_is_tty,
    }
}

/// The exit status after a search: 0 when something was found, 1 otherwise.
pub fn exit_status(found: bool) -> (code: i32)
    ensures
        code == (if found { 0i32 } else { 1i32 }),
{
    if found {
        0
    } else {
        1
    }
}

} // verus!
