//! The command-line surface, as plain data: the platform layer parses
//! arguments into these shapes and maps them onto report options.

use vstd::prelude::*;

use crate::report::{ReportFormat, ReportOptions};

verus! {

/// The parsed command line.
pub struct Cli {
    pub command: Option<Commands>,
}

/// The subcommands: generate a report to the clipboard, to a file, or ask a
/// model about the codebase. Paths are byte strings.
pub enum Commands {
    /// Generate a report and copy it to the clipboard.
    Copy { path: Vec<u8>, all: bool, selection: Option<Vec<u8>>, report_opts: ReportCliOptions },
    /// Generate a report and save it to a file.
    Generate {
        path: Vec<u8>,
        output: Vec<u8>,
        all: bool,
        selection: Option<Vec<u8>>,
        report_opts: ReportCliOptions,
    },
    /// Query the codebase with an AI model.
    Query {
        prompt: String,
        path: Vec<u8>,
        all: bool,
        selection: Option<Vec<u8>>,
        report_opts: ReportCliOptions,
    },
}

/// Report switches as the command line spells them.
#[derive(Debug, Clone, Copy, PartialEq, Eq, Structural)]
pub struct ReportCliOptions {
    pub format: CliReportFormat,
    pub no_stats: bool,
    pub no_contents: bool,
}

/// The report format names the command line accepts.
#[derive(Debug, Clone, Copy, PartialEq, Eq, Structural)]
pub enum CliReportFormat {
    Markdown,
    Html,
    Text,
}

/// The report options a set of command-line switches calls for: the format
/// carried over, the exclusion switches negated.
pub fn report_options_from_cli(opts: &ReportCliOptions) -> (r: ReportOptions)
    ensures
        r.format == (match opts.format {
            CliReportFormat::Markdown => ReportFormat::Markdown,
            CliReportFormat::Html => ReportFormat::Html,
            CliReportFormat::Text => ReportFormat::Text,
        }),
        r.include_stats == !opts.no_stats,
        r.include_contents == !opts.no_contents,
        r.include_line_numbers == true,
{
    ReportOptions {
        format: match opts.format {
            CliReportFormat::Markdown => ReportFormat::Markdown,
            CliReportFormat::Html => ReportFormat::Html,
            CliReportFormat::Text => ReportFormat::Text,
        },
        include_stats: !opts.no_stats,
        include_contents: !opts.no_contents,
        include_line_numbers: true,
    }
}

} // verus!
