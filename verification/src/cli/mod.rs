//! Command-line interface: the arguments of each command and what they
//! compute.  Reading files and printing are left to the program around the
//! library.

pub mod commands;

use vstd::prelude::*;
use crate::serializer::OutputFormat;
use crate::text::{push_str, str_chars};

verus! {

broadcast use vstd::string::group_string_axioms;

/// The command line: a command, and whether to be quiet.
pub struct Cli {
    pub command: Command,
    /// Suppress informational output.
    pub quiet: bool,
}

/// The commands.
pub enum Command {
    /// Show game information (headers, statistics).
    Info(commands::InfoArgs),
    /// Display the game tree.
    Tree(commands::TreeArgs),
    /// Show statistics about the game tree.
    Stats(commands::StatsArgs),
    /// Convert between formats.
    Convert(commands::ConvertArgs),
    /// Extract a subtree.
    Extract(commands::ExtractArgs),
    /// Split a game into files at given paths.
    Split(commands::SplitArgs),
    /// Filter nodes by criteria.
    Filter(commands::FilterArgs),
    /// Merge several games into one tree.
    Merge(commands::MergeArgs),
}

/// Where input comes from: a file, or standard input ("-").
#[derive(Debug, Clone)]
pub enum InputSource {
    File(String),
    Stdin,
}

impl InputSource {
    /// The source an argument names: "-" is standard input, anything else a file.
    pub fn from_arg(s: &str) -> (r: InputSource)
        ensures
            s@ == "-"@ ==> r is Stdin,
            s@ != "-"@ ==> (r matches InputSource::File(p) && p@ == s@),
    {
        if crate::text::chars_eq(&str_chars(s), &str_chars("-")) {
            InputSource::Stdin
        } else {
            InputSource::File(s.to_owned())
        }
    }

    /// A name for messages: the file's path, or "<stdin>".
    pub fn display_name(&self) -> (r: String)
        ensures
            match self {
                InputSource::File(p) => r@ == p@,
                InputSource::Stdin => r@ == "<stdin>"@,
            },
    {
        match self {
            InputSource::File(p) => p.clone(),
            InputSource::Stdin => "<stdin>".to_owned(),
        }
    }
}

/// Output formats offered on the command line.
#[derive(Debug, Clone, Copy, PartialEq, Eq, Structural)]
pub enum CliOutputFormat {
    Standard,
    Lichess,
    Minimal,
    Tree,
}

impl Default for CliOutputFormat {
    fn default() -> (f: CliOutputFormat)
        ensures
            f == CliOutputFormat::Standard,
    {
        CliOutputFormat::Standard
    }
}

/// The serializer format a command-line format stands for.
pub open spec fn format_spec(f: CliOutputFormat) -> OutputFormat {
    match f {
        CliOutputFormat::Standard => OutputFormat::Standard,
        CliOutputFormat::Lichess => OutputFormat::Lichess,
        CliOutputFormat::Minimal => OutputFormat::Minimal,
        CliOutputFormat::Tree => OutputFormat::Tree,
    }
}

impl From<CliOutputFormat> for OutputFormat {
    fn from(f: CliOutputFormat) -> (r: OutputFormat) {
        match f {
            CliOutputFormat::Standard => OutputFormat::Standard,
            CliOutputFormat::Lichess => OutputFormat::Lichess,
            CliOutputFormat::Minimal => OutputFormat::Minimal,
            CliOutputFormat::Tree => OutputFormat::Tree,
        }
    }
}

impl vstd::std_specs::convert::FromSpecImpl<CliOutputFormat> for OutputFormat {
    open spec fn obeys_from_spec() -> bool {
        true
    }

    open spec fn from_spec(f: CliOutputFormat) -> OutputFormat {
        format_spec(f)
    }
}

} // verus!
