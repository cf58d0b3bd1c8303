//! `pgnq convert`: a game written in another format.

use vstd::prelude::*;
use crate::cli::{format_spec, CliOutputFormat, InputSource};
use crate::serializer::options::{OutputFormat, OutputOptions};

verus! {

/// Arguments of `pgnq convert`.
pub struct ConvertArgs {
    /// Input PGN file ("-" for standard input).
    pub input: InputSource,
    /// Output file (default: standard output).
    pub output: Option<String>,
    /// Output format.
    pub format: CliOutputFormat,
    /// Leave out headers.
    pub no_headers: bool,
    /// Leave out comments.
    pub no_comments: bool,
    /// Leave out variations (main line only).
    pub no_variations: bool,
    /// Leave out NAG annotations.
    pub no_nags: bool,
    /// Strip clock annotations [%clk ...].
    pub strip_clocks: bool,
    /// Strip evaluation annotations [%eval ...].
    pub strip_evals: bool,
    /// Wrap lines at N characters (0 = no wrapping).
    pub line_width: usize,
    /// Game number to select from a file of several games (1-indexed).
    pub game: Option<usize>,
}

/// The output options a conversion asks for: the defaults, with what the
/// arguments turn off or on.
pub fn convert_options(args: &ConvertArgs) -> (o: OutputOptions)
    ensures
        o.format == format_spec(args.format),
        o.headers == !args.no_headers,
        o.comments == !args.no_comments,
        o.variations == !args.no_variations,
        o.nags == !args.no_nags,
        o.strip_clocks == args.strip_clocks,
        o.strip_evals == args.strip_evals,
        o.line_width == args.line_width,
        o.result,
        o.indent == 2 && o.max_depth == 0 && !o.ascii && !o.show_comments && !o.show_nags,
{
    let mut o = OutputOptions::default();
    o.format = OutputFormat::from(args.format);
    o.headers = !args.no_headers;
    o.comments = !args.no_comments;
    o.variations = !args.no_variations;
    o.nags = !args.no_nags;
    o.strip_clocks = args.strip_clocks;
    o.strip_evals = args.strip_evals;
    o.line_width = args.line_width;
    o.result = true;
    o
}

} // verus!
