//! Output options for serialization.

use vstd::prelude::*;
use crate::text::{push_str, str_chars};

verus! {

broadcast use vstd::string::group_string_axioms;

/// Output format.
#[derive(Debug, Clone, Copy, PartialEq, Eq, Structural)]
pub enum OutputFormat {
    /// Standard PGN.
    Standard,
    /// Lichess study format (comments on their own lines).
    Lichess,
    /// Tree view.
    Tree,
    /// Main line only, without comments.
    Minimal,
}

impl Default for OutputFormat {
    fn default() -> (f: OutputFormat)
        ensures
            f == OutputFormat::Standard,
    {
        OutputFormat::Standard
    }
}

/// ASCII letters in lower case, other characters as they are.
pub open spec fn ascii_lower(s: Seq<char>) -> Seq<char> {
    s.map_values(|c: char| lower_spec(c))
}

/// The format a name stands for, ignoring case: "standard" or "std",
/// "lichess" or "lic", "tree", "minimal" or "min".
pub open spec fn format_of(s: Seq<char>) -> Option<OutputFormat> {
    let l = ascii_lower(s);
    if l == "standard"@ || l == "std"@ {
        Some(OutputFormat::Standard)
    } else if l == "lichess"@ || l == "lic"@ {
        Some(OutputFormat::Lichess)
    } else if l == "tree"@ {
        Some(OutputFormat::Tree)
    } else if l == "minimal"@ || l == "min"@ {
        Some(OutputFormat::Minimal)
    } else {
        None
    }
}

/// An ASCII letter in lower case; other characters as they are.
pub open spec fn lower_spec(c: char) -> char {
    if 'A' <= c && c <= 'Z' {
        ((c as u8) + 32u8) as char
    } else {
        c
    }
}

fn lower_char(c: char) -> (r: char)
    ensures
        r == lower_spec(c),
{
    if 'A' <= c && c <= 'Z' {
        ((c as u8) + 32u8) as char
    } else {
        c
    }
}

impl OutputFormat {
    /// The format a name stands for (case-insensitive), or the message
    /// "unknown format: NAME".
    pub fn parse_name(s: &str) -> (r: Result<OutputFormat, String>)
        ensures
            match format_of(s@) {
                Some(f) => r == Ok::<OutputFormat, String>(f),
                None => r matches Err(m) && m@ == "unknown format: "@ + s@,
            },
    {
        let v = str_chars(s);
        let mut l: Vec<char> = Vec::new();
        let mut i: usize = 0;
        while i < v.len()
            invariant
                i <= v@.len(),
                v@ == s@,
                l@ == ascii_lower(s@).take(i as int),
            decreases v@.len() - i,
        {
            l.push(lower_char(v[i]));
            assert(l@ =~= ascii_lower(s@).take(i + 1));
            i = i + 1;
        }
        assert(l@ =~= ascii_lower(s@));
        let is = |w: &str| -> (b: bool)
            ensures
                b == (l@ == w@),
            { crate::text::chars_eq(&l, &str_chars(w)) };
        if is("standard") || is("std") {
            Ok(OutputFormat::Standard)
        } else if is("lichess") || is("lic") {
            Ok(OutputFormat::Lichess)
        } else if is("tree") {
            Ok(OutputFormat::Tree)
        } else if is("minimal") || is("min") {
            Ok(OutputFormat::Minimal)
        } else {
            let mut m = String::new();
            push_str(&mut m, "unknown format: ");
            push_str(&mut m, s);
            Err(m)
        }
    }
}

/// Options for PGN output.
#[derive(Debug, Clone)]
pub struct OutputOptions {
    /// Output format.
    pub format: OutputFormat,
    /// Include headers.
    pub headers: bool,
    /// Include comments.
    pub comments: bool,
    /// Include variations.
    pub variations: bool,
    /// Include NAGs.
    pub nags: bool,
    /// Strip clock annotations [%clk ...].
    pub strip_clocks: bool,
    /// Strip evaluation annotations [%eval ...].
    pub strip_evals: bool,
    /// Width at which standard movetext wraps (0 = no wrapping).
    pub line_width: usize,
    /// Indentation for variations.
    pub indent: usize,
    /// Maximum depth for tree view (0 = unlimited).
    pub max_depth: usize,
    /// Include the result.
    pub result: bool,
    /// Use ASCII instead of box-drawing characters in the tree view.
    pub ascii: bool,
    /// Show comments in the tree view.
    pub show_comments: bool,
    /// Show NAGs in the tree view.
    pub show_nags: bool,
}

impl Default for OutputOptions {
    fn default() -> (o: OutputOptions)
        ensures
            o.format == OutputFormat::Standard,
            o.headers && o.comments && o.variations && o.nags && o.result,
            !o.strip_clocks && !o.strip_evals && !o.ascii && !o.show_comments && !o.show_nags,
            o.line_width == 80 && o.indent == 2 && o.max_depth == 0,
    {
        OutputOptions {
            format: OutputFormat::Standard,
            headers: true,
            comments: true,
            variations: true,
            nags: true,
            strip_clocks: false,
            strip_evals: false,
            line_width: 80,
            indent: 2,
            max_depth: 0,
            result: true,
            ascii: false,
            show_comments: false,
            show_nags: false,
        }
    }
}

impl OutputOptions {
    /// Main line only: no headers, comments, variations or NAGs; clocks and
    /// evaluations stripped; the result kept.
    pub fn minimal() -> (o: OutputOptions)
        ensures
            o.format == OutputFormat::Minimal,
            !o.headers && !o.comments && !o.variations && !o.nags && o.result,
            o.strip_clocks && o.strip_evals && !o.ascii && !o.show_comments && !o.show_nags,
            o.line_width == 0 && o.indent == 0 && o.max_depth == 0,
    {
        OutputOptions {
            format: OutputFormat::Minimal,
            headers: false,
            comments: false,
            variations: false,
            nags: false,
            strip_clocks: true,
            strip_evals: true,
            line_width: 0,
            indent: 0,
            max_depth: 0,
            result: true,
            ascii: false,
            show_comments: false,
            show_nags: false,
        }
    }

    /// Tree view: the defaults, with no line width and depth limited to 5.
    pub fn tree() -> (o: OutputOptions)
        ensures
            o.format == OutputFormat::Tree,
            o.headers && o.comments && o.variations && o.nags && o.result,
            !o.strip_clocks && !o.strip_evals && !o.ascii && !o.show_comments && !o.show_nags,
            o.line_width == 0 && o.indent == 2 && o.max_depth == 5,
    {
        let mut o = OutputOptions::default();
        o.format = OutputFormat::Tree;
        o.line_width = 0;
        o.max_depth = 5;
        o
    }

    /// Lichess study format with the default options.
    pub fn lichess() -> (o: OutputOptions)
        ensures
            o.format == OutputFormat::Lichess,
            o.headers && o.comments && o.variations && o.nags && o.result,
            !o.strip_clocks && !o.strip_evals && !o.ascii && !o.show_comments && !o.show_nags,
            o.line_width == 80 && o.indent == 2 && o.max_depth == 0,
    {
        let mut o = OutputOptions::default();
        o.format = OutputFormat::Lichess;
        o
    }
}

} // verus!
