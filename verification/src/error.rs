//! Error types for pgnq.

use vstd::prelude::*;
use crate::text::{str_chars, string_of, sub_chars};

verus! {

broadcast use vstd::string::group_string_axioms;

/// Error codes for parse errors.
#[derive(Debug, Clone, Copy, PartialEq, Eq, Structural)]
pub enum ErrorCode {
    /// E001: Unclosed brace comment
    UnclosedBraceComment,
    /// E002: Unclosed variation (unbalanced parentheses)
    UnclosedVariation,
    /// E003: Unexpected closing parenthesis
    UnexpectedClosingParen,
    /// E004: Unexpected token
    UnexpectedToken,
    /// E005: Invalid move notation
    InvalidMoveNotation,
    /// E010: Ambiguous move-like token at line start (strict mode)
    AmbiguousMoveAtLineStart,
    /// E011: Ambiguous parenthetical move reference (strict mode)
    AmbiguousParentheticalMove,
    /// E012: Ambiguous list marker could be variation end (strict mode)
    AmbiguousListMarker,
}

/// The numeric code of an error ("E001", ...).
pub open spec fn code_text(c: ErrorCode) -> Seq<char> {
    match c {
        ErrorCode::UnclosedBraceComment => "E001"@,
        ErrorCode::UnclosedVariation => "E002"@,
        ErrorCode::UnexpectedClosingParen => "E003"@,
        ErrorCode::UnexpectedToken => "E004"@,
        ErrorCode::InvalidMoveNotation => "E005"@,
        ErrorCode::AmbiguousMoveAtLineStart => "E010"@,
        ErrorCode::AmbiguousParentheticalMove => "E011"@,
        ErrorCode::AmbiguousListMarker => "E012"@,
    }
}

impl ErrorCode {
    /// The numeric error code string (e.g., "E001").
    pub fn code(&self) -> (s: &'static str)
        ensures
            s@ == code_text(*self),
    {
        match self {
            ErrorCode::UnclosedBraceComment => "E001",
            ErrorCode::UnclosedVariation => "E002",
            ErrorCode::UnexpectedClosingParen => "E003",
            ErrorCode::UnexpectedToken => "E004",
            ErrorCode::InvalidMoveNotation => "E005",
            ErrorCode::AmbiguousMoveAtLineStart => "E010",
            ErrorCode::AmbiguousParentheticalMove => "E011",
            ErrorCode::AmbiguousListMarker => "E012",
        }
    }

    /// Whether this is an ambiguity error (only raised in strict mode).
    pub fn is_ambiguous(&self) -> (b: bool)
        ensures
            b == (*self == ErrorCode::AmbiguousMoveAtLineStart || *self
                == ErrorCode::AmbiguousParentheticalMove || *self == ErrorCode::AmbiguousListMarker),
    {
        match self {
            ErrorCode::AmbiguousMoveAtLineStart => true,
            ErrorCode::AmbiguousParentheticalMove => true,
            ErrorCode::AmbiguousListMarker => true,
            _ => false,
        }
    }
}

/// A highlighted region in a source line.
#[derive(Debug, Clone)]
pub struct Highlight {
    /// Column where the highlight starts (0-indexed).
    pub start: usize,
    /// Length of the highlight.
    pub len: usize,
    /// Label to display under the highlight.
    pub label: String,
}

/// A source line with optional highlighting.
#[derive(Debug, Clone)]
pub struct SourceLine {
    /// Line number (1-indexed).
    pub line_num: usize,
    /// The content of the line.
    pub content: String,
    /// Optional highlight on this line.
    pub highlight: Option<Highlight>,
}

/// Rich parse error with context and suggestions.
#[derive(Debug, Clone)]
pub struct ParseError {
    /// Error code (E001, E002, etc.).
    pub code: ErrorCode,
    /// Short error title.
    pub message: String,
    /// Source file path (if known).
    pub file: Option<String>,
    /// Line number where the error occurred (1-indexed).
    pub line: usize,
    /// Column number where the error occurred (1-indexed).
    pub column: usize,
    /// Length of the problematic span.
    pub span_len: usize,
    /// Surrounding source lines for context.
    pub source_context: Vec<SourceLine>,
    /// Additional notes explaining the error.
    pub notes: Vec<String>,
    /// Suggestions for how to fix the error.
    pub help: Vec<String>,
}

/// The lines of a text as `str::lines` gives them: split at `\n`, a `\r`
/// right before the `\n` dropped, and no empty line after a final `\n`.
pub open spec fn lines_of(s: Seq<char>) -> Seq<Seq<char>>
    decreases s.len(),
{
    if s.len() == 0 {
        Seq::empty()
    } else {
        let i = first_newline(s);
        if i == s.len() {
            seq![s]
        } else {
            let line = s.take(i as int);
            let line = if line.len() > 0 && line.last() == '\r' { line.drop_last() } else { line };
            proof {
                lemma_first_newline(s);
            }
            seq![line] + lines_of(s.skip(i as int + 1))
        }
    }
}

/// Index of the first `\n`, or the length where there is none.
pub open spec fn first_newline(s: Seq<char>) -> nat
    decreases s.len(),
{
    if s.len() == 0 {
        0
    } else if s[0] == '\n' {
        0
    } else {
        1 + first_newline(s.drop_first())
    }
}

pub proof fn lemma_first_newline(s: Seq<char>)
    ensures
        first_newline(s) <= s.len(),
        first_newline(s) < s.len() ==> s[first_newline(s) as int] == '\n',
        forall|j: int| 0 <= j < first_newline(s) ==> #[trigger] s[j] != '\n',
    decreases s.len(),
{
    if s.len() > 0 && s[0] != '\n' {
        lemma_first_newline(s.drop_first());
        assert forall|j: int| 0 <= j < first_newline(s) implies #[trigger] s[j] != '\n' by {
            if j > 0 {
                assert(s[j] == s.drop_first()[j - 1]);
            }
        }
    }
}

proof fn lemma_first_newline_unique(s: Seq<char>, k: int)
    requires
        0 <= k <= s.len(),
        k < s.len() ==> s[k] == '\n',
        forall|j: int| 0 <= j < k ==> #[trigger] s[j] != '\n',
    ensures
        first_newline(s) == k,
    decreases s.len(),
{
    if s.len() > 0 && k > 0 {
        assert(s[0] != '\n');
        assert forall|j: int| 0 <= j < k - 1 implies #[trigger] s.drop_first()[j] != '\n' by {
            assert(s.drop_first()[j] == s[j + 1]);
        }
        lemma_first_newline_unique(s.drop_first(), k - 1);
    }
}

/// The lines of `v[from..]`, as `str::lines` gives them.
pub fn lines_from(v: &[char], from: usize) -> (r: Vec<Vec<char>>)
    requires
        from <= v@.len(),
    ensures
        r@.len() == lines_of(v@.skip(from as int)).len(),
        forall|i: int| 0 <= i < r@.len() ==> #[trigger] r@[i]@ == lines_of(v@.skip(from as int))[i],
    decreases v@.len() - from,
{
    let ghost s = v@.skip(from as int);
    if from == v.len() {
        return Vec::new();
    }
    let mut i = from;
    while i < v.len() && v[i] != '\n'
        invariant
            from <= i <= v@.len(),
            s == v@.skip(from as int),
            forall|j: int| 0 <= j < i - from ==> #[trigger] s[j] != '\n',
        decreases v@.len() - i,
    {
        i = i + 1;
    }
    proof {
        lemma_first_newline_unique(s, i - from);
    }
    let mut out: Vec<Vec<char>> = Vec::new();
    if i == v.len() {
        let line = sub_chars(v, from, i);
        assert(line@ =~= s);
        out.push(line);
        return out;
    }
    let mut end = i;
    if end > from && v[end - 1] == '\r' {
        end = end - 1;
    }
    let line = sub_chars(v, from, end);
    proof {
        let t = s.take(i - from);
        if i > from && v@[i - 1] == '\r' {
            assert(line@ =~= t.drop_last());
        } else {
            assert(line@ =~= t);
        }
        assert(s.skip(i - from + 1) =~= v@.skip(i + 1));
    }
    out.push(line);
    let rest = lines_from(v, i + 1);
    let mut k: usize = 0;
    while k < rest.len()
        invariant
            k <= rest@.len(),
            out@.len() == k + 1,
            out@[0]@ == lines_of(s)[0],
            rest@.len() == lines_of(v@.skip(i + 1)).len(),
            forall|j: int| 0 <= j < rest@.len() ==> #[trigger] rest@[j]@ == lines_of(v@.skip(i + 1))[j],
            forall|j: int| 1 <= j <= k ==> #[trigger] out@[j]@ == rest@[j - 1]@,
        decreases rest@.len() - k,
    {
        out.push(sub_chars(&rest[k], 0, rest[k].len()));
        assert(rest@[k as int]@.subrange(0, rest@[k as int]@.len() as int) =~= rest@[k as int]@);
        k = k + 1;
    }
    out
}

/// The context that an error message shows: the line before the error
/// line, the error line with its highlight, and the line after, each
/// where it exists.
pub open spec fn context_spec(
    lines: Seq<Seq<char>>,
    error_line: int,
    error_column: int,
    span_len: int,
    label: Seq<char>,
) -> Seq<(int, Seq<char>, Option<(int, int, Seq<char>)>)> {
    let before: Seq<(int, Seq<char>, Option<(int, int, Seq<char>)>)> = if error_line > 1
        && error_line - 2 < lines.len() {
        seq![(error_line - 1, lines[error_line - 2], None)]
    } else {
        Seq::empty()
    };
    let at: Seq<(int, Seq<char>, Option<(int, int, Seq<char>)>)> = if error_line > 0
        && error_line - 1 < lines.len() {
        seq![
            (
                error_line,
                lines[error_line - 1],
                Some((if error_column >= 1 { error_column - 1 } else { 0 }, span_len, label)),
            ),
        ]
    } else {
        Seq::empty()
    };
    let after: Seq<(int, Seq<char>, Option<(int, int, Seq<char>)>)> = if error_line < lines.len() {
        seq![(error_line + 1, lines[error_line], None)]
    } else {
        Seq::empty()
    };
    before + at + after
}

/// A source line as plain values.
pub open spec fn source_line_model(l: SourceLine) -> (int, Seq<char>, Option<(int, int, Seq<char>)>) {
    (
        l.line_num as int,
        l.content@,
        match l.highlight {
            Some(h) => Some((h.start as int, h.len as int, h.label@)),
            None => None,
        },
    )
}

/// A parse error as plain values.
pub struct ErrorModel {
    pub code: ErrorCode,
    pub message: Seq<char>,
    pub file: Option<Seq<char>>,
    pub line: int,
    pub column: int,
    pub span_len: int,
    pub context: Seq<(int, Seq<char>, Option<(int, int, Seq<char>)>)>,
    pub notes: Seq<Seq<char>>,
    pub help: Seq<Seq<char>>,
}

/// The plain values of a parse error.
pub open spec fn error_model(e: ParseError) -> ErrorModel {
    ErrorModel {
        code: e.code,
        message: e.message@,
        file: match e.file {
            Some(f) => Some(f@),
            None => None,
        },
        line: e.line as int,
        column: e.column as int,
        span_len: e.span_len as int,
        context: e.source_context@.map_values(|l: SourceLine| source_line_model(l)),
        notes: e.notes@.map_values(|n: String| n@),
        help: e.help@.map_values(|h: String| h@),
    }
}

impl ParseError {
    /// A new parse error at line 1, column 1, with no file, context, notes or help.
    pub fn new(code: ErrorCode, message: &str) -> (e: ParseError)
        ensures
            e.code == code,
            e.message@ == message@,
            e.file is None,
            e.line == 1,
            e.column == 1,
            e.span_len == 1,
            e.source_context@.len() == 0,
            e.notes@.len() == 0,
            e.help@.len() == 0,
    {
        ParseError {
            code,
            message: message.to_owned(),
            file: None,
            line: 1,
            column: 1,
            span_len: 1,
            source_context: Vec::new(),
            notes: Vec::new(),
            help: Vec::new(),
        }
    }

    /// Set the file path.
    pub fn with_file(self, file: &str) -> (e: ParseError)
        ensures
            e.file matches Some(f) && f@ == file@,
            e.code == self.code && e.message == self.message && e.line == self.line && e.column
                == self.column && e.span_len == self.span_len && e.source_context
                == self.source_context && e.notes == self.notes && e.help == self.help,
    {
        let mut e = self;
        e.file = Some(file.to_owned());
        e
    }

    /// Set the location (line and column, both 1-indexed).
    pub fn with_location(self, line: usize, column: usize) -> (e: ParseError)
        ensures
            e.line == line && e.column == column,
            e.code == self.code && e.message == self.message && e.file == self.file && e.span_len
                == self.span_len && e.source_context == self.source_context && e.notes
                == self.notes && e.help == self.help,
    {
        let mut e = self;
        e.line = line;
        e.column = column;
        e
    }

    /// Set the span length.
    pub fn with_span(self, len: usize) -> (e: ParseError)
        ensures
            e.span_len == len,
            e.code == self.code && e.message == self.message && e.file == self.file && e.line
                == self.line && e.column == self.column && e.source_context == self.source_context
                && e.notes == self.notes && e.help == self.help,
    {
        let mut e = self;
        e.span_len = len;
        e
    }

    /// Set the source context lines.
    pub fn with_source_context(self, lines: Vec<SourceLine>) -> (e: ParseError)
        ensures
            e.source_context == lines,
            e.code == self.code && e.message == self.message && e.file == self.file && e.line
                == self.line && e.column == self.column && e.span_len == self.span_len && e.notes
                == self.notes && e.help == self.help,
    {
        let mut e = self;
        e.source_context = lines;
        e
    }

    /// Add a note.
    pub fn with_note(self, note: &str) -> (e: ParseError)
        ensures
            e.notes@.len() == self.notes@.len() + 1,
            forall|i: int| 0 <= i < self.notes@.len() ==> e.notes@[i] == self.notes@[i],
            e.notes@.last()@ == note@,
            e.code == self.code && e.message == self.message && e.file == self.file && e.line
                == self.line && e.column == self.column && e.span_len == self.span_len
                && e.source_context == self.source_context && e.help == self.help,
    {
        let mut e = self;
        e.notes.push(note.to_owned());
        e
    }

    /// Add a help suggestion.
    pub fn with_help(self, help: &str) -> (e: ParseError)
        ensures
            e.help@.len() == self.help@.len() + 1,
            forall|i: int| 0 <= i < self.help@.len() ==> e.help@[i] == self.help@[i],
            e.help@.last()@ == help@,
            e.code == self.code && e.message == self.message && e.file == self.file && e.line
                == self.line && e.column == self.column && e.span_len == self.span_len
                && e.source_context == self.source_context && e.notes == self.notes,
    {
        let mut e = self;
        e.help.push(help.to_owned());
        e
    }

    /// Source lines around a given line: the one before, the line itself
    /// with a highlight from the given column, and the one after.
    pub fn create_context_from_source(
        source: &str,
        error_line: usize,
        error_column: usize,
        span_len: usize,
        label: &str,
    ) -> (r: Vec<SourceLine>)
        ensures
            r@.map_values(|l: SourceLine| source_line_model(l)) == context_spec(
                lines_of(source@),
                error_line as int,
                error_column as int,
                span_len as int,
                label@,
            ),
    {
        let chars = str_chars(source);
        let lines = lines_from(&chars, 0);
        assert(chars@.skip(0) =~= source@);
        let ghost ls = lines_of(source@);
        let mut context: Vec<SourceLine> = Vec::new();
        let n = lines.len();
        let ghost want = context_spec(ls, error_line as int, error_column as int, span_len as int, label@);
        if error_line > 1 && error_line - 2 < n {
            context.push(
                SourceLine {
                    line_num: error_line - 1,
                    content: string_of(&lines[error_line - 2]),
                    highlight: None,
                },
            );
        }
        if error_line > 0 && error_line - 1 < n {
            let start = if error_column >= 1 { error_column - 1 } else { 0 };
            context.push(
                SourceLine {
                    line_num: error_line,
                    content: string_of(&lines[error_line - 1]),
                    highlight: Some(Highlight { start, len: span_len, label: label.to_owned() }),
                },
            );
        }
        if error_line < n {
            context.push(
                SourceLine {
                    line_num: error_line + 1,
                    content: string_of(&lines[error_line]),
                    highlight: None,
                },
            );
        }
        assert(context@.map_values(|l: SourceLine| source_line_model(l)) =~= want);
        context
    }
}

/// Parsing mode.
#[derive(Debug, Clone, Copy, PartialEq, Eq, Structural)]
pub enum ParseMode {
    /// Lenient mode: apply heuristics for ambiguous patterns (default).
    Lenient,
    /// Strict mode: error on any ambiguous pattern.
    Strict,
}

impl Default for ParseMode {
    fn default() -> (m: ParseMode)
        ensures
            m == ParseMode::Lenient,
    {
        ParseMode::Lenient
    }
}

/// Main error type for pgnq operations.
#[derive(Debug)]
pub enum Error {
    PathNotFound(String),
    InvalidPath(String),
    Parse(ParseError),
    Other(String),
}

/// Result type alias using the crate's `Error`.
pub type Result<T> = std::result::Result<T, Error>;

} // verus!
