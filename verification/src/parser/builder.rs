//! Phase 3: the tree builder.  Walks the token stream with a small state
//! machine that tells real moves from move-like words in prose, and builds
//! the game tree.

use vstd::prelude::*;
use crate::error::{context_spec, error_model, lines_of, Error, ErrorCode, ErrorModel, ParseError, ParseMode, SourceLine};
use crate::nag::{dollar_nag, Nag};
use crate::parser::lexer::{located_model, run, run_class, CharClass, LocatedToken};
use crate::parser::token::{nag_value_spec, TokKind, Token};
use crate::text::{dec, parse_unsigned, parse_unsigned_at, push_char, push_dec, push_str, str_chars, string_eq_str, string_of, sub_chars, trim, trim_chars, is_whitespace, is_ws};
use crate::tree::game::{header_insert, parse_result, GameResult, GameTree};
use crate::tree::model::{at_path, empty_node, extends, group_node_model, lemma_path_prefix, lemma_path_push, lemma_replace_at_path, lemma_replace_keeps_paths, replace_at, valid_path, with_child, GameNode, NodeModel};

verus! {

broadcast use {vstd::string::group_string_axioms, group_node_model};

// ---------------------------------------------------------------------------
// Tag pairs and move numbers
// ---------------------------------------------------------------------------

/// Reads a tag value: `\"` and `\\` stand for `"` and `\`, another
/// backslash stays as it is, and an unescaped `"` ends the value.  Gives
/// the value and whether a closing quote was found.
pub open spec fn scan_value(s: Seq<char>) -> (Seq<char>, bool)
    decreases s.len(),
{
    if s.len() == 0 {
        (Seq::empty(), false)
    } else if s[0] == '\\' {
        if s.len() >= 2 && (s[1] == '"' || s[1] == '\\') {
            let r = scan_value(s.skip(2));
            (seq![s[1]] + r.0, r.1)
        } else {
            let r = scan_value(s.skip(1));
            (seq!['\\'] + r.0, r.1)
        }
    } else if s[0] == '"' {
        (Seq::empty(), true)
    } else {
        let r = scan_value(s.skip(1));
        (seq![s[0]] + r.0, r.1)
    }
}

/// Index of the first `"` in `s`, if any.
pub open spec fn first_quote(s: Seq<char>) -> Option<nat>
    decreases s.len(),
{
    if s.len() == 0 {
        None
    } else if s[0] == '"' {
        Some(0)
    } else {
        match first_quote(s.drop_first()) {
            Some(i) => Some(i + 1),
            None => None,
        }
    }
}

/// A tag pair `[Key "value"]` as key and value.  The text is trimmed; it
/// must be in brackets; the key is what comes before the first quote,
/// trimmed, and must not be empty; the value runs to the closing quote,
/// or to the end where there is none, in which case it must not be empty.
pub open spec fn parse_header_spec(header: Seq<char>) -> Option<(Seq<char>, Seq<char>)> {
    let h = trim(header);
    if h.len() >= 2 && h[0] == '[' && h.last() == ']' {
        let inner = h.subrange(1, h.len() - 1);
        match first_quote(inner) {
            Some(q) => {
                let key = trim(inner.take(q as int));
                let r = scan_value(inner.skip((q + 1) as int));
                if key.len() == 0 {
                    None
                } else if r.1 || r.0.len() > 0 {
                    Some((key, r.0))
                } else {
                    None
                }
            },
            None => None,
        }
    } else {
        None
    }
}

/// The number a move number such as "12." or "12..." starts with.
pub open spec fn move_number_value(s: Seq<char>) -> Option<u16> {
    match parse_unsigned(s.take(run(s, 0, CharClass::Digit) as int), 65535) {
        Some(v) => Some(v as u16),
        None => None,
    }
}

/// Whether a text contains "...".
pub open spec fn has_ellipsis(s: Seq<char>) -> bool {
    exists|i: int| 0 <= i && i + 3 <= s.len() && #[trigger] s[i] == '.' && s[i + 1] == '.' && s[i + 2] == '.'
}

proof fn lemma_first_quote(s: Seq<char>, q: int)
    requires
        0 <= q <= s.len(),
        forall|j: int| 0 <= j < q ==> s[j] != '"',
        q < s.len() ==> s[q] == '"',
    ensures
        first_quote(s) == (if q == s.len() { None } else { Some(q as nat) }),
    decreases q,
{
    if s.len() > 0 && q > 0 {
        lemma_first_quote(s.drop_first(), q - 1);
    }
}

fn scan_value_exec(s: &[char], from: usize) -> (r: (Vec<char>, bool))
    requires
        from <= s@.len(),
    ensures
        (r.0@, r.1) == scan_value(s@.skip(from as int)),
{
    let mut acc: Vec<char> = Vec::new();
    let mut i = from;
    while i < s.len()
        invariant
            from <= i <= s@.len(),
            scan_value(s@.skip(from as int)) == (acc@ + scan_value(s@.skip(i as int)).0, scan_value(
                s@.skip(i as int),
            ).1),
        decreases s@.len() - i,
    {
        let ghost t = s@.skip(i as int);
        let c = s[i];
        assert(t[0] == c);
        if c == '\\' {
            if i + 1 < s.len() && (s[i + 1] == '"' || s[i + 1] == '\\') {
                assert(t.skip(2) =~= s@.skip(i + 2));
                acc.push(s[i + 1]);
                i = i + 2;
            } else {
                assert(t.skip(1) =~= s@.skip(i + 1));
                acc.push('\\');
                i = i + 1;
            }
        } else if c == '"' {
            return (acc, true);
        } else {
            assert(t.skip(1) =~= s@.skip(i + 1));
            acc.push(c);
            i = i + 1;
        }
    }
    assert(s@.skip(i as int) =~= Seq::<char>::empty());
    (acc, false)
}

/// Parse a tag pair such as `[Event "Test Game"]` into key and value.
pub fn parse_header(header: &str) -> (r: Option<(String, String)>)
    ensures
        r is Some <==> parse_header_spec(header@) is Some,
        r matches Some(kv) ==> (kv.0@, kv.1@) == parse_header_spec(header@)->0,
{
    let v = str_chars(header);
    let t = trim_chars(&v);
    let n = t.len();
    if !(n >= 2 && t[0] == '[' && t[n - 1] == ']') {
        return None;
    }
    let inner = sub_chars(&t, 1, n - 1);
    let mut q: usize = 0;
    while q < inner.len() && inner[q] != '"'
        invariant
            q <= inner@.len(),
            forall|j: int| 0 <= j < q ==> inner@[j] != '"',
        decreases inner@.len() - q,
    {
        q = q + 1;
    }
    proof {
        lemma_first_quote(inner@, q as int);
    }
    if q == inner.len() {
        return None;
    }
    let key = trim_chars(&sub_chars(&inner, 0, q));
    assert(inner@.subrange(0, q as int) =~= inner@.take(q as int));
    if key.len() == 0 {
        return None;
    }
    let (value, closed) = scan_value_exec(&inner, q + 1);
    if closed || value.len() > 0 {
        Some((string_of(&key), string_of(&value)))
    } else {
        None
    }
}

/// The number a move number such as "1." or "15..." starts with.
pub fn parse_move_number(s: &str) -> (r: Option<u16>)
    ensures
        r == move_number_value(s@),
{
    let v = str_chars(s);
    let d = run_class(&v, 0, CharClass::Digit);
    let digits = sub_chars(&v, 0, d);
    assert(digits@.skip(0) =~= s@.take(d as int));
    match parse_unsigned_at(&digits, 0, 65535) {
        Some(n) => Some(n as u16),
        None => None,
    }
}

fn contains_ellipsis(v: &[char]) -> (b: bool)
    ensures
        b == has_ellipsis(v@),
{
    let mut i: usize = 0;
    while i < v.len() && v.len() - i >= 3
        invariant
            i <= v@.len(),
            forall|j: int| 0 <= j < i && j + 3 <= v@.len() ==> !(#[trigger] v@[j] == '.' && v@[j + 1] == '.' && v@[j + 2] == '.'),
        decreases v@.len() - i,
    {
        if v[i] == '.' && v[i + 1] == '.' && v[i + 2] == '.' {
            return true;
        }
        i = i + 1;
    }
    false
}

// ---------------------------------------------------------------------------
// The state machine, as plain values
// ---------------------------------------------------------------------------

/// Where the builder stands with respect to prose.
#[derive(Debug, Clone, Copy, PartialEq, Eq, Structural)]
pub enum ParseContext {
    /// After a move number, expecting this many more moves: two after
    /// "1.", one after "1...".
    ExpectingMoves { remaining: u8 },
    /// Between moves, not in prose: moves here are real.
    BetweenMoves,
    /// Inside prose: move-like words are comment text.  Entered on bare
    /// text, left on a newline.
    InProse,
}

/// The builder's state as plain values, the tree apart.
pub struct StateModel {
    /// Child indices from the root to the current move.
    pub path: Seq<usize>,
    /// Saved (path, move number, Black to move, context) of each open variation.
    pub stack: Seq<(Seq<usize>, u16, bool, ParseContext)>,
    /// Line and column of each open variation's parenthesis.
    pub starts: Seq<(int, int)>,
    /// Comment waiting for the first move.
    pub comment: Seq<char>,
    /// NAGs waiting for the first move.
    pub nags: Seq<Nag>,
    /// Number of the next move.
    pub number: u16,
    /// Whether the next move is Black's.
    pub black: bool,
    pub ctx: ParseContext,
    /// Whether a variation has just opened and its first move is still to come.
    pub pop: bool,
}

pub open spec fn initial_state() -> StateModel {
    StateModel {
        path: Seq::empty(),
        stack: Seq::empty(),
        starts: Seq::empty(),
        comment: Seq::empty(),
        nags: Seq::empty(),
        number: 1,
        black: false,
        ctx: ParseContext::BetweenMoves,
        pop: false,
    }
}

/// Every path the builder holds leads to a node of the tree.
pub open spec fn paths_valid(st: StateModel, root: NodeModel) -> bool {
    &&& valid_path(root, st.path)
    &&& forall|i: int| 0 <= i < st.stack.len() ==> valid_path(root, #[trigger] st.stack[i].0)
}

/// `c` followed by `text`, with a space between where `c` is not empty and `space` is set.
pub open spec fn joined(c: Seq<char>, text: Seq<char>, space: bool) -> Seq<char> {
    if c.len() > 0 && space {
        c.push(' ') + text
    } else {
        c + text
    }
}

pub open spec fn with_comment(n: NodeModel, c: Seq<char>) -> NodeModel {
    NodeModel {
        san: n.san,
        move_number: n.move_number,
        is_black: n.is_black,
        comment: c,
        nags: n.nags,
        children: n.children,
    }
}

pub open spec fn with_nags(n: NodeModel, g: Seq<Nag>) -> NodeModel {
    NodeModel {
        san: n.san,
        move_number: n.move_number,
        is_black: n.is_black,
        comment: n.comment,
        nags: g,
        children: n.children,
    }
}

pub open spec fn with_ctx(st: StateModel, c: ParseContext) -> StateModel {
    StateModel { ctx: c, ..st }
}

pub open spec fn in_prose(st: StateModel) -> bool {
    st.ctx == ParseContext::InProse
}

/// Text added to the comment being written: the pending one before the
/// first move, else the current move's.
pub open spec fn append_spec(st: StateModel, root: NodeModel, text: Seq<char>, space: bool) -> (StateModel, NodeModel) {
    if st.path.len() == 0 {
        (StateModel { comment: joined(st.comment, text, space), ..st }, root)
    } else {
        let cur = at_path(root, st.path);
        (st, replace_at(root, st.path, with_comment(cur, joined(cur.comment, text, space))))
    }
}

/// A NAG added to the pending ones before the first move, else to the current move.
pub open spec fn add_nag_spec(st: StateModel, root: NodeModel, g: Nag) -> (StateModel, NodeModel) {
    if st.path.len() == 0 {
        (StateModel { nags: st.nags.push(g), ..st }, root)
    } else {
        let cur = at_path(root, st.path);
        (st, replace_at(root, st.path, with_nags(cur, cur.nags.push(g))))
    }
}

/// A move number: text in prose; else it sets the number and side to move
/// and the moves now expected.
pub open spec fn move_number_spec(st: StateModel, root: NodeModel, s: Seq<char>) -> (StateModel, NodeModel) {
    if in_prose(st) {
        append_spec(st, root, s, true)
    } else {
        match move_number_value(s) {
            Some(n) => {
                let b = has_ellipsis(s);
                (
                    StateModel {
                        number: n,
                        black: b,
                        ctx: ParseContext::ExpectingMoves { remaining: if b { 1 } else { 2 } },
                        ..st
                    },
                    root,
                )
            },
            None => (st, root),
        }
    }
}

/// A standalone number is a list marker: text, and the start of prose.
pub open spec fn digit_spec(st: StateModel, root: NodeModel, s: Seq<char>) -> (StateModel, NodeModel) {
    let r = append_spec(st, root, s, true);
    (with_ctx(r.0, ParseContext::InProse), r.1)
}

/// The node under which the next move goes: the current one, or its
/// parent where the first move of a variation is by the other side than
/// the one to move when it opened (an alternative to the current move).
pub open spec fn move_parent(st: StateModel) -> Seq<usize> {
    if st.pop && st.stack.len() > 0 && st.black != st.stack.last().2 && st.path.len() > 0 {
        st.path.drop_last()
    } else {
        st.path
    }
}

/// The move number after Black's move.
pub open spec fn next_number(n: u16) -> u16 {
    if n == 65535 {
        0
    } else {
        (n + 1) as u16
    }
}

pub open spec fn after_move_ctx(c: ParseContext) -> ParseContext {
    match c {
        ParseContext::ExpectingMoves { remaining } => if remaining > 1 {
            ParseContext::ExpectingMoves { remaining: (remaining - 1) as u8 }
        } else {
            ParseContext::BetweenMoves
        },
        _ => c,
    }
}

/// The node a move becomes: numbered, with the pending comment and NAGs.
pub open spec fn new_move(st: StateModel, san: Seq<char>) -> NodeModel {
    NodeModel {
        san: san,
        move_number: Some(st.number),
        is_black: st.black,
        comment: st.comment,
        nags: st.nags,
        children: Seq::empty(),
    }
}

/// A move: text in prose; else a new node, appended to the children of
/// `move_parent`, becomes the current move.
pub open spec fn move_spec(st: StateModel, root: NodeModel, san: Seq<char>) -> (StateModel, NodeModel) {
    if in_prose(st) {
        append_spec(st, root, san, true)
    } else {
        let p = move_parent(st);
        let parent = at_path(root, p);
        (
            StateModel {
                path: p.push(parent.children.len() as usize),
                comment: Seq::empty(),
                nags: Seq::empty(),
                number: if st.black { next_number(st.number) } else { st.number },
                black: !st.black,
                ctx: after_move_ctx(st.ctx),
                pop: false,
                ..st
            },
            replace_at(root, p, with_child(parent, new_move(st, san))),
        )
    }
}

/// A brace or semicolon comment: its trimmed text, where not empty.
pub open spec fn comment_spec(st: StateModel, root: NodeModel, text: Seq<char>) -> (StateModel, NodeModel) {
    if trim(text).len() > 0 {
        append_spec(st, root, trim(text), true)
    } else {
        (st, root)
    }
}

/// Bare text: its trimmed text, where not empty, and the start of prose.
pub open spec fn bare_spec(st: StateModel, root: NodeModel, text: Seq<char>) -> (StateModel, NodeModel) {
    if trim(text).len() > 0 {
        let r = append_spec(st, root, trim(text), true);
        (with_ctx(r.0, ParseContext::InProse), r.1)
    } else {
        (st, root)
    }
}

/// Punctuation: a dash or plus is text only in prose; other marks join
/// the previous word without a space and start prose.
pub open spec fn punct_spec(st: StateModel, root: NodeModel, p: Seq<char>) -> (StateModel, NodeModel) {
    if p == seq!['-'] || p == seq!['+'] {
        if in_prose(st) {
            append_spec(st, root, p, true)
        } else {
            (st, root)
        }
    } else {
        let r = append_spec(st, root, p, false);
        (with_ctx(r.0, ParseContext::InProse), r.1)
    }
}

/// "(": text in prose in lenient mode; else a variation opens, saving where
/// the builder stands.
pub open spec fn var_start_spec(st: StateModel, root: NodeModel, mode: ParseMode, line: int, column: int) -> (StateModel, NodeModel) {
    if mode == ParseMode::Lenient && in_prose(st) {
        append_spec(st, root, seq!['('], true)
    } else {
        (
            StateModel {
                starts: st.starts.push((line, column)),
                stack: st.stack.push((st.path, st.number, st.black, st.ctx)),
                pop: true,
                ctx: ParseContext::BetweenMoves,
                ..st
            },
            root,
        )
    }
}

/// ")": text in prose; else the innermost variation closes and the builder
/// returns to where it stood when it opened.  With none open it is
/// ignored in lenient mode and an error (`None`) in strict mode.
pub open spec fn var_end_spec(st: StateModel, root: NodeModel, mode: ParseMode) -> Option<(StateModel, NodeModel)> {
    if in_prose(st) {
        Some(append_spec(st, root, seq![')'], false))
    } else {
        let starts = if st.starts.len() > 0 { st.starts.drop_last() } else { st.starts };
        if st.stack.len() > 0 {
            let f = st.stack.last();
            Some((
                StateModel {
                    starts: starts,
                    stack: st.stack.drop_last(),
                    path: f.0,
                    number: f.1,
                    black: f.2,
                    ctx: f.3,
                    ..st
                },
                root,
            ))
        } else if mode == ParseMode::Strict {
            None
        } else {
            Some((StateModel { starts: starts, ..st }, root))
        }
    }
}

/// A newline ends prose.
pub open spec fn newline_spec(st: StateModel) -> StateModel {
    if in_prose(st) {
        with_ctx(st, ParseContext::BetweenMoves)
    } else {
        st
    }
}

/// A tag pair is set; a "Result" tag with a known result also sets the result.
pub open spec fn header_spec(
    h: Seq<(Seq<char>, Seq<char>)>,
    r: GameResult,
    s: Seq<char>,
) -> (Seq<(Seq<char>, Seq<char>)>, GameResult) {
    match parse_header_spec(s) {
        Some(kv) => (
            header_insert(h, kv.0, kv.1),
            if kv.0 == "Result"@ && parse_result(kv.1) is Some {
                parse_result(kv.1)->0
            } else {
                r
            },
        ),
        None => (h, r),
    }
}

/// Everything the builder has: its state and the tree so far.
pub struct Build {
    pub st: StateModel,
    pub root: NodeModel,
    pub headers: Seq<(Seq<char>, Seq<char>)>,
    pub result: GameResult,
}

pub open spec fn initial_build() -> Build {
    Build {
        st: initial_state(),
        root: empty_node(),
        headers: Seq::empty(),
        result: GameResult::Ongoing,
    }
}

pub open spec fn with_st_root(b: Build, x: (StateModel, NodeModel)) -> Build {
    Build { st: x.0, root: x.1, ..b }
}

pub open spec fn with_nag_value(b: Build, v: Option<u8>) -> Build {
    match v {
        Some(n) => with_st_root(b, add_nag_spec(b.st, b.root, Nag(n))),
        None => b,
    }
}

/// A located token as plain values: (token, line, column, offset, length).
pub type TokModel = ((TokKind, Seq<char>), int, int, int, int);

/// What one token does; `None` where it is an error.
pub open spec fn step_spec(b: Build, t: TokModel, mode: ParseMode) -> Option<Build> {
    let k = t.0.0;
    let s = t.0.1;
    match k {
        TokKind::Header => {
            let hr = header_spec(b.headers, b.result, s);
            Some(Build { headers: hr.0, result: hr.1, ..b })
        },
        TokKind::MoveNumber => Some(with_st_root(b, move_number_spec(b.st, b.root, s))),
        TokKind::Digit => Some(with_st_root(b, digit_spec(b.st, b.root, s))),
        TokKind::PieceMove | TokKind::PawnMove | TokKind::CastleLong | TokKind::CastleShort => Some(
            with_st_root(b, move_spec(b.st, b.root, s)),
        ),
        TokKind::BraceComment | TokKind::SemicolonComment => Some(
            with_st_root(b, comment_spec(b.st, b.root, s)),
        ),
        TokKind::BareText => Some(with_st_root(b, bare_spec(b.st, b.root, s))),
        TokKind::Punctuation => Some(with_st_root(b, punct_spec(b.st, b.root, s))),
        TokKind::Nag => Some(with_nag_value(b, dollar_nag(s))),
        TokKind::DoubleBang | TokKind::DoubleQuestion | TokKind::BangQuestion
        | TokKind::QuestionBang | TokKind::Bang | TokKind::Question | TokKind::Equal
        | TokKind::WhiteWinning | TokKind::BlackWinning | TokKind::WhiteBetter
        | TokKind::BlackBetter | TokKind::WhiteSlightlyBetter | TokKind::BlackSlightlyBetter => Some(
            with_nag_value(b, nag_value_spec(t.0)),
        ),
        TokKind::VariationStart => Some(
            with_st_root(b, var_start_spec(b.st, b.root, mode, t.1, t.2)),
        ),
        TokKind::VariationEnd => match var_end_spec(b.st, b.root, mode) {
            Some(x) => Some(with_st_root(b, x)),
            None => None,
        },
        TokKind::WhiteWins => Some(Build { result: GameResult::WhiteWins, ..b }),
        TokKind::BlackWins => Some(Build { result: GameResult::BlackWins, ..b }),
        TokKind::Draw => Some(Build { result: GameResult::Draw, ..b }),
        TokKind::Ongoing => Some(Build { result: GameResult::Ongoing, ..b }),
        TokKind::Newline => Some(Build { st: newline_spec(b.st), ..b }),
    }
}

/// The tokens from index `i` on, starting from `b`: the final state, or
/// the index of the token that is an error.
pub open spec fn run_from(b: Build, toks: Seq<TokModel>, i: int, mode: ParseMode) -> Result<Build, int>
    decreases toks.len() - i,
{
    if i < 0 || i >= toks.len() {
        Ok(b)
    } else {
        match step_spec(b, toks[i], mode) {
            Some(b2) => run_from(b2, toks, i + 1, mode),
            None => Err(i),
        }
    }
}

/// The error for a ")" that closes no variation (strict mode).
pub open spec fn closing_paren_error(t: TokModel, file: Option<Seq<char>>, source: Option<Seq<char>>) -> ErrorModel {
    ErrorModel {
        code: ErrorCode::UnexpectedClosingParen,
        message: "unexpected closing parenthesis"@,
        file: file,
        line: t.1,
        column: t.2,
        span_len: t.4,
        context: match source {
            Some(s) => context_spec(lines_of(s), t.1, t.2, t.4, "unexpected closing parenthesis"@),
            None => Seq::empty(),
        },
        notes: Seq::empty(),
        help: seq!["Remove the extra ')' or add a matching '(' earlier"@],
    }
}

/// The error for a variation still open at the end, at its "(".
pub open spec fn unclosed_error(start: (int, int), file: Option<Seq<char>>, source: Option<Seq<char>>) -> ErrorModel {
    ErrorModel {
        code: ErrorCode::UnclosedVariation,
        message: "unclosed variation"@,
        file: file,
        line: start.0,
        column: start.1,
        span_len: 1,
        context: match source {
            Some(s) => context_spec(lines_of(s), start.0, start.1, 1, "variation starts here"@),
            None => Seq::empty(),
        },
        notes: seq![
            "Variation was opened at line "@ + dec(start.0 as nat) + ", column "@ + dec(start.1 as nat),
        ],
        help: seq!["Add ')' to close the variation, or remove the opening '('"@],
    }
}

pub open spec fn opt_view(s: Option<String>) -> Option<Seq<char>> {
    match s {
        Some(x) => Some(x@),
        None => None,
    }
}

// ---------------------------------------------------------------------------
// Paths stay valid
// ---------------------------------------------------------------------------

/// Changing the current node without touching its children keeps every
/// path the builder holds valid.
proof fn lemma_keeps_paths(st: StateModel, root: NodeModel, q: Seq<usize>, v: NodeModel)
    requires
        paths_valid(st, root),
        valid_path(root, q),
        extends(at_path(root, q), v),
    ensures
        paths_valid(st, replace_at(root, q, v)),
{
    lemma_replace_keeps_paths(root, q, v, st.path);
    assert forall|i: int| 0 <= i < st.stack.len() implies valid_path(
        replace_at(root, q, v),
        #[trigger] st.stack[i].0,
    ) by {
        lemma_replace_keeps_paths(root, q, v, st.stack[i].0);
    }
}

proof fn lemma_append_keeps_paths(st: StateModel, root: NodeModel, text: Seq<char>, space: bool)
    requires
        paths_valid(st, root),
    ensures
        paths_valid(append_spec(st, root, text, space).0, append_spec(st, root, text, space).1),
{
    if st.path.len() > 0 {
        let cur = at_path(root, st.path);
        lemma_keeps_paths(st, root, st.path, with_comment(cur, joined(cur.comment, text, space)));
    }
}

proof fn lemma_nag_keeps_paths(st: StateModel, root: NodeModel, g: Nag)
    requires
        paths_valid(st, root),
    ensures
        paths_valid(add_nag_spec(st, root, g).0, add_nag_spec(st, root, g).1),
{
    if st.path.len() > 0 {
        let cur = at_path(root, st.path);
        lemma_keeps_paths(st, root, st.path, with_nags(cur, cur.nags.push(g)));
    }
}

proof fn lemma_move_keeps_paths(st: StateModel, root: NodeModel, san: Seq<char>)
    requires
        paths_valid(st, root),
    ensures
        valid_path(root, move_parent(st)),
        paths_valid(move_spec(st, root, san).0, move_spec(st, root, san).1),
{
    let p = move_parent(st);
    if p != st.path {
        lemma_path_prefix(root, st.path);
    }
    if in_prose(st) {
        lemma_append_keeps_paths(st, root, san, true);
    } else {
        let parent = at_path(root, p);
        let v = with_child(parent, new_move(st, san));
        let r2 = replace_at(root, p, v);
        lemma_keeps_paths(st, root, p, v);
        lemma_replace_keeps_paths(root, p, v, p);
        lemma_replace_at_path(root, p, v);
        lemma_path_push(r2, p, parent.children.len() as usize);
    }
}

proof fn lemma_step_keeps_paths(b: Build, t: TokModel, mode: ParseMode)
    requires
        paths_valid(b.st, b.root),
    ensures
        step_spec(b, t, mode) matches Some(b2) ==> paths_valid(b2.st, b2.root),
{
    let s = t.0.1;
    match t.0.0 {
        TokKind::MoveNumber => {
            lemma_append_keeps_paths(b.st, b.root, s, true);
        },
        TokKind::Digit => {
            lemma_append_keeps_paths(b.st, b.root, s, true);
        },
        TokKind::PieceMove | TokKind::PawnMove | TokKind::CastleLong | TokKind::CastleShort => {
            lemma_move_keeps_paths(b.st, b.root, s);
        },
        TokKind::BraceComment | TokKind::SemicolonComment | TokKind::BareText => {
            lemma_append_keeps_paths(b.st, b.root, trim(s), true);
        },
        TokKind::Punctuation => {
            lemma_append_keeps_paths(b.st, b.root, s, true);
            lemma_append_keeps_paths(b.st, b.root, s, false);
        },
        TokKind::Nag => {
            if let Some(n) = dollar_nag(s) {
                lemma_nag_keeps_paths(b.st, b.root, Nag(n));
            }
        },
        TokKind::VariationStart => {
            lemma_append_keeps_paths(b.st, b.root, seq!['('], true);
        },
        TokKind::VariationEnd => {
            lemma_append_keeps_paths(b.st, b.root, seq![')'], false);
            if b.st.stack.len() > 0 {
                assert(valid_path(b.root, b.st.stack[b.st.stack.len() - 1].0));
            }
        },
        TokKind::Header | TokKind::WhiteWins | TokKind::BlackWins | TokKind::Draw
        | TokKind::Ongoing | TokKind::Newline => {},
        _ => {
            if let Some(n) = nag_value_spec(t.0) {
                lemma_nag_keeps_paths(b.st, b.root, Nag(n));
            }
        },
    }
}

// ---------------------------------------------------------------------------
// The builder
// ---------------------------------------------------------------------------

/// Where a variation started (for error reporting).
#[derive(Debug, Clone, Copy)]
struct VariationStart {
    line: usize,
    column: usize,
}

pub open spec fn frame_model(f: (Vec<usize>, u16, bool, ParseContext)) -> (Seq<usize>, u16, bool, ParseContext) {
    (f.0@, f.1, f.2, f.3)
}

/// The state kept while the tree is built.
struct BuilderState {
    /// Path from the root to the current move.
    current_path: Vec<usize>,
    /// Where to return when each open variation ends.
    return_stack: Vec<(Vec<usize>, u16, bool, ParseContext)>,
    /// Where each open variation started (for error reporting).
    variation_starts: Vec<VariationStart>,
    /// Comment waiting for the first move.
    pending_comment: String,
    /// NAGs waiting for the first move.
    pending_nags: Vec<Nag>,
    /// Number of the next move.
    current_move_number: u16,
    /// Whether the next move is Black's.
    expect_black: bool,
    /// Context for telling moves from prose.
    context: ParseContext,
    mode: ParseMode,
    /// Source file path (for error messages).
    file: Option<String>,
    /// Source text (for error context).
    source: Option<String>,
    /// Set when a variation opens: its first move decides whether it is an
    /// alternative to the current move or a reply to it.
    pending_variation_pop: bool,
}

spec fn same_config(a: &BuilderState, b: &BuilderState) -> bool {
    a.mode == b.mode && a.file == b.file && a.source == b.source
}

impl BuilderState {
    spec fn model(&self) -> StateModel {
        StateModel {
            path: self.current_path@,
            stack: self.return_stack@.map_values(|f: (Vec<usize>, u16, bool, ParseContext)| frame_model(f)),
            starts: self.variation_starts@.map_values(|v: VariationStart| (v.line as int, v.column as int)),
            comment: self.pending_comment@,
            nags: self.pending_nags@,
            number: self.current_move_number,
            black: self.expect_black,
            ctx: self.context,
            pop: self.pending_variation_pop,
        }
    }

    fn new(mode: ParseMode) -> (b: BuilderState)
        ensures
            b.model() == initial_state(),
            b.mode == mode,
            b.file is None,
            b.source is None,
    {
        let b = BuilderState {
            current_path: Vec::new(),
            return_stack: Vec::new(),
            variation_starts: Vec::new(),
            pending_comment: String::new(),
            pending_nags: Vec::new(),
            current_move_number: 1,
            expect_black: false,
            context: ParseContext::BetweenMoves,
            mode,
            file: None,
            source: None,
            pending_variation_pop: false,
        };
        assert(b.model().stack =~= Seq::<(Seq<usize>, u16, bool, ParseContext)>::empty());
        assert(b.model().starts =~= Seq::<(int, int)>::empty());
        b
    }

    fn with_file(self, file: String) -> (b: BuilderState)
        ensures
            b.model() == self.model(),
            b.file == Some(file),
            b.mode == self.mode && b.source == self.source,
    {
        let mut b = self;
        b.file = Some(file);
        b
    }

    fn with_source(self, source: &str) -> (b: BuilderState)
        ensures
            b.model() == self.model(),
            b.source matches Some(s) && s@ == source@,
            b.mode == self.mode && b.file == self.file,
    {
        let mut b = self;
        b.source = Some(source.to_owned());
        b
    }

    /// A parse error at a token, with the file and source context where known.
    fn make_error(&self, code: ErrorCode, message: &str, token: &LocatedToken) -> (e: ParseError)
        ensures
            error_model(e) == (ErrorModel {
                code: code,
                message: message@,
                file: opt_view(self.file),
                line: token.line as int,
                column: token.column as int,
                span_len: token.len as int,
                context: match self.source {
                    Some(s) => context_spec(
                        lines_of(s@),
                        token.line as int,
                        token.column as int,
                        token.len as int,
                        message@,
                    ),
                    None => Seq::empty(),
                },
                notes: Seq::empty(),
                help: Seq::empty(),
            }),
    {
        let mut err = ParseError::new(code, message).with_location(token.line, token.column).with_span(
            token.len,
        );
        if let Some(file) = &self.file {
            err = err.with_file(file.as_str());
        }
        if let Some(source) = &self.source {
            let context = ParseError::create_context_from_source(
                source.as_str(),
                token.line,
                token.column,
                token.len,
                message,
            );
            err = err.with_source_context(context);
        }
        assert(error_model(err).notes =~= Seq::<Seq<char>>::empty());
        assert(error_model(err).help =~= Seq::<Seq<char>>::empty());
        proof {
            if self.source is None {
                assert(error_model(err).context =~= Seq::<(int, Seq<char>, Option<(int, int, Seq<char>)>)>::empty());
            }
        }
        err
    }

    /// Append text to the comment being written, after a space where `add_space` is set.
    fn append_comment_with_space(&mut self, root: &mut GameNode, text: &str, add_space: bool)
        requires
            valid_path(old(root)@, old(self).model().path),
        ensures
            (final(self).model(), final(root)@) == append_spec(old(self).model(), old(root)@, text@, add_space),
            same_config(final(self), old(self)),
    {
        if self.current_path.len() == 0 {
            if !self.pending_comment.as_str().is_empty() && add_space {
                push_char(&mut self.pending_comment, ' ');
            }
            push_str(&mut self.pending_comment, text);
        } else {
            let current = root.navigate_path_mut(self.current_path.as_slice());
            if !current.comment.as_str().is_empty() && add_space {
                push_char(&mut current.comment, ' ');
            }
            push_str(&mut current.comment, text);
        }
    }

    fn append_comment(&mut self, root: &mut GameNode, text: &str)
        requires
            valid_path(old(root)@, old(self).model().path),
        ensures
            (final(self).model(), final(root)@) == append_spec(old(self).model(), old(root)@, text@, true),
            same_config(final(self), old(self)),
    {
        self.append_comment_with_space(root, text, true);
    }

    fn append_comment_no_space(&mut self, root: &mut GameNode, text: &str)
        requires
            valid_path(old(root)@, old(self).model().path),
        ensures
            (final(self).model(), final(root)@) == append_spec(old(self).model(), old(root)@, text@, false),
            same_config(final(self), old(self)),
    {
        self.append_comment_with_space(root, text, false);
    }

    /// Add a NAG to the pending ones or to the current move.
    fn add_nag(&mut self, root: &mut GameNode, nag: Nag)
        requires
            valid_path(old(root)@, old(self).model().path),
        ensures
            (final(self).model(), final(root)@) == add_nag_spec(old(self).model(), old(root)@, nag),
            same_config(final(self), old(self)),
    {
        if self.current_path.len() == 0 {
            self.pending_nags.push(nag);
        } else {
            let current = root.navigate_path_mut(self.current_path.as_slice());
            current.nags.push(nag);
        }
    }
}

impl BuilderState {
    /// A tag pair token.
    fn handle_header(&self, tree: &mut GameTree, header_str: &str)
        ensures
            (final(tree).headers@, final(tree).result) == header_spec(
                old(tree).headers@,
                old(tree).result,
                header_str@,
            ),
            final(tree).root == old(tree).root,
    {
        if let Some((key, value)) = parse_header(header_str) {
            if string_eq_str(&key, "Result") {
                if let Some(result) = GameResult::parse(value.as_str()) {
                    tree.result = result;
                }
            }
            tree.headers.insert(key, value);
        }
    }

    /// A move number token.
    fn handle_move_number(&mut self, root: &mut GameNode, num_str: &str)
        requires
            valid_path(old(root)@, old(self).model().path),
        ensures
            (final(self).model(), final(root)@) == move_number_spec(old(self).model(), old(root)@, num_str@),
            same_config(final(self), old(self)),
    {
        if self.context == ParseContext::InProse {
            self.append_comment(root, num_str);
        } else if let Some(num) = parse_move_number(num_str) {
            self.current_move_number = num;
            let v = str_chars(num_str);
            self.expect_black = contains_ellipsis(&v);
            self.context = ParseContext::ExpectingMoves { remaining: if self.expect_black { 1 } else { 2 } };
        }
    }

    /// A standalone number: a list marker in prose.
    fn handle_digit(&mut self, root: &mut GameNode, digit_str: &str)
        requires
            valid_path(old(root)@, old(self).model().path),
        ensures
            (final(self).model(), final(root)@) == digit_spec(old(self).model(), old(root)@, digit_str@),
            same_config(final(self), old(self)),
    {
        self.append_comment(root, digit_str);
        if self.context != ParseContext::InProse {
            self.context = ParseContext::InProse;
        }
    }

    /// A move token (piece move, pawn move or castling).
    fn handle_move(&mut self, root: &mut GameNode, san: &str)
        requires
            paths_valid(old(self).model(), old(root)@),
        ensures
            (final(self).model(), final(root)@) == move_spec(old(self).model(), old(root)@, san@),
            same_config(final(self), old(self)),
    {
        let ghost st = self.model();
        let ghost r0 = root@;
        proof {
            lemma_move_keeps_paths(st, r0, san@);
        }
        if self.context == ParseContext::InProse {
            self.append_comment(root, san);
            return;
        }
        if self.pending_variation_pop {
            self.pending_variation_pop = false;
            let n = self.return_stack.len();
            if n > 0 {
                let saved_black = self.return_stack[n - 1].2;
                assert(st.stack.last().2 == saved_black);
                if self.expect_black != saved_black {
                    if self.current_path.len() > 0 {
                        self.current_path.pop();
                    }
                }
            }
        }
        assert(self.current_path@ == move_parent(st));
        let mut node = GameNode::new(san);
        node.move_number = Some(self.current_move_number);
        node.is_black = self.expect_black;
        let mut comment = String::new();
        std::mem::swap(&mut comment, &mut self.pending_comment);
        node.comment = comment;
        let mut nags: Vec<Nag> = Vec::new();
        std::mem::swap(&mut nags, &mut self.pending_nags);
        node.nags = nags;
        assert(node@.children =~= Seq::<NodeModel>::empty());
        assert(node@ == new_move(st, san@));
        let parent = root.navigate_path_mut(self.current_path.as_slice());
        let ghost before = parent@;
        parent.children.push(node);
        let idx = parent.children.len() - 1;
        assert(parent@.children =~= before.children.push(new_move(st, san@)));
        assert(parent@ == with_child(before, new_move(st, san@)));
        self.current_path.push(idx);
        if self.expect_black {
            self.current_move_number = if self.current_move_number == 65535 {
                0
            } else {
                self.current_move_number + 1
            };
            self.expect_black = false;
        } else {
            self.expect_black = true;
        }
        if let ParseContext::ExpectingMoves { remaining } = self.context {
            self.context = if remaining > 1 {
                ParseContext::ExpectingMoves { remaining: remaining - 1 }
            } else {
                ParseContext::BetweenMoves
            };
        }
        assert(self.model().stack =~= st.stack);
        assert(self.model().starts =~= st.starts);
        assert(self.model().comment =~= Seq::<char>::empty());
        assert(self.model().nags =~= Seq::<Nag>::empty());
    }

    /// A brace or semicolon comment.
    fn handle_comment(&mut self, root: &mut GameNode, text: &str)
        requires
            valid_path(old(root)@, old(self).model().path),
        ensures
            (final(self).model(), final(root)@) == comment_spec(old(self).model(), old(root)@, text@),
            same_config(final(self), old(self)),
    {
        let t = trim_chars(&str_chars(text));
        if t.len() > 0 {
            let ts = string_of(&t);
            self.append_comment(root, ts.as_str());
        }
    }

    /// Bare text: a Lichess-style comment, which starts prose.
    fn handle_bare_text(&mut self, root: &mut GameNode, text: &str)
        requires
            valid_path(old(root)@, old(self).model().path),
        ensures
            (final(self).model(), final(root)@) == bare_spec(old(self).model(), old(root)@, text@),
            same_config(final(self), old(self)),
    {
        let t = trim_chars(&str_chars(text));
        if t.len() > 0 {
            let ts = string_of(&t);
            self.append_comment(root, ts.as_str());
            self.context = ParseContext::InProse;
        }
    }

    /// Punctuation in prose: a dash or plus stays apart from the previous
    /// word and only counts in prose; other marks join the previous word
    /// and start prose.
    fn handle_punctuation(&mut self, root: &mut GameNode, punct: &str)
        requires
            valid_path(old(root)@, old(self).model().path),
        ensures
            (final(self).model(), final(root)@) == punct_spec(old(self).model(), old(root)@, punct@),
            same_config(final(self), old(self)),
    {
        let v = str_chars(punct);
        if v.len() == 1 && (v[0] == '-' || v[0] == '+') {
            assert(punct@ == seq![v[0]]);
            if self.context == ParseContext::InProse {
                self.append_comment(root, punct);
            }
        } else {
            assert(punct@ != seq!['-'] && punct@ != seq!['+']) by {
                if punct@ == seq!['-'] || punct@ == seq!['+'] {
                    assert(v@.len() == 1);
                }
            }
            self.append_comment_no_space(root, punct);
            if self.context != ParseContext::InProse {
                self.context = ParseContext::InProse;
            }
        }
    }

    /// "(": a variation opens, or, in prose in lenient mode, it is text.
    /// Returns whether a variation opened.
    fn handle_variation_start(&mut self, root: &mut GameNode, token: &LocatedToken) -> (opened: bool)
        requires
            valid_path(old(root)@, old(self).model().path),
        ensures
            (final(self).model(), final(root)@) == var_start_spec(
                old(self).model(),
                old(root)@,
                old(self).mode,
                token.line as int,
                token.column as int,
            ),
            opened == !(old(self).mode == ParseMode::Lenient && in_prose(old(self).model())),
            same_config(final(self), old(self)),
    {
        if self.mode == ParseMode::Lenient && self.context == ParseContext::InProse {
            proof {
                reveal_strlit("(");
                assert("("@ =~= seq!['(']);
            }
            self.append_comment(root, "(");
            return false;
        }
        let ghost st = self.model();
        self.variation_starts.push(VariationStart { line: token.line, column: token.column });
        let frame = (self.current_path.clone(), self.current_move_number, self.expect_black, self.context);
        self.return_stack.push(frame);
        self.pending_variation_pop = true;
        self.context = ParseContext::BetweenMoves;
        assert(self.model().stack =~= st.stack.push((st.path, st.number, st.black, st.ctx)));
        assert(self.model().starts =~= st.starts.push((token.line as int, token.column as int)));
        true
    }

    /// ")": the innermost variation closes, or, in prose, it is text.
    fn handle_variation_end(&mut self, root: &mut GameNode, token: &LocatedToken) -> (r: Result<(), ParseError>)
        requires
            valid_path(old(root)@, old(self).model().path),
        ensures
            match var_end_spec(old(self).model(), old(root)@, old(self).mode) {
                Some(x) => r is Ok && (final(self).model(), final(root)@) == x,
                None => r matches Err(e) && error_model(e) == closing_paren_error(
                    located_model(*token),
                    opt_view(old(self).file),
                    opt_view(old(self).source),
                ),
            },
            same_config(final(self), old(self)),
    {
        if self.context == ParseContext::InProse {
            proof {
                reveal_strlit(")");
                assert(")"@ =~= seq![')']);
            }
            self.append_comment_no_space(root, ")");
            return Ok(());
        }
        let ghost st = self.model();
        self.variation_starts.pop();
        assert(self.model().starts =~= (if st.starts.len() > 0 { st.starts.drop_last() } else { st.starts }));
        match self.return_stack.pop() {
            Some(frame) => {
                let (saved_path, saved_move_num, saved_expect_black, saved_context) = frame;
                self.current_path = saved_path;
                self.current_move_number = saved_move_num;
                self.expect_black = saved_expect_black;
                self.context = saved_context;
                assert(self.model().stack =~= st.stack.drop_last());
                Ok(())
            },
            None => {
                if self.mode == ParseMode::Strict {
                    let e = self.make_error(
                        ErrorCode::UnexpectedClosingParen,
                        "unexpected closing parenthesis",
                        token,
                    ).with_help("Remove the extra ')' or add a matching '(' earlier");
                    assert(error_model(e).help =~= seq!["Remove the extra ')' or add a matching '(' earlier"@]);
                    Err(e)
                } else {
                    Ok(())
                }
            },
        }
    }

    /// A newline ends prose.
    fn handle_newline(&mut self)
        ensures
            final(self).model() == newline_spec(old(self).model()),
            same_config(final(self), old(self)),
    {
        if self.context == ParseContext::InProse {
            self.context = ParseContext::BetweenMoves;
        }
    }

    /// An error for the first variation still open, if any.
    fn check_unclosed_variations(&self) -> (r: Result<(), ParseError>)
        ensures
            r is Ok <==> self.model().starts.len() == 0,
            r matches Err(e) ==> error_model(e) == unclosed_error(
                self.model().starts[0],
                opt_view(self.file),
                opt_view(self.source),
            ),
    {
        if self.variation_starts.len() == 0 {
            return Ok(());
        }
        let start = self.variation_starts[0];
        let mut note = String::new();
        push_str(&mut note, "Variation was opened at line ");
        push_dec(&mut note, start.line as u64);
        push_str(&mut note, ", column ");
        push_dec(&mut note, start.column as u64);
        let mut err = ParseError::new(ErrorCode::UnclosedVariation, "unclosed variation").with_location(
            start.line,
            start.column,
        ).with_note(note.as_str()).with_help("Add ')' to close the variation, or remove the opening '('");
        if let Some(file) = &self.file {
            err = err.with_file(file.as_str());
        }
        if let Some(source) = &self.source {
            let context = ParseError::create_context_from_source(
                source.as_str(),
                start.line,
                start.column,
                1,
                "variation starts here",
            );
            err = err.with_source_context(context);
        }
        proof {
            let want = unclosed_error(self.model().starts[0], opt_view(self.file), opt_view(self.source));
            assert(error_model(err).notes =~= want.notes);
            assert(error_model(err).help =~= want.help);
            if self.source is None {
                assert(error_model(err).context =~= want.context);
            }
        }
        Err(err)
    }
}

pub open spec fn str_opt_view(s: Option<&str>) -> Option<Seq<char>> {
    match s {
        Some(x) => Some(x@),
        None => None,
    }
}

/// The plain values of a token stream.
pub open spec fn tokens_model(toks: Seq<LocatedToken>) -> Seq<TokModel> {
    toks.map_values(|t: LocatedToken| located_model(t))
}

/// What building a tree from `toks` gives: the error of the first ")" that
/// closes nothing (strict mode), else the error of the first variation
/// left open, else the tree the tokens build.
pub open spec fn build_result(
    r: Result<GameTree, Error>,
    toks: Seq<TokModel>,
    mode: ParseMode,
    file: Option<Seq<char>>,
    source: Option<Seq<char>>,
) -> bool {
    match run_from(initial_build(), toks, 0, mode) {
        Err(i) => r matches Err(Error::Parse(e)) && error_model(e) == closing_paren_error(toks[i], file, source),
        Ok(b) => if b.st.starts.len() > 0 {
            r matches Err(Error::Parse(e)) && error_model(e) == unclosed_error(b.st.starts[0], file, source)
        } else {
            r matches Ok(t) && t.root@ == b.root && t.headers@ == b.headers && t.result == b.result
        },
    }
}

pub open spec fn build_of(st: StateModel, tree: &GameTree) -> Build {
    Build { st: st, root: tree.root@, headers: tree.headers@, result: tree.result }
}

/// What one token does to the builder and the tree.
fn apply_token(state: &mut BuilderState, tree: &mut GameTree, token: &LocatedToken) -> (r: Result<(), ParseError>)
    requires
        paths_valid(old(state).model(), old(tree).root@),
    ensures
        same_config(final(state), old(state)),
        match step_spec(build_of(old(state).model(), old(tree)), located_model(*token), old(state).mode) {
            Some(b2) => r is Ok && build_of(final(state).model(), final(tree)) == b2 && paths_valid(
                final(state).model(),
                final(tree).root@,
            ),
            None => r matches Err(e) && error_model(e) == closing_paren_error(
                located_model(*token),
                opt_view(old(state).file),
                opt_view(old(state).source),
            ),
        },
{
    proof {
        lemma_step_keeps_paths(build_of(state.model(), tree), located_model(*token), state.mode);
    }
    match &token.token {
        Token::Header(h) => {
            state.handle_header(tree, h.as_str());
        },
        Token::MoveNumber(n) => {
            state.handle_move_number(&mut tree.root, n.as_str());
        },
        Token::Digit(d) => {
            state.handle_digit(&mut tree.root, d.as_str());
        },
        Token::PieceMove(san) | Token::PawnMove(san) | Token::CastleLong(san) | Token::CastleShort(san) => {
            state.handle_move(&mut tree.root, san.as_str());
        },
        Token::BraceComment(text) | Token::SemicolonComment(text) => {
            state.handle_comment(&mut tree.root, text.as_str());
        },
        Token::BareText(text) => {
            state.handle_bare_text(&mut tree.root, text.as_str());
        },
        Token::Punctuation(p) => {
            state.handle_punctuation(&mut tree.root, p.as_str());
        },
        Token::Nag(n) => {
            if let Some(nag) = Nag::from_dollar_notation(n.as_str()) {
                state.add_nag(&mut tree.root, nag);
            }
        },
        Token::DoubleBang(_) | Token::DoubleQuestion(_) | Token::BangQuestion(_)
        | Token::QuestionBang(_) | Token::Bang(_) | Token::Question(_) | Token::Equal
        | Token::WhiteWinning | Token::BlackWinning | Token::WhiteBetter | Token::BlackBetter
        | Token::WhiteSlightlyBetter | Token::BlackSlightlyBetter => {
            if let Some(v) = token.token.as_nag_value() {
                state.add_nag(&mut tree.root, Nag::new(v));
            }
        },
        Token::VariationStart => {
            state.handle_variation_start(&mut tree.root, token);
        },
        Token::VariationEnd => {
            return state.handle_variation_end(&mut tree.root, token);
        },
        Token::WhiteWins => {
            tree.result = GameResult::WhiteWins;
        },
        Token::BlackWins => {
            tree.result = GameResult::BlackWins;
        },
        Token::Draw => {
            tree.result = GameResult::Draw;
        },
        Token::Ongoing => {
            tree.result = GameResult::Ongoing;
        },
        Token::Newline => {
            state.handle_newline();
        },
    }
    Ok(())
}

/// Build a game tree from a token stream (lenient mode).
pub fn build_tree(tokens: &[LocatedToken]) -> (r: Result<GameTree, Error>)
    ensures
        build_result(r, tokens_model(tokens@), ParseMode::Lenient, None, None),
{
    build_tree_with_options(tokens, ParseMode::Lenient, None, None)
}

/// Build a game tree from a token stream, with a mode, and with the file
/// name and source text that errors report.
pub fn build_tree_with_options(
    tokens: &[LocatedToken],
    mode: ParseMode,
    file: Option<String>,
    source: Option<&str>,
) -> (r: Result<GameTree, Error>)
    ensures
        build_result(r, tokens_model(tokens@), mode, opt_view(file), str_opt_view(source)),
{
    let ghost toks = tokens_model(tokens@);
    let ghost fv = opt_view(file);
    let ghost sv = str_opt_view(source);
    let mut tree = GameTree::new();
    let mut state = BuilderState::new(mode);
    if let Some(f) = &file {
        state = state.with_file(f.clone());
    }
    if let Some(s) = source {
        state = state.with_source(s);
    }
    assert(tree.root@ == empty_node());
    assert(tree.headers@ =~= Seq::<(Seq<char>, Seq<char>)>::empty());
    let mut i: usize = 0;
    while i < tokens.len()
        invariant
            i <= tokens@.len(),
            toks == tokens_model(tokens@),
            fv == opt_view(file),
            sv == str_opt_view(source),
            state.mode == mode,
            opt_view(state.file) == fv,
            opt_view(state.source) == sv,
            paths_valid(state.model(), tree.root@),
            run_from(initial_build(), toks, 0, mode) == run_from(build_of(state.model(), &tree), toks, i as int, mode),
        decreases tokens@.len() - i,
    {
        let token = &tokens[i];
        let ghost before = build_of(state.model(), &tree);
        proof {
            assert(toks[i as int] == located_model(tokens@[i as int]));
        }
        match apply_token(&mut state, &mut tree, token) {
            Ok(()) => {},
            Err(e) => {
                assert(step_spec(before, toks[i as int], mode) is None);
                assert(run_from(before, toks, i as int, mode) == Err::<Build, int>(i as int));
                return Err(Error::Parse(e));
            },
        }
        i = i + 1;
    }
    match state.check_unclosed_variations() {
        Ok(()) => Ok(tree),
        Err(e) => Err(Error::Parse(e)),
    }
}

// ---------------------------------------------------------------------------
// Comments
// ---------------------------------------------------------------------------

/// A semicolon comment is read exactly as a brace comment with the same
/// text is: in every state, in either mode, the builder ends the same.
pub proof fn law_semicolon_is_comment(b: Build, text: Seq<char>, line: int, column: int, offset: int, len: int, mode: ParseMode)
    ensures
        step_spec(b, ((TokKind::SemicolonComment, text), line, column, offset, len), mode) == step_spec(
            b,
            ((TokKind::BraceComment, text), line, column, offset, len),
            mode,
        ),
{
}

/// A comment (in braces or after a semicolon) whose trimmed text is not
/// empty adds that text to the comment of the current move (after a
/// space where the move already has one), leaving the move's other fields,
/// the other moves and the builder's place as they were; before the first
/// move it adds it, in the same way, to the comment waiting for that move.
/// A comment whose trimmed text is empty changes nothing.
pub proof fn law_comment_appends(b: Build, k: TokKind, text: Seq<char>, line: int, column: int, offset: int, len: int, mode: ParseMode)
    requires
        k == TokKind::BraceComment || k == TokKind::SemicolonComment,
        valid_path(b.root, b.st.path),
    ensures
        step_spec(b, ((k, text), line, column, offset, len), mode) matches Some(b2) && {
            let t = trim(text);
            let added = |c: Seq<char>| if c.len() > 0 { c + seq![' '] + t } else { t };
            &&& b2.headers == b.headers
            &&& b2.result == b.result
            &&& (t.len() == 0 ==> b2 == b)
            &&& (t.len() > 0 && b.st.path.len() == 0 ==> b2.root == b.root && b2.st == StateModel {
                comment: added(b.st.comment),
                ..b.st
            })
            &&& (t.len() > 0 && b.st.path.len() > 0 ==> {
                let old = at_path(b.root, b.st.path);
                let new = at_path(b2.root, b.st.path);
                &&& b2.st == b.st
                &&& valid_path(b2.root, b.st.path)
                &&& new.comment == added(old.comment)
                &&& new.san == old.san
                &&& new.move_number == old.move_number
                &&& new.is_black == old.is_black
                &&& new.nags == old.nags
                &&& new.children == old.children
            })
        },
{
    let t = trim(text);
    if t.len() > 0 {
        if b.st.path.len() > 0 {
            let cur = at_path(b.root, b.st.path);
            let v = with_comment(cur, joined(cur.comment, t, true));
            lemma_replace_at_path(b.root, b.st.path, v);
            if cur.comment.len() > 0 {
                assert(cur.comment.push(' ') + t =~= cur.comment + seq![' '] + t);
            } else {
                assert(cur.comment + t =~= t);
            }
        } else {
            if b.st.comment.len() > 0 {
                assert(b.st.comment.push(' ') + t =~= b.st.comment + seq![' '] + t);
            } else {
                assert(b.st.comment + t =~= t);
            }
        }
    }
}

} // verus!
