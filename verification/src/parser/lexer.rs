//! Phase 1: the lexer.  Converts input text to a stream of located tokens.
//!
//! At each position the lexer takes the longest token that any token
//! pattern matches there; between patterns that match equally long, the
//! one of higher priority wins.  Spaces and tabs are skipped.  Where no
//! pattern matches, the text is skipped: one character, or everything an
//! unclosed brace comment or a broken tag pair has run over.

use vstd::prelude::*;
use crate::parser::token::{has_text, kind_has_text, TokKind, Token};
use crate::text::{all_digits, is_alpha, is_digit, is_ws, str_chars, string_of, sub_chars, trim};

verus! {

broadcast use vstd::string::group_string_axioms;

// ---------------------------------------------------------------------------
// Character classes
// ---------------------------------------------------------------------------

/// The classes of characters that token patterns are made of.
#[derive(Debug, Clone, Copy, PartialEq, Eq, Structural)]
pub enum CharClass {
    Digit,
    Dot,
    IdentStart,
    Ident,
    Space,
    NotQuote,
    NotBrace,
    NotNewline,
    Bare,
    Newline,
    Skip,
    Alpha,
    File,
    Rank,
    Piece,
    Promo,
    Check,
    Punct,
}

pub open spec fn in_class(k: CharClass, c: char) -> bool {
    match k {
        CharClass::Digit => is_digit(c),
        CharClass::Dot => c == '.',
        CharClass::IdentStart => is_alpha(c) || c == '_',
        CharClass::Ident => is_alpha(c) || is_digit(c) || c == '_',
        CharClass::Space => is_ws(c),
        CharClass::NotQuote => c != '"',
        CharClass::NotBrace => c != '}',
        CharClass::NotNewline => c != '\n',
        CharClass::Bare => is_alpha(c) || is_digit(c) || c == ',' || c == '.' || c == '\'' || c == '-',
        CharClass::Newline => c == '\n',
        CharClass::Skip => c == ' ' || c == '\t',
        CharClass::Alpha => is_alpha(c),
        CharClass::File => 'a' <= c && c <= 'h',
        CharClass::Rank => '1' <= c && c <= '8',
        CharClass::Piece => c == 'K' || c == 'Q' || c == 'R' || c == 'B' || c == 'N',
        CharClass::Promo => c == 'Q' || c == 'R' || c == 'B' || c == 'N',
        CharClass::Check => c == '+' || c == '#',
        CharClass::Punct => c == ',' || c == ':' || c == '-' || c == '+',
    }
}

pub fn in_class_exec(k: CharClass, c: char) -> (b: bool)
    ensures
        b == in_class(k, c),
{
    match k {
        CharClass::Digit => '0' <= c && c <= '9',
        CharClass::Dot => c == '.',
        CharClass::IdentStart => ('a' <= c && c <= 'z') || ('A' <= c && c <= 'Z') || c == '_',
        CharClass::Ident => ('a' <= c && c <= 'z') || ('A' <= c && c <= 'Z') || ('0' <= c && c
            <= '9') || c == '_',
        CharClass::Space => crate::text::is_whitespace(c),
        CharClass::NotQuote => c != '"',
        CharClass::NotBrace => c != '}',
        CharClass::NotNewline => c != '\n',
        CharClass::Bare => ('a' <= c && c <= 'z') || ('A' <= c && c <= 'Z') || ('0' <= c && c
            <= '9') || c == ',' || c == '.' || c == '\'' || c == '-',
        CharClass::Newline => c == '\n',
        CharClass::Skip => c == ' ' || c == '\t',
        CharClass::Alpha => ('a' <= c && c <= 'z') || ('A' <= c && c <= 'Z'),
        CharClass::File => 'a' <= c && c <= 'h',
        CharClass::Rank => '1' <= c && c <= '8',
        CharClass::Piece => c == 'K' || c == 'Q' || c == 'R' || c == 'B' || c == 'N',
        CharClass::Promo => c == 'Q' || c == 'R' || c == 'B' || c == 'N',
        CharClass::Check => c == '+' || c == '#',
        CharClass::Punct => c == ',' || c == ':' || c == '-' || c == '+',
    }
}

/// Whether position `i` holds a character of class `k`.
pub open spec fn has_class(s: Seq<char>, i: int, k: CharClass) -> bool {
    0 <= i < s.len() && in_class(k, s[i])
}

/// Whether position `i` holds `c`.
pub open spec fn ch(s: Seq<char>, i: int, c: char) -> bool {
    0 <= i < s.len() && s[i] == c
}

/// Length of the run of class-`k` characters starting at `i`.
pub open spec fn run(s: Seq<char>, i: int, k: CharClass) -> nat
    decreases s.len() - i,
{
    if has_class(s, i, k) {
        1 + run(s, i + 1, k)
    } else {
        0
    }
}

pub proof fn lemma_run_bound(s: Seq<char>, i: int, k: CharClass)
    requires
        0 <= i <= s.len(),
    ensures
        i + run(s, i, k) <= s.len(),
        !has_class(s, i + run(s, i, k), k),
        forall|j: int| i <= j < i + run(s, i, k) ==> #[trigger] has_class(s, j, k),
    decreases s.len() - i,
{
    if has_class(s, i, k) {
        lemma_run_bound(s, i + 1, k);
    }
}

fn has_at(s: &[char], p: usize, off: usize, k: CharClass) -> (b: bool)
    requires
        p <= s@.len(),
    ensures
        b == has_class(s@, p + off, k),
{
    off < s.len() - p && in_class_exec(k, s[p + off])
}

fn ch_at(s: &[char], p: usize, off: usize, c: char) -> (b: bool)
    requires
        p <= s@.len(),
    ensures
        b == ch(s@, p + off, c),
{
    off < s.len() - p && s[p + off] == c
}

/// Length of the run of class-`k` characters from `s[i]`.
pub fn run_class(s: &[char], i: usize, k: CharClass) -> (n: usize)
    requires
        i <= s@.len(),
    ensures
        n == run(s@, i as int, k),
        i + n <= s@.len(),
        s@.len() <= usize::MAX,
{
    proof {
        lemma_run_bound(s@, i as int, k);
    }
    let mut j = i;
    while j < s.len() && in_class_exec(k, s[j])
        invariant
            i <= j <= s@.len(),
            run(s@, i as int, k) == (j - i) + run(s@, j as int, k),
        decreases s@.len() - j,
    {
        j = j + 1;
    }
    j - i
}

// ---------------------------------------------------------------------------
// Token patterns: the length of the longest match at a position (0 for none)
// ---------------------------------------------------------------------------

pub open spec fn bit(b: bool) -> nat {
    if b { 1 } else { 0 }
}

pub open spec fn max2(a: int, b: int) -> int {
    if a >= b { a } else { b }
}

/// `\[[A-Za-z_][A-Za-z0-9_]*\s+"[^"]*"\]`
pub open spec fn header_len(s: Seq<char>, p: int) -> nat {
    if ch(s, p, '[') && has_class(s, p + 1, CharClass::IdentStart) {
        let a = p + 2 + run(s, p + 2, CharClass::Ident);
        let w = run(s, a, CharClass::Space);
        if w > 0 && ch(s, a + w, '"') {
            let b = a + w + 1 + run(s, a + w + 1, CharClass::NotQuote);
            if ch(s, b, '"') && ch(s, b + 1, ']') {
                (b + 2 - p) as nat
            } else {
                0
            }
        } else {
            0
        }
    } else {
        0
    }
}

/// `[0-9]+\.+`
pub open spec fn move_number_len(s: Seq<char>, p: int) -> nat {
    let d = run(s, p, CharClass::Digit);
    let k = run(s, p + d, CharClass::Dot);
    if d > 0 && k > 0 {
        d + k
    } else {
        0
    }
}

/// `O-O-O[+#]?`
pub open spec fn castle_long_len(s: Seq<char>, p: int) -> nat {
    if ch(s, p, 'O') && ch(s, p + 1, '-') && ch(s, p + 2, 'O') && ch(s, p + 3, '-') && ch(
        s,
        p + 4,
        'O',
    ) {
        5 + bit(has_class(s, p + 5, CharClass::Check))
    } else {
        0
    }
}

/// `O-O[+#]?`
pub open spec fn castle_short_len(s: Seq<char>, p: int) -> nat {
    if ch(s, p, 'O') && ch(s, p + 1, '-') && ch(s, p + 2, 'O') {
        3 + bit(has_class(s, p + 3, CharClass::Check))
    } else {
        0
    }
}

/// End of `[a-h]?[1-8]?x?[a-h][1-8][+#]?` from `q`, taking the optional
/// file, rank and capture sign as `f`, `r` and `x` say; -1 where that fails.
pub open spec fn piece_tail_end(s: Seq<char>, q: int, f: bool, r: bool, x: bool) -> int {
    let q1 = q + bit(f);
    let q2 = q1 + bit(r);
    let q3 = q2 + bit(x);
    if (!f || has_class(s, q, CharClass::File)) && (!r || has_class(s, q1, CharClass::Rank)) && (!x || ch(
        s,
        q2,
        'x',
    )) && has_class(s, q3, CharClass::File) && has_class(s, q3 + 1, CharClass::Rank) {
        q3 + 2 + bit(has_class(s, q3 + 2, CharClass::Check))
    } else {
        -1
    }
}

/// `[KQRBN][a-h]?[1-8]?x?[a-h][1-8][+#]?`: the longest of the ways to match.
pub open spec fn piece_move_len(s: Seq<char>, p: int) -> nat {
    if has_class(s, p, CharClass::Piece) {
        let q = p + 1;
        let m = max2(
            max2(
                max2(piece_tail_end(s, q, false, false, false), piece_tail_end(s, q, false, false, true)),
                max2(piece_tail_end(s, q, false, true, false), piece_tail_end(s, q, false, true, true)),
            ),
            max2(
                max2(piece_tail_end(s, q, true, false, false), piece_tail_end(s, q, true, false, true)),
                max2(piece_tail_end(s, q, true, true, false), piece_tail_end(s, q, true, true, true)),
            ),
        );
        if m < 0 {
            0
        } else {
            (m - p) as nat
        }
    } else {
        0
    }
}

/// End of `x?[a-h]?[1-8](=[QRBN])?[+#]?` from `q`, taking the optional
/// capture sign and file as `x` and `f` say; -1 where that fails.
pub open spec fn pawn_tail_end(s: Seq<char>, q: int, x: bool, f: bool) -> int {
    let q1 = q + bit(x);
    let q2 = q1 + bit(f);
    if (!x || ch(s, q, 'x')) && (!f || has_class(s, q1, CharClass::File)) && has_class(s, q2, CharClass::Rank) {
        let e = q2 + 1;
        let e2 = if ch(s, e, '=') && has_class(s, e + 1, CharClass::Promo) { e + 2 } else { e };
        e2 + bit(has_class(s, e2, CharClass::Check))
    } else {
        -1
    }
}

/// `[a-h]x?[a-h]?[1-8](=[QRBN])?[+#]?`: the longest of the ways to match.
pub open spec fn pawn_move_len(s: Seq<char>, p: int) -> nat {
    if has_class(s, p, CharClass::File) {
        let q = p + 1;
        let m = max2(
            max2(pawn_tail_end(s, q, false, false), pawn_tail_end(s, q, false, true)),
            max2(pawn_tail_end(s, q, true, false), pawn_tail_end(s, q, true, true)),
        );
        if m < 0 {
            0
        } else {
            (m - p) as nat
        }
    } else {
        0
    }
}

/// `\{[^}]*\}`
pub open spec fn brace_len(s: Seq<char>, p: int) -> nat {
    if ch(s, p, '{') {
        let k = run(s, p + 1, CharClass::NotBrace);
        if ch(s, p + 1 + k, '}') {
            k + 2
        } else {
            0
        }
    } else {
        0
    }
}

/// `;[^\n]*`
pub open spec fn semicolon_len(s: Seq<char>, p: int) -> nat {
    if ch(s, p, ';') {
        1 + run(s, p + 1, CharClass::NotNewline)
    } else {
        0
    }
}

/// `\$[0-9]+`
pub open spec fn nag_len(s: Seq<char>, p: int) -> nat {
    let d = run(s, p + 1, CharClass::Digit);
    if ch(s, p, '$') && d > 0 {
        1 + d
    } else {
        0
    }
}

pub open spec fn lit1(s: Seq<char>, p: int, a: char) -> nat {
    if ch(s, p, a) { 1 } else { 0 }
}

pub open spec fn lit2(s: Seq<char>, p: int, a: char, b: char) -> nat {
    if ch(s, p, a) && ch(s, p + 1, b) { 2 } else { 0 }
}

pub open spec fn lit3(s: Seq<char>, p: int, a: char, b: char, c: char) -> nat {
    if ch(s, p, a) && ch(s, p + 1, b) && ch(s, p + 2, c) { 3 } else { 0 }
}

/// `1/2-1/2`
pub open spec fn draw_len(s: Seq<char>, p: int) -> nat {
    if ch(s, p, '1') && ch(s, p + 1, '/') && ch(s, p + 2, '2') && ch(s, p + 3, '-') && ch(
        s,
        p + 4,
        '1',
    ) && ch(s, p + 5, '/') && ch(s, p + 6, '2') {
        7
    } else {
        0
    }
}

/// `[A-Za-z][A-Za-z0-9,.'\-]*`
pub open spec fn bare_len(s: Seq<char>, p: int) -> nat {
    if has_class(s, p, CharClass::Alpha) {
        1 + run(s, p + 1, CharClass::Bare)
    } else {
        0
    }
}

pub open spec fn nat_max(a: nat, b: nat) -> nat {
    if a >= b { a } else { b }
}

/// The length of the longest match of the pattern of kind `k` at `p`.
pub open spec fn kind_len(k: TokKind, s: Seq<char>, p: int) -> nat {
    match k {
        TokKind::Header => header_len(s, p),
        TokKind::MoveNumber => move_number_len(s, p),
        TokKind::CastleLong => castle_long_len(s, p),
        TokKind::CastleShort => castle_short_len(s, p),
        TokKind::PieceMove => piece_move_len(s, p),
        TokKind::PawnMove => pawn_move_len(s, p),
        TokKind::BraceComment => brace_len(s, p),
        TokKind::SemicolonComment => semicolon_len(s, p),
        TokKind::Nag => nag_len(s, p),
        TokKind::DoubleBang => lit2(s, p, '!', '!'),
        TokKind::DoubleQuestion => lit2(s, p, '?', '?'),
        TokKind::BangQuestion => lit2(s, p, '!', '?'),
        TokKind::QuestionBang => lit2(s, p, '?', '!'),
        TokKind::Bang => lit1(s, p, '!'),
        TokKind::Question => lit1(s, p, '?'),
        TokKind::WhiteWinning => lit2(s, p, '+', '-'),
        TokKind::BlackWinning => lit2(s, p, '-', '+'),
        TokKind::WhiteBetter => nat_max(lit3(s, p, '+', '/', '-'), lit1(s, p, '\u{B1}')),
        TokKind::BlackBetter => nat_max(lit3(s, p, '-', '/', '+'), lit1(s, p, '\u{2213}')),
        TokKind::WhiteSlightlyBetter => nat_max(lit2(s, p, '+', '='), lit1(s, p, '\u{2A72}')),
        TokKind::BlackSlightlyBetter => nat_max(lit2(s, p, '=', '+'), lit1(s, p, '\u{2A71}')),
        TokKind::Equal => lit1(s, p, '='),
        TokKind::VariationStart => lit1(s, p, '('),
        TokKind::VariationEnd => lit1(s, p, ')'),
        TokKind::WhiteWins => lit3(s, p, '1', '-', '0'),
        TokKind::BlackWins => lit3(s, p, '0', '-', '1'),
        TokKind::Draw => draw_len(s, p),
        TokKind::Ongoing => lit1(s, p, '*'),
        TokKind::Newline => run(s, p, CharClass::Newline),
        TokKind::BareText => bare_len(s, p),
        TokKind::Digit => run(s, p, CharClass::Digit),
        TokKind::Punctuation => if has_class(s, p, CharClass::Punct) { 1 } else { 0 },
    }
}

/// All kinds, from the highest priority to the lowest.
pub open spec fn kinds_by_priority() -> Seq<TokKind> {
    seq![
        TokKind::Header, TokKind::BraceComment, TokKind::SemicolonComment, TokKind::VariationStart,
        TokKind::VariationEnd, TokKind::CastleLong, TokKind::CastleShort, TokKind::WhiteWins,
        TokKind::BlackWins, TokKind::Draw, TokKind::Ongoing, TokKind::MoveNumber, TokKind::Nag,
        TokKind::PieceMove, TokKind::PawnMove, TokKind::DoubleBang, TokKind::DoubleQuestion,
        TokKind::BangQuestion, TokKind::QuestionBang, TokKind::WhiteWinning, TokKind::BlackWinning,
        TokKind::WhiteBetter, TokKind::BlackBetter, TokKind::WhiteSlightlyBetter,
        TokKind::BlackSlightlyBetter, TokKind::Equal, TokKind::Bang, TokKind::Question,
        TokKind::Digit, TokKind::Newline, TokKind::BareText, TokKind::Punctuation,
    ]
}

/// Among the first `i` kinds by priority, the one with the longest match
/// (the earlier one where two match equally long), with that length.
pub open spec fn best_upto(s: Seq<char>, p: int, i: nat) -> (TokKind, nat)
    decreases i,
{
    if i == 0 {
        (TokKind::Header, 0)
    } else {
        let prev = best_upto(s, p, (i - 1) as nat);
        let k = kinds_by_priority()[i - 1];
        let l = kind_len(k, s, p);
        if l > prev.1 {
            (k, l)
        } else {
            prev
        }
    }
}

/// The token at `p`: the longest match, the higher priority on a tie.
pub open spec fn best(s: Seq<char>, p: int) -> (TokKind, nat) {
    best_upto(s, p, 32)
}

/// How much text is skipped where no pattern matches at `p`.
pub open spec fn fail_len(s: Seq<char>, p: int) -> nat {
    if ch(s, p, '[') && has_class(s, p + 1, CharClass::IdentStart) {
        let a = p + 2 + run(s, p + 2, CharClass::Ident);
        let w = run(s, a, CharClass::Space);
        if w == 0 {
            (a - p) as nat
        } else if !ch(s, a + w, '"') {
            (a + w - p) as nat
        } else {
            (a + w + 1 + run(s, a + w + 1, CharClass::NotQuote) - p) as nat
        }
    } else if ch(s, p, '{') {
        (s.len() - p) as nat
    } else {
        1
    }
}

/// What the lexer does at position `p`.
pub enum Step {
    /// Skip spaces and tabs.
    Skip(nat),
    /// Skip text that no pattern matches.
    Fail(nat),
    /// Produce a token of this kind and length.
    Tok(TokKind, nat),
}

pub open spec fn step(s: Seq<char>, p: int) -> Step {
    if has_class(s, p, CharClass::Skip) {
        Step::Skip(run(s, p, CharClass::Skip))
    } else if best(s, p).1 > 0 {
        Step::Tok(best(s, p).0, best(s, p).1)
    } else {
        Step::Fail(fail_len(s, p))
    }
}

pub open spec fn step_len(st: Step) -> nat {
    match st {
        Step::Skip(n) => n,
        Step::Fail(n) => n,
        Step::Tok(_, n) => n,
    }
}

/// The text a token of kind `k` spanning `s[a..b]` carries.
pub open spec fn token_text(k: TokKind, s: Seq<char>, a: int, b: int) -> Seq<char> {
    if k == TokKind::BraceComment {
        s.subrange(a + 1, b - 1)
    } else if k == TokKind::SemicolonComment {
        s.subrange(a + 1, b)
    } else if has_text(k) {
        s.subrange(a, b)
    } else {
        Seq::empty()
    }
}

// ---------------------------------------------------------------------------
// Executable matchers
// ---------------------------------------------------------------------------

fn header_len_exec(s: &[char], p: usize) -> (n: usize)
    requires
        p < s@.len(),
    ensures
        n == header_len(s@, p as int),
        p + n <= s@.len(),
{
    if !(s[p] == '[' && has_at(s, p, 1, CharClass::IdentStart)) {
        return 0;
    }
    let a = p + 2 + run_class(s, p + 2, CharClass::Ident);
    let w = run_class(s, a, CharClass::Space);
    if !(w > 0 && ch_at(s, a, w, '"')) {
        return 0;
    }
    let b = a + w + 1 + run_class(s, a + w + 1, CharClass::NotQuote);
    if ch_at(s, b, 0, '"') && ch_at(s, b, 1, ']') {
        b + 2 - p
    } else {
        0
    }
}

fn fail_len_exec(s: &[char], p: usize) -> (n: usize)
    requires
        p < s@.len(),
    ensures
        n == fail_len(s@, p as int),
        1 <= n,
        p + n <= s@.len(),
{
    if s[p] == '[' && has_at(s, p, 1, CharClass::IdentStart) {
        let a = p + 2 + run_class(s, p + 2, CharClass::Ident);
        let w = run_class(s, a, CharClass::Space);
        if w == 0 {
            a - p
        } else if !ch_at(s, a, w, '"') {
            a + w - p
        } else {
            a + w + 1 + run_class(s, a + w + 1, CharClass::NotQuote) - p
        }
    } else if s[p] == '{' {
        s.len() - p
    } else {
        1
    }
}

fn move_number_len_exec(s: &[char], p: usize) -> (n: usize)
    requires
        p < s@.len(),
    ensures
        n == move_number_len(s@, p as int),
        p + n <= s@.len(),
{
    let d = run_class(s, p, CharClass::Digit);
    let k = run_class(s, p + d, CharClass::Dot);
    if d > 0 && k > 0 {
        d + k
    } else {
        0
    }
}

fn bit_exec(b: bool) -> (n: usize)
    ensures
        n == bit(b),
{
    if b { 1 } else { 0 }
}

fn castle_long_len_exec(s: &[char], p: usize) -> (n: usize)
    requires
        p < s@.len(),
    ensures
        n == castle_long_len(s@, p as int),
        p + n <= s@.len(),
{
    if ch_at(s, p, 0, 'O') && ch_at(s, p, 1, '-') && ch_at(s, p, 2, 'O') && ch_at(s, p, 3, '-')
        && ch_at(s, p, 4, 'O') {
        5 + bit_exec(has_at(s, p, 5, CharClass::Check))
    } else {
        0
    }
}

fn castle_short_len_exec(s: &[char], p: usize) -> (n: usize)
    requires
        p < s@.len(),
    ensures
        n == castle_short_len(s@, p as int),
        p + n <= s@.len(),
{
    if ch_at(s, p, 0, 'O') && ch_at(s, p, 1, '-') && ch_at(s, p, 2, 'O') {
        3 + bit_exec(has_at(s, p, 3, CharClass::Check))
    } else {
        0
    }
}

/// Offset from `p` just past a matched piece-move tail, or 0 where it fails.
fn piece_tail_exec(s: &[char], p: usize, f: bool, r: bool, x: bool) -> (n: usize)
    requires
        p < s@.len(),
    ensures
        n == (if piece_tail_end(s@, p + 1, f, r, x) < 0 {
            0
        } else {
            piece_tail_end(s@, p + 1, f, r, x) - p
        }),
        p + n <= s@.len(),
{
    let o1 = 1 + bit_exec(f);
    let o2 = o1 + bit_exec(r);
    let o3 = o2 + bit_exec(x);
    if (!f || has_at(s, p, 1, CharClass::File)) && (!r || has_at(s, p, o1, CharClass::Rank)) && (!x
        || ch_at(s, p, o2, 'x')) && has_at(s, p, o3, CharClass::File) && has_at(
        s,
        p,
        o3 + 1,
        CharClass::Rank,
    ) {
        o3 + 2 + bit_exec(has_at(s, p, o3 + 2, CharClass::Check))
    } else {
        0
    }
}

fn max_exec(a: usize, b: usize) -> (m: usize)
    ensures
        m == (if a >= b { a } else { b }),
{
    if a >= b { a } else { b }
}

fn piece_move_len_exec(s: &[char], p: usize) -> (n: usize)
    requires
        p < s@.len(),
    ensures
        n == piece_move_len(s@, p as int),
        p + n <= s@.len(),
{
    if !in_class_exec(CharClass::Piece, s[p]) {
        return 0;
    }
    let a = max_exec(
        max_exec(piece_tail_exec(s, p, false, false, false), piece_tail_exec(s, p, false, false, true)),
        max_exec(piece_tail_exec(s, p, false, true, false), piece_tail_exec(s, p, false, true, true)),
    );
    let b = max_exec(
        max_exec(piece_tail_exec(s, p, true, false, false), piece_tail_exec(s, p, true, false, true)),
        max_exec(piece_tail_exec(s, p, true, true, false), piece_tail_exec(s, p, true, true, true)),
    );
    max_exec(a, b)
}

/// Offset from `p` just past a matched pawn-move tail, or 0 where it fails.
fn pawn_tail_exec(s: &[char], p: usize, x: bool, f: bool) -> (n: usize)
    requires
        p < s@.len(),
    ensures
        n == (if pawn_tail_end(s@, p + 1, x, f) < 0 {
            0
        } else {
            pawn_tail_end(s@, p + 1, x, f) - p
        }),
        p + n <= s@.len(),
{
    let o1 = 1 + bit_exec(x);
    let o2 = o1 + bit_exec(f);
    if (!x || ch_at(s, p, 1, 'x')) && (!f || has_at(s, p, o1, CharClass::File)) && has_at(
        s,
        p,
        o2,
        CharClass::Rank,
    ) {
        let e = o2 + 1;
        let e2 = if ch_at(s, p, e, '=') && has_at(s, p, e + 1, CharClass::Promo) {
            e + 2
        } else {
            e
        };
        e2 + bit_exec(has_at(s, p, e2, CharClass::Check))
    } else {
        0
    }
}

fn pawn_move_len_exec(s: &[char], p: usize) -> (n: usize)
    requires
        p < s@.len(),
    ensures
        n == pawn_move_len(s@, p as int),
        p + n <= s@.len(),
{
    if !in_class_exec(CharClass::File, s[p]) {
        return 0;
    }
    max_exec(
        max_exec(pawn_tail_exec(s, p, false, false), pawn_tail_exec(s, p, false, true)),
        max_exec(pawn_tail_exec(s, p, true, false), pawn_tail_exec(s, p, true, true)),
    )
}

fn brace_len_exec(s: &[char], p: usize) -> (n: usize)
    requires
        p < s@.len(),
    ensures
        n == brace_len(s@, p as int),
        p + n <= s@.len(),
{
    if s[p] != '{' {
        return 0;
    }
    let k = run_class(s, p + 1, CharClass::NotBrace);
    if ch_at(s, p + 1, k, '}') {
        k + 2
    } else {
        0
    }
}

fn semicolon_len_exec(s: &[char], p: usize) -> (n: usize)
    requires
        p < s@.len(),
    ensures
        n == semicolon_len(s@, p as int),
        p + n <= s@.len(),
{
    if s[p] != ';' {
        return 0;
    }
    1 + run_class(s, p + 1, CharClass::NotNewline)
}

fn nag_len_exec(s: &[char], p: usize) -> (n: usize)
    requires
        p < s@.len(),
    ensures
        n == nag_len(s@, p as int),
        p + n <= s@.len(),
{
    let len = s.len();
    let d = run_class(s, p + 1, CharClass::Digit);
    if s[p] == '$' && d > 0 {
        1 + d
    } else {
        0
    }
}

fn lit1_exec(s: &[char], p: usize, a: char) -> (n: usize)
    requires
        p < s@.len(),
    ensures
        n == lit1(s@, p as int, a),
        p + n <= s@.len(),
{
    if s[p] == a { 1 } else { 0 }
}

fn lit2_exec(s: &[char], p: usize, a: char, b: char) -> (n: usize)
    requires
        p < s@.len(),
    ensures
        n == lit2(s@, p as int, a, b),
        p + n <= s@.len(),
{
    if ch_at(s, p, 0, a) && ch_at(s, p, 1, b) { 2 } else { 0 }
}

fn lit3_exec(s: &[char], p: usize, a: char, b: char, c: char) -> (n: usize)
    requires
        p < s@.len(),
    ensures
        n == lit3(s@, p as int, a, b, c),
        p + n <= s@.len(),
{
    if ch_at(s, p, 0, a) && ch_at(s, p, 1, b) && ch_at(s, p, 2, c) { 3 } else { 0 }
}

fn draw_len_exec(s: &[char], p: usize) -> (n: usize)
    requires
        p < s@.len(),
    ensures
        n == draw_len(s@, p as int),
        p + n <= s@.len(),
{
    if ch_at(s, p, 0, '1') && ch_at(s, p, 1, '/') && ch_at(s, p, 2, '2') && ch_at(s, p, 3, '-')
        && ch_at(s, p, 4, '1') && ch_at(s, p, 5, '/') && ch_at(s, p, 6, '2') {
        7
    } else {
        0
    }
}

fn bare_len_exec(s: &[char], p: usize) -> (n: usize)
    requires
        p < s@.len(),
    ensures
        n == bare_len(s@, p as int),
        p + n <= s@.len(),
{
    if in_class_exec(CharClass::Alpha, s[p]) {
        1 + run_class(s, p + 1, CharClass::Bare)
    } else {
        0
    }
}

/// Length of the longest match of kind `k` at `p`.
pub fn kind_len_exec(k: TokKind, s: &[char], p: usize) -> (n: usize)
    requires
        p < s@.len(),
    ensures
        n == kind_len(k, s@, p as int),
        p + n <= s@.len(),
{
    match k {
        TokKind::Header => header_len_exec(s, p),
        TokKind::MoveNumber => move_number_len_exec(s, p),
        TokKind::CastleLong => castle_long_len_exec(s, p),
        TokKind::CastleShort => castle_short_len_exec(s, p),
        TokKind::PieceMove => piece_move_len_exec(s, p),
        TokKind::PawnMove => pawn_move_len_exec(s, p),
        TokKind::BraceComment => brace_len_exec(s, p),
        TokKind::SemicolonComment => semicolon_len_exec(s, p),
        TokKind::Nag => nag_len_exec(s, p),
        TokKind::DoubleBang => lit2_exec(s, p, '!', '!'),
        TokKind::DoubleQuestion => lit2_exec(s, p, '?', '?'),
        TokKind::BangQuestion => lit2_exec(s, p, '!', '?'),
        TokKind::QuestionBang => lit2_exec(s, p, '?', '!'),
        TokKind::Bang => lit1_exec(s, p, '!'),
        TokKind::Question => lit1_exec(s, p, '?'),
        TokKind::WhiteWinning => lit2_exec(s, p, '+', '-'),
        TokKind::BlackWinning => lit2_exec(s, p, '-', '+'),
        TokKind::WhiteBetter => max_exec(lit3_exec(s, p, '+', '/', '-'), lit1_exec(s, p, '\u{B1}')),
        TokKind::BlackBetter => max_exec(lit3_exec(s, p, '-', '/', '+'), lit1_exec(s, p, '\u{2213}')),
        TokKind::WhiteSlightlyBetter => max_exec(lit2_exec(s, p, '+', '='), lit1_exec(s, p, '\u{2A72}')),
        TokKind::BlackSlightlyBetter => max_exec(lit2_exec(s, p, '=', '+'), lit1_exec(s, p, '\u{2A71}')),
        TokKind::Equal => lit1_exec(s, p, '='),
        TokKind::VariationStart => lit1_exec(s, p, '('),
        TokKind::VariationEnd => lit1_exec(s, p, ')'),
        TokKind::WhiteWins => lit3_exec(s, p, '1', '-', '0'),
        TokKind::BlackWins => lit3_exec(s, p, '0', '-', '1'),
        TokKind::Draw => draw_len_exec(s, p),
        TokKind::Ongoing => lit1_exec(s, p, '*'),
        TokKind::Newline => run_class(s, p, CharClass::Newline),
        TokKind::BareText => bare_len_exec(s, p),
        TokKind::Digit => run_class(s, p, CharClass::Digit),
        TokKind::Punctuation => if in_class_exec(CharClass::Punct, s[p]) { 1 } else { 0 },
    }
}

/// The longest token at `p`, the higher priority on a tie; length 0 where none matches.
pub fn best_exec(s: &[char], p: usize) -> (r: (TokKind, usize))
    requires
        p < s@.len(),
    ensures
        r.0 == best(s@, p as int).0,
        r.1 == best(s@, p as int).1,
        p + r.1 <= s@.len(),
{
    let order = [
        TokKind::Header, TokKind::BraceComment, TokKind::SemicolonComment, TokKind::VariationStart,
        TokKind::VariationEnd, TokKind::CastleLong, TokKind::CastleShort, TokKind::WhiteWins,
        TokKind::BlackWins, TokKind::Draw, TokKind::Ongoing, TokKind::MoveNumber, TokKind::Nag,
        TokKind::PieceMove, TokKind::PawnMove, TokKind::DoubleBang, TokKind::DoubleQuestion,
        TokKind::BangQuestion, TokKind::QuestionBang, TokKind::WhiteWinning, TokKind::BlackWinning,
        TokKind::WhiteBetter, TokKind::BlackBetter, TokKind::WhiteSlightlyBetter,
        TokKind::BlackSlightlyBetter, TokKind::Equal, TokKind::Bang, TokKind::Question,
        TokKind::Digit, TokKind::Newline, TokKind::BareText, TokKind::Punctuation,
    ];
    assert(order@ =~= kinds_by_priority());
    let mut bk = TokKind::Header;
    let mut bl: usize = 0;
    let mut i: usize = 0;
    while i < 32
        invariant
            i <= 32,
            order@ == kinds_by_priority(),
            p < s@.len(),
            (bk, bl as nat) == best_upto(s@, p as int, i as nat),
            p + bl <= s@.len(),
        decreases 32 - i,
    {
        let k = order[i];
        let l = kind_len_exec(k, s, p);
        if l > bl {
            bk = k;
            bl = l;
        }
        i = i + 1;
    }
    (bk, bl)
}

// ---------------------------------------------------------------------------
// Locations
// ---------------------------------------------------------------------------

/// Bytes that a character takes in UTF-8.
pub open spec fn utf8_width(c: char) -> nat {
    if (c as u32) < 0x80 {
        1
    } else if (c as u32) < 0x800 {
        2
    } else if (c as u32) < 0x10000 {
        3
    } else {
        4
    }
}

/// Bytes that a text takes in UTF-8.
pub open spec fn utf8_bytes(s: Seq<char>) -> nat
    decreases s.len(),
{
    if s.len() == 0 {
        0
    } else {
        utf8_bytes(s.drop_last()) + utf8_width(s.last())
    }
}

/// Number of newlines in a text.
pub open spec fn newlines(s: Seq<char>) -> nat
    decreases s.len(),
{
    if s.len() == 0 {
        0
    } else {
        newlines(s.drop_last()) + (if s.last() == '\n' { 1nat } else { 0nat })
    }
}

/// Number of characters after the last newline of a text.
pub open spec fn since_newline(s: Seq<char>) -> nat
    decreases s.len(),
{
    if s.len() == 0 {
        0
    } else if s.last() == '\n' {
        0
    } else {
        since_newline(s.drop_last()) + 1
    }
}

fn utf8_width_exec(c: char) -> (n: usize)
    ensures
        n == utf8_width(c),
{
    let v = c as u32;
    if v < 0x80 {
        1
    } else if v < 0x800 {
        2
    } else if v < 0x10000 {
        3
    } else {
        4
    }
}

pub proof fn lemma_utf8_bytes_prefix(s: Seq<char>, i: int, j: int)
    requires
        0 <= i <= j <= s.len(),
    ensures
        utf8_bytes(s.take(i)) <= utf8_bytes(s.take(j)),
    decreases j - i,
{
    if i < j {
        lemma_utf8_bytes_prefix(s, i, j - 1);
        assert(s.take(j).drop_last() =~= s.take(j - 1));
    }
}

pub proof fn lemma_utf8_bytes_split(s: Seq<char>, a: int, b: int)
    requires
        0 <= a <= b <= s.len(),
    ensures
        utf8_bytes(s.take(b)) == utf8_bytes(s.take(a)) + utf8_bytes(s.subrange(a, b)),
    decreases b - a,
{
    if a < b {
        lemma_utf8_bytes_split(s, a, b - 1);
        assert(s.take(b).drop_last() =~= s.take(b - 1));
        assert(s.subrange(a, b).drop_last() =~= s.subrange(a, b - 1));
    } else {
        assert(s.subrange(a, b) =~= Seq::<char>::empty());
    }
}

/// Line, column and byte offset of every position of a text, positions
/// 0 through its length.
pub fn positions(s: &[char]) -> (r: (Vec<usize>, Vec<usize>, Vec<usize>))
    requires
        utf8_bytes(s@) < usize::MAX,
    ensures
        r.0@.len() == s@.len() + 1,
        r.1@.len() == s@.len() + 1,
        r.2@.len() == s@.len() + 1,
        forall|i: int| 0 <= i <= s@.len() ==> #[trigger] r.0@[i] == 1 + newlines(s@.take(i)),
        forall|i: int| 0 <= i <= s@.len() ==> #[trigger] r.1@[i] == 1 + since_newline(s@.take(i)),
        forall|i: int| 0 <= i <= s@.len() ==> #[trigger] r.2@[i] == utf8_bytes(s@.take(i)),
{
    let mut lines: Vec<usize> = Vec::new();
    let mut cols: Vec<usize> = Vec::new();
    let mut offs: Vec<usize> = Vec::new();
    let mut line: usize = 1;
    let mut col: usize = 1;
    let mut off: usize = 0;
    let mut i: usize = 0;
    assert(s@.take(0) =~= Seq::<char>::empty());
    while i < s.len()
        invariant
            i <= s@.len(),
            utf8_bytes(s@) < usize::MAX,
            i <= off,
            lines@.len() == i && cols@.len() == i && offs@.len() == i,
            line == 1 + newlines(s@.take(i as int)),
            col == 1 + since_newline(s@.take(i as int)),
            off == utf8_bytes(s@.take(i as int)),
            newlines(s@.take(i as int)) <= i,
            since_newline(s@.take(i as int)) <= i,
            forall|j: int| 0 <= j < i ==> #[trigger] lines@[j] == 1 + newlines(s@.take(j)),
            forall|j: int| 0 <= j < i ==> #[trigger] cols@[j] == 1 + since_newline(s@.take(j)),
            forall|j: int| 0 <= j < i ==> #[trigger] offs@[j] == utf8_bytes(s@.take(j)),
        decreases s@.len() - i,
    {
        lines.push(line);
        cols.push(col);
        offs.push(off);
        let c = s[i];
        proof {
            assert(s@.take(i + 1).drop_last() =~= s@.take(i as int));
            lemma_utf8_bytes_prefix(s@, i + 1, s@.len() as int);
            assert(s@.take(s@.len() as int) =~= s@);
        }
        if c == '\n' {
            line = line + 1;
            col = 1;
        } else {
            col = col + 1;
        }
        off = off + utf8_width_exec(c);
        i = i + 1;
    }
    lines.push(line);
    cols.push(col);
    offs.push(off);
    (lines, cols, offs)
}

// ---------------------------------------------------------------------------
// Tokenizing
// ---------------------------------------------------------------------------

/// A token with its location.
#[derive(Debug, Clone)]
pub struct LocatedToken {
    /// The token itself.
    pub token: Token,
    /// Line number (1-indexed).
    pub line: usize,
    /// Column number (1-indexed, in characters).
    pub column: usize,
    /// Byte offset in the source.
    pub offset: usize,
    /// Length of the token in bytes.
    pub len: usize,
}

/// A located token as plain values: (token, line, column, offset, length).
pub open spec fn located_model(t: LocatedToken) -> ((TokKind, Seq<char>), int, int, int, int) {
    (t.token@, t.line as int, t.column as int, t.offset as int, t.len as int)
}

impl LocatedToken {
    /// A located token.
    pub fn new(token: Token, line: usize, column: usize, offset: usize, len: usize) -> (t: LocatedToken)
        ensures
            t.token == token && t.line == line && t.column == column && t.offset == offset && t.len
                == len,
    {
        LocatedToken { token, line, column, offset, len }
    }

    /// Whether this is a move token.
    pub fn is_move(&self) -> (b: bool)
        ensures
            b == crate::parser::token::is_move_kind(self.token@.0),
    {
        self.token.is_move()
    }

    /// Whether this is a comment token.
    pub fn is_comment(&self) -> (b: bool)
        ensures
            b == crate::parser::token::is_comment_kind(self.token@.0),
    {
        self.token.is_comment()
    }

    /// A copy of the located token.
    pub fn copy(&self) -> (t: LocatedToken)
        ensures
            located_model(t) == located_model(*self),
    {
        LocatedToken {
            token: self.token.copy(),
            line: self.line,
            column: self.column,
            offset: self.offset,
            len: self.len,
        }
    }
}

/// Whether a token is dropped from the stream: bare text that is empty or
/// only digits and dots once trimmed.
pub open spec fn dropped(t: (TokKind, Seq<char>)) -> bool {
    t.0 == TokKind::BareText && (trim(t.1).len() == 0 || forall|i: int|
        0 <= i < trim(t.1).len() ==> is_digit(#[trigger] trim(t.1)[i]) || trim(t.1)[i] == '.')
}

/// A span of the text as a located token: (token, line, column, byte offset, byte length).
pub open spec fn locate(s: Seq<char>, t: (TokKind, int, int)) -> ((TokKind, Seq<char>), int, int, int, int) {
    (
        (t.0, token_text(t.0, s, t.1, t.2)),
        1 + newlines(s.take(t.1)) as int,
        1 + since_newline(s.take(t.1)) as int,
        utf8_bytes(s.take(t.1)) as int,
        utf8_bytes(s.subrange(t.1, t.2)) as int,
    )
}

/// The located tokens of `s[p..]`, in order, less the dropped ones.
pub open spec fn located_from(s: Seq<char>, p: int) -> Seq<((TokKind, Seq<char>), int, int, int, int)>
    decreases s.len() - p,
{
    if p < 0 || p >= s.len() {
        Seq::empty()
    } else {
        let st = step(s, p);
        let n = step_len(st);
        if n == 0 || p + n > s.len() {
            Seq::empty()
        } else {
            match st {
                Step::Tok(k, n) => {
                    let l = locate(s, (k, p, p + n));
                    if dropped(l.0) {
                        located_from(s, p + n)
                    } else {
                        seq![l] + located_from(s, p + n)
                    }
                },
                _ => located_from(s, p + n),
            }
        }
    }
}

/// The located tokens of a text.
pub open spec fn tokenize_spec(s: Seq<char>) -> Seq<((TokKind, Seq<char>), int, int, int, int)> {
    located_from(s, 0)
}

/// The spans of the text that the located tokens from `p` cover: each
/// within the text, not empty, in order and without overlap.
proof fn lemma_located_spans(s: Seq<char>, p: int) -> (spans: Seq<(int, int)>)
    requires
        0 <= p,
    ensures
        spans.len() == located_from(s, p).len(),
        forall|k: int| 0 <= k < spans.len() ==> p <= (#[trigger] spans[k]).0 < spans[k].1 <= s.len(),
        forall|k: int|
            0 <= k < spans.len() ==> #[trigger] located_from(s, p)[k] == locate(
                s,
                (located_from(s, p)[k].0.0, spans[k].0, spans[k].1),
            ),
        forall|k: int| 0 <= k < spans.len() - 1 ==> (#[trigger] spans[k]).1 <= spans[k + 1].0,
    decreases s.len() - p,
{
    if p >= s.len() {
        Seq::empty()
    } else {
        let st = step(s, p);
        let n = step_len(st);
        if n == 0 || p + n > s.len() {
            Seq::empty()
        } else {
            let rest = lemma_located_spans(s, p + n);
            match st {
                Step::Tok(k, m) => {
                    let l = locate(s, (k, p, p + n));
                    if dropped(l.0) {
                        rest
                    } else {
                        let sp = seq![(p, p + n)] + rest;
                        let lf = located_from(s, p);
                        assert(lf == seq![l] + located_from(s, p + n));
                        assert forall|j: int| 0 <= j < sp.len() implies #[trigger] lf[j] == locate(
                            s,
                            (lf[j].0.0, sp[j].0, sp[j].1),
                        ) by {
                            if j > 0 {
                                assert(lf[j] == located_from(s, p + n)[j - 1]);
                                assert(sp[j] == rest[j - 1]);
                            }
                        }
                        assert forall|j: int| 0 <= j < sp.len() implies p <= (#[trigger] sp[j]).0 < sp[j].1 <= s.len() by {
                            if j > 0 {
                                assert(sp[j] == rest[j - 1]);
                            }
                        }
                        assert forall|j: int| 0 <= j < sp.len() - 1 implies (#[trigger] sp[j]).1 <= sp[j + 1].0 by {
                            if j > 0 {
                                assert(sp[j] == rest[j - 1]);
                                assert(sp[j + 1] == rest[j]);
                            } else {
                                assert(sp[1] == rest[0]);
                            }
                        }
                        sp
                    }
                },
                _ => rest,
            }
        }
    }
}

/// Where the tokens of a text stand: each covers a non-empty span of the
/// text, the spans come in order without overlap, and each token's line,
/// column, byte offset and byte length are counted from the text before it
/// and from its span: its line one more than the newlines before it, its
/// column one more than the characters after the last of them, its offset
/// and length in bytes within the text, and each token after the end of the
/// one before.
pub proof fn law_token_positions(s: Seq<char>) -> (spans: Seq<(int, int)>)
    ensures
        spans.len() == tokenize_spec(s).len(),
        forall|k: int| 0 <= k < spans.len() ==> 0 <= (#[trigger] spans[k]).0 < spans[k].1 <= s.len(),
        forall|k: int| 0 <= k < spans.len() - 1 ==> (#[trigger] spans[k]).1 <= spans[k + 1].0,
        forall|k: int|
            0 <= k < spans.len() ==> {
                let t = #[trigger] tokenize_spec(s)[k];
                &&& t.1 == 1 + newlines(s.take(spans[k].0))
                &&& t.2 == 1 + since_newline(s.take(spans[k].0))
                &&& t.3 == utf8_bytes(s.take(spans[k].0))
                &&& t.4 == utf8_bytes(s.subrange(spans[k].0, spans[k].1))
                &&& t.4 >= 1
                &&& t.3 + t.4 <= utf8_bytes(s)
            },
        forall|k: int| 0 <= k < spans.len() - 1 ==> #[trigger] tokenize_spec(s)[k].3 + tokenize_spec(s)[k].4 <= tokenize_spec(s)[k + 1].3,
{
    let spans = lemma_located_spans(s, 0);
    let toks = tokenize_spec(s);
    assert(s.take(s.len() as int) =~= s);
    assert forall|k: int| 0 <= k < spans.len() implies {
        let t = #[trigger] toks[k];
        &&& t.1 == 1 + newlines(s.take(spans[k].0))
        &&& t.2 == 1 + since_newline(s.take(spans[k].0))
        &&& t.3 == utf8_bytes(s.take(spans[k].0))
        &&& t.4 == utf8_bytes(s.subrange(spans[k].0, spans[k].1))
        &&& t.4 >= 1
        &&& t.3 + t.4 <= utf8_bytes(s)
    } by {
        let (a, b) = spans[k];
        assert(toks[k] == located_from(s, 0)[k]);
        crate::serializer::tree_view::lemma_utf8_nonempty(s.subrange(a, b));
        lemma_utf8_bytes_split(s, a, b);
        lemma_utf8_bytes_prefix(s, b, s.len() as int);
    }
    assert forall|k: int| 0 <= k < spans.len() - 1 implies #[trigger] toks[k].3 + toks[k].4 <= toks[k + 1].3 by {
        let (a, b) = spans[k];
        let a2 = spans[k + 1].0;
        assert(toks[k] == located_from(s, 0)[k]);
        assert(toks[k + 1] == located_from(s, 0)[k + 1]);
        lemma_utf8_bytes_split(s, a, b);
        lemma_utf8_bytes_prefix(s, b, a2);
    }
    spans
}

fn is_dropped(k: TokKind, text: &Vec<char>) -> (b: bool)
    ensures
        b == dropped((k, text@)),
{
    if k != TokKind::BareText {
        return false;
    }
    let t = crate::text::trim_chars(text);
    if t.len() == 0 {
        return true;
    }
    let mut i: usize = 0;
    while i < t.len()
        invariant
            i <= t@.len(),
            t@ == trim(text@),
            forall|j: int| 0 <= j < i ==> is_digit(#[trigger] t@[j]) || t@[j] == '.',
        decreases t@.len() - i,
    {
        if !(crate::text::is_ascii_digit(t[i]) || t[i] == '.') {
            assert(!(is_digit(trim(text@)[i as int]) || trim(text@)[i as int] == '.'));
            assert(trim(text@).len() != 0);
            assert(!dropped((k, text@)));
            return false;
        }
        i = i + 1;
    }
    true
}

type LocModel = ((TokKind, Seq<char>), int, int, int, int);

/// Appends the located tokens of `s[p..]`.
fn lex_from(
    s: &[char],
    p: usize,
    lines: &Vec<usize>,
    cols: &Vec<usize>,
    offs: &Vec<usize>,
    out: &mut Vec<LocatedToken>,
)
    requires
        p <= s@.len(),
        lines@.len() == s@.len() + 1,
        cols@.len() == s@.len() + 1,
        offs@.len() == s@.len() + 1,
        forall|i: int| 0 <= i <= s@.len() ==> #[trigger] lines@[i] == 1 + newlines(s@.take(i)),
        forall|i: int| 0 <= i <= s@.len() ==> #[trigger] cols@[i] == 1 + since_newline(s@.take(i)),
        forall|i: int| 0 <= i <= s@.len() ==> #[trigger] offs@[i] == utf8_bytes(s@.take(i)),
    ensures
        final(out)@.map_values(|t: LocatedToken| located_model(t)) == old(out)@.map_values(
            |t: LocatedToken| located_model(t),
        ) + located_from(s@, p as int),
{
    let mut q = p;
    let ghost start = out@.map_values(|t: LocatedToken| located_model(t));
    while q < s.len()
        invariant
            p <= q <= s@.len(),
            lines@.len() == s@.len() + 1,
            cols@.len() == s@.len() + 1,
            offs@.len() == s@.len() + 1,
            forall|i: int| 0 <= i <= s@.len() ==> #[trigger] lines@[i] == 1 + newlines(s@.take(i)),
            forall|i: int| 0 <= i <= s@.len() ==> #[trigger] cols@[i] == 1 + since_newline(s@.take(i)),
            forall|i: int| 0 <= i <= s@.len() ==> #[trigger] offs@[i] == utf8_bytes(s@.take(i)),
            start + located_from(s@, p as int) == out@.map_values(|t: LocatedToken| located_model(t))
                + located_from(s@, q as int),
        decreases s@.len() - q,
    {
        let ghost rest = located_from(s@, q as int);
        if in_class_exec(CharClass::Skip, s[q]) {
            let n = run_class(s, q, CharClass::Skip);
            assert(rest == located_from(s@, (q + n) as int));
            q = q + n;
        } else {
            let (k, n) = best_exec(s, q);
            if n > 0 {
                let e = q + n;
                proof {
                    lemma_best_len(s@, q as int, 32);
                    if k == TokKind::SemicolonComment {
                        assert(ch(s@, q as int, ';'));
                    }
                    if k == TokKind::BraceComment {
                        assert(ch(s@, q as int, '{'));
                    }
                }
                let text = if k == TokKind::BraceComment {
                    sub_chars(s, q + 1, e - 1)
                } else if k == TokKind::SemicolonComment {
                    sub_chars(s, q + 1, e)
                } else if kind_has_text(k) {
                    sub_chars(s, q, e)
                } else {
                    Vec::new()
                };
                assert(text@ =~= token_text(k, s@, q as int, e as int));
                let dropped_here = is_dropped(k, &text);
                let ghost loc = locate(s@, (k, q as int, e as int));
                proof {
                    lemma_utf8_bytes_split(s@, q as int, e as int);
                }
                if !dropped_here {
                    let tok = Token::make(k, string_of(&text));
                    let lt = LocatedToken::new(tok, lines[q], cols[q], offs[q], offs[e] - offs[q]);
                    proof {
                        if !has_text(k) {
                            assert(text@ =~= Seq::<char>::empty());
                            assert(lt.token@.1 =~= loc.0.1);
                        }
                        assert(located_model(lt) == loc);
                    }
                    let ghost before = out@.map_values(|t: LocatedToken| located_model(t));
                    out.push(lt);
                    proof {
                        assert(out@.map_values(|t: LocatedToken| located_model(t)) =~= before.push(loc));
                        assert(rest == seq![loc] + located_from(s@, e as int));
                        assert(before + (seq![loc] + located_from(s@, e as int)) =~= before.push(loc)
                            + located_from(s@, e as int));
                    }
                } else {
                    assert(rest == located_from(s@, e as int));
                }
                q = e;
            } else {
                let n = fail_len_exec(s, q);
                assert(rest == located_from(s@, (q + n) as int));
                q = q + n;
            }
        }
    }
    assert(located_from(s@, q as int) =~= Seq::<LocModel>::empty());
    assert(out@.map_values(|t: LocatedToken| located_model(t)) + Seq::<LocModel>::empty()
        =~= out@.map_values(|t: LocatedToken| located_model(t)));
}

/// The kind `best_upto` picks, where it picks one, matches with the length it gives.
proof fn lemma_best_len(s: Seq<char>, p: int, i: nat)
    requires
        i <= 32,
    ensures
        best_upto(s, p, i).1 > 0 ==> kind_len(best_upto(s, p, i).0, s, p) == best_upto(s, p, i).1,
    decreases i,
{
    if i > 0 {
        lemma_best_len(s, p, (i - 1) as nat);
    }
}

/// Tokenize a PGN string into located tokens.
pub fn tokenize(input: &str) -> (r: Vec<LocatedToken>)
    requires
        utf8_bytes(input@) < usize::MAX,
    ensures
        r@.map_values(|t: LocatedToken| located_model(t)) == tokenize_spec(input@),
{
    let s = str_chars(input);
    let (lines, cols, offs) = positions(&s);
    let mut out: Vec<LocatedToken> = Vec::new();
    lex_from(&s, 0, &lines, &cols, &offs, &mut out);
    assert(Seq::<LocModel>::empty() + located_from(s@, 0) =~= located_from(s@, 0));
    out
}

/// The tokens of a PGN string, without locations.
pub fn lex(input: &str) -> (r: Vec<Token>)
    requires
        utf8_bytes(input@) < usize::MAX,
    ensures
        r@.map_values(|t: Token| t@) == tokenize_spec(input@).map_values(|l: LocModel| l.0),
{
    let located = tokenize(input);
    let mut r: Vec<Token> = Vec::new();
    let mut i: usize = 0;
    while i < located.len()
        invariant
            i <= located@.len(),
            located@.map_values(|t: LocatedToken| located_model(t)) == tokenize_spec(input@),
            r@.map_values(|t: Token| t@) == tokenize_spec(input@).take(i as int).map_values(|l: LocModel| l.0),
        decreases located@.len() - i,
    {
        let t = located[i].token.copy();
        let ghost before = r@.map_values(|t: Token| t@);
        r.push(t);
        proof {
            assert(located@.map_values(|t: LocatedToken| located_model(t))[i as int] == located_model(located@[i as int]));
            assert(located_model(located@[i as int]) == tokenize_spec(input@)[i as int]);
            assert(t@ == located@[i as int].token@);
            assert(r@.map_values(|t: Token| t@) =~= before.push(t@));
            assert(r@.map_values(|t: Token| t@) =~= tokenize_spec(input@).take(i + 1).map_values(|l: LocModel| l.0));
        }
        i = i + 1;
    }
    assert(tokenize_spec(input@).take(i as int) =~= tokenize_spec(input@));
    r
}

} // verus!
