//! PGN parser: tokenization and tree building.
//!
//! Input goes through three phases: the lexer turns text into located
//! tokens, post-processing (lenient mode) turns parenthetical move
//! references in prose into text, and the builder makes the game tree.

pub mod builder;
pub mod lexer;
pub mod token;
pub mod token_postprocess;

pub use builder::build_tree;
pub use lexer::{tokenize, LocatedToken};
pub use token::Token;

use vstd::prelude::*;
use crate::error::{Error, ParseMode};
use crate::parser::builder::{build_result, build_tree_with_options, initial_build, opt_view, run_from, tokens_model, TokModel};
use crate::parser::lexer::{lemma_utf8_bytes_prefix, lemma_utf8_bytes_split, tokenize_spec, utf8_bytes};
use crate::parser::token_postprocess::{process, process_spec};
use crate::text::{is_ws, str_chars, string_of, sub_chars, trim, trim_chars};
use crate::tree::game::GameTree;

verus! {

/// The tokens the builder gets from a text in a mode.
pub open spec fn parse_tokens(text: Seq<char>, mode: ParseMode) -> Seq<TokModel> {
    process_spec(tokenize_spec(text), mode)
}

/// What parsing a text gives: `r` is the tree, or the error, that building
/// from its tokens gives, errors reporting `file` and the text.
pub open spec fn parsed(r: Result<GameTree, Error>, text: Seq<char>, mode: ParseMode, file: Option<Seq<char>>) -> bool {
    build_result(r, parse_tokens(text, mode), mode, file, Some(text))
}

/// Whether parsing a text gives an error.
pub open spec fn parse_fails(text: Seq<char>, mode: ParseMode) -> bool {
    match run_from(initial_build(), parse_tokens(text, mode), 0, mode) {
        Err(_) => true,
        Ok(b) => b.st.starts.len() > 0,
    }
}

/// Parse a PGN string into a game tree (lenient mode).
pub fn parse(input: &str) -> (r: Result<GameTree, Error>)
    requires
        utf8_bytes(input@) < usize::MAX,
    ensures
        parsed(r, input@, ParseMode::Lenient, None),
{
    parse_with_options(input, ParseMode::Lenient, None)
}

/// Parse a PGN string in a mode, with the file name that errors report.
pub fn parse_with_options(input: &str, mode: ParseMode, file: Option<String>) -> (r: Result<GameTree, Error>)
    requires
        utf8_bytes(input@) < usize::MAX,
    ensures
        parsed(r, input@, mode, opt_view(file)),
{
    let tokens = tokenize(input);
    let tokens = process(tokens, mode);
    build_tree_with_options(&tokens, mode, file, Some(input))
}

// ---------------------------------------------------------------------------
// Several games
// ---------------------------------------------------------------------------

/// Index of the first newline at or after `p`, or the length.
pub open spec fn line_end(s: Seq<char>, p: int) -> int
    decreases s.len() - p,
{
    if p < 0 || p >= s.len() {
        s.len() as int
    } else if s[p] == '\n' {
        p
    } else {
        line_end(s, p + 1)
    }
}

pub proof fn lemma_line_end(s: Seq<char>, p: int)
    requires
        0 <= p <= s.len(),
    ensures
        p <= line_end(s, p) <= s.len(),
    decreases s.len() - p,
{
    if p < s.len() && s[p] != '\n' {
        lemma_line_end(s, p + 1);
    }
}

/// Where the line after the one from `p` starts.
pub open spec fn next_line(s: Seq<char>, p: int) -> int {
    if line_end(s, p) < s.len() {
        line_end(s, p) + 1
    } else {
        s.len() as int
    }
}

/// The line from `p` to its end `e`, less a carriage return before a newline.
pub open spec fn line_content(s: Seq<char>, p: int, e: int) -> Seq<char> {
    if e < s.len() && e > p && s[e - 1] == '\r' {
        s.subrange(p, e - 1)
    } else {
        s.subrange(p, e)
    }
}

/// A tag line: it starts with "[" and holds a quote.
pub open spec fn is_header_line(c: Seq<char>) -> bool {
    c.len() > 0 && c[0] == '[' && c.contains('"')
}

/// A line of moves: not blank, not a tag line, not a semicolon comment.
pub open spec fn is_move_line(c: Seq<char>) -> bool {
    trim(c).len() > 0 && !is_header_line(c) && trim(c)[0] != ';'
}

/// `g` where it is not blank.
pub open spec fn if_not_blank(g: Seq<char>) -> Seq<Seq<char>> {
    if trim(g).len() > 0 {
        seq![g]
    } else {
        Seq::empty()
    }
}

/// The texts of the games in `s`, reading lines from `p`, the current game
/// starting at `start`: a tag line after moves starts a new game; blank
/// games are left out.
pub open spec fn split_games(s: Seq<char>, p: int, start: int, seen: bool) -> Seq<Seq<char>>
    decreases s.len() - p,
{
    if p < 0 || p >= s.len() {
        if_not_blank(s.subrange(start, s.len() as int))
    } else {
        let e = line_end(s, p);
        let c = line_content(s, p, e);
        let next = next_line(s, p);
        proof {
            lemma_line_end(s, p);
        }
        if is_header_line(c) && seen {
            if_not_blank(s.subrange(start, p)) + split_games(s, next, p, false)
        } else {
            split_games(s, next, start, seen || is_move_line(c))
        }
    }
}

pub open spec fn game_texts(s: Seq<char>) -> Seq<Seq<char>> {
    split_games(s, 0, 0, false)
}

/// What parsing every game of a text gives: where the text holds no game,
/// the parse of the whole text (lenient mode, no file); else the trees of
/// all games, or the error of the first game that fails.
pub open spec fn parse_all_result(
    r: Result<Vec<GameTree>, Error>,
    s: Seq<char>,
    mode: ParseMode,
    file: Option<Seq<char>>,
) -> bool {
    let g = game_texts(s);
    if g.len() == 0 {
        match r {
            Ok(v) => v@.len() == 1 && parsed(Ok(v@[0]), s, ParseMode::Lenient, None),
            Err(e) => parsed(Err(e), s, ParseMode::Lenient, None),
        }
    } else {
        match r {
            Ok(v) => v@.len() == g.len() && forall|k: int|
                0 <= k < g.len() ==> parsed(Ok(#[trigger] v@[k]), g[k], mode, file),
            Err(e) => exists|k: int|
                0 <= k < g.len() && (forall|j: int| 0 <= j < k ==> !parse_fails(#[trigger] g[j], mode))
                    && parsed(Err(e), #[trigger] g[k], mode, file),
        }
    }
}

/// Whether, reading lines from `p`, a tag line comes after a line of moves
/// (`seen` tells whether a line of moves came before `p`).
pub open spec fn tag_after_moves(s: Seq<char>, p: int, seen: bool) -> bool
    decreases s.len() - p,
{
    if p < 0 || p >= s.len() {
        false
    } else {
        let c = line_content(s, p, line_end(s, p));
        proof {
            lemma_line_end(s, p);
        }
        if is_header_line(c) && seen {
            true
        } else {
            tag_after_moves(s, next_line(s, p), seen || is_move_line(c))
        }
    }
}

proof fn lemma_one_game(s: Seq<char>, p: int, start: int, seen: bool)
    requires
        0 <= p,
        !tag_after_moves(s, p, seen),
    ensures
        split_games(s, p, start, seen) == if_not_blank(s.subrange(start, s.len() as int)),
    decreases s.len() - p,
{
    if p < s.len() {
        lemma_line_end(s, p);
        let c = line_content(s, p, line_end(s, p));
        lemma_one_game(s, next_line(s, p), start, seen || is_move_line(c));
    }
}

/// A text in which no tag line comes after a line of moves is one game:
/// parsing every game of it gives what parsing the whole text (leniently)
/// gives, its tree alone or its error.
pub proof fn law_parse_all_one_game(r: Result<Vec<GameTree>, Error>, s: Seq<char>)
    requires
        parse_all_result(r, s, ParseMode::Lenient, None),
        !tag_after_moves(s, 0, false),
    ensures
        r matches Ok(v) ==> v@.len() == 1 && parsed(Ok(v@[0]), s, ParseMode::Lenient, None),
        r matches Err(e) ==> parsed(Err(e), s, ParseMode::Lenient, None),
{
    lemma_one_game(s, 0, 0, false);
    assert(s.subrange(0, s.len() as int) =~= s);
    let g = game_texts(s);
    if g.len() > 0 {
        assert(g =~= seq![s]);
        if r is Err {
            let k = choose|k: int|
                0 <= k < g.len() && (forall|j: int| 0 <= j < k ==> !parse_fails(#[trigger] g[j], ParseMode::Lenient))
                    && parsed(Err(r->Err_0), #[trigger] g[k], ParseMode::Lenient, None);
            assert(k == 0);
        }
    }
}

/// Parsing every game of a text that succeeds gives at least one tree;
/// where the text holds no game, it gives exactly the tree that parsing the
/// whole text gives.
pub proof fn law_parse_all_some(r: Result<Vec<GameTree>, Error>, s: Seq<char>, mode: ParseMode, file: Option<Seq<char>>)
    requires
        parse_all_result(r, s, mode, file),
    ensures
        r matches Ok(v) ==> v@.len() >= 1,
        game_texts(s).len() == 0 ==> (r matches Ok(v) ==> v@.len() == 1 && parsed(
            Ok(v@[0]),
            s,
            ParseMode::Lenient,
            None,
        )),
{
}

/// Parse every game of a PGN string (lenient mode).
pub fn parse_all(input: &str) -> (r: Result<Vec<GameTree>, Error>)
    requires
        utf8_bytes(input@) < usize::MAX,
    ensures
        parse_all_result(r, input@, ParseMode::Lenient, None),
{
    parse_all_with_options(input, ParseMode::Lenient, None)
}

/// Parse every game of a PGN string (lenient mode).
pub fn parse_games(input: &str) -> (r: Result<Vec<GameTree>, Error>)
    requires
        utf8_bytes(input@) < usize::MAX,
    ensures
        parse_all_result(r, input@, ParseMode::Lenient, None),
{
    parse_all(input)
}

proof fn lemma_sub_utf8(s: Seq<char>, a: int, b: int)
    requires
        0 <= a <= b <= s.len(),
    ensures
        utf8_bytes(s.subrange(a, b)) <= utf8_bytes(s),
{
    lemma_utf8_bytes_split(s, a, b);
    lemma_utf8_bytes_prefix(s, b, s.len() as int);
    assert(s.take(s.len() as int) =~= s);
}

proof fn lemma_parsed_ok(t: GameTree, text: Seq<char>, mode: ParseMode, file: Option<Seq<char>>)
    requires
        parsed(Ok(t), text, mode, file),
    ensures
        !parse_fails(text, mode),
{
}

fn clone_opt(f: &Option<String>) -> (r: Option<String>)
    ensures
        opt_view(r) == opt_view(*f),
{
    match f {
        Some(x) => Some(x.clone()),
        None => None,
    }
}

fn find_line_end(s: &Vec<char>, p: usize) -> (e: usize)
    requires
        p <= s@.len(),
    ensures
        e == line_end(s@, p as int),
        p <= e <= s@.len(),
{
    let mut e = p;
    while e < s.len() && s[e] != '\n'
        invariant
            p <= e <= s@.len(),
            line_end(s@, p as int) == line_end(s@, e as int),
        decreases s@.len() - e,
    {
        e = e + 1;
    }
    e
}

/// Whether the line from `p` is a tag line, whether it is a line of
/// moves, and where the next line starts.
fn line_info(s: &Vec<char>, p: usize) -> (r: (bool, bool, usize))
    requires
        p < s@.len(),
    ensures
        r.0 == is_header_line(line_content(s@, p as int, line_end(s@, p as int))),
        r.1 == is_move_line(line_content(s@, p as int, line_end(s@, p as int))),
        r.2 == next_line(s@, p as int),
        p < r.2 <= s@.len(),
{
    let n = s.len();
    let e = find_line_end(s, p);
    let c_end = if e < n && e > p && s[e - 1] == '\r' {
        e - 1
    } else {
        e
    };
    let ghost c = line_content(s@, p as int, e as int);
    let content = sub_chars(s, p, c_end);
    assert(content@ == c);
    let mut has_quote = false;
    let mut k: usize = 0;
    while k < content.len()
        invariant
            k <= content@.len(),
            has_quote == exists|j: int| 0 <= j < k && content@[j] == '"',
        decreases content@.len() - k,
    {
        if content[k] == '"' {
            has_quote = true;
        }
        k = k + 1;
    }
    assert(has_quote == content@.contains('"'));
    let is_header = content.len() > 0 && content[0] == '[' && has_quote;
    let t = trim_chars(&content);
    let is_move = t.len() > 0 && !is_header && t[0] != ';';
    let next = if e < n {
        e + 1
    } else {
        n
    };
    (is_header, is_move, next)
}

/// Parses the text `s[a..b]` where it is not blank, adding its tree.
fn parse_game_text(
    s: &Vec<char>,
    a: usize,
    b: usize,
    mode: ParseMode,
    file: &Option<String>,
    games: &mut Vec<GameTree>,
) -> (r: Result<(), Error>)
    requires
        a <= b <= s@.len(),
        utf8_bytes(s@) < usize::MAX,
    ensures
        match r {
            Ok(()) => if_not_blank(s@.subrange(a as int, b as int)).len() == 0 ==> final(games)@ == old(games)@,
            Err(_) => true,
        },
        r is Ok && if_not_blank(s@.subrange(a as int, b as int)).len() > 0 ==> final(games)@.len() == old(
            games,
        )@.len() + 1 && final(games)@.take(old(games)@.len() as int) == old(games)@ && parsed(
            Ok(final(games)@.last()),
            s@.subrange(a as int, b as int),
            mode,
            opt_view(*file),
        ),
        r matches Err(e) ==> if_not_blank(s@.subrange(a as int, b as int)).len() > 0 && parsed(
            Err(e),
            s@.subrange(a as int, b as int),
            mode,
            opt_view(*file),
        ),
{
    let g = sub_chars(s, a, b);
    let gt = trim_chars(&g);
    if gt.len() == 0 {
        return Ok(());
    }
    let text = string_of(&g);
    proof {
        lemma_sub_utf8(s@, a as int, b as int);
    }
    match parse_with_options(text.as_str(), mode, clone_opt(file)) {
        Ok(t) => {
            games.push(t);
            assert(games@.take(old(games)@.len() as int) =~= old(games)@);
            Ok(())
        },
        Err(e) => Err(e),
    }
}

/// Parse every game of a PGN string in a mode, with the file name that
/// errors report.  A tag line that follows moves starts a new game.
pub fn parse_all_with_options(input: &str, mode: ParseMode, file: Option<String>) -> (r: Result<
    Vec<GameTree>,
    Error,
>)
    requires
        utf8_bytes(input@) < usize::MAX,
    ensures
        parse_all_result(r, input@, mode, opt_view(file)),
{
    let s = str_chars(input);
    let n = s.len();
    let ghost fv = opt_view(file);
    let mut games: Vec<GameTree> = Vec::new();
    let mut start: usize = 0;
    let mut seen = false;
    let mut p: usize = 0;
    let ghost mut done: Seq<Seq<char>> = Seq::empty();
    while p < n
        invariant
            s@ == input@,
            n == s@.len(),
            fv == opt_view(file),
            start <= p <= n,
            utf8_bytes(s@) < usize::MAX,
            game_texts(s@) == done + split_games(s@, p as int, start as int, seen),
            games@.len() == done.len(),
            forall|k: int| 0 <= k < done.len() ==> parsed(Ok(#[trigger] games@[k]), done[k], mode, fv),
            forall|k: int| 0 <= k < done.len() ==> !parse_fails(#[trigger] done[k], mode),
        decreases n - p,
    {
        let (is_header, is_move, next) = line_info(&s, p);
        if is_header && seen {
            let ghost g = s@.subrange(start as int, p as int);
            let ghost rest = split_games(s@, next as int, p as int, false);
            let ghost before = games@;
            match parse_game_text(&s, start, p, mode, &file, &mut games) {
                Ok(()) => {},
                Err(err) => {
                    proof {
                        assert(game_texts(s@) == done + (if_not_blank(g) + rest));
                        assert(if_not_blank(g) == seq![g]);
                        assert(game_texts(s@)[done.len() as int] == g);
                        assert forall|j: int| 0 <= j < done.len() implies !parse_fails(
                            #[trigger] game_texts(s@)[j],
                            mode,
                        ) by {
                            assert(game_texts(s@)[j] == done[j]);
                        }
                    }
                    return Err(err);
                },
            }
            proof {
                assert(game_texts(s@) =~= (done + if_not_blank(g)) + rest);
                if if_not_blank(g).len() > 0 {
                    lemma_parsed_ok(games@.last(), g, mode, fv);
                    assert forall|k: int| 0 <= k < done.len() implies parsed(
                        Ok(#[trigger] games@[k]),
                        done[k],
                        mode,
                        fv,
                    ) by {
                        assert(games@[k] == before[k]);
                    }
                    done = done.push(g);
                } else {
                    assert(done + if_not_blank(g) =~= done);
                }
            }
            start = p;
            seen = false;
        } else if is_move {
            seen = true;
        }
        p = next;
    }
    let ghost g = s@.subrange(start as int, n as int);
    let ghost before = games@;
    match parse_game_text(&s, start, n, mode, &file, &mut games) {
        Ok(()) => {},
        Err(err) => {
            proof {
                assert(game_texts(s@) == done + if_not_blank(g));
                assert(game_texts(s@)[done.len() as int] == g);
                assert forall|j: int| 0 <= j < done.len() implies !parse_fails(
                    #[trigger] game_texts(s@)[j],
                    mode,
                ) by {
                    assert(game_texts(s@)[j] == done[j]);
                }
            }
            return Err(err);
        },
    }
    proof {
        if if_not_blank(g).len() > 0 {
            assert forall|k: int| 0 <= k < done.len() implies parsed(
                Ok(#[trigger] games@[k]),
                done[k],
                mode,
                fv,
            ) by {
                assert(games@[k] == before[k]);
            }
            done = done.push(g);
        } else {
            assert(done + if_not_blank(g) =~= done);
        }
        assert(game_texts(s@) == done);
    }
    if games.len() == 0 {
        match parse(input) {
            Ok(t) => Ok(vec![t]),
            Err(err) => Err(err),
        }
    } else {
        Ok(games)
    }
}

} // verus!
