//! What reading gives back of what the writer writes: a game written in
//! standard PGN, with its variations and wrapped at any line width, reads
//! back as that game.

pub mod line;
pub mod tags;
pub mod tree;
pub mod words;
pub mod wrapped;
pub mod write;

use vstd::prelude::*;
use crate::error::{Error, ParseMode};
use crate::parser::builder::{initial_build, initial_state, run_from, Build, TokModel};
use crate::parser::lexer::tokenize_spec;
use crate::parser::token::TokKind;
use crate::parser::{parse_tokens, parsed};
use crate::serializer::options::OutputOptions;
use crate::serializer::standard::{headers_text, standard_text, std_node};
use crate::serializer::wrap::wrap_text;
use crate::text::trim;
use crate::tree::game::{distinct_keys, result_text, GameResult, GameTree};
use crate::tree::model::{empty_node, NodeModel};
use crate::readback::line::{bare_root, game_words, is_line, lemma_build_line_at, line_ok, line_words, result_word, toks_match, word_tok, Word};
use crate::readback::words::{good_word, newline_word};
use crate::readback::write::{lemma_collapse_none, lemma_line_words_good, lemma_movetext_shape, line_writable, movetext, plain_options, words_movetext};
use crate::readback::tree::{after_words, lemma_build_tree_at, lemma_tree_movetext_shape, tree_game_words, tree_ok, tree_writable};
use crate::readback::wrapped::{calm_or_break, calm_words, lemma_after_calm, lemma_line_calm, lemma_run_strip, lemma_run_suffix, lemma_wrapped_tokens, nonl, ok_of, words_body};
use crate::readback::tags::{key_absent, lemma_headers_text, lemma_located_tags, lemma_read_tags_headers, lemma_run_tags, lemma_tag_words_kinds, lemma_tag_words_len, lemma_written_pairs, loc_tags, pairs_ok, read_tags, tag_words, tags_text, written_pairs};

verus! {

// ---------------------------------------------------------------------------
// The tokens of the writer's text
// ---------------------------------------------------------------------------

/// Tokens read from the movetext of words `ws`: calm tokens and line
/// breaks, which without the line breaks are the tokens of the words, then
/// the result's token and the newline's.
pub open spec fn movetext_tokens(t: Seq<TokModel>, c: Seq<TokModel>, ws: Seq<Word>, r: GameResult) -> bool {
    &&& c.len() == 2
    &&& c[0].0 == word_tok(result_word(r))
    &&& c[1].0 == word_tok(newline_word())
    &&& forall|k: int| 0 <= k < t.len() ==> calm_or_break(#[trigger] t[k])
    &&& nonl(t).len() == ws.len()
    &&& forall|k: int| 0 <= k < ws.len() ==> (#[trigger] nonl(t)[k]).0 == word_tok(ws[k])
}

proof fn lemma_no_bare(t: Seq<TokModel>, c: Seq<TokModel>, ws: Seq<Word>, r: GameResult)
    requires
        movetext_tokens(t, c, ws, r),
    ensures
        forall|j: int| 0 <= j < (t + c).len() ==> (#[trigger] (t + c)[j]).0.0 != TokKind::BareText,
{
    assert forall|j: int| 0 <= j < (t + c).len() implies (#[trigger] (t + c)[j]).0.0 != TokKind::BareText by {
        if j < t.len() {
            assert((t + c)[j] == t[j]);
            assert(calm_or_break(t[j]));
        } else {
            assert((t + c)[j] == c[j - t.len()]);
        }
    }
}

/// The writer's text without tag pairs, read: the tokens of its movetext.
proof fn lemma_untagged_tokens(t: GameTree, o: OutputOptions, ws: Seq<Word>) -> (tc: (Seq<TokModel>, Seq<TokModel>))
    requires
        plain_options(o),
        !o.headers,
        trim(std_node(t.root@, o, 0, true)) + (seq![' '] + result_text(t.result)) == words_body(ws, t.result),
        forall|k: int| 0 <= k < ws.len() ==> good_word(#[trigger] ws[k]),
        calm_words(ws),
    ensures
        parse_tokens(standard_text(&t, o), ParseMode::Lenient) == tc.0 + tc.1,
        movetext_tokens(tc.0, tc.1, ws, t.result),
{
    let text = standard_text(&t, o);
    let body = words_body(ws, t.result);
    let w = o.line_width as nat;
    assert(text =~= wrap_text(body, w) + seq!['\n']);
    assert(text.subrange(0, text.len() as int) =~= text);
    let tc = lemma_wrapped_tokens(text, 0, ws, t.result, w);
    lemma_no_bare(tc.0, tc.1, ws, t.result);
    lemma_collapse_none(tc.0 + tc.1, 0);
    tc
}

/// The writer's text with tag pairs, read: the tokens of its tag pairs,
/// then those of its movetext.
#[verifier::spinoff_prover]
#[verifier::rlimit(60)]
proof fn lemma_tagged_tokens(t: GameTree, o: OutputOptions, ws: Seq<Word>) -> (tc: (Seq<TokModel>, Seq<TokModel>, Seq<TokModel>))
    requires
        plain_options(o),
        o.headers,
        distinct_keys(t.headers@),
        pairs_ok(t.headers@),
        trim(std_node(t.root@, o, 0, true)) + (seq![' '] + result_text(t.result)) == words_body(ws, t.result),
        forall|k: int| 0 <= k < ws.len() ==> good_word(#[trigger] ws[k]),
        calm_words(ws),
    ensures
        parse_tokens(standard_text(&t, o), ParseMode::Lenient) == tc.0 + tc.1 + tc.2,
        tc.0.len() == tag_words(written_pairs(t.headers@, t.result)).len(),
        toks_match(tc.0, 0, tag_words(written_pairs(t.headers@, t.result))),
        movetext_tokens(tc.1, tc.2, ws, t.result),
{
    let ps = written_pairs(t.headers@, t.result);
    let text = standard_text(&t, o);
    let body = words_body(ws, t.result);
    let w = o.line_width as nat;
    lemma_headers_text(t.headers@, t.result);
    lemma_written_pairs(t.headers@, t.result);
    let hs = tags_text(ps).push('\n');
    assert(headers_text(t.headers@, t.result) == hs);
    let mt = wrap_text(body, w) + seq!['\n'];
    assert(text =~= hs + mt);
    let q0: int = hs.len() as int;
    assert(text.subrange(0, q0) =~= hs);
    assert(text.subrange(q0, text.len() as int) =~= mt);
    let tc = lemma_wrapped_tokens(text, q0, ws, t.result, w);
    assert(q0 == tags_text(ps).len() + 1);
    lemma_located_tags(text, 0, ps);
    let tt = loc_tags(text, 0, ps);
    let toks = tt + tc.0 + tc.1;
    assert(tokenize_spec(text) =~= toks);
    lemma_tag_words_len(ps);
    lemma_no_bare(tc.0, tc.1, ws, t.result);
    assert forall|j: int| 0 <= j < toks.len() implies (#[trigger] toks[j]).0.0 != TokKind::BareText by {
        if j < tt.len() {
            assert(toks[j] == tt[j]);
            assert(tt[j].0 == word_tok(tag_words(ps)[j]));
            assert(tag_words(ps)[j].0 == TokKind::Header || tag_words(ps)[j].0 == TokKind::Newline) by {
                lemma_tag_words_kinds(ps);
            }
        } else {
            assert(toks[j] == (tc.0 + tc.1)[j - tt.len()]);
        }
    }
    lemma_collapse_none(toks, 0);
    assert forall|k: int| 0 <= k < tag_words(ps).len() implies #[trigger] tt[0 + k].0 == word_tok(tag_words(ps)[k]) by {
    }
    (tt, tc.0, tc.1)
}

// ---------------------------------------------------------------------------
// The builder on those tokens
// ---------------------------------------------------------------------------

/// From where it starts, the builder given the tokens of a tree's wrapped
/// movetext builds that tree and its result.
proof fn lemma_tree_run(b: Build, t: Seq<TokModel>, c: Seq<TokModel>, n: NodeModel, r: GameResult)
    requires
        b.st == initial_state(),
        b.root == empty_node(),
        bare_root(n),
        tree_ok(n, 1, false),
        movetext_tokens(t, c, after_words(n, false), r),
    ensures
        run_from(b, t + c, 0, ParseMode::Lenient) matches Ok(x) && x.root == n && x.result == r && x.headers
            == b.headers && x.st.starts.len() == 0,
{
    let aw = after_words(n, false);
    let s2 = nonl(t) + c;
    let gw = tree_game_words(n, r);
    assert(gw == aw + seq![result_word(r), newline_word()]);
    assert forall|k: int| 0 <= k < gw.len() implies #[trigger] s2[0 + k].0 == word_tok(gw[k]) by {
        if k < aw.len() {
            assert(s2[k] == nonl(t)[k]);
        } else {
            assert(s2[k] == c[k - aw.len()]);
        }
    }
    lemma_build_tree_at(b, s2, 0, n, r);
    lemma_run_strip(b, t, c);
}

/// From where it starts, the builder given the tokens of a single line's
/// wrapped movetext builds that line and its result.
proof fn lemma_line_run(b: Build, t: Seq<TokModel>, c: Seq<TokModel>, n: NodeModel, r: GameResult)
    requires
        b.st == initial_state(),
        b.root == empty_node(),
        bare_root(n),
        is_line(n),
        line_ok(n, 1, false),
        movetext_tokens(t, c, line_words(n), r),
    ensures
        run_from(b, t + c, 0, ParseMode::Lenient) matches Ok(x) && x.root == n && x.result == r && x.headers
            == b.headers && x.st.starts.len() == 0,
{
    let lw = line_words(n);
    let s2 = nonl(t) + c;
    let gw = game_words(n, r);
    assert(gw == lw + seq![result_word(r), newline_word()]);
    assert forall|k: int| 0 <= k < gw.len() implies #[trigger] s2[0 + k].0 == word_tok(gw[k]) by {
        if k < lw.len() {
            assert(s2[k] == nonl(t)[k]);
        } else {
            assert(s2[k] == c[k - lw.len()]);
        }
    }
    lemma_build_line_at(b, s2, 0, n, r, ParseMode::Lenient);
    lemma_run_strip(b, t, c);
}

/// The builder reads the tag pairs, then the rest from where they end.
proof fn lemma_tags_then(b0: Build, tt: Seq<TokModel>, rest: Seq<TokModel>, ps: Seq<(Seq<char>, Seq<char>)>) -> (b1: Build)
    requires
        b0 == initial_build(),
        tt.len() == tag_words(ps).len(),
        toks_match(tt, 0, tag_words(ps)),
        pairs_ok(ps),
        distinct_keys(ps),
    ensures
        b1.st == initial_state(),
        b1.root == empty_node(),
        b1.headers == ps,
        ok_of(run_from(b0, tt + rest, 0, ParseMode::Lenient)) == ok_of(run_from(b1, rest, 0, ParseMode::Lenient)),
{
    let toks = tt + rest;
    assert forall|k: int| 0 <= k < tag_words(ps).len() implies #[trigger] toks[0 + k].0 == word_tok(tag_words(ps)[k]) by {
        assert(toks[k] == tt[k]);
        assert(tt[0 + k].0 == word_tok(tag_words(ps)[k]));
    }
    lemma_run_tags(b0, toks, 0, ps, ParseMode::Lenient);
    assert forall|i: int| 0 <= i < ps.len() implies key_absent(b0.headers, #[trigger] ps[i].0) by {
    }
    lemma_read_tags_headers(b0.headers, b0.result, ps);
    assert(b0.headers + ps =~= ps);
    let rt = read_tags(b0.headers, b0.result, ps);
    let b1 = Build { headers: rt.0, result: rt.1, ..b0 };
    let j0 = tag_words(ps).len() as int;
    lemma_run_suffix(b1, toks, j0, ParseMode::Lenient);
    assert(toks.skip(j0) =~= rest);
    b1
}

// ---------------------------------------------------------------------------
// Laws
// ---------------------------------------------------------------------------

/// A game whose moves form a single line, written in standard PGN without
/// tag pairs and wrapped at any line width, reads back (leniently) as the
/// same moves, with their numbers, sides, NAGs and comments, and the same
/// result: for moves that the writer writes as numbered words that read
/// back (each a move without whitespace that the lexer reads as
/// one move token, Black's only right after White's under the same number,
/// the first White's, and each comment without a closing brace or
/// whitespace at its ends, written as it is).
pub proof fn law_line_readback(t: GameTree, o: OutputOptions, r: Result<GameTree, Error>)
    requires
        plain_options(o),
        !o.headers,
        bare_root(t.root@),
        is_line(t.root@),
        line_ok(t.root@, 1, false),
        line_writable(t.root@, o),
        parsed(r, standard_text(&t, o), ParseMode::Lenient, None),
    ensures
        r matches Ok(g) && g.root@ == t.root@ && g.result == t.result && g.headers@.len() == 0,
{
    let n = t.root@;
    let lw = line_words(n);
    lemma_movetext_shape(n, o, t.result);
    assert(movetext(n, t.result) == words_body(lw, t.result) + seq!['\n']);
    let m = trim(std_node(n, o, 0, true)) + (seq![' '] + result_text(t.result));
    assert(m == (m + seq!['\n']).drop_last());
    assert(m =~= words_body(lw, t.result));
    lemma_line_words_good(n, o);
    lemma_line_calm(n, o);
    let tc = lemma_untagged_tokens(t, o, lw);
    lemma_line_run(initial_build(), tc.0, tc.1, n, t.result);
}

/// A game whose moves form a single line, written in standard PGN with its
/// tag pairs and wrapped at any line width, reads back (leniently) as the
/// same moves, with their numbers, sides, NAGs and comments, the same
/// result, and as tag pairs the Seven Tag Roster (each key's value or its
/// default, and the result) followed by the game's other pairs in order:
/// for tag pairs whose keys are names (a letter or underscore, then
/// letters, digits and underscores) and whose values have no quotes or
/// backslashes, and for moves as the law without tag pairs asks.
pub proof fn law_game_readback(t: GameTree, o: OutputOptions, r: Result<GameTree, Error>)
    requires
        plain_options(o),
        o.headers,
        distinct_keys(t.headers@),
        pairs_ok(t.headers@),
        bare_root(t.root@),
        is_line(t.root@),
        line_ok(t.root@, 1, false),
        line_writable(t.root@, o),
        parsed(r, standard_text(&t, o), ParseMode::Lenient, None),
    ensures
        r matches Ok(g) && g.root@ == t.root@ && g.result == t.result && g.headers@ == written_pairs(
            t.headers@,
            t.result,
        ),
{
    let n = t.root@;
    let lw = line_words(n);
    let ps = written_pairs(t.headers@, t.result);
    lemma_movetext_shape(n, o, t.result);
    assert(movetext(n, t.result) == words_body(lw, t.result) + seq!['\n']);
    let m = trim(std_node(n, o, 0, true)) + (seq![' '] + result_text(t.result));
    assert(m == (m + seq!['\n']).drop_last());
    assert(m =~= words_body(lw, t.result));
    lemma_line_words_good(n, o);
    lemma_line_calm(n, o);
    lemma_written_pairs(t.headers@, t.result);
    let tc = lemma_tagged_tokens(t, o, lw);
    let b1 = lemma_tags_then(initial_build(), tc.0, tc.1 + tc.2, ps);
    assert(tc.0 + (tc.1 + tc.2) =~= tc.0 + tc.1 + tc.2);
    lemma_line_run(b1, tc.1, tc.2, n, t.result);
}

/// A game with variations, written in standard PGN with its variations,
/// without tag pairs and wrapped at any line width, reads back (leniently)
/// as the same tree: the same moves in the same order at every node, with
/// their numbers, sides, NAGs and comments, and the same result: for moves
/// that the writer writes as words that read back (each numbered, a move
/// without whitespace that the lexer reads as one move token,
/// with a comment without a closing brace or whitespace at its ends,
/// written as it is) and that alternate sides down every line, Black's
/// under the number of White's before it and the first move of the game
/// White's.
pub proof fn law_tree_readback(t: GameTree, o: OutputOptions, r: Result<GameTree, Error>)
    requires
        plain_options(o),
        o.variations,
        !o.headers,
        bare_root(t.root@),
        tree_ok(t.root@, 1, false),
        tree_writable(t.root@, o),
        parsed(r, standard_text(&t, o), ParseMode::Lenient, None),
    ensures
        r matches Ok(g) && g.root@ == t.root@ && g.result == t.result && g.headers@.len() == 0,
{
    let n = t.root@;
    let aw = after_words(n, false);
    lemma_tree_movetext_shape(n, o, t.result);
    assert(words_movetext(aw, t.result) == words_body(aw, t.result) + seq!['\n']);
    let m = trim(std_node(n, o, 0, true)) + (seq![' '] + result_text(t.result));
    assert(m == (m + seq!['\n']).drop_last());
    assert(m =~= words_body(aw, t.result));
    lemma_after_calm(n, o, false);
    let tc = lemma_untagged_tokens(t, o, aw);
    lemma_tree_run(initial_build(), tc.0, tc.1, n, t.result);
}

/// A game with variations, written in standard PGN with its variations and
/// its tag pairs and wrapped at any line width, reads back (leniently) as
/// the same tree and the same result, and as tag pairs the Seven Tag Roster
/// (each key's value or its default, and the result) followed by the
/// game's other pairs in order: for tag pairs as the law for a single line
/// asks, and for moves as the law for a tree without tag pairs asks.
pub proof fn law_tagged_tree_readback(t: GameTree, o: OutputOptions, r: Result<GameTree, Error>)
    requires
        plain_options(o),
        o.variations,
        o.headers,
        distinct_keys(t.headers@),
        pairs_ok(t.headers@),
        bare_root(t.root@),
        tree_ok(t.root@, 1, false),
        tree_writable(t.root@, o),
        parsed(r, standard_text(&t, o), ParseMode::Lenient, None),
    ensures
        r matches Ok(g) && g.root@ == t.root@ && g.result == t.result && g.headers@ == written_pairs(
            t.headers@,
            t.result,
        ),
{
    let n = t.root@;
    let aw = after_words(n, false);
    let ps = written_pairs(t.headers@, t.result);
    lemma_tree_movetext_shape(n, o, t.result);
    assert(words_movetext(aw, t.result) == words_body(aw, t.result) + seq!['\n']);
    let m = trim(std_node(n, o, 0, true)) + (seq![' '] + result_text(t.result));
    assert(m == (m + seq!['\n']).drop_last());
    assert(m =~= words_body(aw, t.result));
    lemma_after_calm(n, o, false);
    lemma_written_pairs(t.headers@, t.result);
    let tc = lemma_tagged_tokens(t, o, aw);
    let b1 = lemma_tags_then(initial_build(), tc.0, tc.1 + tc.2, ps);
    assert(tc.0 + (tc.1 + tc.2) =~= tc.0 + tc.1 + tc.2);
    lemma_tree_run(b1, tc.1, tc.2, n, t.result);
}

} // verus!
