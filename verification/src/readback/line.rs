//! The builder on the words of a single line: it gives the line back.

use vstd::prelude::*;
use crate::error::ParseMode;
use crate::nag::{dollar_nag, nag_symbol, Nag};
use crate::parser::builder::{after_move_ctx, has_ellipsis, in_prose, initial_build, initial_state, joined, move_number_value, move_parent, move_spec, new_move, newline_spec, next_number, run_from, step_spec, with_comment, with_nags, Build, ParseContext, StateModel, TokModel};
use crate::parser::lexer::{best, has_class, lemma_run_bound, run, step, token_text, CharClass};
use crate::parser::token::{is_move_kind, nag_value_spec, TokKind};
use crate::text::{dec, is_digit, is_ws, lemma_dec_value, parse_unsigned, trim, trim_end, trim_start};
use crate::tree::game::{result_text, GameResult};
use crate::tree::model::{at_path, empty_node, replace_at, valid_path, with_child, NodeModel};
use crate::tree::path::zeros;

verus! {

// ---------------------------------------------------------------------------
// Lines of moves
// ---------------------------------------------------------------------------

/// Whether every node of `n` has at most one child: a single line of moves.
pub open spec fn is_line(n: NodeModel) -> bool
    decreases n,
{
    n.children.len() <= 1 && (n.children.len() == 1 ==> is_line(n.children[0]))
}

/// The number of moves below `n` along its first children.
pub open spec fn line_len(n: NodeModel) -> nat
    decreases n,
{
    if n.children.len() == 0 {
        0
    } else {
        1 + line_len(n.children[0])
    }
}

/// The node `i` moves down the first children of `n`.
pub open spec fn line_at(n: NodeModel, i: nat) -> NodeModel
    decreases i,
{
    if i == 0 || n.children.len() == 0 {
        n
    } else {
        line_at(n.children[0], (i - 1) as nat)
    }
}

/// `n` without its children.
pub open spec fn leaf(n: NodeModel) -> NodeModel {
    NodeModel { children: Seq::empty(), ..n }
}

/// The line of `n` down to depth `i`, with `w` in place of the node there.
pub open spec fn graft(n: NodeModel, i: nat, w: NodeModel) -> NodeModel
    decreases i,
{
    if i == 0 {
        w
    } else {
        NodeModel { children: seq![graft(n.children[0], (i - 1) as nat, w)], ..n }
    }
}

pub(crate) proof fn lemma_zeros_step(i: nat)
    requires
        i > 0,
    ensures
        zeros(i)[0] == 0usize,
        zeros(i).drop_first() == zeros((i - 1) as nat),
        zeros(i).len() == i,
{
    assert(zeros(i).drop_first() =~= zeros((i - 1) as nat));
}

pub(crate) proof fn lemma_zeros_push(i: nat)
    ensures
        zeros(i).push(0usize) == zeros(i + 1),
{
    assert(zeros(i).push(0usize) =~= zeros(i + 1));
}

/// The node at depth `i` of a graft is what was grafted there.
pub(crate) proof fn lemma_graft_at(n: NodeModel, i: nat, w: NodeModel)
    ensures
        valid_path(graft(n, i, w), zeros(i)),
        at_path(graft(n, i, w), zeros(i)) == w,
    decreases i,
{
    if i > 0 {
        lemma_zeros_step(i);
        lemma_graft_at(n.children[0], (i - 1) as nat, w);
    }
}

/// Replacing the node at depth `i` of a graft grafts the new node.
pub(crate) proof fn lemma_graft_replace(n: NodeModel, i: nat, w: NodeModel, v: NodeModel)
    ensures
        replace_at(graft(n, i, w), zeros(i), v) == graft(n, i, v),
    decreases i,
{
    if i > 0 {
        lemma_zeros_step(i);
        lemma_graft_replace(n.children[0], (i - 1) as nat, w, v);
        let g = graft(n, i, w);
        assert(g.children.update(0, graft(n.children[0], (i - 1) as nat, v)) =~= seq![
            graft(n.children[0], (i - 1) as nat, v),
        ]);
    }
}

/// Giving the node at depth `i` one child is grafting that child one level down.
pub(crate) proof fn lemma_graft_deeper(n: NodeModel, i: nat, x: NodeModel)
    requires
        i < line_len(n),
    ensures
        graft(n, i, NodeModel { children: seq![x], ..line_at(n, i) }) == graft(n, i + 1, x),
    decreases i,
{
    let y = NodeModel { children: seq![x], ..line_at(n, i) };
    if i == 0 {
        assert(graft(n.children[0], 0, x) == x);
        assert(graft(n, 1, x) == NodeModel { children: seq![x], ..n });
    } else {
        assert(n.children.len() > 0);
        assert(line_at(n, i) == line_at(n.children[0], (i - 1) as nat));
        lemma_graft_deeper(n.children[0], (i - 1) as nat, x);
        assert(graft(n, i + 1, x) == NodeModel {
            children: seq![graft(n.children[0], i, x)],
            ..n
        });
    }
}

/// A line is its own graft of its last node.
pub(crate) proof fn lemma_graft_whole(n: NodeModel)
    requires
        is_line(n),
    ensures
        graft(n, line_len(n), leaf(line_at(n, line_len(n)))) == n,
    decreases n,
{
    if n.children.len() == 0 {
        assert(n.children =~= Seq::<NodeModel>::empty());
    } else {
        lemma_graft_whole(n.children[0]);
        assert(seq![n.children[0]] =~= n.children);
    }
}


// ---------------------------------------------------------------------------
// The words of a line, and what the builder makes of them
// ---------------------------------------------------------------------------

/// A word as the lexer reads it: its kind, and the word.
pub type Word = (TokKind, Seq<char>);

/// The kind of token a move is read as: what the lexer finds at its start
/// where a space follows it.
pub open spec fn move_kind(san: Seq<char>) -> TokKind {
    best(san.push(' '), 0).0
}

/// The kind of token a NAG symbol is read as.
pub open spec fn symbol_kind(v: u8) -> TokKind {
    if v == 1 { TokKind::Bang }
    else if v == 2 { TokKind::Question }
    else if v == 3 { TokKind::DoubleBang }
    else if v == 4 { TokKind::DoubleQuestion }
    else if v == 5 { TokKind::BangQuestion }
    else if v == 6 { TokKind::QuestionBang }
    else if v == 10 { TokKind::Equal }
    else if v == 14 { TokKind::WhiteSlightlyBetter }
    else if v == 15 { TokKind::BlackSlightlyBetter }
    else if v == 16 { TokKind::WhiteBetter }
    else if v == 17 { TokKind::BlackBetter }
    else if v == 18 { TokKind::WhiteWinning }
    else { TokKind::BlackWinning }
}

/// A NAG as a word: its symbol, or `$N`.
pub open spec fn nag_word(v: u8) -> Word {
    match nag_symbol(v) {
        Some(sym) => (symbol_kind(v), sym),
        None => (TokKind::Nag, seq!['$'] + dec(v as nat)),
    }
}

pub open spec fn nag_words(g: Seq<Nag>) -> Seq<Word>
    decreases g.len(),
{
    if g.len() == 0 {
        Seq::empty()
    } else {
        seq![nag_word(g[0].0)] + nag_words(g.drop_first())
    }
}

/// The words of a move: its number where it is White's, the move, its
/// NAGs, and its comment in braces where it has one.
pub open spec fn head_words(c: NodeModel) -> Seq<Word> {
    (if c.is_black {
        Seq::empty()
    } else {
        seq![(TokKind::MoveNumber, dec(c.move_number->0 as nat).push('.'))]
    }) + seq![(move_kind(c.san), c.san)] + nag_words(c.nags) + (if c.comment.len() > 0 {
        seq![(TokKind::BraceComment, seq!['{', ' '] + c.comment + seq![' ', '}'])]
    } else {
        Seq::empty()
    })
}

/// The words of the moves below `n` along its first children.
pub open spec fn line_words(n: NodeModel) -> Seq<Word>
    decreases n,
{
    if n.children.len() == 0 {
        Seq::empty()
    } else {
        head_words(n.children[0]) + line_words(n.children[0])
    }
}

/// The token a word is read as.
pub open spec fn word_tok(w: Word) -> (TokKind, Seq<char>) {
    (w.0, token_text(w.0, w.1, 0, w.1.len() as int))
}

/// Whether the tokens from `j` on start with the tokens of `ws`.
pub open spec fn toks_match(toks: Seq<TokModel>, j: int, ws: Seq<Word>) -> bool {
    &&& 0 <= j
    &&& j + ws.len() <= toks.len()
    &&& forall|k: int| 0 <= k < ws.len() ==> #[trigger] toks[j + k].0 == word_tok(ws[k])
}

/// The number and side the builder gives the move after `c`.
pub open spec fn number_after(c: NodeModel) -> u16 {
    if c.is_black { next_number(c.move_number->0) } else { c.move_number->0 }
}

/// A move the builder can give back from its words, when the number and
/// side it counts are `number` and `black`: it is numbered, Black's only
/// right after White's under the same number, read as a move, and its
/// comment has no whitespace at its ends.
pub open spec fn move_ok(c: NodeModel, number: u16, black: bool) -> bool {
    &&& c.move_number is Some
    &&& c.is_black ==> black && c.move_number == Some(number)
    &&& is_move_kind(move_kind(c.san))
    &&& c.comment.len() > 0 ==> !is_ws(c.comment[0]) && !is_ws(c.comment.last())
}

/// Every move of the line below `n` is one the builder can give back.
pub open spec fn line_ok(n: NodeModel, number: u16, black: bool) -> bool
    decreases n,
{
    n.children.len() == 0 || (move_ok(n.children[0], number, black) && line_ok(
        n.children[0],
        number_after(n.children[0]),
        !n.children[0].is_black,
    ))
}

/// The builder standing on the move at depth `i`, counting `number` and
/// `black`, with nothing pending and no variation open.
pub open spec fn at_depth(st: StateModel, i: nat, number: u16, black: bool) -> bool {
    &&& st.path == zeros(i)
    &&& st.stack.len() == 0
    &&& st.starts.len() == 0
    &&& st.comment.len() == 0
    &&& st.nags.len() == 0
    &&& st.number == number
    &&& st.black == black
    &&& !in_prose(st)
    &&& !st.pop
}

/// A move number written for White reads as that number, without an ellipsis.
pub(crate) proof fn lemma_number_word(k: u16)
    ensures
        move_number_value(dec(k as nat).push('.')) == Some(k),
        !has_ellipsis(dec(k as nat).push('.')),
{
    let d = dec(k as nat);
    lemma_dec_value(k as nat);
    let t = d.push('.');
    lemma_run_bound(t, 0, CharClass::Digit);
    let r = run(t, 0, CharClass::Digit);
    assert forall|j: int| 0 <= j < d.len() implies #[trigger] has_class(t, j, CharClass::Digit) by {
        assert(t[j] == d[j]);
        assert(is_digit(d[j]));
    }
    assert(t[d.len() as int] == '.');
    if r > d.len() {
        assert(has_class(t, d.len() as int, CharClass::Digit));
    }
    if r < d.len() {
        assert(has_class(t, r as int, CharClass::Digit));
    }
    assert(t.take(r as int) =~= d);
    assert(is_digit(d[0]));
    assert forall|i: int| 0 <= i && i + 3 <= t.len() implies !(#[trigger] t[i] == '.' && t[i + 1] == '.' && t[i + 2] == '.') by {
        assert(t[i] == d[i]);
        assert(is_digit(d[i]));
    }
}

/// A NAG word reads back as its value.
pub(crate) proof fn lemma_nag_word(v: u8)
    ensures
        (if nag_word(v).0 == TokKind::Nag {
            dollar_nag(word_tok(nag_word(v)).1)
        } else {
            nag_value_spec(word_tok(nag_word(v)))
        }) == Some(v),
        nag_word(v).0 == TokKind::Nag || nag_word(v).0 == TokKind::Bang || nag_word(v).0 == TokKind::Question
            || nag_word(v).0 == TokKind::DoubleBang || nag_word(v).0 == TokKind::DoubleQuestion
            || nag_word(v).0 == TokKind::BangQuestion || nag_word(v).0 == TokKind::QuestionBang
            || nag_word(v).0 == TokKind::Equal || nag_word(v).0 == TokKind::WhiteSlightlyBetter
            || nag_word(v).0 == TokKind::BlackSlightlyBetter || nag_word(v).0 == TokKind::WhiteBetter
            || nag_word(v).0 == TokKind::BlackBetter || nag_word(v).0 == TokKind::WhiteWinning
            || nag_word(v).0 == TokKind::BlackWinning,
{
    if nag_symbol(v) is None {
        let w = seq!['$'] + dec(v as nat);
        lemma_dec_value(v as nat);
        assert(word_tok(nag_word(v)).1 == w.subrange(0, w.len() as int));
        assert(w.subrange(0, w.len() as int) =~= w);
        assert(w.drop_first() =~= dec(v as nat));
        assert(is_digit(dec(v as nat)[0]));
        assert(parse_unsigned(w.drop_first(), 255) == Some(v as nat));
    }
}

/// The builder's step on a NAG word: the NAG joins those of the current move.
pub(crate) proof fn lemma_step_nag(b: Build, t: TokModel, v: u8, n: NodeModel, i: nat, w: NodeModel, mode: ParseMode)
    requires
        b.st.path == zeros(i + 1),
        b.root == graft(n, i + 1, w),
        t.0 == word_tok(nag_word(v)),
    ensures
        step_spec(b, t, mode) == Some(Build {
            root: graft(n, i + 1, with_nags(w, w.nags.push(Nag(v)))),
            ..b
        }),
{
    lemma_nag_word(v);
    lemma_graft_at(n, i + 1, w);
    lemma_graft_replace(n, i + 1, w, with_nags(w, w.nags.push(Nag(v))));
}

pub(crate) proof fn lemma_nag_words_len(g: Seq<Nag>)
    ensures
        nag_words(g).len() == g.len(),
    decreases g.len(),
{
    if g.len() > 0 {
        lemma_nag_words_len(g.drop_first());
    }
}

/// The builder's run over the words of some NAGs: they join those of the
/// current move, in order.
pub(crate) proof fn lemma_run_nags(b: Build, toks: Seq<TokModel>, j: int, g: Seq<Nag>, n: NodeModel, i: nat, w: NodeModel, mode: ParseMode)
    requires
        b.st.path == zeros(i + 1),
        b.root == graft(n, i + 1, w),
        toks_match(toks, j, nag_words(g)),
    ensures
        run_from(b, toks, j, mode) == run_from(
            Build { root: graft(n, i + 1, with_nags(w, w.nags + g)), ..b },
            toks,
            j + g.len(),
            mode,
        ),
    decreases g.len(),
{
    lemma_nag_words_len(g);
    if g.len() == 0 {
        assert(w.nags + g =~= w.nags);
        assert(with_nags(w, w.nags) == w);
    } else {
        let v = g[0].0;
        assert(g[0] == Nag(v));
        assert(nag_words(g)[0] == nag_word(v));
        assert(toks[j + 0].0 == word_tok(nag_words(g)[0]));
        lemma_step_nag(b, toks[j], v, n, i, w, mode);
        let w2 = with_nags(w, w.nags.push(Nag(v)));
        let b2 = Build { root: graft(n, i + 1, w2), ..b };
        let rest = g.drop_first();
        assert forall|k: int| 0 <= k < nag_words(rest).len() implies #[trigger] toks[(j + 1) + k].0 == word_tok(nag_words(rest)[k]) by {
            assert(nag_words(g)[k + 1] == nag_words(rest)[k]);
            assert(toks[j + (k + 1)].0 == word_tok(nag_words(g)[k + 1]));
        }
        lemma_nag_words_len(rest);
        lemma_run_nags(b2, toks, j + 1, rest, n, i, w2, mode);
        assert(w2.nags + rest =~= w.nags + g);
    }
}

pub(crate) proof fn lemma_line_at_next(n: NodeModel, i: nat)
    requires
        i < line_len(n),
    ensures
        line_at(n, i).children.len() > 0,
        line_at(n, i + 1) == line_at(n, i).children[0],
        i + 1 < line_len(n) ==> line_at(n, i + 1).children.len() > 0,
    decreases i,
{
    assert(n.children.len() > 0);
    if i == 0 {
        assert(line_at(n, 1) == line_at(n.children[0], 0));
        if 1 < line_len(n) {
            assert(line_len(n.children[0]) > 0);
        }
    } else {
        assert(line_at(n, i + 1) == line_at(n.children[0], i));
        assert(line_at(n, i) == line_at(n.children[0], (i - 1) as nat));
        lemma_line_at_next(n.children[0], (i - 1) as nat);
    }
}

/// The node a move's words make before its NAGs and comment.
pub open spec fn bare_move(c: NodeModel) -> NodeModel {
    NodeModel {
        san: c.san,
        move_number: c.move_number,
        is_black: c.is_black,
        comment: Seq::empty(),
        nags: Seq::empty(),
        children: Seq::empty(),
    }
}

pub(crate) proof fn lemma_trim_padded(c: Seq<char>)
    requires
        c.len() > 0,
        !is_ws(c[0]) && !is_ws(c.last()),
    ensures
        trim(seq![' '] + c + seq![' ']) == c,
{
    let t = seq![' '] + c + seq![' '];
    assert(is_ws(' '));
    assert(t.drop_first() =~= c + seq![' ']);
    assert(trim_start(c + seq![' ']) == c + seq![' ']);
    assert(trim_start(t) == c + seq![' ']);
    assert((c + seq![' ']).drop_last() =~= c);
    assert(trim_end(c) == c);
    assert(trim_end(c + seq![' ']) == c);
}

/// The builder's step on a move's word: the move becomes the only child of
/// the current one, and the current move.
pub(crate) proof fn lemma_step_move(b: Build, t: TokModel, n: NodeModel, i: nat, mode: ParseMode)
    requires
        i < line_len(n),
        b.st.path == zeros(i),
        !in_prose(b.st),
        !b.st.pop,
        b.st.comment.len() == 0,
        b.st.nags.len() == 0,
        b.root == graft(n, i, leaf(line_at(n, i))),
        t.0 == word_tok((move_kind(line_at(n, i + 1).san), line_at(n, i + 1).san)),
        is_move_kind(move_kind(line_at(n, i + 1).san)),
        line_at(n, i + 1).move_number == Some(b.st.number),
        line_at(n, i + 1).is_black == b.st.black,
    ensures
        step_spec(b, t, mode) == Some(Build {
            st: StateModel {
                path: zeros(i + 1),
                number: if b.st.black { next_number(b.st.number) } else { b.st.number },
                black: !b.st.black,
                ctx: after_move_ctx(b.st.ctx),
                pop: false,
                ..b.st
            },
            root: graft(n, i + 1, bare_move(line_at(n, i + 1))),
            ..b
        }),
{
    let c = line_at(n, i + 1);
    let k = move_kind(c.san);
    assert(c.san.subrange(0, c.san.len() as int) =~= c.san);
    assert(t.0.1 == c.san);
    lemma_line_at_next(n, i);
    let ni = line_at(n, i);
    lemma_graft_at(n, i, leaf(ni));
    assert(move_parent(b.st) == zeros(i));
    let parent = at_path(b.root, zeros(i));
    assert(parent == leaf(ni));
    lemma_zeros_push(i);
    assert(b.st.comment =~= Seq::<char>::empty());
    assert(b.st.nags =~= Seq::<Nag>::empty());
    assert(new_move(b.st, c.san) == bare_move(c));
    let grown = with_child(parent, bare_move(c));
    assert(grown == NodeModel { children: seq![bare_move(c)], ..ni }) by {
        assert(parent.children.push(bare_move(c)) =~= seq![bare_move(c)]);
    }
    lemma_graft_replace(n, i, leaf(ni), grown);
    lemma_graft_deeper(n, i, bare_move(c));
    assert(move_spec(b.st, b.root, c.san).1 == graft(n, i + 1, bare_move(c)));
}

pub(crate) proof fn lemma_run_step(b: Build, toks: Seq<TokModel>, j: int, b2: Build, mode: ParseMode)
    requires
        0 <= j < toks.len(),
        step_spec(b, toks[j], mode) == Some(b2),
    ensures
        run_from(b, toks, j, mode) == run_from(b2, toks, j + 1, mode),
{
}

/// The builder's step on White's move number: the number, White to move.
pub(crate) proof fn lemma_step_number(b: Build, t: TokModel, k: u16, mode: ParseMode)
    requires
        !in_prose(b.st),
        t.0 == word_tok((TokKind::MoveNumber, dec(k as nat).push('.'))),
    ensures
        step_spec(b, t, mode) == Some(Build {
            st: StateModel {
                number: k,
                black: false,
                ctx: ParseContext::ExpectingMoves { remaining: 2 },
                ..b.st
            },
            ..b
        }),
{
    let word = dec(k as nat).push('.');
    assert(word.subrange(0, word.len() as int) =~= word);
    lemma_number_word(k);
}

/// The builder's step on a comment in braces: it becomes the comment of the
/// current move.
pub(crate) proof fn lemma_step_comment(b: Build, t: TokModel, n: NodeModel, i: nat, w: NodeModel, c: Seq<char>, mode: ParseMode)
    requires
        b.st.path == zeros(i + 1),
        b.root == graft(n, i + 1, w),
        w.comment.len() == 0,
        c.len() > 0,
        !is_ws(c[0]) && !is_ws(c.last()),
        t.0 == word_tok((TokKind::BraceComment, seq!['{', ' '] + c + seq![' ', '}'])),
    ensures
        step_spec(b, t, mode) == Some(Build { root: graft(n, i + 1, with_comment(w, c)), ..b }),
{
    let word = seq!['{', ' '] + c + seq![' ', '}'];
    assert(word.subrange(1, word.len() - 1) =~= seq![' '] + c + seq![' ']);
    lemma_trim_padded(c);
    lemma_graft_at(n, i + 1, w);
    assert(joined(w.comment, c, true) =~= c);
    lemma_graft_replace(n, i + 1, w, with_comment(w, c));
}

/// The builder's run over the words of one move gives the move back, with
/// its number, side, NAGs and comment, as the only child of the move before.
#[verifier::spinoff_prover]
#[verifier::rlimit(40)]
pub(crate) proof fn lemma_run_head(
    b: Build,
    toks: Seq<TokModel>,
    j: int,
    n: NodeModel,
    i: nat,
    number: u16,
    black: bool,
    mode: ParseMode,
) -> (st: StateModel)
    requires
        i < line_len(n),
        at_depth(b.st, i, number, black),
        b.root == graft(n, i, leaf(line_at(n, i))),
        move_ok(line_at(n, i + 1), number, black),
        toks_match(toks, j, head_words(line_at(n, i + 1))),
    ensures
        at_depth(st, i + 1, number_after(line_at(n, i + 1)), !line_at(n, i + 1).is_black),
        run_from(b, toks, j, mode) == run_from(
            Build { st: st, root: graft(n, i + 1, leaf(line_at(n, i + 1))), ..b },
            toks,
            j + head_words(line_at(n, i + 1)).len(),
            mode,
        ),
{
    let c = line_at(n, i + 1);
    let k = c.move_number->0;
    let numw: Seq<Word> = if c.is_black {
        Seq::empty()
    } else {
        seq![(TokKind::MoveNumber, dec(k as nat).push('.'))]
    };
    let mw = seq![(move_kind(c.san), c.san)];
    let nw = nag_words(c.nags);
    let cw: Seq<Word> = if c.comment.len() > 0 {
        seq![(TokKind::BraceComment, seq!['{', ' '] + c.comment + seq![' ', '}'])]
    } else {
        Seq::empty()
    };
    let hw = head_words(c);
    assert(hw == numw + mw + nw + cw);
    let m0 = numw.len() as int;
    lemma_nag_words_len(c.nags);
    // The move number, for White.
    let b1 = if c.is_black {
        b
    } else {
        Build {
            st: StateModel {
                number: k,
                black: false,
                ctx: ParseContext::ExpectingMoves { remaining: 2 },
                ..b.st
            },
            ..b
        }
    };
    if !c.is_black {
        assert(toks[j + 0].0 == word_tok(hw[0]));
        assert(hw[0] == numw[0]);
        lemma_step_number(b, toks[j], k, mode);
        lemma_run_step(b, toks, j, b1, mode);
    }
    assert(run_from(b, toks, j, mode) == run_from(b1, toks, j + m0, mode));
    // The move.
    assert(toks[j + m0].0 == word_tok(hw[m0]));
    assert(hw[m0] == (move_kind(c.san), c.san));
    lemma_step_move(b1, toks[j + m0], n, i, mode);
    let st2 = StateModel {
        path: zeros(i + 1),
        number: if b1.st.black { next_number(b1.st.number) } else { b1.st.number },
        black: !b1.st.black,
        ctx: after_move_ctx(b1.st.ctx),
        pop: false,
        ..b1.st
    };
    let w = bare_move(c);
    let b2 = Build { st: st2, root: graft(n, i + 1, w), ..b1 };
    lemma_run_step(b1, toks, j + m0, b2, mode);
    // The NAGs.
    assert forall|q: int| 0 <= q < nw.len() implies #[trigger] toks[(j + m0 + 1) + q].0 == word_tok(nw[q]) by {
        assert(hw[m0 + 1 + q] == nw[q]);
        assert(toks[j + (m0 + 1 + q)].0 == word_tok(hw[m0 + 1 + q]));
    }
    lemma_run_nags(b2, toks, j + m0 + 1, c.nags, n, i, w, mode);
    let w3 = with_nags(w, w.nags + c.nags);
    assert(w.nags + c.nags =~= c.nags);
    let b3 = Build { root: graft(n, i + 1, w3), ..b2 };
    let e3 = j + m0 + 1 + c.nags.len();
    assert(run_from(b, toks, j, mode) == run_from(b3, toks, e3, mode));
    // The comment.
    if c.comment.len() > 0 {
        let q = m0 + 1 + c.nags.len();
        assert(hw[q] == cw[0]);
        assert(toks[j + q].0 == word_tok(hw[q]));
        lemma_step_comment(b3, toks[e3], n, i, w3, c.comment, mode);
        assert(with_comment(w3, c.comment) == leaf(c));
        lemma_run_step(b3, toks, e3, Build { root: graft(n, i + 1, leaf(c)), ..b3 }, mode);
    } else {
        assert(c.comment =~= Seq::<char>::empty());
        assert(w3 == leaf(c));
    }
    st2
}

pub(crate) proof fn lemma_line_end(n: NodeModel)
    ensures
        line_at(n, line_len(n)).children.len() == 0,
    decreases n,
{
    if n.children.len() > 0 {
        lemma_line_end(n.children[0]);
    }
}

/// The builder's run over the words of the line below the move at depth
/// `i` gives the rest of the line back.
pub(crate) proof fn lemma_run_line(
    b: Build,
    toks: Seq<TokModel>,
    j: int,
    n: NodeModel,
    i: nat,
    number: u16,
    black: bool,
    mode: ParseMode,
) -> (st: StateModel)
    requires
        i <= line_len(n),
        at_depth(b.st, i, number, black),
        b.root == graft(n, i, leaf(line_at(n, i))),
        line_ok(line_at(n, i), number, black),
        toks_match(toks, j, line_words(line_at(n, i))),
    ensures
        st.stack.len() == 0 && st.starts.len() == 0 && !in_prose(st),
        run_from(b, toks, j, mode) == run_from(
            Build { st: st, root: graft(n, line_len(n), leaf(line_at(n, line_len(n)))), ..b },
            toks,
            j + line_words(line_at(n, i)).len(),
            mode,
        ),
    decreases line_len(n) - i,
{
    if i == line_len(n) {
        lemma_line_end(n);
        assert(line_words(line_at(n, i)) =~= Seq::<Word>::empty());
        b.st
    } else {
        lemma_line_at_next(n, i);
        let ni = line_at(n, i);
        let c = line_at(n, i + 1);
        assert(c == ni.children[0]);
        assert(line_words(ni) == head_words(c) + line_words(c));
        let hw = head_words(c);
        assert forall|k: int| 0 <= k < hw.len() implies #[trigger] toks[j + k].0 == word_tok(hw[k]) by {
            assert(line_words(ni)[k] == hw[k]);
        }
        let st1 = lemma_run_head(b, toks, j, n, i, number, black, mode);
        let b1 = Build { st: st1, root: graft(n, i + 1, leaf(c)), ..b };
        let lw = line_words(c);
        assert forall|k: int| 0 <= k < lw.len() implies #[trigger] toks[(j + hw.len()) + k].0 == word_tok(lw[k]) by {
            assert(line_words(ni)[hw.len() + k] == lw[k]);
            assert(toks[j + (hw.len() + k)].0 == word_tok(line_words(ni)[hw.len() + k]));
        }
        lemma_run_line(b1, toks, j + hw.len(), n, i + 1, number_after(c), !c.is_black, mode)
    }
}

/// How a result is written, as a word.
pub open spec fn result_word(r: GameResult) -> Word {
    (
        match r {
            GameResult::WhiteWins => TokKind::WhiteWins,
            GameResult::BlackWins => TokKind::BlackWins,
            GameResult::Draw => TokKind::Draw,
            GameResult::Ongoing => TokKind::Ongoing,
        },
        result_text(r),
    )
}

/// The words of a game whose moves form a single line: its moves, its
/// result, and the newline that ends it.
pub open spec fn game_words(n: NodeModel, r: GameResult) -> Seq<Word> {
    line_words(n) + seq![result_word(r), (TokKind::Newline, seq!['\n'])]
}

/// Whether `n` is a root with nothing of its own: no move, number, comment or NAGs.
pub open spec fn bare_root(n: NodeModel) -> bool {
    leaf(n) == empty_node()
}

/// From index `j0` on, the builder, standing where it starts but with some
/// tag pairs and a result already read, given the tokens of a single line,
/// its result and a newline, builds that line and that result, keeping the
/// tag pairs and leaving nothing open.
pub(crate) proof fn lemma_build_line_at(b0: Build, toks: Seq<TokModel>, j0: int, n: NodeModel, r: GameResult, mode: ParseMode)
    requires
        b0.st == initial_state(),
        b0.root == empty_node(),
        bare_root(n),
        is_line(n),
        line_ok(n, 1, false),
        toks.len() == j0 + game_words(n, r).len(),
        toks_match(toks, j0, game_words(n, r)),
    ensures
        run_from(b0, toks, j0, mode) matches Ok(b) && b.root == n && b.result == r && b.headers == b0.headers
            && b.st.starts.len() == 0,
{
    assert(initial_state().path =~= zeros(0));
    assert(at_depth(b0.st, 0, 1, false));
    assert(graft(n, 0, leaf(line_at(n, 0))) == leaf(n));
    let lw = line_words(n);
    assert(line_at(n, 0) == n);
    assert forall|k: int| 0 <= k < lw.len() implies #[trigger] toks[j0 + k].0 == word_tok(lw[k]) by {
        assert(game_words(n, r)[k] == lw[k]);
    }
    let st = lemma_run_line(b0, toks, j0, n, 0, 1, false, mode);
    lemma_graft_whole(n);
    let b1 = Build { st: st, root: n, ..b0 };
    let e = j0 + lw.len();
    assert(toks[j0 + lw.len()].0 == word_tok(game_words(n, r)[lw.len() as int]));
    assert(game_words(n, r)[lw.len() as int] == result_word(r));
    let b2 = Build { result: r, ..b1 };
    assert(step_spec(b1, toks[e], mode) == Some(b2));
    lemma_run_step(b1, toks, e, b2, mode);
    assert(toks[j0 + (lw.len() + 1)].0 == word_tok(game_words(n, r)[lw.len() + 1int]));
    assert(newline_spec(st) == st);
    assert(step_spec(b2, toks[e + 1], mode) == Some(b2));
    lemma_run_step(b2, toks, e + 1, b2, mode);
    assert(run_from(b2, toks, e + 2, mode) == Ok::<Build, int>(b2));
}

/// The builder, given the tokens of a game whose moves form a single line
/// (its move numbers, moves, NAGs and comments in braces, its result, and
/// a newline), builds that line and that result, with no tag pairs and
/// nothing left open.
pub proof fn law_build_line(toks: Seq<TokModel>, n: NodeModel, r: GameResult, mode: ParseMode)
    requires
        bare_root(n),
        is_line(n),
        line_ok(n, 1, false),
        toks.len() == game_words(n, r).len(),
        toks_match(toks, 0, game_words(n, r)),
    ensures
        run_from(initial_build(), toks, 0, mode) matches Ok(b) && b.root == n && b.result == r
            && b.headers.len() == 0 && b.st.starts.len() == 0,
{
    lemma_build_line_at(initial_build(), toks, 0, n, r, mode);
}

} // verus!
