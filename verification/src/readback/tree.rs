//! The builder on the words of a whole tree: moves, variations in
//! parentheses, and the main line resumed after them.

use vstd::prelude::*;
use crate::error::ParseMode;
use crate::nag::Nag;
use crate::parser::builder::{after_move_ctx, has_ellipsis, in_prose, move_number_value, move_parent, new_move, next_number, run_from, step_spec, var_end_spec, with_comment, with_nags, Build, ParseContext, StateModel, TokModel};
use crate::parser::token::{is_move_kind, TokKind};
use crate::readback::line::{bare_move, lemma_nag_word, lemma_nag_words_len, lemma_run_step, move_kind, nag_word, nag_words, number_after, toks_match, word_tok, Word};
use crate::readback::line::{bare_root, leaf, lemma_trim_padded, result_word};
use crate::parser::builder::{initial_state, newline_spec};
use crate::parser::lexer::{best, best_upto, kind_len};
use crate::tree::game::GameResult;
use crate::tree::model::empty_node;
use crate::readback::words::{good_word, lemma_good_brace, lemma_good_move, lemma_good_number, spaced};
use crate::readback::write::{lemma_nag_words_good, lemma_nags_spaced, lemma_spaced_add, move_writable, plain_options};
use crate::readback::write::{lemma_trim_spaced, words_movetext};
use crate::tree::game::result_text;
use crate::tree::model::is_root_model;
use crate::serializer::options::OutputOptions;
use crate::serializer::standard::{nags_text, number_text, std_after, std_cut, std_head, std_node, std_vars};
use crate::readback::words::brace_text;
use crate::parser::lexer::{has_class, lemma_run_bound, run, CharClass};
use crate::text::{dec, is_digit, is_ws, lemma_dec_value, trim};
use crate::tree::model::{at_path, lemma_replace_at_path, replace_at, valid_path, with_child, NodeModel};

verus! {

// ---------------------------------------------------------------------------
// Replacing along paths
// ---------------------------------------------------------------------------

/// Below a replaced node, its children are where the new node has them,
/// and replacing one of them is replacing the node with that child changed.
proof fn lemma_replace_child(r: NodeModel, p: Seq<usize>, x: NodeModel, k: usize, y: NodeModel)
    requires
        valid_path(r, p),
        k < x.children.len(),
    ensures
        valid_path(replace_at(r, p, x), p.push(k)),
        at_path(replace_at(r, p, x), p.push(k)) == x.children[k as int],
        replace_at(replace_at(r, p, x), p.push(k), y) == replace_at(
            r,
            p,
            NodeModel { children: x.children.update(k as int, y), ..x },
        ),
    decreases p.len(),
{
    if p.len() == 0 {
        let q = p.push(k);
        assert(q =~= seq![k]);
        assert(q.drop_first() =~= Seq::<usize>::empty());
        assert(valid_path(x.children[k as int], q.drop_first()));
        assert(at_path(x.children[k as int], q.drop_first()) == x.children[k as int]);
        assert(replace_at(x.children[k as int], q.drop_first(), y) == y);
    } else {
        let c = r.children[p[0] as int];
        let d = p.drop_first();
        lemma_replace_child(c, d, x, k, y);
        assert(p.push(k).drop_first() =~= d.push(k));
        assert(p.push(k)[0] == p[0]);
        let rx = replace_at(r, p, x);
        assert(rx.children[p[0] as int] == replace_at(c, d, x));
        assert(replace_at(rx, p.push(k), y).children =~= replace_at(
            r,
            p,
            NodeModel { children: x.children.update(k as int, y), ..x },
        ).children);
    }
}

/// Replacing twice at the same place keeps the second.
proof fn lemma_replace_twice(r: NodeModel, p: Seq<usize>, x: NodeModel, y: NodeModel)
    requires
        valid_path(r, p),
    ensures
        replace_at(replace_at(r, p, x), p, y) == replace_at(r, p, y),
    decreases p.len(),
{
    if p.len() > 0 {
        let c = r.children[p[0] as int];
        lemma_replace_twice(c, p.drop_first(), x, y);
        assert(replace_at(replace_at(r, p, x), p, y).children =~= replace_at(r, p, y).children);
    }
}

// ---------------------------------------------------------------------------
// The words of a move, numbered where asked
// ---------------------------------------------------------------------------

/// A move's number as written: "N." for White, "N..." for Black.
pub open spec fn number_word(c: NodeModel) -> Word {
    (
        TokKind::MoveNumber,
        dec(c.move_number->0 as nat) + if c.is_black { seq!['.', '.', '.'] } else { seq!['.'] },
    )
}

/// The words of a move: its number where `force` is set or it is White's,
/// the move, its NAGs, and its comment in braces where it has one.
pub open spec fn move_words(c: NodeModel, force: bool) -> Seq<Word> {
    (if force || !c.is_black { seq![number_word(c)] } else { Seq::empty() }) + seq![(move_kind(c.san), c.san)]
        + nag_words(c.nags) + (if c.comment.len() > 0 {
        seq![(TokKind::BraceComment, seq!['{', ' '] + c.comment + seq![' ', '}'])]
    } else {
        Seq::empty()
    })
}

/// A written move number reads as its number, with an ellipsis for Black.
proof fn lemma_number_value(c: NodeModel)
    requires
        c.move_number is Some,
    ensures
        move_number_value(word_tok(number_word(c)).1) == c.move_number,
        has_ellipsis(word_tok(number_word(c)).1) == c.is_black,
{
    let k = c.move_number->0;
    let d = dec(k as nat);
    lemma_dec_value(k as nat);
    let t = number_word(c).1;
    assert(t.subrange(0, t.len() as int) =~= t);
    assert(t[d.len() as int] == '.');
    lemma_run_bound(t, 0, CharClass::Digit);
    let r = run(t, 0, CharClass::Digit);
    assert forall|j: int| 0 <= j < d.len() implies #[trigger] has_class(t, j, CharClass::Digit) by {
        assert(t[j] == d[j]);
        assert(is_digit(d[j]));
    }
    if r > d.len() {
        assert(has_class(t, d.len() as int, CharClass::Digit));
    }
    if r < d.len() {
        assert(has_class(t, r as int, CharClass::Digit));
    }
    assert(t.take(r as int) =~= d);
    assert(is_digit(d[0]));
    if c.is_black {
        assert(t[d.len() + 1int] == '.' && t[d.len() + 2int] == '.');
    } else {
        assert forall|i: int| 0 <= i && i + 3 <= t.len() implies !(#[trigger] t[i] == '.' && t[i + 1] == '.' && t[i + 2] == '.') by {
            assert(t[i] == d[i]);
            assert(is_digit(d[i]));
        }
    }
}

/// The builder standing with nothing pending, not in prose, no variation
/// just opened.
pub open spec fn settled(st: StateModel) -> bool {
    &&& st.comment.len() == 0
    &&& st.nags.len() == 0
    &&& !in_prose(st)
    &&& !st.pop
}

proof fn lemma_step_number(b: Build, t: TokModel, c: NodeModel, mode: ParseMode)
    requires
        !in_prose(b.st),
        c.move_number is Some,
        t.0 == word_tok(number_word(c)),
    ensures
        step_spec(b, t, mode) == Some(Build {
            st: StateModel {
                number: c.move_number->0,
                black: c.is_black,
                ctx: ParseContext::ExpectingMoves { remaining: if c.is_black { 1 } else { 2 } },
                ..b.st
            },
            ..b
        }),
{
    lemma_number_value(c);
}

/// The builder's step on a move's word: the move becomes the last child of
/// the node it goes under, and the current move.
proof fn lemma_step_move(b: Build, t: TokModel, pp: Seq<usize>, c: NodeModel, mode: ParseMode)
    requires
        move_parent(b.st) == pp,
        valid_path(b.root, pp),
        !in_prose(b.st),
        b.st.comment.len() == 0,
        b.st.nags.len() == 0,
        c.move_number == Some(b.st.number),
        c.is_black == b.st.black,
        is_move_kind(move_kind(c.san)),
        t.0 == word_tok((move_kind(c.san), c.san)),
    ensures
        step_spec(b, t, mode) == Some(Build {
            st: StateModel {
                path: pp.push(at_path(b.root, pp).children.len() as usize),
                number: if b.st.black { next_number(b.st.number) } else { b.st.number },
                black: !b.st.black,
                ctx: after_move_ctx(b.st.ctx),
                pop: false,
                comment: Seq::empty(),
                nags: Seq::empty(),
                ..b.st
            },
            root: replace_at(b.root, pp, with_child(at_path(b.root, pp), bare_move(c))),
            ..b
        }),
{
    assert(c.san.subrange(0, c.san.len() as int) =~= c.san);
    assert(b.st.comment =~= Seq::<char>::empty());
    assert(b.st.nags =~= Seq::<Nag>::empty());
    assert(new_move(b.st, c.san) == bare_move(c));
}

/// The builder's run over the words of some NAGs: they join those of the
/// move just added under `pp`.
proof fn lemma_run_nags(
    b: Build,
    toks: Seq<TokModel>,
    j: int,
    g: Seq<Nag>,
    r0: NodeModel,
    pp: Seq<usize>,
    x: NodeModel,
    w: NodeModel,
    mode: ParseMode,
)
    requires
        valid_path(r0, pp),
        x.children.len() < usize::MAX,
        b.st.path == pp.push(x.children.len() as usize),
        b.root == replace_at(r0, pp, with_child(x, w)),
        toks_match(toks, j, nag_words(g)),
    ensures
        run_from(b, toks, j, mode) == run_from(
            Build { root: replace_at(r0, pp, with_child(x, with_nags(w, w.nags + g))), ..b },
            toks,
            j + g.len(),
            mode,
        ),
    decreases g.len(),
{
    lemma_nag_words_len(g);
    if g.len() == 0 {
        assert(w.nags + g =~= w.nags);
        assert(with_nags(w, w.nags) == w);
    } else {
        let v = g[0].0;
        assert(g[0] == Nag(v));
        assert(nag_words(g)[0] == nag_word(v));
        assert(toks[j + 0].0 == word_tok(nag_words(g)[0]));
        lemma_nag_word(v);
        let k = x.children.len() as usize;
        let xw = with_child(x, w);
        let w2 = with_nags(w, w.nags.push(Nag(v)));
        lemma_replace_child(r0, pp, xw, k, w2);
        assert(xw.children.update(k as int, w2) =~= with_child(x, w2).children);
        assert(NodeModel { children: xw.children.update(k as int, w2), ..xw } == with_child(x, w2));
        let b2 = Build { root: replace_at(r0, pp, with_child(x, w2)), ..b };
        assert(step_spec(b, toks[j], mode) == Some(b2));
        lemma_run_step(b, toks, j, b2, mode);
        let rest = g.drop_first();
        assert forall|q: int| 0 <= q < nag_words(rest).len() implies #[trigger] toks[(j + 1) + q].0 == word_tok(nag_words(rest)[q]) by {
            assert(nag_words(g)[q + 1] == nag_words(rest)[q]);
            assert(toks[j + (q + 1)].0 == word_tok(nag_words(g)[q + 1]));
        }
        lemma_nag_words_len(rest);
        lemma_run_nags(b2, toks, j + 1, rest, r0, pp, x, w2, mode);
        assert(w2.nags + rest =~= w.nags + g);
    }
}

/// The builder's step on a comment in braces: it becomes the comment of the
/// move just added under `pp`.
proof fn lemma_step_comment(
    b: Build,
    t: TokModel,
    r0: NodeModel,
    pp: Seq<usize>,
    x: NodeModel,
    w: NodeModel,
    c: Seq<char>,
    mode: ParseMode,
)
    requires
        valid_path(r0, pp),
        x.children.len() < usize::MAX,
        b.st.path == pp.push(x.children.len() as usize),
        b.root == replace_at(r0, pp, with_child(x, w)),
        w.comment.len() == 0,
        c.len() > 0,
        !is_ws(c[0]) && !is_ws(c.last()),
        t.0 == word_tok((TokKind::BraceComment, seq!['{', ' '] + c + seq![' ', '}'])),
    ensures
        step_spec(b, t, mode) == Some(Build { root: replace_at(r0, pp, with_child(x, with_comment(w, c))), ..b }),
{
    let word = seq!['{', ' '] + c + seq![' ', '}'];
    assert(word.subrange(1, word.len() - 1) =~= seq![' '] + c + seq![' ']);
    lemma_trim_padded(c);
    let k = x.children.len() as usize;
    let xw = with_child(x, w);
    lemma_replace_child(r0, pp, xw, k, with_comment(w, c));
    assert(xw.children.update(k as int, with_comment(w, c)) =~= with_child(x, with_comment(w, c)).children);
    assert(NodeModel { children: xw.children.update(k as int, with_comment(w, c)), ..xw } == with_child(
        x,
        with_comment(w, c),
    ));
    assert(crate::parser::builder::joined(w.comment, c, true) =~= c);
}

/// A move the builder gives back from its words: numbered, read as a move,
/// its comment without whitespace at its ends.
pub open spec fn move_readable(c: NodeModel) -> bool {
    &&& c.move_number is Some
    &&& is_move_kind(move_kind(c.san))
    &&& c.comment.len() > 0 ==> !is_ws(c.comment[0]) && !is_ws(c.comment.last())
}

/// The builder's run over the words of one move gives the move back, as the
/// last child of the node at `pp`: the node the builder stands on, or,
/// right after a parenthesis and with the number written, that node's parent.
#[verifier::spinoff_prover]
#[verifier::rlimit(40)]
proof fn lemma_run_move(
    b: Build,
    toks: Seq<TokModel>,
    j: int,
    pp: Seq<usize>,
    c: NodeModel,
    force: bool,
    mode: ParseMode,
) -> (st: StateModel)
    requires
        valid_path(b.root, pp),
        at_path(b.root, pp).children.len() < usize::MAX,
        !in_prose(b.st),
        b.st.comment.len() == 0,
        b.st.nags.len() == 0,
        move_readable(c),
        (b.st.path == pp && !b.st.pop) || (force && b.st.pop && b.st.stack.len() > 0 && b.st.stack.last().2
            == !c.is_black && b.st.path.len() > 0 && b.st.path.drop_last() == pp),
        !(force || !c.is_black) ==> b.st.number == c.move_number->0 && b.st.black,
        toks_match(toks, j, move_words(c, force)),
    ensures
        st.path == pp.push(at_path(b.root, pp).children.len() as usize),
        st.number == number_after(c),
        st.black == !c.is_black,
        settled(st),
        st.stack == b.st.stack,
        st.starts == b.st.starts,
        run_from(b, toks, j, mode) == run_from(
            Build { st: st, root: replace_at(b.root, pp, with_child(at_path(b.root, pp), leaf(c))), ..b },
            toks,
            j + move_words(c, force).len(),
            mode,
        ),
{
    let x = at_path(b.root, pp);
    let numbered = force || !c.is_black;
    let numw: Seq<Word> = if numbered { seq![number_word(c)] } else { Seq::empty() };
    let mw = seq![(move_kind(c.san), c.san)];
    let nw = nag_words(c.nags);
    let cw: Seq<Word> = if c.comment.len() > 0 {
        seq![(TokKind::BraceComment, seq!['{', ' '] + c.comment + seq![' ', '}'])]
    } else {
        Seq::empty()
    };
    let hw = move_words(c, force);
    assert(hw == numw + mw + nw + cw);
    let m0 = numw.len() as int;
    lemma_nag_words_len(c.nags);
    let b1 = if numbered {
        Build {
            st: StateModel {
                number: c.move_number->0,
                black: c.is_black,
                ctx: ParseContext::ExpectingMoves { remaining: if c.is_black { 1 } else { 2 } },
                ..b.st
            },
            ..b
        }
    } else {
        b
    };
    if numbered {
        assert(toks[j + 0].0 == word_tok(hw[0]));
        assert(hw[0] == number_word(c));
        lemma_step_number(b, toks[j], c, mode);
        lemma_run_step(b, toks, j, b1, mode);
    }
    assert(run_from(b, toks, j, mode) == run_from(b1, toks, j + m0, mode));
    assert(move_parent(b1.st) == pp);
    assert(toks[j + m0].0 == word_tok(hw[m0]));
    assert(hw[m0] == (move_kind(c.san), c.san));
    lemma_step_move(b1, toks[j + m0], pp, c, mode);
    let k = x.children.len() as usize;
    let st2 = StateModel {
        path: pp.push(k),
        number: if b1.st.black { next_number(b1.st.number) } else { b1.st.number },
        black: !b1.st.black,
        ctx: after_move_ctx(b1.st.ctx),
        pop: false,
        comment: Seq::empty(),
        nags: Seq::empty(),
        ..b1.st
    };
    let w = bare_move(c);
    let b2 = Build { st: st2, root: replace_at(b.root, pp, with_child(x, w)), ..b1 };
    lemma_run_step(b1, toks, j + m0, b2, mode);
    assert forall|q: int| 0 <= q < nw.len() implies #[trigger] toks[(j + m0 + 1) + q].0 == word_tok(nw[q]) by {
        assert(hw[m0 + 1 + q] == nw[q]);
        assert(toks[j + (m0 + 1 + q)].0 == word_tok(hw[m0 + 1 + q]));
    }
    lemma_run_nags(b2, toks, j + m0 + 1, c.nags, b.root, pp, x, w, mode);
    let w3 = with_nags(w, w.nags + c.nags);
    assert(w.nags + c.nags =~= c.nags);
    let b3 = Build { root: replace_at(b.root, pp, with_child(x, w3)), ..b2 };
    let e3 = j + m0 + 1 + c.nags.len();
    assert(run_from(b, toks, j, mode) == run_from(b3, toks, e3, mode));
    if c.comment.len() > 0 {
        let q = m0 + 1 + c.nags.len();
        assert(hw[q] == cw[0]);
        assert(toks[j + q].0 == word_tok(hw[q]));
        lemma_step_comment(b3, toks[e3], b.root, pp, x, w3, c.comment, mode);
        assert(with_comment(w3, c.comment) == leaf(c));
        lemma_run_step(b3, toks, e3, Build { root: replace_at(b.root, pp, with_child(x, leaf(c))), ..b3 }, mode);
    } else {
        assert(c.comment =~= Seq::<char>::empty());
        assert(w3 == leaf(c));
    }
    st2
}

// ---------------------------------------------------------------------------
// The words of a tree
// ---------------------------------------------------------------------------

pub open spec fn open_word() -> Word {
    (TokKind::VariationStart, seq!['('])
}

pub open spec fn close_word() -> Word {
    (TokKind::VariationEnd, seq![')'])
}

/// The words of what follows the move `n`: its main-line move (numbered
/// where `force` is set or it is White's), its other children as
/// variations, then the rest of the main line, numbered again where
/// variations came between.
pub open spec fn after_words(n: NodeModel, force: bool) -> Seq<Word>
    decreases n, 1nat, 0nat,
{
    if n.children.len() == 0 {
        Seq::empty()
    } else {
        move_words(n.children[0], force) + vars_words(n.children) + after_words(
            n.children[0],
            n.children.len() > 1,
        )
    }
}

/// The words of the variations among `s` (all but the first), each in parentheses.
pub open spec fn vars_words(s: Seq<NodeModel>) -> Seq<Word>
    decreases s, 0nat, 0nat,
{
    if s.len() <= 1 {
        Seq::empty()
    } else {
        vars_words(s.subrange(0, s.len() - 1)) + seq![open_word()] + node_words(s[s.len() - 1], true) + seq![
            close_word(),
        ]
    }
}

/// The words of a move and what follows it.
pub open spec fn node_words(c: NodeModel, force: bool) -> Seq<Word>
    decreases c, 2nat, 0nat,
{
    move_words(c, force) + after_words(c, false)
}

/// A move that fits where the builder counts `number` and `black`: on that
/// side, and under that number where it is Black's.
pub open spec fn child_fits(c: NodeModel, number: u16, black: bool) -> bool {
    &&& move_readable(c)
    &&& c.is_black == black
    &&& c.is_black ==> c.move_number == Some(number)
}

/// Every move below `n` fits where the builder counts, the moves after `n`
/// counting `number` and `black`: each side alternates down the tree, and
/// Black's move has the number of White's before it.
pub open spec fn tree_ok(n: NodeModel, number: u16, black: bool) -> bool
    decreases n,
{
    &&& n.children.len() <= usize::MAX
    &&& forall|i: int|
        0 <= i < n.children.len() ==> child_fits(#[trigger] n.children[i], number, black) && tree_ok(
            n.children[i],
            number_after(n.children[i]),
            !n.children[i].is_black,
        )
}

proof fn lemma_replace_same(r: NodeModel, p: Seq<usize>)
    requires
        valid_path(r, p),
    ensures
        replace_at(r, p, at_path(r, p)) == r,
    decreases p.len(),
{
    if p.len() > 0 {
        lemma_replace_same(r.children[p[0] as int], p.drop_first());
        assert(replace_at(r, p, at_path(r, p)).children =~= r.children);
    }
}

/// The node at `p` while its variations are read: its own fields, its
/// main-line move without what follows it, and its first `i - 1` variations.
pub open spec fn partial(n: NodeModel, i: int) -> NodeModel {
    NodeModel { children: seq![leaf(n.children[0])] + n.children.subrange(1, i), ..leaf(n) }
}

/// The builder's run over the words of what follows a move gives the whole
/// subtree of that move back, leaving the variations open before as they were.
#[verifier::spinoff_prover]
#[verifier::rlimit(40)]
proof fn lemma_run_after(
    b: Build,
    toks: Seq<TokModel>,
    j: int,
    p: Seq<usize>,
    n: NodeModel,
    force: bool,
    number: u16,
    black: bool,
    mode: ParseMode,
) -> (st: StateModel)
    requires
        mode == ParseMode::Lenient,
        valid_path(b.root, p),
        at_path(b.root, p) == leaf(n),
        b.st.path == p,
        settled(b.st),
        b.st.number == number,
        b.st.black == black,
        tree_ok(n, number, black),
        toks_match(toks, j, after_words(n, force)),
    ensures
        settled(st),
        st.stack == b.st.stack,
        st.starts == b.st.starts,
        run_from(b, toks, j, mode) == run_from(
            Build { st: st, root: replace_at(b.root, p, n), ..b },
            toks,
            j + after_words(n, force).len(),
            mode,
        ),
    decreases n, 1nat, 0nat,
{
    if n.children.len() == 0 {
        assert(leaf(n) == n) by {
            assert(n.children =~= Seq::<NodeModel>::empty());
        }
        lemma_replace_same(b.root, p);
        b.st
    } else {
        let c0 = n.children[0];
        let m = n.children.len() as int;
        assert(child_fits(n.children[0], number, black));
        let mw = move_words(c0, force);
        let vw = vars_words(n.children);
        let aw = after_words(c0, m > 1);
        assert(after_words(n, force) == mw + vw + aw);
        assert forall|q: int| 0 <= q < mw.len() implies #[trigger] toks[j + q].0 == word_tok(mw[q]) by {
            assert(after_words(n, force)[q] == mw[q]);
        }
        let st1 = lemma_run_move(b, toks, j, p, c0, force, mode);
        let x1 = with_child(leaf(n), leaf(c0));
        assert(leaf(n).children.len() == 0);
        assert(st1.path == p.push(0));
        let r1 = replace_at(b.root, p, x1);
        assert(x1 == partial(n, 1)) by {
            assert(x1.children =~= partial(n, 1).children);
        }
        let b1 = Build { st: st1, root: r1, ..b };
        let j1 = j + mw.len();
        assert forall|q: int| 0 <= q < vw.len() implies #[trigger] toks[j1 + q].0 == word_tok(vw[q]) by {
            assert(after_words(n, force)[mw.len() + q] == vw[q]);
            assert(toks[j + (mw.len() + q)].0 == word_tok(after_words(n, force)[mw.len() + q]));
        }
        assert(n.children.take(m) =~= n.children);
        lemma_run_vars(b1, toks, j1, p, n, m, b.root, number, black, mode);
        let r2 = replace_at(b.root, p, partial(n, m));
        let b2 = Build { root: r2, ..b1 };
        let j2 = j1 + vw.len();
        lemma_replace_at_path(b.root, p, partial(n, m));
        lemma_replace_child(b.root, p, partial(n, m), 0, c0);
        assert(partial(n, m).children[0] == leaf(c0));
        assert forall|q: int| 0 <= q < aw.len() implies #[trigger] toks[j2 + q].0 == word_tok(aw[q]) by {
            assert(after_words(n, force)[mw.len() + vw.len() + q] == aw[q]);
            assert(toks[j + (mw.len() + vw.len() + q)].0 == word_tok(after_words(n, force)[mw.len() + vw.len() + q]));
        }
        assert(tree_ok(n.children[0], number_after(n.children[0]), !n.children[0].is_black));
        let st3 = lemma_run_after(b2, toks, j2, p.push(0), c0, m > 1, number_after(c0), !c0.is_black, mode);
        let full = NodeModel { children: partial(n, m).children.update(0, c0), ..partial(n, m) };
        assert(full == n) by {
            assert(full.children =~= n.children);
        }
        lemma_replace_twice(b.root, p, partial(n, m), n);
        st3
    }
}

/// The builder's run over the words of the variations among the first `m`
/// children of `n` gives them back under `n`, and stands again where it stood.
#[verifier::spinoff_prover]
#[verifier::rlimit(40)]
proof fn lemma_run_vars(
    b: Build,
    toks: Seq<TokModel>,
    j: int,
    p: Seq<usize>,
    n: NodeModel,
    m: int,
    r0: NodeModel,
    number0: u16,
    black0: bool,
    mode: ParseMode,
)
    requires
        mode == ParseMode::Lenient,
        1 <= m <= n.children.len(),
        valid_path(r0, p),
        b.root == replace_at(r0, p, partial(n, 1)),
        b.st.path == p.push(0),
        settled(b.st),
        b.st.black == !black0,
        tree_ok(n, number0, black0),
        toks_match(toks, j, vars_words(n.children.take(m))),
    ensures
        run_from(b, toks, j, mode) == run_from(
            Build { root: replace_at(r0, p, partial(n, m)), ..b },
            toks,
            j + vars_words(n.children.take(m)).len(),
            mode,
        ),
    decreases n, 0nat, m,
{
    let s = n.children.take(m);
    if m == 1 {
        assert(vars_words(s) =~= Seq::<Word>::empty());
    } else {
        let prev = n.children.take(m - 1);
        assert(s.subrange(0, s.len() - 1) =~= prev);
        let ci = n.children[m - 1];
        assert(s[s.len() - 1] == ci);
        let vp = vars_words(prev);
        let nw = node_words(ci, true);
        assert(vars_words(s) == vp + seq![open_word()] + nw + seq![close_word()]);
        assert forall|q: int| 0 <= q < vp.len() implies #[trigger] toks[j + q].0 == word_tok(vp[q]) by {
            assert(vars_words(s)[q] == vp[q]);
        }
        lemma_run_vars(b, toks, j, p, n, m - 1, r0, number0, black0, mode);
        let ra = replace_at(r0, p, partial(n, m - 1));
        let ba = Build { root: ra, ..b };
        let jo = j + vp.len();
        // The opening parenthesis.
        assert(toks[j + vp.len()].0 == word_tok(vars_words(s)[vp.len() as int]));
        assert(vars_words(s)[vp.len() as int] == open_word());
        let t = toks[jo];
        let st_o = StateModel {
            starts: b.st.starts.push((t.1, t.2)),
            stack: b.st.stack.push((b.st.path, b.st.number, b.st.black, b.st.ctx)),
            pop: true,
            ctx: ParseContext::BetweenMoves,
            ..b.st
        };
        let bo = Build { st: st_o, ..ba };
        assert(step_spec(ba, t, mode) == Some(bo));
        lemma_run_step(ba, toks, jo, bo, mode);
        // The variation's move.
        let mwi = move_words(ci, true);
        let awi = after_words(ci, false);
        assert(nw == mwi + awi);
        let jm = jo + 1;
        assert forall|q: int| 0 <= q < mwi.len() implies #[trigger] toks[jm + q].0 == word_tok(mwi[q]) by {
            assert(vars_words(s)[vp.len() + 1 + q] == mwi[q]);
            assert(toks[j + (vp.len() + 1 + q)].0 == word_tok(vars_words(s)[vp.len() + 1 + q]));
        }
        lemma_replace_at_path(r0, p, partial(n, m - 1));
        assert(child_fits(n.children[m - 1], number0, black0));
        assert(partial(n, m - 1).children.len() == m - 1);
        assert(p.push(0usize).drop_last() =~= p);
        assert(st_o.stack.last().2 == b.st.black);
        let st_m = lemma_run_move(bo, toks, jm, p, ci, true, mode);
        let xm = with_child(partial(n, m - 1), leaf(ci));
        let rm = replace_at(ra, p, xm);
        lemma_replace_twice(r0, p, partial(n, m - 1), xm);
        let bm = Build { st: st_m, root: replace_at(r0, p, xm), ..bo };
        // What follows it.
        let ja = jm + mwi.len();
        lemma_replace_child(r0, p, xm, (m - 1) as usize, ci);
        assert(xm.children[m - 1] == leaf(ci));
        assert(st_m.path == p.push((m - 1) as usize));
        assert forall|q: int| 0 <= q < awi.len() implies #[trigger] toks[ja + q].0 == word_tok(awi[q]) by {
            assert(vars_words(s)[vp.len() + 1 + mwi.len() + q] == awi[q]);
            assert(toks[j + (vp.len() + 1 + mwi.len() + q)].0 == word_tok(vars_words(s)[vp.len() + 1 + mwi.len() + q]));
        }
        assert(tree_ok(n.children[m - 1], number_after(n.children[m - 1]), !n.children[m - 1].is_black));
        let st_a = lemma_run_after(bm, toks, ja, p.push((m - 1) as usize), ci, false, number_after(ci), !ci.is_black, mode);
        let xf = NodeModel { children: xm.children.update(m - 1, ci), ..xm };
        assert(xf == partial(n, m)) by {
            assert(xf.children =~= partial(n, m).children);
        }
        let bf = Build { st: st_a, root: replace_at(r0, p, partial(n, m)), ..bm };
        // The closing parenthesis.
        let jc = ja + awi.len();
        assert(toks[j + (vp.len() + 1 + nw.len())].0 == word_tok(vars_words(s)[vp.len() + 1int + nw.len()]));
        assert(vars_words(s)[vp.len() + 1int + nw.len()] == close_word());
        assert(jc == j + (vp.len() + 1 + nw.len()));
        assert(b.st.comment =~= Seq::<char>::empty());
        assert(b.st.nags =~= Seq::<Nag>::empty());
        assert(st_a.comment =~= Seq::<char>::empty());
        assert(st_a.nags =~= Seq::<Nag>::empty());
        let bc = Build { root: replace_at(r0, p, partial(n, m)), ..b };
        assert(st_a.stack == st_o.stack && st_a.starts == st_o.starts);
        assert(st_a.stack.drop_last() =~= b.st.stack);
        assert(st_a.starts.drop_last() =~= b.st.starts);
        assert(st_a.stack.last() == (b.st.path, b.st.number, b.st.black, b.st.ctx));
        assert(!in_prose(st_a));
        assert(var_end_spec(st_a, bf.root, mode) == Some((b.st, bf.root)));
        assert(step_spec(bf, toks[jc], mode) == Some(bc));
        lemma_run_step(bf, toks, jc, bc, mode);
        assert(j + vars_words(s).len() == jc + 1);
    }
}

/// The words of a game: what follows its root, its result, a newline.
pub open spec fn tree_game_words(n: NodeModel, r: GameResult) -> Seq<Word> {
    after_words(n, false) + seq![result_word(r), (TokKind::Newline, seq!['\n'])]
}

/// The builder, from where it starts but with some tag pairs and a result
/// already read, given the tokens of a tree (moves, variations, NAGs,
/// comments), its result and a newline, builds that tree and that result,
/// keeping the tag pairs and leaving nothing open.
pub proof fn lemma_build_tree_at(b0: Build, toks: Seq<TokModel>, j0: int, n: NodeModel, r: GameResult)
    requires
        b0.st == initial_state(),
        b0.root == empty_node(),
        bare_root(n),
        tree_ok(n, 1, false),
        toks.len() == j0 + tree_game_words(n, r).len(),
        toks_match(toks, j0, tree_game_words(n, r)),
    ensures
        run_from(b0, toks, j0, ParseMode::Lenient) matches Ok(b) && b.root == n && b.result == r && b.headers
            == b0.headers && b.st.starts.len() == 0,
{
    let mode = ParseMode::Lenient;
    let aw = after_words(n, false);
    let gw = tree_game_words(n, r);
    assert(initial_state().path =~= Seq::<usize>::empty());
    assert forall|k: int| 0 <= k < aw.len() implies #[trigger] toks[j0 + k].0 == word_tok(aw[k]) by {
        assert(gw[k] == aw[k]);
    }
    let st = lemma_run_after(b0, toks, j0, Seq::empty(), n, false, 1, false, mode);
    let b1 = Build { st: st, root: n, ..b0 };
    assert(replace_at(b0.root, Seq::<usize>::empty(), n) == n);
    let e = j0 + aw.len();
    assert(toks[j0 + aw.len()].0 == word_tok(gw[aw.len() as int]));
    assert(gw[aw.len() as int] == result_word(r));
    let b2 = Build { result: r, ..b1 };
    assert(step_spec(b1, toks[e], mode) == Some(b2));
    lemma_run_step(b1, toks, e, b2, mode);
    assert(toks[j0 + (aw.len() + 1)].0 == word_tok(gw[aw.len() + 1int]));
    assert(newline_spec(st) == st);
    assert(step_spec(b2, toks[e + 1], mode) == Some(b2));
    lemma_run_step(b2, toks, e + 1, b2, mode);
    assert(run_from(b2, toks, e + 2, mode) == Ok::<Build, int>(b2));
}

proof fn lemma_open_best()
    ensures
        best(seq!['(', ' '], 0) == (TokKind::VariationStart, 1nat),
{
    reveal_with_fuel(best_upto, 33);
}

proof fn lemma_close_best()
    ensures
        best(seq![')', ' '], 0) == (TokKind::VariationEnd, 1nat),
{
    reveal_with_fuel(best_upto, 33);
}

/// Black's move number "N..." followed by a space reads as one move-number token.
#[verifier::spinoff_prover]
proof fn lemma_black_number_best(k: u16)
    ensures
        best(dec(k as nat) + seq!['.', '.', '.', ' '], 0) == (TokKind::MoveNumber, dec(k as nat).len() + 3),
{
    let d = dec(k as nat);
    lemma_dec_value(k as nat);
    let t = d + seq!['.', '.', '.', ' '];
    let n = d.len() as int;
    assert(t[n] == '.' && t[n + 1] == '.' && t[n + 2] == '.' && t[n + 3] == ' ');
    assert forall|j: int| 0 <= j < n implies #[trigger] has_class(t, j, CharClass::Digit) by {
        assert(t[j] == d[j]);
        assert(is_digit(d[j]));
    }
    lemma_run_bound(t, 0, CharClass::Digit);
    let r = run(t, 0, CharClass::Digit) as int;
    if r > n {
        assert(has_class(t, n, CharClass::Digit));
    }
    if r < n {
        assert(has_class(t, r, CharClass::Digit));
    }
    assert(r == n);
    assert(run(t, n + 3, CharClass::Dot) == 0);
    assert(run(t, n + 2, CharClass::Dot) == 1);
    assert(run(t, n + 1, CharClass::Dot) == 2);
    assert(run(t, n, CharClass::Dot) == 3);
    assert(is_digit(t[0]));
    assert(t[1] != '-' && t[1] != '/') by {
        if n > 1 {
            assert(t[1] == d[1]);
            assert(is_digit(d[1]));
        }
    }
    assert(run(t, 0, CharClass::Newline) == 0);
    assert(kind_len(TokKind::Header, t, 0) == 0);
    assert(kind_len(TokKind::BraceComment, t, 0) == 0);
    assert(kind_len(TokKind::SemicolonComment, t, 0) == 0);
    assert(kind_len(TokKind::VariationStart, t, 0) == 0);
    assert(kind_len(TokKind::VariationEnd, t, 0) == 0);
    assert(kind_len(TokKind::CastleLong, t, 0) == 0);
    assert(kind_len(TokKind::CastleShort, t, 0) == 0);
    assert(kind_len(TokKind::WhiteWins, t, 0) == 0);
    assert(kind_len(TokKind::BlackWins, t, 0) == 0);
    assert(kind_len(TokKind::Draw, t, 0) == 0);
    assert(kind_len(TokKind::Ongoing, t, 0) == 0);
    assert(kind_len(TokKind::MoveNumber, t, 0) == n + 3);
    assert(kind_len(TokKind::Nag, t, 0) == 0);
    assert(kind_len(TokKind::PieceMove, t, 0) == 0);
    assert(kind_len(TokKind::PawnMove, t, 0) == 0);
    assert(kind_len(TokKind::DoubleBang, t, 0) == 0);
    assert(kind_len(TokKind::DoubleQuestion, t, 0) == 0);
    assert(kind_len(TokKind::BangQuestion, t, 0) == 0);
    assert(kind_len(TokKind::QuestionBang, t, 0) == 0);
    assert(kind_len(TokKind::WhiteWinning, t, 0) == 0);
    assert(kind_len(TokKind::BlackWinning, t, 0) == 0);
    assert(kind_len(TokKind::WhiteBetter, t, 0) == 0);
    assert(kind_len(TokKind::BlackBetter, t, 0) == 0);
    assert(kind_len(TokKind::WhiteSlightlyBetter, t, 0) == 0);
    assert(kind_len(TokKind::BlackSlightlyBetter, t, 0) == 0);
    assert(kind_len(TokKind::Equal, t, 0) == 0);
    assert(kind_len(TokKind::Bang, t, 0) == 0);
    assert(kind_len(TokKind::Question, t, 0) == 0);
    assert(kind_len(TokKind::Digit, t, 0) == n);
    assert(kind_len(TokKind::Newline, t, 0) == 0);
    assert(kind_len(TokKind::BareText, t, 0) == 0);
    assert(kind_len(TokKind::Punctuation, t, 0) == 0);
    reveal_with_fuel(best_upto, 33);
}

// ---------------------------------------------------------------------------
// The writer's text for a tree, as words
// ---------------------------------------------------------------------------

/// Every move below `n` is one the writer writes as words that read back.
pub open spec fn tree_writable(n: NodeModel, o: OutputOptions) -> bool
    decreases n,
{
    forall|i: int|
        0 <= i < n.children.len() ==> move_writable(#[trigger] n.children[i], o) && tree_writable(
            n.children[i],
            o,
        )
}

/// The writer's text for one move, numbered as asked, is its words, each
/// followed by a space.
#[verifier::spinoff_prover]
proof fn lemma_move_spaced(c: NodeModel, o: OutputOptions, force: bool)
    requires
        plain_options(o),
        move_writable(c, o),
    ensures
        std_head(c, o, force) == spaced(move_words(c, force)),
{
    reveal_strlit(". ");
    reveal_strlit("... ");
    reveal_strlit(" { ");
    reveal_strlit(" }");
    let numbered = force || !c.is_black;
    let numw: Seq<Word> = if numbered { seq![number_word(c)] } else { Seq::empty() };
    let mw = seq![(move_kind(c.san), c.san)];
    let nw = nag_words(c.nags);
    let cw: Seq<Word> = if c.comment.len() > 0 {
        seq![(TokKind::BraceComment, seq!['{', ' '] + c.comment + seq![' ', '}'])]
    } else {
        Seq::empty()
    };
    assert(move_words(c, force) == numw + mw + nw + cw);
    lemma_spaced_add(numw + mw + nw, cw);
    lemma_spaced_add(numw + mw, nw);
    lemma_spaced_add(numw, mw);
    assert(spaced(mw) == c.san + seq![' ']) by {
        assert(mw.drop_first() =~= Seq::<Word>::empty());
        assert(spaced(mw.drop_first()) =~= Seq::<char>::empty());
        assert(mw[0].1 == c.san);
        assert(c.san + seq![' '] + Seq::<char>::empty() =~= c.san + seq![' ']);
    }
    let pre = if numbered { number_text(c) } else { Seq::<char>::empty() };
    if numbered {
        assert(spaced(numw) == number_text(c)) by {
            let k = c.move_number->0;
            assert(numw.drop_first() =~= Seq::<Word>::empty());
            assert(spaced(numw.drop_first()) =~= Seq::<char>::empty());
            assert(numw[0].1 == number_word(c).1);
            if c.is_black {
                assert(number_text(c) == dec(k as nat) + "... "@);
                assert(number_word(c).1 + seq![' '] + Seq::<char>::empty() =~= dec(k as nat) + "... "@);
            } else {
                assert(number_text(c) == dec(k as nat) + ". "@);
                assert(number_word(c).1 + seq![' '] + Seq::<char>::empty() =~= dec(k as nat) + ". "@);
            }
        }
    } else {
        assert(spaced(numw) =~= Seq::<char>::empty());
    }
    lemma_nags_spaced(c.nags);
    let nt = nags_text(c.nags);
    assert(spaced(nw) =~= (nt + seq![' ']).drop_first());
    if c.comment.len() > 0 {
        let bw = seq!['{', ' '] + c.comment + seq![' ', '}'];
        assert(spaced(cw) == bw + seq![' ']) by {
            assert(cw.drop_first() =~= Seq::<Word>::empty());
            assert(spaced(cw.drop_first()) =~= Seq::<char>::empty());
            assert(cw[0].1 == bw);
            assert(bw + seq![' '] + Seq::<char>::empty() =~= bw + seq![' ']);
        }
        assert(std_head(c, o, force) =~= pre + c.san + nt + (" { "@ + c.comment + " }"@) + seq![' ']);
        assert(pre + c.san + nt + (" { "@ + c.comment + " }"@) + seq![' '] =~= pre + c.san + (nt + seq![' ']) + bw
            + seq![' ']);
        assert(nt + seq![' '] =~= seq![' '] + spaced(nw));
        assert(pre + c.san + (seq![' '] + spaced(nw)) + bw + seq![' '] =~= pre + (c.san + seq![' ']) + spaced(nw)
            + (bw + seq![' ']));
    } else {
        assert(spaced(cw) =~= Seq::<char>::empty());
        assert(std_head(c, o, force) =~= pre + c.san + nt + seq![' ']);
        assert(nt + seq![' '] =~= seq![' '] + spaced(nw));
        assert(pre + c.san + (seq![' '] + spaced(nw)) =~= pre + (c.san + seq![' ']) + spaced(nw) + Seq::<char>::empty());
    }
}

proof fn lemma_one_spaced(w: Word)
    ensures
        spaced(seq![w]) == w.1 + seq![' '],
{
    assert(seq![w].drop_first() =~= Seq::<Word>::empty());
    assert(spaced(seq![w].drop_first()) =~= Seq::<char>::empty());
    assert(w.1 + seq![' '] + Seq::<char>::empty() =~= w.1 + seq![' ']);
}

/// The writer's text for what follows a move is its words, each followed by a space.
proof fn lemma_after_spaced(n: NodeModel, o: OutputOptions, d: int, force: bool)
    requires
        plain_options(o),
        o.variations,
        tree_writable(n, o),
    ensures
        std_after(n, o, d, force) == spaced(after_words(n, force)),
    decreases n, 1nat, 0nat,
{
    if n.children.len() > 0 {
        let c0 = n.children[0];
        assert(move_writable(n.children[0], o) && tree_writable(n.children[0], o));
        assert(!std_cut(o, d + 1));
        lemma_move_spaced(c0, o, force);
        lemma_vars_spaced(n.children, o, d + 1);
        lemma_after_spaced(c0, o, d + 1, n.children.len() > 1);
        lemma_spaced_add(move_words(c0, force) + vars_words(n.children), after_words(c0, n.children.len() > 1));
        lemma_spaced_add(move_words(c0, force), vars_words(n.children));
    } else {
        assert(spaced(after_words(n, force)) =~= Seq::<char>::empty());
    }
}

proof fn lemma_vars_spaced(s: Seq<NodeModel>, o: OutputOptions, d: int)
    requires
        plain_options(o),
        o.variations,
        forall|i: int| 0 <= i < s.len() ==> move_writable(#[trigger] s[i], o) && tree_writable(s[i], o),
    ensures
        std_vars(s, o, d) == spaced(vars_words(s)),
    decreases s, 0nat, 0nat,
{
    if s.len() > 1 {
        let prev = s.subrange(0, s.len() - 1);
        let c = s[s.len() - 1];
        assert forall|i: int| 0 <= i < prev.len() implies move_writable(#[trigger] prev[i], o) && tree_writable(prev[i], o) by {
            assert(prev[i] == s[i]);
        }
        assert(move_writable(s[s.len() - 1], o) && tree_writable(s[s.len() - 1], o));
        lemma_vars_spaced(prev, o, d);
        lemma_node_spaced(c, o, d, true);
        let a = vars_words(prev);
        let nw = node_words(c, true);
        lemma_spaced_add(a + seq![open_word()] + nw, seq![close_word()]);
        lemma_spaced_add(a + seq![open_word()], nw);
        lemma_spaced_add(a, seq![open_word()]);
        lemma_one_spaced(open_word());
        lemma_one_spaced(close_word());
        reveal_strlit("( ");
        reveal_strlit(") ");
        assert(std_vars(s, o, d) =~= spaced(vars_words(s)));
    } else {
        assert(spaced(vars_words(s)) =~= Seq::<char>::empty());
    }
}

proof fn lemma_node_spaced(c: NodeModel, o: OutputOptions, d: int, force: bool)
    requires
        plain_options(o),
        o.variations,
        move_writable(c, o),
        tree_writable(c, o),
    ensures
        std_node(c, o, d, force) == spaced(node_words(c, force)),
    decreases c, 2nat, 0nat,
{
    lemma_move_spaced(c, o, force);
    lemma_after_spaced(c, o, d, false);
    lemma_spaced_add(move_words(c, force), after_words(c, false));
}

// ---------------------------------------------------------------------------
// Every word of a tree is read as one token
// ---------------------------------------------------------------------------

proof fn lemma_good_move_words(c: NodeModel, o: OutputOptions, force: bool)
    requires
        move_writable(c, o),
    ensures
        forall|k: int| 0 <= k < move_words(c, force).len() ==> good_word(#[trigger] move_words(c, force)[k]),
{
    let numbered = force || !c.is_black;
    let numw: Seq<Word> = if numbered { seq![number_word(c)] } else { Seq::empty() };
    let mw = seq![(move_kind(c.san), c.san)];
    let nw = nag_words(c.nags);
    let cw: Seq<Word> = if c.comment.len() > 0 {
        seq![(TokKind::BraceComment, seq!['{', ' '] + c.comment + seq![' ', '}'])]
    } else {
        Seq::empty()
    };
    let hw = move_words(c, force);
    assert(hw == numw + mw + nw + cw);
    let k0 = c.move_number->0;
    if numbered {
        lemma_dec_value(k0 as nat);
        let d = dec(k0 as nat);
        assert(is_digit(d[0]));
        if c.is_black {
            lemma_black_number_best(k0);
            assert(number_word(c).1.push(' ') =~= d + seq!['.', '.', '.', ' ']);
            assert(number_word(c).1[0] == d[0]);
        } else {
            lemma_good_number(k0);
            assert(number_word(c).1 =~= d.push('.'));
        }
    }
    lemma_good_move(c.san);
    lemma_nag_words_good(c.nags);
    if c.comment.len() > 0 {
        lemma_good_brace(c.comment);
        assert(brace_text(c.comment) == seq!['{', ' '] + c.comment + seq![' ', '}']);
    }
    assert forall|k: int| 0 <= k < hw.len() implies good_word(#[trigger] hw[k]) by {
        let a = numw.len() as int;
        if k < a {
            assert(hw[k] == numw[k]);
        } else if k == a {
            assert(hw[k] == mw[0]);
        } else if k < a + 1 + nw.len() {
            assert(hw[k] == nw[k - a - 1]);
        } else {
            assert(hw[k] == cw[k - a - 1 - nw.len()]);
        }
    }
}

/// Good words joined are good words.
pub open spec fn all_good(ws: Seq<Word>) -> bool {
    forall|k: int| 0 <= k < ws.len() ==> good_word(#[trigger] ws[k])
}

proof fn lemma_all_good_add(a: Seq<Word>, b: Seq<Word>)
    requires
        all_good(a),
        all_good(b),
    ensures
        all_good(a + b),
{
    assert forall|k: int| 0 <= k < (a + b).len() implies good_word(#[trigger] (a + b)[k]) by {
        if k < a.len() {
            assert((a + b)[k] == a[k]);
        } else {
            assert((a + b)[k] == b[k - a.len()]);
        }
    }
}

proof fn lemma_parens_good()
    ensures
        good_word(open_word()),
        good_word(close_word()),
{
    lemma_open_best();
    lemma_close_best();
    assert(open_word().1.push(' ') =~= seq!['(', ' ']);
    assert(close_word().1.push(' ') =~= seq![')', ' ']);
}

proof fn lemma_after_good(n: NodeModel, o: OutputOptions, force: bool)
    requires
        tree_writable(n, o),
    ensures
        all_good(after_words(n, force)),
    decreases n, 1nat, 0nat,
{
    if n.children.len() > 0 {
        let c0 = n.children[0];
        assert(move_writable(n.children[0], o) && tree_writable(n.children[0], o));
        lemma_good_move_words(c0, o, force);
        lemma_vars_good(n.children, o);
        lemma_after_good(c0, o, n.children.len() > 1);
        lemma_all_good_add(move_words(c0, force), vars_words(n.children));
        lemma_all_good_add(move_words(c0, force) + vars_words(n.children), after_words(c0, n.children.len() > 1));
    }
}

proof fn lemma_vars_good(s: Seq<NodeModel>, o: OutputOptions)
    requires
        forall|i: int| 0 <= i < s.len() ==> move_writable(#[trigger] s[i], o) && tree_writable(s[i], o),
    ensures
        all_good(vars_words(s)),
    decreases s, 0nat, 0nat,
{
    if s.len() > 1 {
        let prev = s.subrange(0, s.len() - 1);
        let c = s[s.len() - 1];
        assert forall|i: int| 0 <= i < prev.len() implies move_writable(#[trigger] prev[i], o) && tree_writable(prev[i], o) by {
            assert(prev[i] == s[i]);
        }
        assert(move_writable(s[s.len() - 1], o) && tree_writable(s[s.len() - 1], o));
        lemma_vars_good(prev, o);
        lemma_good_move_words(c, o, true);
        lemma_after_good(c, o, false);
        lemma_all_good_add(move_words(c, true), after_words(c, false));
        lemma_parens_good();
        let a = vars_words(prev);
        let nw = node_words(c, true);
        lemma_all_good_add(a, seq![open_word()]);
        lemma_all_good_add(a + seq![open_word()], nw);
        lemma_all_good_add(a + seq![open_word()] + nw, seq![close_word()]);
    }
}

// ---------------------------------------------------------------------------
// The writer's text for a tree, as the parser reads it
// ---------------------------------------------------------------------------

/// The writer's movetext for a game with variations: the words of what
/// follows its root, trimmed, then the result and a newline.
pub(crate) proof fn lemma_tree_movetext_shape(n: NodeModel, o: OutputOptions, r: GameResult)
    requires
        plain_options(o),
        o.variations,
        bare_root(n),
        tree_writable(n, o),
    ensures
        trim(std_node(n, o, 0, true)) + (seq![' '] + result_text(r)) + seq!['\n'] == words_movetext(
            after_words(n, false),
            r,
        ),
        all_good(after_words(n, false)),
{
    let aw = after_words(n, false);
    assert(n.san =~= leaf(n).san);
    assert(is_root_model(n));
    assert(std_head(n, o, true) =~= Seq::<char>::empty());
    assert(!std_cut(o, 0));
    lemma_after_spaced(n, o, 0, false);
    lemma_after_good(n, o, false);
    assert(std_node(n, o, 0, true) =~= spaced(aw));
    if aw.len() > 0 {
        lemma_trim_spaced(aw);
    } else {
        assert(spaced(aw) =~= Seq::<char>::empty());
        assert(trim(Seq::<char>::empty()) =~= Seq::<char>::empty());
    }
    assert(trim(std_node(n, o, 0, true)) + (seq![' '] + result_text(r)) + seq!['\n'] =~= words_movetext(aw, r));
}



} // verus!
