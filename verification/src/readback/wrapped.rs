//! Wrapped movetext: wrapping breaks lines only between the words the
//! writer writes, and the builder reads the line breaks as nothing.

use vstd::prelude::*;
use crate::error::ParseMode;
use crate::nag::{nag_symbol, Nag};
use crate::parser::builder::{in_prose, run_from, step_spec, Build, ParseContext, StateModel, TokModel};
use crate::parser::token::{is_move_kind, TokKind};
use crate::readback::line::{head_words, line_words, move_kind, nag_word, nag_words, Word};
use crate::readback::tree::{after_words, close_word, move_words, node_words, number_word, open_word, tree_writable, vars_words};
use crate::readback::words::{brace_word, sep_char, seps_text, spaced};
use crate::readback::write::{line_writable, move_writable};
use crate::serializer::wrap::{next_inb, wrap_from, wrap_text};
use crate::text::{dec, is_digit, is_ws, lemma_dec_value};
use crate::tree::game::{result_text, GameResult};
use crate::tree::model::NodeModel;

verus! {

// ---------------------------------------------------------------------------
// The words wrapping leaves whole
// ---------------------------------------------------------------------------

/// Text without spaces.
pub open spec fn spaceless(t: Seq<char>) -> bool {
    forall|i: int| 0 <= i < t.len() ==> #[trigger] t[i] != ' '
}

/// A word that wrapping leaves whole: a comment in braces, or a word
/// without spaces.
pub open spec fn whole_word(w: Word) -> bool {
    ||| w.0 == TokKind::BraceComment && brace_word(w.1)
    ||| w.0 != TokKind::BraceComment && spaceless(w.1)
}

/// A kind of token that the builder reads without starting prose, and
/// that is not a line break.
pub open spec fn calm_kind(k: TokKind) -> bool {
    k != TokKind::Digit && k != TokKind::BareText && k != TokKind::Punctuation && k != TokKind::Newline
}

/// Words that wrapping leaves whole and that the builder reads without
/// starting prose.
pub open spec fn calm_words(ws: Seq<Word>) -> bool {
    forall|k: int| 0 <= k < ws.len() ==> whole_word(#[trigger] ws[k]) && calm_kind(ws[k].0)
}

// ---------------------------------------------------------------------------
// Wrapping, word by word
// ---------------------------------------------------------------------------

proof fn lemma_wrap_plain(s: Seq<char>, j: int, e: int, col: nat, inb: bool, w: nat) -> (r: (nat, bool))
    requires
        0 <= j <= e <= s.len(),
        forall|k: int| j <= k < e ==> #[trigger] s[k] != ' ',
    ensures
        wrap_from(s, j, col, inb, w) == s.subrange(j, e) + wrap_from(s, e, r.0, r.1, w),
    decreases e - j,
{
    if j == e {
        assert(s.subrange(j, e) =~= Seq::<char>::empty());
        (col, inb)
    } else {
        let c = s[j];
        let col2: nat = if c == '\n' { 0 } else { col + 1 };
        let r = lemma_wrap_plain(s, j + 1, e, col2, next_inb(c, inb), w);
        assert(s.subrange(j, e) =~= seq![c] + s.subrange(j + 1, e));
        r
    }
}

proof fn lemma_wrap_inside(s: Seq<char>, j: int, e: int, col: nat, w: nat) -> (c2: nat)
    requires
        0 <= j <= e <= s.len(),
        forall|k: int| j <= k < e ==> #[trigger] s[k] != '}',
    ensures
        wrap_from(s, j, col, true, w) == s.subrange(j, e) + wrap_from(s, e, c2, true, w),
    decreases e - j,
{
    if j == e {
        assert(s.subrange(j, e) =~= Seq::<char>::empty());
        col
    } else {
        let c = s[j];
        let col2: nat = if c == '\n' { 0 } else { col + 1 };
        assert(next_inb(c, true));
        let r = lemma_wrap_inside(s, j + 1, e, col2, w);
        assert(s.subrange(j, e) =~= seq![c] + s.subrange(j + 1, e));
        r
    }
}

/// Wrapping leaves a whole word as it is.
proof fn lemma_wrap_word(s: Seq<char>, i: int, col: nat, inb: bool, w: nat, x: Word) -> (r: (nat, bool))
    requires
        0 <= i,
        i + x.1.len() <= s.len(),
        s.subrange(i, i + x.1.len()) == x.1,
        whole_word(x),
    ensures
        wrap_from(s, i, col, inb, w) == x.1 + wrap_from(s, i + x.1.len(), r.0, r.1, w),
{
    let m = x.1.len() as int;
    assert forall|k: int| 0 <= k < m implies s[i + k] == #[trigger] x.1[k] by {
        assert(s.subrange(i, i + m)[k] == s[i + k]);
    }
    if x.0 != TokKind::BraceComment {
        assert forall|k: int| i <= k < i + m implies #[trigger] s[k] != ' ' by {
            assert(s[i + (k - i)] == x.1[k - i]);
        }
        let r = lemma_wrap_plain(s, i, i + m, col, inb, w);
        r
    } else {
        assert(s[i + 0] == '{');
        assert(s[i + (m - 1)] == '}');
        assert(wrap_from(s, i, col, inb, w) == seq!['{'] + wrap_from(s, i + 1, col + 1, true, w));
        assert forall|k: int| i + 1 <= k < i + m - 1 implies #[trigger] s[k] != '}' by {
            assert(s[i + (k - i)] == x.1[k - i]);
        }
        let c2 = lemma_wrap_inside(s, i + 1, i + m - 1, col + 1, w);
        assert(wrap_from(s, i + m - 1, c2, true, w) == seq!['}'] + wrap_from(s, i + m, c2 + 1, false, w));
        assert(x.1 =~= seq!['{'] + s.subrange(i + 1, i + m - 1) + seq!['}']);
        (c2 + 1, false)
    }
}

/// Wrapping words each followed by a space leaves the words whole and
/// turns some of the spaces into line breaks.
proof fn lemma_wrap_seps(s: Seq<char>, i: int, col: nat, inb: bool, w: nat, ws: Seq<Word>) -> (r: (Seq<bool>, nat, bool))
    requires
        0 <= i,
        i + spaced(ws).len() <= s.len(),
        s.subrange(i, i + spaced(ws).len()) == spaced(ws),
        forall|k: int| 0 <= k < ws.len() ==> whole_word(#[trigger] ws[k]),
    ensures
        r.0.len() == ws.len(),
        wrap_from(s, i, col, inb, w) == seps_text(ws, r.0) + wrap_from(s, i + spaced(ws).len(), r.1, r.2, w),
    decreases ws.len(),
{
    if ws.len() == 0 {
        assert(seps_text(ws, Seq::<bool>::empty()) =~= Seq::<char>::empty());
        (Seq::empty(), col, inb)
    } else {
        let x = ws[0];
        let rest = ws.drop_first();
        let m = x.1.len() as int;
        let sp = spaced(ws);
        assert(sp == x.1 + seq![' '] + spaced(rest));
        assert(whole_word(ws[0]));
        assert(s.subrange(i, i + m) =~= sp.subrange(0, m));
        assert(sp.subrange(0, m) =~= x.1);
        let r1 = lemma_wrap_word(s, i, col, inb, w, x);
        let e = i + m;
        assert(s[e] == sp[m]);
        let b = !r1.1 && crate::serializer::wrap::breaks_at(s, e, r1.0, w);
        let st2: (nat, bool) = if b { (0nat, false) } else { (r1.0 + 1, r1.1) };
        assert(wrap_from(s, e, r1.0, r1.1, w) == seq![sep_char(b)] + wrap_from(s, e + 1, st2.0, st2.1, w));
        let q = e + 1;
        assert(s.subrange(q, q + spaced(rest).len()) =~= spaced(rest)) by {
            assert(s.subrange(q, q + spaced(rest).len()) =~= sp.subrange(m + 1, sp.len() as int));
        }
        assert forall|k: int| 0 <= k < rest.len() implies whole_word(#[trigger] rest[k]) by {
            assert(rest[k] == ws[k + 1]);
        }
        let r2 = lemma_wrap_seps(s, q, st2.0, st2.1, w, rest);
        let bs = seq![b] + r2.0;
        assert(bs.drop_first() =~= r2.0);
        assert(seps_text(ws, bs) == x.1 + seq![sep_char(b)] + seps_text(rest, r2.0));
        assert(wrap_from(s, i, col, inb, w) =~= seps_text(ws, bs) + wrap_from(s, i + sp.len(), r2.1, r2.2, w));
        (bs, r2.1, r2.2)
    }
}

proof fn lemma_result_spaceless(r: GameResult)
    ensures
        spaceless(result_text(r)),
        result_text(r).len() > 0,
{
}

proof fn lemma_seps_none(ws: Seq<Word>)
    ensures
        seps_text(ws, Seq::new(ws.len(), |k: int| false)) == spaced(ws),
    decreases ws.len(),
{
    if ws.len() > 0 {
        let bs = Seq::new(ws.len(), |k: int| false);
        lemma_seps_none(ws.drop_first());
        assert(bs.drop_first() =~= Seq::new(ws.drop_first().len(), |k: int| false));
    }
}

/// Words, each followed by a space, then a result, wrapped at any width:
/// the same words, each followed by a space or a line break, then the result.
pub proof fn lemma_wrapped_words(ws: Seq<Word>, r: GameResult, w: nat) -> (bs: Seq<bool>)
    requires
        ws.len() > 0,
        forall|k: int| 0 <= k < ws.len() ==> whole_word(#[trigger] ws[k]),
    ensures
        bs.len() == ws.len(),
        wrap_text(spaced(ws) + result_text(r), w) == seps_text(ws, bs) + result_text(r),
{
    let s = spaced(ws) + result_text(r);
    lemma_result_spaceless(r);
    if w == 0 {
        lemma_seps_none(ws);
        Seq::new(ws.len(), |k: int| false)
    } else {
        assert(s.subrange(0, spaced(ws).len() as int) =~= spaced(ws));
        let x = lemma_wrap_seps(s, 0, 0, false, w, ws);
        let j = spaced(ws).len() as int;
        assert forall|k: int| j <= k < s.len() implies #[trigger] s[k] != ' ' by {
            assert(s[k] == result_text(r)[k - j]);
        }
        let y = lemma_wrap_plain(s, j, s.len() as int, x.1, x.2, w);
        assert(wrap_from(s, s.len() as int, y.0, y.1, w) =~= Seq::<char>::empty());
        assert(s.subrange(j, s.len() as int) =~= result_text(r));
        x.0
    }
}

/// A space and a result, wrapped at any width, stay as they are.
pub proof fn lemma_wrapped_bare(r: GameResult, w: nat)
    ensures
        wrap_text(seq![' '] + result_text(r), w) == seq![' '] + result_text(r),
{
    let s = seq![' '] + result_text(r);
    lemma_result_spaceless(r);
    if w > 0 {
        assert(wrap_from(s, 0, 0, false, w) == seq![' '] + wrap_from(s, 1, 1, false, w));
        assert forall|k: int| 1 <= k < s.len() implies #[trigger] s[k] != ' ' by {
            assert(s[k] == result_text(r)[k - 1]);
        }
        let y = lemma_wrap_plain(s, 1, s.len() as int, 1, false, w);
        assert(wrap_from(s, s.len() as int, y.0, y.1, w) =~= Seq::<char>::empty());
        assert(s.subrange(1, s.len() as int) =~= result_text(r));
    }
}

// ---------------------------------------------------------------------------
// The writer's words are calm
// ---------------------------------------------------------------------------

proof fn lemma_calm_add(a: Seq<Word>, b: Seq<Word>)
    requires
        calm_words(a),
        calm_words(b),
    ensures
        calm_words(a + b),
{
    assert forall|k: int| 0 <= k < (a + b).len() implies whole_word(#[trigger] (a + b)[k]) && calm_kind((a + b)[k].0) by {
        if k < a.len() {
            assert((a + b)[k] == a[k]);
        } else {
            assert((a + b)[k] == b[k - a.len()]);
        }
    }
}

proof fn lemma_dec_spaceless(n: nat, tail: Seq<char>)
    requires
        spaceless(tail),
    ensures
        spaceless(dec(n) + tail),
{
    lemma_dec_value(n);
    let d = dec(n);
    assert forall|i: int| 0 <= i < (d + tail).len() implies #[trigger] (d + tail)[i] != ' ' by {
        if i < d.len() {
            assert(is_digit(d[i]));
        } else {
            assert((d + tail)[i] == tail[i - d.len()]);
        }
    }
}

proof fn lemma_nag_calm(v: u8)
    ensures
        whole_word(nag_word(v)) && calm_kind(nag_word(v).0),
{
    if nag_symbol(v) is None {
        lemma_dec_spaceless(v as nat, Seq::empty());
        assert(dec(v as nat) + Seq::<char>::empty() =~= dec(v as nat));
        let t = seq!['$'] + dec(v as nat);
        assert forall|i: int| 0 <= i < t.len() implies #[trigger] t[i] != ' ' by {
            if i > 0 {
                assert(t[i] == dec(v as nat)[i - 1]);
            }
        }
    }
}

proof fn lemma_nags_calm(g: Seq<Nag>)
    ensures
        calm_words(nag_words(g)),
    decreases g.len(),
{
    if g.len() > 0 {
        lemma_nags_calm(g.drop_first());
        lemma_nag_calm(g[0].0);
        assert(calm_words(seq![nag_word(g[0].0)]));
        lemma_calm_add(seq![nag_word(g[0].0)], nag_words(g.drop_first()));
    }
}

/// The words of one move are calm.
proof fn lemma_move_calm(c: NodeModel, o: crate::serializer::options::OutputOptions, force: bool)
    requires
        move_writable(c, o),
    ensures
        calm_words(move_words(c, force)),
{
    let numbered = force || !c.is_black;
    let numw: Seq<Word> = if numbered { seq![number_word(c)] } else { Seq::empty() };
    let mw = seq![(move_kind(c.san), c.san)];
    let nw = nag_words(c.nags);
    let cw: Seq<Word> = if c.comment.len() > 0 {
        seq![(TokKind::BraceComment, seq!['{', ' '] + c.comment + seq![' ', '}'])]
    } else {
        Seq::empty()
    };
    assert(move_words(c, force) == numw + mw + nw + cw);
    if numbered {
        let tail: Seq<char> = if c.is_black { seq!['.', '.', '.'] } else { seq!['.'] };
        lemma_dec_spaceless(c.move_number->0 as nat, tail);
    }
    assert(calm_words(numw));
    assert(is_ws(' '));
    assert(calm_words(mw)) by {
        assert(is_move_kind(move_kind(c.san)));
    }
    lemma_nags_calm(c.nags);
    if c.comment.len() > 0 {
        let x = seq!['{', ' '] + c.comment + seq![' ', '}'];
        assert forall|i: int| 0 < i < x.len() - 1 implies #[trigger] x[i] != '}' by {
            if 2 <= i < c.comment.len() + 2 {
                assert(x[i] == c.comment[i - 2]);
            }
        }
        assert(brace_word(x));
    }
    assert(calm_words(cw));
    lemma_calm_add(numw, mw);
    lemma_calm_add(numw + mw, nw);
    lemma_calm_add(numw + mw + nw, cw);
}

/// The words of what follows a move are calm.
pub proof fn lemma_after_calm(n: NodeModel, o: crate::serializer::options::OutputOptions, force: bool)
    requires
        tree_writable(n, o),
    ensures
        calm_words(after_words(n, force)),
    decreases n, 1nat, 0nat,
{
    if n.children.len() > 0 {
        let c0 = n.children[0];
        assert(move_writable(n.children[0], o) && tree_writable(n.children[0], o));
        lemma_move_calm(c0, o, force);
        lemma_vars_calm(n.children, o);
        lemma_after_calm(c0, o, n.children.len() > 1);
        lemma_calm_add(move_words(c0, force), vars_words(n.children));
        lemma_calm_add(move_words(c0, force) + vars_words(n.children), after_words(c0, n.children.len() > 1));
    } else {
        assert(after_words(n, force) =~= Seq::<Word>::empty());
    }
}

proof fn lemma_vars_calm(s: Seq<NodeModel>, o: crate::serializer::options::OutputOptions)
    requires
        forall|i: int| 0 <= i < s.len() ==> move_writable(#[trigger] s[i], o) && tree_writable(s[i], o),
    ensures
        calm_words(vars_words(s)),
    decreases s, 0nat, 0nat,
{
    if s.len() > 1 {
        let prev = s.subrange(0, s.len() - 1);
        let c = s[s.len() - 1];
        assert forall|i: int| 0 <= i < prev.len() implies move_writable(#[trigger] prev[i], o) && tree_writable(prev[i], o) by {
            assert(prev[i] == s[i]);
        }
        assert(move_writable(s[s.len() - 1], o) && tree_writable(s[s.len() - 1], o));
        lemma_vars_calm(prev, o);
        lemma_move_calm(c, o, true);
        lemma_after_calm(c, o, false);
        lemma_calm_add(move_words(c, true), after_words(c, false));
        let a = vars_words(prev);
        let nw = node_words(c, true);
        assert(calm_words(seq![open_word()]));
        assert(calm_words(seq![close_word()]));
        lemma_calm_add(a, seq![open_word()]);
        lemma_calm_add(a + seq![open_word()], nw);
        lemma_calm_add(a + seq![open_word()] + nw, seq![close_word()]);
    } else {
        assert(vars_words(s) =~= Seq::<Word>::empty());
    }
}

/// The words of a single line are calm.
pub proof fn lemma_line_calm(n: NodeModel, o: crate::serializer::options::OutputOptions)
    requires
        line_writable(n, o),
    ensures
        calm_words(line_words(n)),
    decreases n,
{
    if n.children.len() > 0 {
        let c = n.children[0];
        lemma_move_calm(c, o, false);
        if !c.is_black {
            let d = dec(c.move_number->0 as nat);
            assert(d + seq!['.'] =~= d.push('.'));
            assert(number_word(c) == (TokKind::MoveNumber, d.push('.')));
        }
        assert(head_words(c) =~= move_words(c, false));
        lemma_line_calm(c, o);
        lemma_calm_add(head_words(c), line_words(c));
    } else {
        assert(line_words(n) =~= Seq::<Word>::empty());
    }
}

// ---------------------------------------------------------------------------
// The builder reads line breaks as nothing
// ---------------------------------------------------------------------------

/// The builder is not in prose, and no open variation goes back to prose.
pub open spec fn quiet(st: StateModel) -> bool {
    &&& !in_prose(st)
    &&& forall|i: int| 0 <= i < st.stack.len() ==> (#[trigger] st.stack[i]).3 != ParseContext::InProse
}

/// A token that is calm or a line break.
pub open spec fn calm_or_break(t: TokModel) -> bool {
    calm_kind(t.0.0) || t.0.0 == TokKind::Newline
}

/// A calm token leaves the builder quiet (leniently), and a line break
/// leaves it as it is.
proof fn lemma_step_quiet(b: Build, t: TokModel)
    requires
        quiet(b.st),
        calm_or_break(t),
    ensures
        step_spec(b, t, ParseMode::Lenient) matches Some(b2) && quiet(b2.st),
        t.0.0 == TokKind::Newline ==> step_spec(b, t, ParseMode::Lenient) == Some(b),
{
    let st = b.st;
    match t.0.0 {
        TokKind::VariationStart => {
            let st2 = crate::parser::builder::var_start_spec(st, b.root, ParseMode::Lenient, t.1, t.2).0;
            assert forall|i: int| 0 <= i < st2.stack.len() implies (#[trigger] st2.stack[i]).3 != ParseContext::InProse by {
                if i < st.stack.len() {
                    assert(st2.stack[i] == st.stack[i]);
                }
            }
        },
        TokKind::VariationEnd => {
            if st.stack.len() > 0 {
                let x = crate::parser::builder::var_end_spec(st, b.root, ParseMode::Lenient)->0;
                let st2 = x.0;
                assert(st.stack[st.stack.len() - 1].3 != ParseContext::InProse);
                assert forall|i: int| 0 <= i < st2.stack.len() implies (#[trigger] st2.stack[i]).3 != ParseContext::InProse by {
                    assert(st2.stack[i] == st.stack[i]);
                }
            }
        },
        TokKind::MoveNumber => {},
        TokKind::PieceMove | TokKind::PawnMove | TokKind::CastleLong | TokKind::CastleShort => {
            assert(crate::parser::builder::after_move_ctx(st.ctx) != ParseContext::InProse);
        },
        _ => {},
    }
}

/// The tokens that are not line breaks, in order.
pub open spec fn nonl(a: Seq<TokModel>) -> Seq<TokModel>
    decreases a.len(),
{
    if a.len() == 0 {
        Seq::empty()
    } else if a[0].0.0 == TokKind::Newline {
        nonl(a.drop_first())
    } else {
        seq![a[0]] + nonl(a.drop_first())
    }
}

/// What a run ends with, where it does not fail.
pub open spec fn ok_of(r: Result<Build, int>) -> Option<Build> {
    match r {
        Ok(b) => Some(b),
        Err(_) => None,
    }
}

/// A run from `i` ends as a run over the tokens from `i` does.
pub(crate) proof fn lemma_run_suffix(b: Build, s: Seq<TokModel>, i: int, mode: ParseMode)
    requires
        0 <= i <= s.len(),
    ensures
        ok_of(run_from(b, s, i, mode)) == ok_of(run_from(b, s.skip(i), 0, mode)),
    decreases s.len() - i,
{
    if i == s.len() {
        assert(s.skip(i) =~= Seq::<TokModel>::empty());
    } else {
        let t = s.skip(i);
        assert(t[0] == s[i]);
        match step_spec(b, s[i], mode) {
            Some(b2) => {
                lemma_run_suffix(b2, s, i + 1, mode);
                lemma_run_suffix(b2, t, 1, mode);
                assert(t.skip(1) =~= s.skip(i + 1));
            },
            None => {},
        }
    }
}

/// A quiet run over calm tokens and line breaks, then more, ends as the
/// run without the line breaks does.
pub(crate) proof fn lemma_run_strip(b: Build, a: Seq<TokModel>, c: Seq<TokModel>)
    requires
        quiet(b.st),
        forall|k: int| 0 <= k < a.len() ==> calm_or_break(#[trigger] a[k]),
    ensures
        ok_of(run_from(b, a + c, 0, ParseMode::Lenient)) == ok_of(run_from(b, nonl(a) + c, 0, ParseMode::Lenient)),
    decreases a.len(),
{
    let mode = ParseMode::Lenient;
    if a.len() == 0 {
        assert(a + c =~= c);
        assert(nonl(a) + c =~= c);
    } else {
        let a2 = a.drop_first();
        assert forall|k: int| 0 <= k < a2.len() implies calm_or_break(#[trigger] a2[k]) by {
            assert(a2[k] == a[k + 1]);
        }
        assert(calm_or_break(a[0]));
        lemma_step_quiet(b, a[0]);
        let b2 = step_spec(b, a[0], mode)->0;
        assert((a + c)[0] == a[0]);
        lemma_run_suffix(b2, a + c, 1, mode);
        assert((a + c).skip(1) =~= a2 + c);
        lemma_run_strip(b2, a2, c);
        if a[0].0.0 == TokKind::Newline {
            lemma_run_strip(b, a2, c);
        } else {
            let s2 = nonl(a) + c;
            assert(s2 =~= seq![a[0]] + (nonl(a2) + c));
            assert(s2[0] == a[0]);
            lemma_run_suffix(b2, s2, 1, mode);
            assert(s2.skip(1) =~= nonl(a2) + c);
        }
    }
}

proof fn lemma_nonl_add(x: Seq<TokModel>, y: Seq<TokModel>)
    ensures
        nonl(x + y) == nonl(x) + nonl(y),
    decreases x.len(),
{
    if x.len() == 0 {
        assert(x + y =~= y);
        assert(nonl(x) + nonl(y) =~= nonl(y));
    } else {
        lemma_nonl_add(x.drop_first(), y);
        assert((x + y).drop_first() =~= x.drop_first() + y);
        assert((x + y)[0] == x[0]);
        if x[0].0.0 != TokKind::Newline {
            assert(seq![x[0]] + (nonl(x.drop_first()) + nonl(y)) =~= seq![x[0]] + nonl(x.drop_first()) + nonl(y));
        }
    }
}

/// The tokens of calm words, some followed by line breaks: without the
/// line breaks, the tokens of the words.
proof fn lemma_nonl_seps(t: Seq<TokModel>, ws: Seq<Word>, bs: Seq<bool>)
    requires
        bs.len() == ws.len(),
        calm_words(ws),
        t.len() == crate::readback::words::seps_words(ws, bs).len(),
        forall|k: int| 0 <= k < t.len() ==> (#[trigger] t[k]).0 == crate::readback::line::word_tok(
            crate::readback::words::seps_words(ws, bs)[k],
        ),
    ensures
        nonl(t).len() == ws.len(),
        forall|k: int| 0 <= k < ws.len() ==> (#[trigger] nonl(t)[k]).0 == crate::readback::line::word_tok(ws[k]),
        forall|k: int| 0 <= k < t.len() ==> calm_or_break(#[trigger] t[k]),
    decreases ws.len(),
{
    let sw = crate::readback::words::seps_words(ws, bs);
    if ws.len() == 0 {
        assert(t =~= Seq::<TokModel>::empty());
    } else {
        let rest = ws.drop_first();
        let brest = bs.drop_first();
        let h: int = if bs[0] { 2 } else { 1 };
        let head: Seq<Word> = seq![ws[0]] + (if bs[0] { seq![crate::readback::words::newline_word()] } else { Seq::<Word>::empty() });
        assert(sw == head + crate::readback::words::seps_words(rest, brest));
        let t1 = t.take(h);
        let t2 = t.skip(h);
        assert(t =~= t1 + t2);
        assert forall|k: int| 0 <= k < t2.len() implies (#[trigger] t2[k]).0 == crate::readback::line::word_tok(
            crate::readback::words::seps_words(rest, brest)[k],
        ) by {
            assert(t2[k] == t[k + h]);
            assert(sw[k + h] == crate::readback::words::seps_words(rest, brest)[k]);
        }
        assert(calm_words(rest)) by {
            assert forall|k: int| 0 <= k < rest.len() implies whole_word(#[trigger] rest[k]) && calm_kind(rest[k].0) by {
                assert(rest[k] == ws[k + 1]);
            }
        }
        lemma_nonl_seps(t2, rest, brest);
        assert(calm_kind(ws[0].0));
        assert(t[0].0 == crate::readback::line::word_tok(ws[0]));
        assert(t1[0] == t[0]);
        assert(t1[0].0.0 == ws[0].0);
        let d = t1.drop_first();
        assert(nonl(t1) == seq![t1[0]] + nonl(d));
        if bs[0] {
            assert(t1[1] == t[1]);
            assert(sw[1] == crate::readback::words::newline_word());
            assert(d[0].0.0 == TokKind::Newline);
            assert(d.drop_first() =~= Seq::<TokModel>::empty());
            assert(nonl(d) == nonl(d.drop_first()));
            assert(nonl(d.drop_first()) =~= Seq::<TokModel>::empty());
        } else {
            assert(d =~= Seq::<TokModel>::empty());
        }
        assert(nonl(t1) =~= seq![t[0]]);
        lemma_nonl_add(t1, t2);
        assert forall|k: int| 0 <= k < ws.len() implies (#[trigger] nonl(t)[k]).0 == crate::readback::line::word_tok(ws[k]) by {
            if k > 0 {
                assert(nonl(t)[k] == nonl(t2)[k - 1]);
                assert(rest[k - 1] == ws[k]);
            }
        }
        assert forall|k: int| 0 <= k < t.len() implies calm_or_break(#[trigger] t[k]) by {
            if k >= h {
                assert(t[k] == t2[k - h]);
            } else if k == 1 {
                assert(t[1].0.0 == TokKind::Newline);
            }
        }
    }
}

// ---------------------------------------------------------------------------
// The tokens of wrapped movetext
// ---------------------------------------------------------------------------

/// Movetext before wrapping: words, each followed by a space (or a space
/// where there are none), then the result.
pub open spec fn words_body(ws: Seq<Word>, r: GameResult) -> Seq<char> {
    (if ws.len() > 0 { spaced(ws) } else { seq![' '] }) + result_text(r)
}

/// Wrapped movetext of good, calm words, then a newline, at the end of a
/// text from `q0`: the lexer makes the tokens of the words with line-break
/// tokens among them, then those of the result and the newline.
#[verifier::spinoff_prover]
#[verifier::rlimit(60)]
pub proof fn lemma_wrapped_tokens(text: Seq<char>, q0: int, ws: Seq<Word>, r: GameResult, w: nat) -> (tc: (
    Seq<TokModel>,
    Seq<TokModel>,
))
    requires
        0 <= q0,
        forall|k: int| 0 <= k < ws.len() ==> crate::readback::words::good_word(#[trigger] ws[k]),
        calm_words(ws),
        text.len() == q0 + wrap_text(words_body(ws, r), w).len() + 1,
        text.subrange(q0, text.len() as int) == wrap_text(words_body(ws, r), w) + seq!['\n'],
    ensures
        crate::parser::lexer::located_from(text, q0) == tc.0 + tc.1,
        tc.1.len() == 2,
        tc.1[0].0 == crate::readback::line::word_tok(crate::readback::line::result_word(r)),
        tc.1[1].0 == crate::readback::line::word_tok(crate::readback::words::newline_word()),
        forall|k: int| 0 <= k < tc.0.len() ==> calm_or_break(#[trigger] tc.0[k]),
        nonl(tc.0).len() == ws.len(),
        forall|k: int| 0 <= k < ws.len() ==> (#[trigger] nonl(tc.0)[k]).0 == crate::readback::line::word_tok(ws[k]),
        text[q0] != '\n',
{
    let rt = result_text(r);
    lemma_result_spaceless(r);
    crate::readback::words::lemma_result_best(r);
    assert(rt[0] != ' ' && rt[0] != '\t' && rt[0] != '\n') by {
        assert(crate::readback::line::result_word(r).1 == rt);
    }
    let (t, q): (Seq<TokModel>, int) = if ws.len() > 0 {
        let bs = lemma_wrapped_words(ws, r, w);
        let body = crate::readback::words::seps_text(ws, bs);
        let wt = body + rt + seq!['\n'];
        assert(text.subrange(q0, text.len() as int) =~= wt);
        let q = q0 + body.len();
        assert(text.subrange(q0, q) =~= body) by {
            assert(text.subrange(q0, q) =~= wt.subrange(0, body.len() as int));
        }
        assert(text[q] == rt[0]) by {
            assert(text[q0 + body.len()] == wt[body.len() as int]);
        }
        assert(text[q0] == ws[0].1[0]) by {
            crate::readback::words::lemma_seps_len(ws, bs);
            assert(text[q0 + 0] == wt[0]);
            assert(crate::readback::words::good_word(ws[0]));
        }
        assert(crate::readback::words::good_word(ws[0]));
        let t = crate::readback::words::lemma_located_seps(text, q0, ws, bs);
        lemma_nonl_seps(t, ws, bs);
        (t, q)
    } else {
        lemma_wrapped_bare(r, w);
        let wt = seq![' '] + rt + seq!['\n'];
        assert(words_body(ws, r) == seq![' '] + rt);
        assert(text.subrange(q0, text.len() as int) =~= wt);
        assert(text[q0] == ' ') by {
            assert(text[q0 + 0] == wt[0]);
        }
        assert(text[q0 + 1] == rt[0]) by {
            assert(text[q0 + 1] == wt[1]);
        }
        crate::readback::words::lemma_located_space(text, q0);
        assert(nonl(Seq::<TokModel>::empty()) =~= Seq::<TokModel>::empty());
        (Seq::<TokModel>::empty(), q0 + 1)
    };
    assert(text.len() == q + rt.len() + 1);
    assert(text.subrange(q, q + rt.len()) =~= rt) by {
        assert(text.subrange(q, q + rt.len()) =~= text.subrange(q0, text.len() as int).subrange(q - q0, q - q0 + rt.len()));
    }
    assert(text.last() == '\n') by {
        assert(text.subrange(q0, text.len() as int)[text.len() - 1 - q0] == text[text.len() - 1]);
    }
    crate::readback::write::lemma_located_end(text, q, r);
    let c = seq![
        crate::parser::lexer::locate(text, (crate::readback::line::result_word(r).0, q, q + rt.len())),
        crate::parser::lexer::locate(text, (TokKind::Newline, q + rt.len(), q + rt.len() + 1)),
    ];
    assert(crate::parser::lexer::located_from(text, q0) =~= t + c);
    (t, c)
}

} // verus!
