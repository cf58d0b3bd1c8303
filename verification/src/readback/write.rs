//! The writer's standard text for a single line, as words.

use vstd::prelude::*;
use crate::nag::{nag_text, Nag};
use crate::parser::builder::TokModel;
use crate::parser::lexer::{dropped, has_class, locate, located_from, step, CharClass, Step};
use crate::parser::token::TokKind;
use crate::parser::token_postprocess::collapse_from;
use crate::serializer::options::{OutputFormat, OutputOptions};
use crate::serializer::standard::{nags_text, number_text, process_comment_spec, std_head, std_node, std_vars};
use crate::text::{dec, is_ws, trim, trim_end, trim_start};
use crate::tree::game::{result_text, GameResult};
use crate::tree::model::{is_root_model, NodeModel};
use crate::readback::line::{bare_root, head_words, is_line, leaf, line_words, move_kind, nag_word, nag_words, result_word, word_tok, Word};
use crate::readback::words::{brace_text, good_word, lemma_best_local, lemma_good_brace, lemma_good_move, lemma_good_nag, lemma_good_number, lemma_newline_best, lemma_result_best, lemma_word_text, no_ws, reads_as_move, spaced};

verus! {

// ---------------------------------------------------------------------------
// The writer's text as words
// ---------------------------------------------------------------------------

/// Options under which standard PGN is written with moves, NAGs, comments
/// and the result, to any depth, at any line width.
pub open spec fn plain_options(o: OutputOptions) -> bool {
    &&& o.format == OutputFormat::Standard
    &&& o.result
    &&& o.nags
    &&& o.comments
    &&& o.max_depth == 0
}

/// A move the writer writes as words that read back: numbered, a move without
/// whitespace, read as one move token, and a comment without a closing
/// brace that the writer writes as it is.
pub open spec fn move_writable(c: NodeModel, o: OutputOptions) -> bool {
    &&& c.move_number is Some
    &&& c.san.len() > 0
    &&& no_ws(c.san)
    &&& reads_as_move(c.san)
    &&& forall|i: int| 0 <= i < c.comment.len() ==> #[trigger] c.comment[i] != '}'
    &&& process_comment_spec(c.comment, o) == c.comment
}

/// Every move of the line below `n` is one the writer writes as words
/// that read back.
pub open spec fn line_writable(n: NodeModel, o: OutputOptions) -> bool
    decreases n,
{
    n.children.len() == 0 || (move_writable(n.children[0], o) && line_writable(n.children[0], o))
}

pub(crate) proof fn lemma_spaced_add(a: Seq<Word>, b: Seq<Word>)
    ensures
        spaced(a + b) == spaced(a) + spaced(b),
    decreases a.len(),
{
    if a.len() == 0 {
        assert(a + b =~= b);
    } else {
        lemma_spaced_add(a.drop_first(), b);
        assert((a + b).drop_first() =~= a.drop_first() + b);
        assert((a + b)[0] == a[0]);
    }
}

pub(crate) proof fn lemma_nags_text_front(g: Seq<Nag>)
    requires
        g.len() > 0,
    ensures
        nags_text(g) == seq![' '] + nag_text(g[0].0) + nags_text(g.drop_first()),
    decreases g.len(),
{
    if g.len() == 1 {
        assert(g.drop_last() =~= Seq::<Nag>::empty());
        assert(g.drop_first() =~= Seq::<Nag>::empty());
    } else {
        lemma_nags_text_front(g.drop_last());
        assert(g.drop_last().drop_first() =~= g.drop_first().drop_last());
        assert(g.drop_first().last() == g.last());
        assert(g.drop_last()[0] == g[0]);
    }
}

/// The NAGs the writer writes, a space before each, are their words, a
/// space after each, shifted by one space.
pub(crate) proof fn lemma_nags_spaced(g: Seq<Nag>)
    ensures
        nags_text(g) + seq![' '] == seq![' '] + spaced(nag_words(g)),
    decreases g.len(),
{
    if g.len() > 0 {
        lemma_nags_text_front(g);
        lemma_nags_spaced(g.drop_first());
        let nt = nag_text(g[0].0);
        assert(nag_word(g[0].0).1 == nt);
        assert(nag_words(g)[0] == nag_word(g[0].0));
        assert(nag_words(g).drop_first() =~= nag_words(g.drop_first()));
        assert(spaced(nag_words(g)) == nt + seq![' '] + spaced(nag_words(g.drop_first())));
        let r = nags_text(g.drop_first());
        assert(nags_text(g) + seq![' '] =~= seq![' '] + nt + (r + seq![' ']));
        assert(seq![' '] + nt + (r + seq![' ']) =~= seq![' '] + nt + (seq![' '] + spaced(nag_words(g.drop_first()))));
        assert(seq![' '] + spaced(nag_words(g)) =~= seq![' '] + nt + (seq![' '] + spaced(nag_words(g.drop_first()))));
    } else {
        assert(nags_text(g) =~= Seq::<char>::empty());
    }
}

/// The writer's text for one move is its words, each followed by a space.
pub(crate) proof fn lemma_head_spaced(c: NodeModel, o: OutputOptions)
    requires
        plain_options(o),
        move_writable(c, o),
        c.move_number is Some,
    ensures
        std_head(c, o, false) == spaced(head_words(c)),
{
    reveal_strlit(". ");
    reveal_strlit(" { ");
    reveal_strlit(" }");
    let k = c.move_number->0;
    let numw: Seq<Word> = if c.is_black {
        Seq::empty()
    } else {
        seq![(TokKind::MoveNumber, dec(k as nat).push('.'))]
    };
    let mw = seq![(move_kind(c.san), c.san)];
    let nw = nag_words(c.nags);
    let cw: Seq<Word> = if c.comment.len() > 0 {
        seq![(TokKind::BraceComment, seq!['{', ' '] + c.comment + seq![' ', '}'])]
    } else {
        Seq::empty()
    };
    assert(head_words(c) == numw + mw + nw + cw);
    lemma_spaced_add(numw + mw + nw, cw);
    lemma_spaced_add(numw + mw, nw);
    lemma_spaced_add(numw, mw);
    assert(spaced(mw) == c.san + seq![' ']) by {
        assert(mw.drop_first() =~= Seq::<Word>::empty());
        assert(spaced(mw.drop_first()) =~= Seq::<char>::empty());
        assert(mw[0].1 == c.san);
        assert(c.san + seq![' '] + Seq::<char>::empty() =~= c.san + seq![' ']);
    }
    if !c.is_black {
        assert(spaced(numw) == number_text(c)) by {
            assert(numw.drop_first() =~= Seq::<Word>::empty());
            assert(spaced(numw.drop_first()) =~= Seq::<char>::empty());
            assert(numw[0].1 == dec(k as nat).push('.'));
            assert(number_text(c) == dec(k as nat) + ". "@);
            assert(dec(k as nat).push('.') + seq![' '] + Seq::<char>::empty() =~= dec(k as nat) + ". "@);
        }
    } else {
        assert(spaced(numw) =~= Seq::<char>::empty());
    }
    lemma_nags_spaced(c.nags);
    let pre = if !c.is_black { number_text(c) } else { Seq::<char>::empty() };
    let nt = nags_text(c.nags);
    assert(spaced(nw) =~= (nt + seq![' ']).drop_first());
    if c.comment.len() > 0 {
        let bw = seq!['{', ' '] + c.comment + seq![' ', '}'];
        assert(spaced(cw) == bw + seq![' ']) by {
            assert(cw.drop_first() =~= Seq::<Word>::empty());
            assert(spaced(cw.drop_first()) =~= Seq::<char>::empty());
            assert(cw[0].1 == bw);
            assert(bw + seq![' '] + Seq::<char>::empty() =~= bw + seq![' ']);
        }
        assert(std_head(c, o, false) =~= pre + c.san + nt + (" { "@ + c.comment + " }"@) + seq![' ']);
        assert(pre + c.san + nt + (" { "@ + c.comment + " }"@) + seq![' '] =~= pre + c.san + (nt + seq![' ']) + bw
            + seq![' ']);
        assert(nt + seq![' '] =~= seq![' '] + spaced(nw));
        assert(pre + c.san + (seq![' '] + spaced(nw)) + bw + seq![' '] =~= pre + (c.san + seq![' ']) + spaced(nw)
            + (bw + seq![' ']));
    } else {
        assert(spaced(cw) =~= Seq::<char>::empty());
        assert(std_head(c, o, false) =~= pre + c.san + nt + seq![' ']);
        assert(nt + seq![' '] =~= seq![' '] + spaced(nw));
        assert(pre + c.san + (seq![' '] + spaced(nw)) =~= pre + (c.san + seq![' ']) + spaced(nw) + Seq::<char>::empty());
    }
}

/// The writer's text for the line from a move is the words of that move
/// and of the line below it, each followed by a space.
pub(crate) proof fn lemma_node_spaced(c: NodeModel, o: OutputOptions, d: int)
    requires
        plain_options(o),
        is_line(c),
        move_writable(c, o),
        line_writable(c, o),
    ensures
        std_node(c, o, d, false) == spaced(head_words(c) + line_words(c)),
    decreases c,
{
    lemma_head_spaced(c, o);
    if c.children.len() == 0 {
        assert(line_words(c) =~= Seq::<Word>::empty());
        assert(head_words(c) + line_words(c) =~= head_words(c));
        assert(std_node(c, o, d, false) =~= std_head(c, o, false));
    } else {
        let c0 = c.children[0];
        lemma_node_spaced(c0, o, d + 1);
        assert(std_vars(c.children, o, d + 1) =~= Seq::<char>::empty());
        lemma_spaced_add(head_words(c), line_words(c));
        assert(line_words(c) == head_words(c0) + line_words(c0));
        assert(std_node(c, o, d, false) =~= std_head(c, o, false) + std_node(c0, o, d + 1, false));
    }
}

/// The writer's movetext for a game whose moves form a single line is the
/// words of the line, each followed by a space.
pub(crate) proof fn lemma_root_spaced(n: NodeModel, o: OutputOptions)
    requires
        plain_options(o),
        bare_root(n),
        is_line(n),
        line_writable(n, o),
    ensures
        std_node(n, o, 0, true) == spaced(line_words(n)),
{
    assert(n.san =~= leaf(n).san);
    assert(is_root_model(n));
    assert(std_head(n, o, true) =~= Seq::<char>::empty());
    if n.children.len() == 0 {
        assert(line_words(n) =~= Seq::<Word>::empty());
        assert(std_node(n, o, 0, true) =~= Seq::<char>::empty());
    } else {
        let c0 = n.children[0];
        lemma_node_spaced(c0, o, 1);
        assert(std_vars(n.children, o, 1) =~= Seq::<char>::empty());
        assert(std_node(n, o, 0, true) =~= std_node(c0, o, 1, false));
    }
}

/// Good words, each followed by a space, trimmed: the same less the last space.
pub(crate) proof fn lemma_trim_spaced(ws: Seq<Word>)
    requires
        ws.len() > 0,
        forall|k: int| 0 <= k < ws.len() ==> good_word(#[trigger] ws[k]),
    ensures
        trim(spaced(ws)) + seq![' '] == spaced(ws),
{
    let last = seq![ws.last()];
    let front = ws.drop_last();
    assert(front + last =~= ws);
    lemma_spaced_add(front, last);
    assert(good_word(ws[ws.len() - 1]));
    assert(spaced(last) == ws.last().1 + seq![' ']) by {
        assert(last.drop_first() =~= Seq::<Word>::empty());
        assert(spaced(last.drop_first()) =~= Seq::<char>::empty());
        assert(ws.last().1 + seq![' '] + Seq::<char>::empty() =~= ws.last().1 + seq![' ']);
    }
    let x = spaced(front) + ws.last().1;
    assert(spaced(ws) =~= x.push(' '));
    assert(x.last() == ws.last().1.last());
    assert(good_word(ws[0]));
    assert(x[0] == ws[0].1[0]) by {
        if front.len() > 0 {
            assert(front[0] == ws[0]);
            assert(spaced(front)[0] == front[0].1[0]);
        }
    }
    assert(trim_start(x.push(' ')) == x.push(' '));
    assert(x.push(' ').drop_last() =~= x);
    assert(is_ws(' '));
    assert(trim_end(x.push(' ')) == trim_end(x));
    assert(trim_end(x) == x);
}

pub(crate) proof fn lemma_nag_words_good(g: Seq<Nag>)
    ensures
        forall|k: int| 0 <= k < nag_words(g).len() ==> good_word(#[trigger] nag_words(g)[k]),
    decreases g.len(),
{
    if g.len() > 0 {
        lemma_nag_words_good(g.drop_first());
        lemma_good_nag(g[0].0);
        assert forall|k: int| 0 <= k < nag_words(g).len() implies good_word(#[trigger] nag_words(g)[k]) by {
            if k > 0 {
                assert(nag_words(g)[k] == nag_words(g.drop_first())[k - 1]);
            }
        }
    }
}

pub(crate) proof fn lemma_head_words_good(c: NodeModel, o: OutputOptions)
    requires
        move_writable(c, o),
    ensures
        forall|k: int| 0 <= k < head_words(c).len() ==> good_word(#[trigger] head_words(c)[k]),
{
    let k0 = c.move_number->0;
    let numw: Seq<Word> = if c.is_black {
        Seq::empty()
    } else {
        seq![(TokKind::MoveNumber, dec(k0 as nat).push('.'))]
    };
    let mw = seq![(move_kind(c.san), c.san)];
    let nw = nag_words(c.nags);
    let cw: Seq<Word> = if c.comment.len() > 0 {
        seq![(TokKind::BraceComment, seq!['{', ' '] + c.comment + seq![' ', '}'])]
    } else {
        Seq::empty()
    };
    let hw = head_words(c);
    assert(hw == numw + mw + nw + cw);
    lemma_good_number(k0);
    lemma_good_move(c.san);
    lemma_nag_words_good(c.nags);
    if c.comment.len() > 0 {
        lemma_good_brace(c.comment);
        assert(brace_text(c.comment) == seq!['{', ' '] + c.comment + seq![' ', '}']);
    }
    assert forall|k: int| 0 <= k < hw.len() implies good_word(#[trigger] hw[k]) by {
        let a = numw.len() as int;
        if k < a {
            assert(hw[k] == numw[k]);
        } else if k == a {
            assert(hw[k] == mw[0]);
        } else if k < a + 1 + nw.len() {
            assert(hw[k] == nw[k - a - 1]);
        } else {
            assert(hw[k] == cw[k - a - 1 - nw.len()]);
        }
    }
}

pub(crate) proof fn lemma_line_words_good(n: NodeModel, o: OutputOptions)
    requires
        line_writable(n, o),
    ensures
        forall|k: int| 0 <= k < line_words(n).len() ==> good_word(#[trigger] line_words(n)[k]),
    decreases n,
{
    if n.children.len() > 0 {
        let c = n.children[0];
        lemma_head_words_good(c, o);
        lemma_line_words_good(c, o);
        let hw = head_words(c);
        assert forall|k: int| 0 <= k < line_words(n).len() implies good_word(#[trigger] line_words(n)[k]) by {
            if k < hw.len() {
                assert(line_words(n)[k] == hw[k]);
            } else {
                assert(line_words(n)[k] == line_words(c)[k - hw.len()]);
            }
        }
    }
}

/// Collapsing changes nothing where no token from `i` on is bare text.
pub(crate) proof fn lemma_collapse_none(toks: Seq<TokModel>, i: int)
    requires
        0 <= i,
        forall|j: int| i <= j < toks.len() ==> (#[trigger] toks[j]).0.0 != TokKind::BareText,
    ensures
        collapse_from(toks, i) == toks,
    decreases toks.len() - i,
{
    if i < toks.len() {
        lemma_collapse_none(toks, i + 1);
    }
}

/// The result the writer ends with, then the newline: the lexer makes a
/// result token and a newline token of them, and nothing more.
#[verifier::spinoff_prover]
pub(crate) proof fn lemma_located_end(s: Seq<char>, q: int, r: GameResult)
    requires
        0 <= q,
        s.len() == q + result_text(r).len() + 1,
        s.subrange(q, q + result_text(r).len()) == result_text(r),
        s.last() == '\n',
    ensures
        located_from(s, q) == seq![
            locate(s, (result_word(r).0, q, q + result_text(r).len())),
            locate(s, (TokKind::Newline, q + result_text(r).len(), q + result_text(r).len() + 1)),
        ],
        locate(s, (result_word(r).0, q, q + result_text(r).len())).0 == word_tok(result_word(r)),
        locate(s, (TokKind::Newline, q + result_text(r).len(), q + result_text(r).len() + 1)).0 == word_tok(
            (TokKind::Newline, seq!['\n']),
        ),
{
    let w = result_word(r);
    let m = w.1.len() as int;
    let e = q + m;
    lemma_result_best(r);
    let t = w.1.push('\n');
    assert(s.subrange(q, q + m + 1) =~= t) by {
        assert(s[q + m] == s.last());
    }
    lemma_best_local(s, q, t);
    assert(s[q + 0] == w.1[0]);
    assert(!has_class(s, q, CharClass::Skip));
    assert(step(s, q) == Step::Tok(w.0, w.1.len()));
    lemma_word_text(s, q, w);
    assert(!dropped(locate(s, (w.0, q, e)).0));
    lemma_newline_best(s, e);
    assert(!has_class(s, e, CharClass::Skip));
    assert(step(s, e) == Step::Tok(TokKind::Newline, 1));
    assert(s.subrange(e, e + 1) =~= seq!['\n']);
    lemma_word_text(s, e, (TokKind::Newline, seq!['\n']));
    assert(located_from(s, e + 1) =~= Seq::<TokModel>::empty());
    assert(located_from(s, e) =~= seq![locate(s, (TokKind::Newline, e, e + 1))]);
    assert(located_from(s, q) =~= seq![locate(s, (w.0, q, e)), locate(s, (TokKind::Newline, e, e + 1))]);
}

/// The movetext the writer writes for a single line: its words (or a
/// space where there are none), the result, a newline.
pub open spec fn movetext(n: NodeModel, r: GameResult) -> Seq<char> {
    (if line_words(n).len() > 0 { spaced(line_words(n)) } else { seq![' '] }) + result_text(r) + seq!['\n']
}

/// Movetext made of words, each followed by a space (or a space where
/// there are none), then the result and a newline.
pub open spec fn words_movetext(ws: Seq<Word>, r: GameResult) -> Seq<char> {
    (if ws.len() > 0 { spaced(ws) } else { seq![' '] }) + result_text(r) + seq!['\n']
}


/// What the writer writes after the tag section of a single line is its movetext.
pub(crate) proof fn lemma_movetext_shape(n: NodeModel, o: OutputOptions, r: GameResult)
    requires
        plain_options(o),
        bare_root(n),
        is_line(n),
        line_writable(n, o),
    ensures
        trim(std_node(n, o, 0, true)) + (seq![' '] + result_text(r)) + seq!['\n'] == movetext(n, r),
{
    let lw = line_words(n);
    lemma_root_spaced(n, o);
    lemma_line_words_good(n, o);
    if lw.len() > 0 {
        lemma_trim_spaced(lw);
    } else {
        assert(trim(Seq::<char>::empty()) =~= Seq::<char>::empty());
    }
    assert(trim(std_node(n, o, 0, true)) + (seq![' '] + result_text(r)) + seq!['\n'] =~= movetext(n, r));
}





} // verus!
