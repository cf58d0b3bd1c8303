//! The tag section: written pairs as words, read back.

use vstd::prelude::*;
use crate::error::ParseMode;
use crate::nag::Nag;
use crate::parser::builder::{header_spec, in_prose, newline_spec, run_from, step_spec, Build, TokModel};
use crate::parser::lexer::{best, best_upto, dropped, has_class, in_class, kind_len, lemma_run_bound, locate, located_from, run, step, CharClass, Step};
use crate::parser::token::TokKind;
use crate::serializer::standard::{extra_headers, header_line, headers_text, is_str_key, lemma_tag_word, roster_text, tag_word};
use crate::text::is_ws;
use crate::tree::game::{distinct_keys, header_insert, header_or, lookup, result_text, GameResult};
use crate::readback::line::{lemma_run_step, toks_match, word_tok, Word};

verus! {

// ---------------------------------------------------------------------------
// Tag pairs
// ---------------------------------------------------------------------------

/// A key the lexer reads in a tag pair: a letter or underscore, then
/// letters, digits and underscores.
pub open spec fn key_ok(k: Seq<char>) -> bool {
    &&& k.len() > 0
    &&& in_class(CharClass::IdentStart, k[0])
    &&& forall|i: int| 1 <= i < k.len() ==> in_class(CharClass::Ident, #[trigger] k[i])
}

/// A value the writer writes as it is and the reader reads back: no
/// quotes and no backslashes.
pub open spec fn value_ok(v: Seq<char>) -> bool {
    forall|i: int| 0 <= i < v.len() ==> #[trigger] v[i] != '"' && v[i] != '\\'
}

pub open spec fn pair_ok(kv: (Seq<char>, Seq<char>)) -> bool {
    key_ok(kv.0) && value_ok(kv.1)
}

/// A tag pair, written where it stands, reads as one tag-pair token.
#[verifier::spinoff_prover]
pub(crate) proof fn lemma_header_best(s: Seq<char>, p: int, k: Seq<char>, v: Seq<char>)
    requires
        0 <= p,
        p + tag_word(k, v).len() <= s.len(),
        s.subrange(p, p + tag_word(k, v).len()) == tag_word(k, v),
        key_ok(k),
        value_ok(v),
    ensures
        best(s, p) == (TokKind::Header, tag_word(k, v).len()),
{
    let x = tag_word(k, v);
    let m = x.len() as int;
    let nk = k.len() as int;
    let nv = v.len() as int;
    assert forall|j: int| 0 <= j < m implies s[p + j] == #[trigger] x[j] by {
        assert(s.subrange(p, p + m)[j] == s[p + j]);
    }
    assert(s[p + 0] == x[0] && x[0] == '[');
    assert(s[p + 1] == x[1] && x[1] == k[0]);
    let a = p + 1 + nk;
    assert(s[p + (1 + nk)] == x[1 + nk] && x[1 + nk] == ' ');
    assert(s[p + (2 + nk)] == x[2 + nk] && x[2 + nk] == '"');
    let b = a + 2 + nv;
    assert(s[p + (3 + nk + nv)] == x[3 + nk + nv] && x[3 + nk + nv] == '"');
    assert(s[p + (4 + nk + nv)] == x[4 + nk + nv] && x[4 + nk + nv] == ']');
    assert forall|j: int| p + 2 <= j < a implies #[trigger] has_class(s, j, CharClass::Ident) by {
        assert(s[p + (j - p)] == x[j - p]);
        assert(x[j - p] == k[j - p - 1]);
    }
    lemma_run_bound(s, p + 2, CharClass::Ident);
    let ri = run(s, p + 2, CharClass::Ident) as int;
    if ri > nk - 1 {
        assert(has_class(s, a, CharClass::Ident));
    }
    if ri < nk - 1 {
        assert(has_class(s, p + 2 + ri, CharClass::Ident));
    }
    assert(ri == nk - 1);
    assert(run(s, a + 1, CharClass::Space) == 0);
    assert(run(s, a, CharClass::Space) == 1);
    assert forall|j: int| a + 2 <= j < b implies #[trigger] has_class(s, j, CharClass::NotQuote) by {
        assert(s[p + (j - p)] == x[j - p]);
        assert(x[j - p] == v[j - p - 3 - nk]);
    }
    lemma_run_bound(s, a + 2, CharClass::NotQuote);
    let rq = run(s, a + 2, CharClass::NotQuote) as int;
    if rq > nv {
        assert(has_class(s, b, CharClass::NotQuote));
    }
    if rq < nv {
        assert(has_class(s, a + 2 + rq, CharClass::NotQuote));
    }
    assert(rq == nv);
    assert(run(s, p, CharClass::Digit) == 0);
    assert(run(s, p, CharClass::Newline) == 0);
    assert(kind_len(TokKind::Header, s, p) == m);
    assert(kind_len(TokKind::BraceComment, s, p) == 0);
    assert(kind_len(TokKind::SemicolonComment, s, p) == 0);
    assert(kind_len(TokKind::VariationStart, s, p) == 0);
    assert(kind_len(TokKind::VariationEnd, s, p) == 0);
    assert(kind_len(TokKind::CastleLong, s, p) == 0);
    assert(kind_len(TokKind::CastleShort, s, p) == 0);
    assert(kind_len(TokKind::WhiteWins, s, p) == 0);
    assert(kind_len(TokKind::BlackWins, s, p) == 0);
    assert(kind_len(TokKind::Draw, s, p) == 0);
    assert(kind_len(TokKind::Ongoing, s, p) == 0);
    assert(kind_len(TokKind::MoveNumber, s, p) == 0);
    assert(kind_len(TokKind::Nag, s, p) == 0);
    assert(kind_len(TokKind::PieceMove, s, p) == 0);
    assert(kind_len(TokKind::PawnMove, s, p) == 0);
    assert(kind_len(TokKind::DoubleBang, s, p) == 0);
    assert(kind_len(TokKind::DoubleQuestion, s, p) == 0);
    assert(kind_len(TokKind::BangQuestion, s, p) == 0);
    assert(kind_len(TokKind::QuestionBang, s, p) == 0);
    assert(kind_len(TokKind::WhiteWinning, s, p) == 0);
    assert(kind_len(TokKind::BlackWinning, s, p) == 0);
    assert(kind_len(TokKind::WhiteBetter, s, p) == 0);
    assert(kind_len(TokKind::BlackBetter, s, p) == 0);
    assert(kind_len(TokKind::WhiteSlightlyBetter, s, p) == 0);
    assert(kind_len(TokKind::BlackSlightlyBetter, s, p) == 0);
    assert(kind_len(TokKind::Equal, s, p) == 0);
    assert(kind_len(TokKind::Bang, s, p) == 0);
    assert(kind_len(TokKind::Question, s, p) == 0);
    assert(kind_len(TokKind::Digit, s, p) == 0);
    assert(kind_len(TokKind::Newline, s, p) == 0);
    assert(kind_len(TokKind::BareText, s, p) == 0);
    assert(kind_len(TokKind::Punctuation, s, p) == 0);
    reveal_with_fuel(best_upto, 33);
}

/// One or two newlines before something else read as one newline token.
#[verifier::spinoff_prover]
pub(crate) proof fn lemma_newlines_best(s: Seq<char>, p: int, m: int)
    requires
        0 <= p,
        1 <= m <= 2,
        p + m <= s.len(),
        forall|j: int| p <= j < p + m ==> s[j] == '\n',
        p + m < s.len() ==> s[p + m] != '\n',
    ensures
        best(s, p) == (TokKind::Newline, m as nat),
        !has_class(s, p, CharClass::Skip),
{
    assert(s[p] == '\n');
    assert(run(s, p + m, CharClass::Newline) == 0);
    if m == 2 {
        assert(s[p + 1] == '\n');
        assert(run(s, p + 1, CharClass::Newline) == 1);
    }
    assert(run(s, p, CharClass::Newline) == m);
    assert(run(s, p, CharClass::Digit) == 0);
    assert(kind_len(TokKind::Header, s, p) == 0);
    assert(kind_len(TokKind::BraceComment, s, p) == 0);
    assert(kind_len(TokKind::SemicolonComment, s, p) == 0);
    assert(kind_len(TokKind::VariationStart, s, p) == 0);
    assert(kind_len(TokKind::VariationEnd, s, p) == 0);
    assert(kind_len(TokKind::CastleLong, s, p) == 0);
    assert(kind_len(TokKind::CastleShort, s, p) == 0);
    assert(kind_len(TokKind::WhiteWins, s, p) == 0);
    assert(kind_len(TokKind::BlackWins, s, p) == 0);
    assert(kind_len(TokKind::Draw, s, p) == 0);
    assert(kind_len(TokKind::Ongoing, s, p) == 0);
    assert(kind_len(TokKind::MoveNumber, s, p) == 0);
    assert(kind_len(TokKind::Nag, s, p) == 0);
    assert(kind_len(TokKind::PieceMove, s, p) == 0);
    assert(kind_len(TokKind::PawnMove, s, p) == 0);
    assert(kind_len(TokKind::DoubleBang, s, p) == 0);
    assert(kind_len(TokKind::DoubleQuestion, s, p) == 0);
    assert(kind_len(TokKind::BangQuestion, s, p) == 0);
    assert(kind_len(TokKind::QuestionBang, s, p) == 0);
    assert(kind_len(TokKind::WhiteWinning, s, p) == 0);
    assert(kind_len(TokKind::BlackWinning, s, p) == 0);
    assert(kind_len(TokKind::WhiteBetter, s, p) == 0);
    assert(kind_len(TokKind::BlackBetter, s, p) == 0);
    assert(kind_len(TokKind::WhiteSlightlyBetter, s, p) == 0);
    assert(kind_len(TokKind::BlackSlightlyBetter, s, p) == 0);
    assert(kind_len(TokKind::Equal, s, p) == 0);
    assert(kind_len(TokKind::Bang, s, p) == 0);
    assert(kind_len(TokKind::Question, s, p) == 0);
    assert(kind_len(TokKind::Digit, s, p) == 0);
    assert(kind_len(TokKind::Newline, s, p) == m);
    assert(kind_len(TokKind::BareText, s, p) == 0);
    assert(kind_len(TokKind::Punctuation, s, p) == 0);
    reveal_with_fuel(best_upto, 33);
}

/// Tag pairs as words: each pair, then a newline, two after the last
/// (the blank line that ends the tag section).
pub open spec fn tag_words(ps: Seq<(Seq<char>, Seq<char>)>) -> Seq<Word>
    decreases ps.len(),
{
    if ps.len() == 0 {
        Seq::empty()
    } else {
        seq![
            (TokKind::Header, tag_word(ps[0].0, ps[0].1)),
            (TokKind::Newline, if ps.len() == 1 { seq!['\n', '\n'] } else { seq!['\n'] }),
        ] + tag_words(ps.drop_first())
    }
}

/// Tag pairs as lines.
pub open spec fn tags_text(ps: Seq<(Seq<char>, Seq<char>)>) -> Seq<char>
    decreases ps.len(),
{
    if ps.len() == 0 {
        Seq::empty()
    } else {
        tag_word(ps[0].0, ps[0].1).push('\n') + tags_text(ps.drop_first())
    }
}

/// The located tokens of tag pairs written as lines, then a blank line, from `p`.
pub open spec fn loc_tags(s: Seq<char>, p: int, ps: Seq<(Seq<char>, Seq<char>)>) -> Seq<TokModel>
    decreases ps.len(),
{
    if ps.len() == 0 {
        Seq::empty()
    } else {
        let e = p + tag_word(ps[0].0, ps[0].1).len();
        seq![
            locate(s, (TokKind::Header, p, e)),
            locate(s, (TokKind::Newline, e, e + if ps.len() == 1 { 2int } else { 1int })),
        ] + loc_tags(s, e + 1, ps.drop_first())
    }
}

pub(crate) proof fn lemma_tag_words_len(ps: Seq<(Seq<char>, Seq<char>)>)
    ensures
        tag_words(ps).len() == 2 * ps.len(),
    decreases ps.len(),
{
    if ps.len() > 0 {
        lemma_tag_words_len(ps.drop_first());
    }
}

pub(crate) proof fn lemma_loc_tags_len(s: Seq<char>, p: int, ps: Seq<(Seq<char>, Seq<char>)>)
    ensures
        loc_tags(s, p, ps).len() == 2 * ps.len(),
    decreases ps.len(),
{
    if ps.len() > 0 {
        lemma_loc_tags_len(s, p + tag_word(ps[0].0, ps[0].1).len() + 1, ps.drop_first());
    }
}

/// Tag pairs written as lines, then a blank line, before something that is
/// not a newline: the lexer makes a tag-pair token and a newline token of
/// each line, the last newline token taking the blank line too.
#[verifier::spinoff_prover]
pub(crate) proof fn lemma_located_tags(s: Seq<char>, p: int, ps: Seq<(Seq<char>, Seq<char>)>)
    requires
        ps.len() > 0,
        0 <= p,
        p + tags_text(ps).len() + 1 <= s.len(),
        s.subrange(p, p + tags_text(ps).len() + 1) == tags_text(ps).push('\n'),
        forall|i: int| 0 <= i < ps.len() ==> pair_ok(#[trigger] ps[i]),
        p + tags_text(ps).len() + 1 < s.len() ==> s[p + tags_text(ps).len() + 1] != '\n',
    ensures
        located_from(s, p) == loc_tags(s, p, ps) + located_from(s, p + tags_text(ps).len() + 1),
        loc_tags(s, p, ps).len() == tag_words(ps).len(),
        forall|k: int| 0 <= k < tag_words(ps).len() ==> (#[trigger] loc_tags(s, p, ps)[k]).0 == word_tok(tag_words(ps)[k]),
    decreases ps.len(),
{
    let k0 = ps[0].0;
    let v0 = ps[0].1;
    assert(pair_ok(ps[0]));
    let w = tag_word(k0, v0);
    let m = w.len() as int;
    let e = p + m;
    let rest = ps.drop_first();
    let tt = tags_text(ps);
    assert(tt == w.push('\n') + tags_text(rest));
    lemma_tag_words_len(ps);
    lemma_loc_tags_len(s, p, ps);
    assert(s.subrange(p, p + m) =~= w) by {
        assert(s.subrange(p, p + m) =~= tt.push('\n').subrange(0, m));
    }
    lemma_header_best(s, p, k0, v0);
    assert(s[p] == '[') by {
        assert(s[p + 0] == w[0]);
    }
    assert(!has_class(s, p, CharClass::Skip));
    assert(step(s, p) == Step::Tok(TokKind::Header, w.len()));
    assert(!dropped(locate(s, (TokKind::Header, p, e)).0));
    assert(locate(s, (TokKind::Header, p, e)).0 == word_tok((TokKind::Header, w))) by {
        assert(s.subrange(p, e) =~= w.subrange(0, m));
    }
    assert(located_from(s, p) == seq![locate(s, (TokKind::Header, p, e))] + located_from(s, e));
    let nl: int = if ps.len() == 1 { 2 } else { 1 };
    assert(s[e] == '\n') by {
        assert(s[p + m] == tt.push('\n')[m]);
    }
    if ps.len() == 1 {
        assert(tags_text(rest) =~= Seq::<char>::empty());
        assert(s[e + 1] == '\n') by {
            assert(s[p + (m + 1)] == tt.push('\n')[m + 1]);
        }
        lemma_newlines_best(s, e, 2);
    } else {
        let w1 = tag_word(rest[0].0, rest[0].1);
        assert(tags_text(rest) == w1.push('\n') + tags_text(rest.drop_first()));
        assert(s[e + 1] == '[') by {
            assert(s[p + (m + 1)] == tt.push('\n')[m + 1]);
            assert(tt.push('\n')[m + 1] == tags_text(rest)[0]);
        }
        lemma_newlines_best(s, e, 1);
    }
    assert(step(s, e) == Step::Tok(TokKind::Newline, nl as nat));
    assert(s.subrange(e, e + nl) =~= (if ps.len() == 1 { seq!['\n', '\n'] } else { seq!['\n'] }));
    let ln = locate(s, (TokKind::Newline, e, e + nl));
    assert(ln.0 == word_tok((TokKind::Newline, if ps.len() == 1 { seq!['\n', '\n'] } else { seq!['\n'] })));
    assert(located_from(s, e) == seq![ln] + located_from(s, e + nl));
    if ps.len() == 1 {
        assert(loc_tags(s, e + 1, rest) =~= Seq::<TokModel>::empty());
        assert(located_from(s, p) =~= loc_tags(s, p, ps) + located_from(s, p + tt.len() + 1));
        assert forall|k: int| 0 <= k < tag_words(ps).len() implies (#[trigger] loc_tags(s, p, ps)[k]).0 == word_tok(tag_words(ps)[k]) by {
        }
    } else {
        assert(s.subrange(e + 1, e + 1 + tags_text(rest).len() + 1) =~= tags_text(rest).push('\n')) by {
            assert(s.subrange(e + 1, e + 1 + tags_text(rest).len() + 1) =~= tt.push('\n').subrange(m + 1, tt.len() + 1int));
        }
        assert forall|i: int| 0 <= i < rest.len() implies pair_ok(#[trigger] rest[i]) by {
            assert(rest[i] == ps[i + 1]);
        }
        lemma_located_tags(s, e + 1, rest);
        assert(located_from(s, p) =~= loc_tags(s, p, ps) + located_from(s, p + tt.len() + 1));
        assert forall|k: int| 0 <= k < tag_words(ps).len() implies (#[trigger] loc_tags(s, p, ps)[k]).0 == word_tok(tag_words(ps)[k]) by {
            if k >= 2 {
                assert(loc_tags(s, p, ps)[k] == loc_tags(s, e + 1, rest)[k - 2]);
                assert(tag_words(ps)[k] == tag_words(rest)[k - 2]);
            }
        }
    }
}

/// The tag pairs and result after reading tag-pair texts, in order.
pub open spec fn read_tags(
    h: Seq<(Seq<char>, Seq<char>)>,
    r: GameResult,
    ps: Seq<(Seq<char>, Seq<char>)>,
) -> (Seq<(Seq<char>, Seq<char>)>, GameResult)
    decreases ps.len(),
{
    if ps.len() == 0 {
        (h, r)
    } else {
        let x = header_spec(h, r, tag_word(ps[0].0, ps[0].1));
        read_tags(x.0, x.1, ps.drop_first())
    }
}

/// The builder's run over the tokens of tag pairs: it reads each pair, and
/// the newlines change nothing.
pub(crate) proof fn lemma_run_tags(b: Build, toks: Seq<TokModel>, j: int, ps: Seq<(Seq<char>, Seq<char>)>, mode: ParseMode)
    requires
        !in_prose(b.st),
        toks_match(toks, j, tag_words(ps)),
    ensures
        run_from(b, toks, j, mode) == run_from(
            Build {
                headers: read_tags(b.headers, b.result, ps).0,
                result: read_tags(b.headers, b.result, ps).1,
                ..b
            },
            toks,
            j + tag_words(ps).len(),
            mode,
        ),
    decreases ps.len(),
{
    lemma_tag_words_len(ps);
    if ps.len() > 0 {
        let w = tag_word(ps[0].0, ps[0].1);
        let tw = tag_words(ps);
        assert(toks[j + 0].0 == word_tok(tw[0]));
        assert(tw[0] == (TokKind::Header, w));
        assert(w.subrange(0, w.len() as int) =~= w);
        let x = header_spec(b.headers, b.result, w);
        let b1 = Build { headers: x.0, result: x.1, ..b };
        assert(step_spec(b, toks[j], mode) == Some(b1));
        lemma_run_step(b, toks, j, b1, mode);
        assert(toks[j + 1].0 == word_tok(tw[1]));
        assert(newline_spec(b1.st) == b1.st);
        assert(step_spec(b1, toks[j + 1], mode) == Some(b1));
        lemma_run_step(b1, toks, j + 1, b1, mode);
        let rest = ps.drop_first();
        assert forall|k: int| 0 <= k < tag_words(rest).len() implies #[trigger] toks[(j + 2) + k].0 == word_tok(tag_words(rest)[k]) by {
            assert(tw[k + 2] == tag_words(rest)[k]);
            assert(toks[j + (k + 2)].0 == word_tok(tw[k + 2]));
        }
        lemma_run_tags(b1, toks, j + 2, rest, mode);
    }
}

/// No entry of `h` has key `k`.
pub open spec fn key_absent(h: Seq<(Seq<char>, Seq<char>)>, k: Seq<char>) -> bool {
    forall|i: int| 0 <= i < h.len() ==> (#[trigger] h[i]).0 != k
}

pub(crate) proof fn lemma_lookup_absent(h: Seq<(Seq<char>, Seq<char>)>, k: Seq<char>)
    requires
        key_absent(h, k),
    ensures
        lookup(h, k) is None,
    decreases h.len(),
{
    if h.len() > 0 {
        assert(h[0].0 != k);
        assert forall|i: int| 0 <= i < h.drop_first().len() implies (#[trigger] h.drop_first()[i]).0 != k by {
            assert(h.drop_first()[i] == h[i + 1]);
        }
        lemma_lookup_absent(h.drop_first(), k);
    }
}

pub(crate) proof fn lemma_pair_reads(kv: (Seq<char>, Seq<char>))
    requires
        pair_ok(kv),
    ensures
        crate::parser::builder::parse_header_spec(tag_word(kv.0, kv.1)) == Some(kv),
{
    let k = kv.0;
    assert(!is_ws(k[0]));
    assert(!is_ws(k.last())) by {
        if k.len() > 1 {
            assert(in_class(CharClass::Ident, k[k.len() - 1]));
        }
    }
    assert forall|i: int| 0 <= i < k.len() implies #[trigger] k[i] != '"' by {
        if i > 0 {
            assert(in_class(CharClass::Ident, k[i]));
        }
    }
    lemma_tag_word(kv.0, kv.1);
}

/// Tag pairs with distinct keys, none already read, are read as they are,
/// after those already read.
pub(crate) proof fn lemma_read_tags_headers(h: Seq<(Seq<char>, Seq<char>)>, r: GameResult, ps: Seq<(Seq<char>, Seq<char>)>)
    requires
        forall|i: int| 0 <= i < ps.len() ==> pair_ok(#[trigger] ps[i]),
        forall|i: int, j: int| 0 <= i < j < ps.len() ==> #[trigger] ps[i].0 != #[trigger] ps[j].0,
        forall|i: int| 0 <= i < ps.len() ==> key_absent(h, #[trigger] ps[i].0),
    ensures
        read_tags(h, r, ps).0 == h + ps,
    decreases ps.len(),
{
    if ps.len() == 0 {
        assert(h + ps =~= h);
    } else {
        let kv = ps[0];
        assert(pair_ok(ps[0]));
        lemma_pair_reads(kv);
        assert(key_absent(h, ps[0].0));
        lemma_lookup_absent(h, kv.0);
        let h1 = h.push(kv);
        assert(header_insert(h, kv.0, kv.1) == h1);
        let x = header_spec(h, r, tag_word(kv.0, kv.1));
        assert(x.0 == h1);
        let rest = ps.drop_first();
        assert forall|i: int| 0 <= i < rest.len() implies pair_ok(#[trigger] rest[i]) by {
            assert(rest[i] == ps[i + 1]);
        }
        assert forall|i: int, j: int| 0 <= i < j < rest.len() implies #[trigger] rest[i].0 != #[trigger] rest[j].0 by {
            assert(rest[i] == ps[i + 1] && rest[j] == ps[j + 1]);
        }
        assert forall|i: int| 0 <= i < rest.len() implies key_absent(h1, #[trigger] rest[i].0) by {
            assert(rest[i] == ps[i + 1]);
            assert(key_absent(h, ps[i + 1].0));
            assert(ps[0].0 != ps[i + 1].0);
            assert forall|q: int| 0 <= q < h1.len() implies (#[trigger] h1[q]).0 != rest[i].0 by {
                if q < h.len() {
                    assert(h1[q] == h[q]);
                }
            }
        }
        lemma_read_tags_headers(h1, x.1, rest);
        assert(h1 + rest =~= h + ps);
    }
}

/// The Seven Tag Roster as the writer writes it: each key's value, or its
/// default, and the result.
pub open spec fn roster_pairs(h: Seq<(Seq<char>, Seq<char>)>, r: GameResult) -> Seq<(Seq<char>, Seq<char>)> {
    seq![
        ("Event"@, header_or(h, "Event"@, "?"@)),
        ("Site"@, header_or(h, "Site"@, "?"@)),
        ("Date"@, header_or(h, "Date"@, "????.??.??"@)),
        ("Round"@, header_or(h, "Round"@, "?"@)),
        ("White"@, header_or(h, "White"@, "?"@)),
        ("Black"@, header_or(h, "Black"@, "?"@)),
        ("Result"@, result_text(r)),
    ]
}

/// The other tag pairs, in order.
pub open spec fn extra_pairs(h: Seq<(Seq<char>, Seq<char>)>) -> Seq<(Seq<char>, Seq<char>)>
    decreases h.len(),
{
    if h.len() == 0 {
        Seq::empty()
    } else {
        extra_pairs(h.drop_last()) + if is_str_key(h.last().0) {
            Seq::empty()
        } else {
            seq![h.last()]
        }
    }
}

/// The tag pairs the writer writes: the roster, then the others.
pub open spec fn written_pairs(h: Seq<(Seq<char>, Seq<char>)>, r: GameResult) -> Seq<(Seq<char>, Seq<char>)> {
    roster_pairs(h, r) + extra_pairs(h)
}

pub(crate) proof fn lemma_tags_text_add(a: Seq<(Seq<char>, Seq<char>)>, b: Seq<(Seq<char>, Seq<char>)>)
    ensures
        tags_text(a + b) == tags_text(a) + tags_text(b),
    decreases a.len(),
{
    if a.len() == 0 {
        assert(a + b =~= b);
    } else {
        lemma_tags_text_add(a.drop_first(), b);
        assert((a + b).drop_first() =~= a.drop_first() + b);
        assert((a + b)[0] == a[0]);
    }
}

pub(crate) proof fn lemma_tags_text_one(k: Seq<char>, v: Seq<char>)
    ensures
        tags_text(seq![(k, v)]) == header_line(k, v),
{
    reveal_strlit(" \"");
    reveal_strlit("\"]\n");
    assert(seq![(k, v)].drop_first() =~= Seq::<(Seq<char>, Seq<char>)>::empty());
    assert(tags_text(seq![(k, v)].drop_first()) =~= Seq::<char>::empty());
    assert(tag_word(k, v).push('\n') + Seq::<char>::empty() =~= header_line(k, v));
}

pub(crate) proof fn lemma_extra_text(h: Seq<(Seq<char>, Seq<char>)>)
    ensures
        extra_headers(h) == tags_text(extra_pairs(h)),
    decreases h.len(),
{
    if h.len() > 0 {
        lemma_extra_text(h.drop_last());
        let x: Seq<(Seq<char>, Seq<char>)> = if is_str_key(h.last().0) { Seq::empty() } else { seq![h.last()] };
        lemma_tags_text_add(extra_pairs(h.drop_last()), x);
        if !is_str_key(h.last().0) {
            lemma_tags_text_one(h.last().0, h.last().1);
        } else {
            assert(tags_text(x) =~= Seq::<char>::empty());
        }
    } else {
        assert(tags_text(extra_pairs(h)) =~= Seq::<char>::empty());
    }
}

/// The writer's tag section is its pairs as lines, then a blank line.
pub(crate) proof fn lemma_headers_text(h: Seq<(Seq<char>, Seq<char>)>, r: GameResult)
    ensures
        headers_text(h, r) == tags_text(written_pairs(h, r)).push('\n'),
{
    let rp = roster_pairs(h, r);
    lemma_tags_text_add(rp, extra_pairs(h));
    lemma_extra_text(h);
    assert(tags_text(rp) == roster_text(h, r)) by {
        assert forall|k: int| 0 <= k < 7 implies tags_text(seq![#[trigger] rp[k]]) == header_line(rp[k].0, rp[k].1) by {
            lemma_tags_text_one(rp[k].0, rp[k].1);
        }
        assert(rp =~= seq![rp[0]] + seq![rp[1]] + seq![rp[2]] + seq![rp[3]] + seq![rp[4]] + seq![rp[5]] + seq![rp[6]]);
        lemma_tags_text_add(seq![rp[0]] + seq![rp[1]] + seq![rp[2]] + seq![rp[3]] + seq![rp[4]] + seq![rp[5]], seq![rp[6]]);
        lemma_tags_text_add(seq![rp[0]] + seq![rp[1]] + seq![rp[2]] + seq![rp[3]] + seq![rp[4]], seq![rp[5]]);
        lemma_tags_text_add(seq![rp[0]] + seq![rp[1]] + seq![rp[2]] + seq![rp[3]], seq![rp[4]]);
        lemma_tags_text_add(seq![rp[0]] + seq![rp[1]] + seq![rp[2]], seq![rp[3]]);
        lemma_tags_text_add(seq![rp[0]] + seq![rp[1]], seq![rp[2]]);
        lemma_tags_text_add(seq![rp[0]], seq![rp[1]]);
        assert(tags_text(seq![rp[0]]) == header_line(rp[0].0, rp[0].1));
        assert(tags_text(seq![rp[1]]) == header_line(rp[1].0, rp[1].1));
        assert(tags_text(seq![rp[2]]) == header_line(rp[2].0, rp[2].1));
        assert(tags_text(seq![rp[3]]) == header_line(rp[3].0, rp[3].1));
        assert(tags_text(seq![rp[4]]) == header_line(rp[4].0, rp[4].1));
        assert(tags_text(seq![rp[5]]) == header_line(rp[5].0, rp[5].1));
        assert(tags_text(seq![rp[6]]) == header_line(rp[6].0, rp[6].1));
    }
    assert(headers_text(h, r) =~= tags_text(written_pairs(h, r)).push('\n'));
}

pub(crate) proof fn lemma_lookup_value(h: Seq<(Seq<char>, Seq<char>)>, k: Seq<char>)
    ensures
        lookup(h, k) matches Some(v) ==> exists|i: int| 0 <= i < h.len() && h[i] == (k, v),
    decreases h.len(),
{
    if h.len() > 0 && h[0].0 != k {
        lemma_lookup_value(h.drop_first(), k);
        if lookup(h, k) is Some {
            let v = lookup(h, k)->0;
            let i = choose|i: int| 0 <= i < h.drop_first().len() && h.drop_first()[i] == (k, v);
            assert(h[i + 1] == (k, v));
        }
    } else if h.len() > 0 {
        assert(h[0] == (k, h[0].1));
    }
}

/// Every pair in `h` is one the lexer and reader read back.
pub open spec fn pairs_ok(h: Seq<(Seq<char>, Seq<char>)>) -> bool {
    forall|i: int| 0 <= i < h.len() ==> pair_ok(#[trigger] h[i])
}

pub(crate) proof fn lemma_value_or(h: Seq<(Seq<char>, Seq<char>)>, k: Seq<char>, d: Seq<char>)
    requires
        pairs_ok(h),
        value_ok(d),
    ensures
        value_ok(header_or(h, k, d)),
{
    lemma_lookup_value(h, k);
    if lookup(h, k) is Some {
        let v = lookup(h, k)->0;
        let i = choose|i: int| 0 <= i < h.len() && h[i] == (k, v);
        assert(pair_ok(h[i]));
    }
}

pub(crate) proof fn lemma_extra_pairs(h: Seq<(Seq<char>, Seq<char>)>)
    requires
        pairs_ok(h),
        distinct_keys(h),
    ensures
        pairs_ok(extra_pairs(h)),
        forall|i: int| 0 <= i < extra_pairs(h).len() ==> !is_str_key(#[trigger] extra_pairs(h)[i].0),
        forall|i: int| 0 <= i < extra_pairs(h).len() ==> exists|j: int| 0 <= j < h.len() && h[j].0 == #[trigger] extra_pairs(h)[i].0,
        forall|i: int, j: int| 0 <= i < j < extra_pairs(h).len() ==> #[trigger] extra_pairs(h)[i].0 != #[trigger] extra_pairs(h)[j].0,
    decreases h.len(),
{
    if h.len() > 0 {
        let d = h.drop_last();
        assert(pairs_ok(d)) by {
            assert forall|i: int| 0 <= i < d.len() implies pair_ok(#[trigger] d[i]) by {
                assert(d[i] == h[i]);
            }
        }
        assert(distinct_keys(d)) by {
            assert forall|i: int, j: int| 0 <= i < j < d.len() implies #[trigger] d[i].0 != #[trigger] d[j].0 by {
                assert(d[i] == h[i] && d[j] == h[j]);
            }
        }
        lemma_extra_pairs(d);
        let e = extra_pairs(d);
        let x: Seq<(Seq<char>, Seq<char>)> = if is_str_key(h.last().0) { Seq::empty() } else { seq![h.last()] };
        let ep = extra_pairs(h);
        assert(ep == e + x);
        assert(pair_ok(h[h.len() - 1]));
        assert forall|i: int| 0 <= i < ep.len() implies exists|j: int| 0 <= j < h.len() && h[j].0 == #[trigger] ep[i].0 by {
            if i < e.len() {
                assert(ep[i] == e[i]);
                let j = choose|j: int| 0 <= j < d.len() && d[j].0 == e[i].0;
                assert(h[j] == d[j]);
            } else {
                assert(h[h.len() - 1].0 == ep[i].0);
            }
        }
        assert forall|i: int, j: int| 0 <= i < j < ep.len() implies #[trigger] ep[i].0 != #[trigger] ep[j].0 by {
            if j >= e.len() {
                assert(ep[j] == h.last());
                assert(ep[i] == e[i]);
                let q = choose|q: int| 0 <= q < d.len() && d[q].0 == e[i].0;
                assert(h[q] == d[q]);
                assert(h[q].0 != h[h.len() - 1].0);
            } else {
                assert(ep[i] == e[i] && ep[j] == e[j]);
            }
        }
        assert forall|i: int| 0 <= i < ep.len() implies pair_ok(#[trigger] ep[i]) by {
            if i < e.len() {
                assert(ep[i] == e[i]);
            }
        }
    }
}

pub(crate) proof fn lemma_roster_keys()
    ensures
        key_ok("Event"@),
        key_ok("Site"@),
        key_ok("Date"@),
        key_ok("Round"@),
        key_ok("White"@),
        key_ok("Black"@),
        key_ok("Result"@),
        value_ok("?"@),
        value_ok("????.??.??"@),
{
    reveal_strlit("Event");
    reveal_strlit("Site");
    reveal_strlit("Date");
    reveal_strlit("Round");
    reveal_strlit("White");
    reveal_strlit("Black");
    reveal_strlit("Result");
    reveal_strlit("?");
    reveal_strlit("????.??.??");
}

/// The pairs the writer writes are read back, and their keys are distinct.
pub(crate) proof fn lemma_written_pairs(h: Seq<(Seq<char>, Seq<char>)>, r: GameResult)
    requires
        pairs_ok(h),
        distinct_keys(h),
    ensures
        pairs_ok(written_pairs(h, r)),
        distinct_keys(written_pairs(h, r)),
        written_pairs(h, r).len() > 0,
{
    lemma_roster_keys();
    lemma_extra_pairs(h);
    let rp = roster_pairs(h, r);
    let ep = extra_pairs(h);
    let wp = written_pairs(h, r);
    lemma_value_or(h, "Event"@, "?"@);
    lemma_value_or(h, "Site"@, "?"@);
    lemma_value_or(h, "Date"@, "????.??.??"@);
    lemma_value_or(h, "Round"@, "?"@);
    lemma_value_or(h, "White"@, "?"@);
    lemma_value_or(h, "Black"@, "?"@);
    assert(value_ok(result_text(r)));
    assert forall|i: int| 0 <= i < wp.len() implies pair_ok(#[trigger] wp[i]) by {
        if i < 7 {
            assert(wp[i] == rp[i]);
        } else {
            assert(wp[i] == ep[i - 7]);
        }
    }
    reveal_strlit("Event");
    reveal_strlit("Site");
    reveal_strlit("Date");
    reveal_strlit("Round");
    reveal_strlit("White");
    reveal_strlit("Black");
    reveal_strlit("Result");
    assert forall|i: int, j: int| 0 <= i < j < wp.len() implies #[trigger] wp[i].0 != #[trigger] wp[j].0 by {
        if j < 7 {
            assert(wp[i] == rp[i] && wp[j] == rp[j]);
        } else if i < 7 {
            assert(wp[i] == rp[i] && wp[j] == ep[j - 7]);
            assert(!is_str_key(ep[j - 7].0));
        } else {
            assert(wp[i] == ep[i - 7] && wp[j] == ep[j - 7]);
        }
    }
}



pub(crate) proof fn lemma_tag_words_kinds(ps: Seq<(Seq<char>, Seq<char>)>)
    ensures
        forall|k: int| 0 <= k < tag_words(ps).len() ==> (#[trigger] tag_words(ps)[k]).0 == TokKind::Header
            || tag_words(ps)[k].0 == TokKind::Newline,
    decreases ps.len(),
{
    if ps.len() > 0 {
        lemma_tag_words_kinds(ps.drop_first());
        assert forall|k: int| 0 <= k < tag_words(ps).len() implies (#[trigger] tag_words(ps)[k]).0 == TokKind::Header
            || tag_words(ps)[k].0 == TokKind::Newline by {
            if k >= 2 {
                assert(tag_words(ps)[k] == tag_words(ps.drop_first())[k - 2]);
            }
        }
    }
}

} // verus!
