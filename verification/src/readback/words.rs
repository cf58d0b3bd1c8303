//! Reading the words the writer writes, where they stand in a text.

use vstd::prelude::*;
use crate::nag::{nag_symbol, Nag};
use crate::parser::builder::TokModel;
use crate::parser::lexer::{best, best_upto, dropped, has_class, in_class, kind_len, kinds_by_priority, lemma_run_bound, locate, located_from, run, step, CharClass, Step};
use crate::parser::token::{is_move_kind, TokKind};
use crate::text::{dec, is_digit, is_ws, lemma_dec_value};
use crate::tree::game::GameResult;
use crate::readback::line::{move_kind, nag_word, result_word, word_tok, Word};

verus! {

// ---------------------------------------------------------------------------
// Reading a word where it stands
// ---------------------------------------------------------------------------

/// A character that ends a word: a space or a newline.
pub open spec fn stopper(c: char) -> bool {
    c == ' ' || c == '\n'
}

/// Whether `s` holds `t` from `p`, with `t` a word and its stopper.
pub open spec fn holds_at(s: Seq<char>, p: int, t: Seq<char>) -> bool {
    &&& 0 <= p
    &&& t.len() >= 2
    &&& p + t.len() <= s.len()
    &&& s.subrange(p, p + t.len()) == t
    &&& stopper(t.last())
}

/// The classes that stop at a space and at a newline.
pub open spec fn narrow(k: CharClass) -> bool {
    !in_class(k, ' ') && !in_class(k, '\n')
}

/// Whether `s` holds the word of `t` from `p`, followed by a stopper (which
/// need not be the one `t` ends in).
pub open spec fn holds_near(s: Seq<char>, p: int, t: Seq<char>) -> bool {
    &&& 0 <= p
    &&& t.len() >= 2
    &&& p + t.len() <= s.len()
    &&& forall|j: int| 0 <= j < t.len() - 1 ==> s[p + j] == #[trigger] t[j]
    &&& stopper(t.last())
    &&& stopper(s[p + t.len() - 1])
}

pub(crate) proof fn lemma_near_of_at(s: Seq<char>, p: int, t: Seq<char>)
    requires
        holds_at(s, p, t),
    ensures
        holds_near(s, p, t),
{
    assert forall|j: int| 0 <= j < t.len() implies s[p + j] == #[trigger] t[j] by {
        assert(s.subrange(p, p + t.len())[j] == s[p + j]);
    }
    assert(s[p + (t.len() - 1)] == t[t.len() - 1]);
}

pub(crate) proof fn lemma_holds_index(s: Seq<char>, p: int, t: Seq<char>)
    requires
        holds_near(s, p, t),
    ensures
        forall|j: int| 0 <= j < t.len() - 1 ==> s[p + j] == #[trigger] t[j],
        stopper(s[p + t.len() - 1]),
        stopper(t[t.len() - 1]),
{
}

/// A run of a narrow class reads the same in the text and in the word.
pub(crate) proof fn lemma_run_local(s: Seq<char>, p: int, t: Seq<char>, i: int, k: CharClass)
    requires
        holds_near(s, p, t),
        narrow(k),
        0 <= i < t.len(),
    ensures
        run(s, p + i, k) == run(t, i, k),
        i + run(t, i, k) < t.len(),
    decreases t.len() - i,
{
    lemma_holds_index(s, p, t);
    if i == t.len() - 1 {
        assert(!has_class(t, i, k));
        assert(!has_class(s, p + i, k));
    } else if has_class(t, i, k) {
        assert(s[p + i] == t[i]);
        lemma_run_local(s, p, t, i + 1, k);
        assert(p + i + 1 == p + (i + 1));
    }
}

/// The first character of a word that every pattern reads inside the word.
pub open spec fn plain_start(c: char) -> bool {
    c != '[' && c != '{' && c != ';' && c != '\n'
}

/// At a word that starts plainly and ends in a stopper, each pattern
/// matches as it does on the word alone.
#[verifier::spinoff_prover]
#[verifier::rlimit(60)]
pub(crate) proof fn lemma_kind_local(k: TokKind, s: Seq<char>, p: int, t: Seq<char>)
    requires
        holds_near(s, p, t),
        plain_start(t[0]),
    ensures
        kind_len(k, s, p) == kind_len(k, t, 0),
{
    lemma_holds_index(s, p, t);
    assert(s[p + 0] == t[0]);
    let m = t.len() as int;
    if m > 2 {
        assert(s[p + 1] == t[1]);
    }
    assert(s[p + (m - 1)] == ' ' || s[p + (m - 1)] == '\n');
    assert(t[m - 1] == ' ' || t[m - 1] == '\n');
    match k {
        TokKind::MoveNumber => {
            lemma_run_local(s, p, t, 0, CharClass::Digit);
            let d = run(t, 0, CharClass::Digit) as int;
            lemma_run_local(s, p, t, d, CharClass::Dot);
        },
        TokKind::Nag => {
            lemma_run_local(s, p, t, 1, CharClass::Digit);
        },
        TokKind::BareText => {
            lemma_run_local(s, p, t, 1, CharClass::Bare);
        },
        TokKind::Digit => {
            lemma_run_local(s, p, t, 0, CharClass::Digit);
        },
        TokKind::Newline => {
            assert(!has_class(t, 0, CharClass::Newline));
            assert(!has_class(s, p, CharClass::Newline));
        },
        _ => {},
    }
}

pub(crate) proof fn lemma_best_upto_local(s: Seq<char>, p: int, t: Seq<char>, i: nat)
    requires
        holds_near(s, p, t),
        plain_start(t[0]),
        i <= 32,
    ensures
        best_upto(s, p, i) == best_upto(t, 0, i),
    decreases i,
{
    if i > 0 {
        lemma_best_upto_local(s, p, t, (i - 1) as nat);
        lemma_kind_local(kinds_by_priority()[i - 1], s, p, t);
    }
}

/// At a word that starts plainly and ends in a stopper, the lexer finds
/// what it finds on the word alone.
pub(crate) proof fn lemma_best_local(s: Seq<char>, p: int, t: Seq<char>)
    requires
        holds_at(s, p, t),
        plain_start(t[0]),
    ensures
        best(s, p) == best(t, 0),
{
    lemma_near_of_at(s, p, t);
    lemma_best_upto_local(s, p, t, 32);
}

/// At a word that starts plainly, followed by a space or a newline, the
/// lexer finds what it finds on the word followed by its own stopper.
pub(crate) proof fn lemma_best_near(s: Seq<char>, p: int, t: Seq<char>)
    requires
        holds_near(s, p, t),
        plain_start(t[0]),
    ensures
        best(s, p) == best(t, 0),
{
    lemma_best_upto_local(s, p, t, 32);
}

/// The symbol of NAG 1 reads as one token of its kind.
pub(crate) proof fn lemma_symbol_1()
    ensures
        best(seq!['!', ' '], 0) == (TokKind::Bang, 1nat),
{
    reveal_with_fuel(best_upto, 33);
}

/// The symbol of NAG 2 reads as one token of its kind.
pub(crate) proof fn lemma_symbol_2()
    ensures
        best(seq!['?', ' '], 0) == (TokKind::Question, 1nat),
{
    reveal_with_fuel(best_upto, 33);
}

/// The symbol of NAG 3 reads as one token of its kind.
pub(crate) proof fn lemma_symbol_3()
    ensures
        best(seq!['!', '!', ' '], 0) == (TokKind::DoubleBang, 2nat),
{
    reveal_with_fuel(best_upto, 33);
}

/// The symbol of NAG 4 reads as one token of its kind.
pub(crate) proof fn lemma_symbol_4()
    ensures
        best(seq!['?', '?', ' '], 0) == (TokKind::DoubleQuestion, 2nat),
{
    reveal_with_fuel(best_upto, 33);
}

/// The symbol of NAG 5 reads as one token of its kind.
pub(crate) proof fn lemma_symbol_5()
    ensures
        best(seq!['!', '?', ' '], 0) == (TokKind::BangQuestion, 2nat),
{
    reveal_with_fuel(best_upto, 33);
}

/// The symbol of NAG 6 reads as one token of its kind.
pub(crate) proof fn lemma_symbol_6()
    ensures
        best(seq!['?', '!', ' '], 0) == (TokKind::QuestionBang, 2nat),
{
    reveal_with_fuel(best_upto, 33);
}

/// The symbol of NAG 10 reads as one token of its kind.
pub(crate) proof fn lemma_symbol_10()
    ensures
        best(seq!['=', ' '], 0) == (TokKind::Equal, 1nat),
{
    reveal_with_fuel(best_upto, 33);
}

/// The symbol of NAG 14 reads as one token of its kind.
pub(crate) proof fn lemma_symbol_14()
    ensures
        best(seq!['+', '=', ' '], 0) == (TokKind::WhiteSlightlyBetter, 2nat),
{
    reveal_with_fuel(best_upto, 33);
}

/// The symbol of NAG 15 reads as one token of its kind.
pub(crate) proof fn lemma_symbol_15()
    ensures
        best(seq!['=', '+', ' '], 0) == (TokKind::BlackSlightlyBetter, 2nat),
{
    reveal_with_fuel(best_upto, 33);
}

/// The symbol of NAG 16 reads as one token of its kind.
pub(crate) proof fn lemma_symbol_16()
    ensures
        best(seq!['+', '/', '-', ' '], 0) == (TokKind::WhiteBetter, 3nat),
{
    reveal_with_fuel(best_upto, 33);
}

/// The symbol of NAG 17 reads as one token of its kind.
pub(crate) proof fn lemma_symbol_17()
    ensures
        best(seq!['-', '/', '+', ' '], 0) == (TokKind::BlackBetter, 3nat),
{
    reveal_with_fuel(best_upto, 33);
}

/// The symbol of NAG 18 reads as one token of its kind.
pub(crate) proof fn lemma_symbol_18()
    ensures
        best(seq!['+', '-', ' '], 0) == (TokKind::WhiteWinning, 2nat),
{
    reveal_with_fuel(best_upto, 33);
}

/// The symbol of NAG 19 reads as one token of its kind.
pub(crate) proof fn lemma_symbol_19()
    ensures
        best(seq!['-', '+', ' '], 0) == (TokKind::BlackWinning, 2nat),
{
    reveal_with_fuel(best_upto, 33);
}

/// A written NAG, followed by a space, reads as one token of its kind.
pub(crate) proof fn lemma_nag_word_best(v: u8)
    ensures
        best(nag_word(v).1.push(' '), 0) == (nag_word(v).0, nag_word(v).1.len()),
        nag_word(v).1.len() > 0,
        plain_start(nag_word(v).1[0]),
{
    let w = nag_word(v).1;
    if v == 1 { lemma_symbol_1(); assert(w.push(' ') =~= seq!['!', ' ']); }
    else if v == 2 { lemma_symbol_2(); assert(w.push(' ') =~= seq!['?', ' ']); }
    else if v == 3 { lemma_symbol_3(); assert(w.push(' ') =~= seq!['!', '!', ' ']); }
    else if v == 4 { lemma_symbol_4(); assert(w.push(' ') =~= seq!['?', '?', ' ']); }
    else if v == 5 { lemma_symbol_5(); assert(w.push(' ') =~= seq!['!', '?', ' ']); }
    else if v == 6 { lemma_symbol_6(); assert(w.push(' ') =~= seq!['?', '!', ' ']); }
    else if v == 10 { lemma_symbol_10(); assert(w.push(' ') =~= seq!['=', ' ']); }
    else if v == 14 { lemma_symbol_14(); assert(w.push(' ') =~= seq!['+', '=', ' ']); }
    else if v == 15 { lemma_symbol_15(); assert(w.push(' ') =~= seq!['=', '+', ' ']); }
    else if v == 16 { lemma_symbol_16(); assert(w.push(' ') =~= seq!['+', '/', '-', ' ']); }
    else if v == 17 { lemma_symbol_17(); assert(w.push(' ') =~= seq!['-', '/', '+', ' ']); }
    else if v == 18 { lemma_symbol_18(); assert(w.push(' ') =~= seq!['+', '-', ' ']); }
    else if v == 19 { lemma_symbol_19(); assert(w.push(' ') =~= seq!['-', '+', ' ']); }
    else {
        lemma_dollar_best(v);
    }
}

/// `$N` followed by a space reads as one NAG token.
#[verifier::spinoff_prover]
pub(crate) proof fn lemma_dollar_best(v: u8)
    ensures
        best((seq!['$'] + dec(v as nat)).push(' '), 0) == (TokKind::Nag, 1 + dec(v as nat).len()),
{
    let d = dec(v as nat);
    lemma_dec_value(v as nat);
    let t = (seq!['$'] + d).push(' ');
    assert(t[0] == '$');
    assert(t[d.len() + 1int] == ' ');
    assert forall|j: int| 1 <= j <= d.len() implies #[trigger] has_class(t, j, CharClass::Digit) by {
        assert(t[j] == d[j - 1]);
        assert(is_digit(d[j - 1]));
    }
    lemma_run_bound(t, 1, CharClass::Digit);
    let r = run(t, 1, CharClass::Digit);
    if r > d.len() {
        assert(has_class(t, d.len() + 1int, CharClass::Digit));
    }
    if r < d.len() {
        assert(has_class(t, 1int + r, CharClass::Digit));
    }
    assert(r == d.len());
    assert(kind_len(TokKind::Nag, t, 0) == 1 + d.len());
    assert(run(t, 0, CharClass::Digit) == 0);
    assert(run(t, 0, CharClass::Newline) == 0);
    reveal_with_fuel(best_upto, 33);
}

/// White's move number "N." followed by a space reads as one move-number token.
#[verifier::spinoff_prover]
pub(crate) proof fn lemma_number_best(k: u16)
    ensures
        best(dec(k as nat).push('.').push(' '), 0) == (TokKind::MoveNumber, dec(k as nat).len() + 1),
{
    let d = dec(k as nat);
    lemma_dec_value(k as nat);
    let t = d.push('.').push(' ');
    let n = d.len() as int;
    assert(t[n] == '.');
    assert(t[n + 1] == ' ');
    assert forall|j: int| 0 <= j < n implies #[trigger] has_class(t, j, CharClass::Digit) by {
        assert(t[j] == d[j]);
        assert(is_digit(d[j]));
    }
    lemma_run_bound(t, 0, CharClass::Digit);
    let r = run(t, 0, CharClass::Digit) as int;
    if r > n {
        assert(has_class(t, n, CharClass::Digit));
    }
    if r < n {
        assert(has_class(t, r, CharClass::Digit));
    }
    assert(r == n);
    assert(run(t, n + 1, CharClass::Dot) == 0);
    assert(run(t, n, CharClass::Dot) == 1);
    assert(kind_len(TokKind::MoveNumber, t, 0) == n + 1);
    assert(is_digit(t[0]));
    assert(t[1] != '-' && t[1] != '/') by {
        if n > 1 {
            assert(t[1] == d[1]);
            assert(is_digit(d[1]));
        }
    }
    assert(run(t, 0, CharClass::Newline) == 0);
    assert(kind_len(TokKind::Header, t, 0) == 0);
    assert(kind_len(TokKind::BraceComment, t, 0) == 0);
    assert(kind_len(TokKind::SemicolonComment, t, 0) == 0);
    assert(kind_len(TokKind::VariationStart, t, 0) == 0);
    assert(kind_len(TokKind::VariationEnd, t, 0) == 0);
    assert(kind_len(TokKind::CastleLong, t, 0) == 0);
    assert(kind_len(TokKind::CastleShort, t, 0) == 0);
    assert(kind_len(TokKind::WhiteWins, t, 0) == 0);
    assert(kind_len(TokKind::BlackWins, t, 0) == 0);
    assert(kind_len(TokKind::Draw, t, 0) == 0);
    assert(kind_len(TokKind::Ongoing, t, 0) == 0);
    assert(kind_len(TokKind::MoveNumber, t, 0) == n + 1);
    assert(kind_len(TokKind::Nag, t, 0) == 0);
    assert(kind_len(TokKind::PieceMove, t, 0) == 0);
    assert(kind_len(TokKind::PawnMove, t, 0) == 0);
    assert(kind_len(TokKind::DoubleBang, t, 0) == 0);
    assert(kind_len(TokKind::DoubleQuestion, t, 0) == 0);
    assert(kind_len(TokKind::BangQuestion, t, 0) == 0);
    assert(kind_len(TokKind::QuestionBang, t, 0) == 0);
    assert(kind_len(TokKind::WhiteWinning, t, 0) == 0);
    assert(kind_len(TokKind::BlackWinning, t, 0) == 0);
    assert(kind_len(TokKind::WhiteBetter, t, 0) == 0);
    assert(kind_len(TokKind::BlackBetter, t, 0) == 0);
    assert(kind_len(TokKind::WhiteSlightlyBetter, t, 0) == 0);
    assert(kind_len(TokKind::BlackSlightlyBetter, t, 0) == 0);
    assert(kind_len(TokKind::Equal, t, 0) == 0);
    assert(kind_len(TokKind::Bang, t, 0) == 0);
    assert(kind_len(TokKind::Question, t, 0) == 0);
    assert(kind_len(TokKind::Digit, t, 0) == n);
    assert(kind_len(TokKind::Newline, t, 0) == 0);
    assert(kind_len(TokKind::BareText, t, 0) == 0);
    assert(kind_len(TokKind::Punctuation, t, 0) == 0);
    reveal_with_fuel(best_upto, 33);
}

#[verifier::spinoff_prover]
pub(crate) proof fn lemma_result_1_0()
    ensures
        best(seq!['1', '-', '0', '\n'], 0) == (TokKind::WhiteWins, 3nat),
{
    let t = seq!['1', '-', '0', '\n'];
    assert(run(t, 1, CharClass::Digit) == 0);
    assert(run(t, 1, CharClass::Dot) == 0);
    assert(kind_len(TokKind::Header, t, 0) == 0);
    assert(kind_len(TokKind::BraceComment, t, 0) == 0);
    assert(kind_len(TokKind::SemicolonComment, t, 0) == 0);
    assert(kind_len(TokKind::VariationStart, t, 0) == 0);
    assert(kind_len(TokKind::VariationEnd, t, 0) == 0);
    assert(kind_len(TokKind::CastleLong, t, 0) == 0);
    assert(kind_len(TokKind::CastleShort, t, 0) == 0);
    assert(kind_len(TokKind::WhiteWins, t, 0) == 3);
    assert(kind_len(TokKind::BlackWins, t, 0) == 0);
    assert(kind_len(TokKind::Draw, t, 0) == 0);
    assert(kind_len(TokKind::Ongoing, t, 0) == 0);
    assert(kind_len(TokKind::MoveNumber, t, 0) == 0);
    assert(kind_len(TokKind::Nag, t, 0) == 0);
    assert(kind_len(TokKind::PieceMove, t, 0) == 0);
    assert(kind_len(TokKind::PawnMove, t, 0) == 0);
    assert(kind_len(TokKind::DoubleBang, t, 0) == 0);
    assert(kind_len(TokKind::DoubleQuestion, t, 0) == 0);
    assert(kind_len(TokKind::BangQuestion, t, 0) == 0);
    assert(kind_len(TokKind::QuestionBang, t, 0) == 0);
    assert(kind_len(TokKind::WhiteWinning, t, 0) == 0);
    assert(kind_len(TokKind::BlackWinning, t, 0) == 0);
    assert(kind_len(TokKind::WhiteBetter, t, 0) == 0);
    assert(kind_len(TokKind::BlackBetter, t, 0) == 0);
    assert(kind_len(TokKind::WhiteSlightlyBetter, t, 0) == 0);
    assert(kind_len(TokKind::BlackSlightlyBetter, t, 0) == 0);
    assert(kind_len(TokKind::Equal, t, 0) == 0);
    assert(kind_len(TokKind::Bang, t, 0) == 0);
    assert(kind_len(TokKind::Question, t, 0) == 0);
    assert(kind_len(TokKind::Digit, t, 0) == 1);
    assert(kind_len(TokKind::Newline, t, 0) == 0);
    assert(kind_len(TokKind::BareText, t, 0) == 0);
    assert(kind_len(TokKind::Punctuation, t, 0) == 0);
    reveal_with_fuel(best_upto, 33);
}

#[verifier::spinoff_prover]
pub(crate) proof fn lemma_result_0_1()
    ensures
        best(seq!['0', '-', '1', '\n'], 0) == (TokKind::BlackWins, 3nat),
{
    let t = seq!['0', '-', '1', '\n'];
    assert(run(t, 1, CharClass::Digit) == 0);
    assert(run(t, 1, CharClass::Dot) == 0);
    assert(kind_len(TokKind::Header, t, 0) == 0);
    assert(kind_len(TokKind::BraceComment, t, 0) == 0);
    assert(kind_len(TokKind::SemicolonComment, t, 0) == 0);
    assert(kind_len(TokKind::VariationStart, t, 0) == 0);
    assert(kind_len(TokKind::VariationEnd, t, 0) == 0);
    assert(kind_len(TokKind::CastleLong, t, 0) == 0);
    assert(kind_len(TokKind::CastleShort, t, 0) == 0);
    assert(kind_len(TokKind::WhiteWins, t, 0) == 0);
    assert(kind_len(TokKind::BlackWins, t, 0) == 3);
    assert(kind_len(TokKind::Draw, t, 0) == 0);
    assert(kind_len(TokKind::Ongoing, t, 0) == 0);
    assert(kind_len(TokKind::MoveNumber, t, 0) == 0);
    assert(kind_len(TokKind::Nag, t, 0) == 0);
    assert(kind_len(TokKind::PieceMove, t, 0) == 0);
    assert(kind_len(TokKind::PawnMove, t, 0) == 0);
    assert(kind_len(TokKind::DoubleBang, t, 0) == 0);
    assert(kind_len(TokKind::DoubleQuestion, t, 0) == 0);
    assert(kind_len(TokKind::BangQuestion, t, 0) == 0);
    assert(kind_len(TokKind::QuestionBang, t, 0) == 0);
    assert(kind_len(TokKind::WhiteWinning, t, 0) == 0);
    assert(kind_len(TokKind::BlackWinning, t, 0) == 0);
    assert(kind_len(TokKind::WhiteBetter, t, 0) == 0);
    assert(kind_len(TokKind::BlackBetter, t, 0) == 0);
    assert(kind_len(TokKind::WhiteSlightlyBetter, t, 0) == 0);
    assert(kind_len(TokKind::BlackSlightlyBetter, t, 0) == 0);
    assert(kind_len(TokKind::Equal, t, 0) == 0);
    assert(kind_len(TokKind::Bang, t, 0) == 0);
    assert(kind_len(TokKind::Question, t, 0) == 0);
    assert(kind_len(TokKind::Digit, t, 0) == 1);
    assert(kind_len(TokKind::Newline, t, 0) == 0);
    assert(kind_len(TokKind::BareText, t, 0) == 0);
    assert(kind_len(TokKind::Punctuation, t, 0) == 0);
    reveal_with_fuel(best_upto, 33);
}

#[verifier::spinoff_prover]
pub(crate) proof fn lemma_result_draw()
    ensures
        best(seq!['1', '/', '2', '-', '1', '/', '2', '\n'], 0) == (TokKind::Draw, 7nat),
{
    let t = seq!['1', '/', '2', '-', '1', '/', '2', '\n'];
    assert(run(t, 1, CharClass::Digit) == 0);
    assert(run(t, 1, CharClass::Dot) == 0);
    assert(kind_len(TokKind::Header, t, 0) == 0);
    assert(kind_len(TokKind::BraceComment, t, 0) == 0);
    assert(kind_len(TokKind::SemicolonComment, t, 0) == 0);
    assert(kind_len(TokKind::VariationStart, t, 0) == 0);
    assert(kind_len(TokKind::VariationEnd, t, 0) == 0);
    assert(kind_len(TokKind::CastleLong, t, 0) == 0);
    assert(kind_len(TokKind::CastleShort, t, 0) == 0);
    assert(kind_len(TokKind::WhiteWins, t, 0) == 0);
    assert(kind_len(TokKind::BlackWins, t, 0) == 0);
    assert(kind_len(TokKind::Draw, t, 0) == 7);
    assert(kind_len(TokKind::Ongoing, t, 0) == 0);
    assert(kind_len(TokKind::MoveNumber, t, 0) == 0);
    assert(kind_len(TokKind::Nag, t, 0) == 0);
    assert(kind_len(TokKind::PieceMove, t, 0) == 0);
    assert(kind_len(TokKind::PawnMove, t, 0) == 0);
    assert(kind_len(TokKind::DoubleBang, t, 0) == 0);
    assert(kind_len(TokKind::DoubleQuestion, t, 0) == 0);
    assert(kind_len(TokKind::BangQuestion, t, 0) == 0);
    assert(kind_len(TokKind::QuestionBang, t, 0) == 0);
    assert(kind_len(TokKind::WhiteWinning, t, 0) == 0);
    assert(kind_len(TokKind::BlackWinning, t, 0) == 0);
    assert(kind_len(TokKind::WhiteBetter, t, 0) == 0);
    assert(kind_len(TokKind::BlackBetter, t, 0) == 0);
    assert(kind_len(TokKind::WhiteSlightlyBetter, t, 0) == 0);
    assert(kind_len(TokKind::BlackSlightlyBetter, t, 0) == 0);
    assert(kind_len(TokKind::Equal, t, 0) == 0);
    assert(kind_len(TokKind::Bang, t, 0) == 0);
    assert(kind_len(TokKind::Question, t, 0) == 0);
    assert(kind_len(TokKind::Digit, t, 0) == 1);
    assert(kind_len(TokKind::Newline, t, 0) == 0);
    assert(kind_len(TokKind::BareText, t, 0) == 0);
    assert(kind_len(TokKind::Punctuation, t, 0) == 0);
    reveal_with_fuel(best_upto, 33);
}

#[verifier::spinoff_prover]
pub(crate) proof fn lemma_result_ongoing()
    ensures
        best(seq!['*', '\n'], 0) == (TokKind::Ongoing, 1nat),
{
    reveal_with_fuel(best_upto, 33);
}

/// A written result, followed by a newline, reads as one result token.
pub(crate) proof fn lemma_result_best(r: GameResult)
    ensures
        best(result_word(r).1.push('\n'), 0) == (result_word(r).0, result_word(r).1.len()),
        result_word(r).1.len() > 0,
        plain_start(result_word(r).1[0]),
{
    let w = result_word(r).1;
    match r {
        GameResult::WhiteWins => { lemma_result_1_0(); assert(w.push('\n') =~= seq!['1', '-', '0', '\n']); },
        GameResult::BlackWins => { lemma_result_0_1(); assert(w.push('\n') =~= seq!['0', '-', '1', '\n']); },
        GameResult::Draw => {
            lemma_result_draw();
            assert(w.push('\n') =~= seq!['1', '/', '2', '-', '1', '/', '2', '\n']);
        },
        GameResult::Ongoing => { lemma_result_ongoing(); assert(w.push('\n') =~= seq!['*', '\n']); },
    }
}

/// A comment in braces: an opening brace, no closing one inside, a closing one.
pub open spec fn brace_word(x: Seq<char>) -> bool {
    &&& x.len() >= 2
    &&& x[0] == '{'
    &&& x.last() == '}'
    &&& forall|i: int| 0 < i < x.len() - 1 ==> #[trigger] x[i] != '}'
}

/// A comment in braces reads, where it stands, as one comment token.
#[verifier::spinoff_prover]
pub(crate) proof fn lemma_brace_best(s: Seq<char>, p: int, x: Seq<char>)
    requires
        0 <= p,
        p + x.len() <= s.len(),
        s.subrange(p, p + x.len()) == x,
        brace_word(x),
    ensures
        best(s, p) == (TokKind::BraceComment, x.len()),
{
    let m = x.len() as int;
    assert forall|j: int| 0 <= j < m implies s[p + j] == #[trigger] x[j] by {
        assert(s.subrange(p, p + m)[j] == s[p + j]);
    }
    assert(s[p + 0] == x[0]);
    assert(s[p + (m - 1)] == x[m - 1]);
    assert forall|j: int| p + 1 <= j < p + m - 1 implies #[trigger] has_class(s, j, CharClass::NotBrace) by {
        assert(s[p + (j - p)] == x[j - p]);
    }
    lemma_run_bound(s, p + 1, CharClass::NotBrace);
    let r = run(s, p + 1, CharClass::NotBrace) as int;
    if r > m - 2 {
        assert(has_class(s, p + m - 1, CharClass::NotBrace));
    }
    if r < m - 2 {
        assert(has_class(s, p + 1 + r, CharClass::NotBrace));
    }
    assert(r == m - 2);
    assert(run(s, p, CharClass::Digit) == 0);
    assert(run(s, p, CharClass::Newline) == 0);
    assert(kind_len(TokKind::Header, s, p) == 0);
    assert(kind_len(TokKind::BraceComment, s, p) == m);
    assert(kind_len(TokKind::SemicolonComment, s, p) == 0);
    assert(kind_len(TokKind::VariationStart, s, p) == 0);
    assert(kind_len(TokKind::VariationEnd, s, p) == 0);
    assert(kind_len(TokKind::CastleLong, s, p) == 0);
    assert(kind_len(TokKind::CastleShort, s, p) == 0);
    assert(kind_len(TokKind::WhiteWins, s, p) == 0);
    assert(kind_len(TokKind::BlackWins, s, p) == 0);
    assert(kind_len(TokKind::Draw, s, p) == 0);
    assert(kind_len(TokKind::Ongoing, s, p) == 0);
    assert(kind_len(TokKind::MoveNumber, s, p) == 0);
    assert(kind_len(TokKind::Nag, s, p) == 0);
    assert(kind_len(TokKind::PieceMove, s, p) == 0);
    assert(kind_len(TokKind::PawnMove, s, p) == 0);
    assert(kind_len(TokKind::DoubleBang, s, p) == 0);
    assert(kind_len(TokKind::DoubleQuestion, s, p) == 0);
    assert(kind_len(TokKind::BangQuestion, s, p) == 0);
    assert(kind_len(TokKind::QuestionBang, s, p) == 0);
    assert(kind_len(TokKind::WhiteWinning, s, p) == 0);
    assert(kind_len(TokKind::BlackWinning, s, p) == 0);
    assert(kind_len(TokKind::WhiteBetter, s, p) == 0);
    assert(kind_len(TokKind::BlackBetter, s, p) == 0);
    assert(kind_len(TokKind::WhiteSlightlyBetter, s, p) == 0);
    assert(kind_len(TokKind::BlackSlightlyBetter, s, p) == 0);
    assert(kind_len(TokKind::Equal, s, p) == 0);
    assert(kind_len(TokKind::Bang, s, p) == 0);
    assert(kind_len(TokKind::Question, s, p) == 0);
    assert(kind_len(TokKind::Digit, s, p) == 0);
    assert(kind_len(TokKind::Newline, s, p) == 0);
    assert(kind_len(TokKind::BareText, s, p) == 0);
    assert(kind_len(TokKind::Punctuation, s, p) == 0);
    reveal_with_fuel(best_upto, 33);
}

/// The newline that ends the text reads as one newline token.
#[verifier::spinoff_prover]
pub(crate) proof fn lemma_newline_best(s: Seq<char>, p: int)
    requires
        0 <= p < s.len(),
        s[p] == '\n',
        p + 1 < s.len() ==> s[p + 1] != '\n',
    ensures
        best(s, p) == (TokKind::Newline, 1nat),
{
    assert(run(s, p + 1, CharClass::Newline) == 0);
    assert(run(s, p, CharClass::Newline) == 1);
    assert(run(s, p, CharClass::Digit) == 0);
    assert(kind_len(TokKind::Header, s, p) == 0);
    assert(kind_len(TokKind::BraceComment, s, p) == 0);
    assert(kind_len(TokKind::SemicolonComment, s, p) == 0);
    assert(kind_len(TokKind::VariationStart, s, p) == 0);
    assert(kind_len(TokKind::VariationEnd, s, p) == 0);
    assert(kind_len(TokKind::CastleLong, s, p) == 0);
    assert(kind_len(TokKind::CastleShort, s, p) == 0);
    assert(kind_len(TokKind::WhiteWins, s, p) == 0);
    assert(kind_len(TokKind::BlackWins, s, p) == 0);
    assert(kind_len(TokKind::Draw, s, p) == 0);
    assert(kind_len(TokKind::Ongoing, s, p) == 0);
    assert(kind_len(TokKind::MoveNumber, s, p) == 0);
    assert(kind_len(TokKind::Nag, s, p) == 0);
    assert(kind_len(TokKind::PieceMove, s, p) == 0);
    assert(kind_len(TokKind::PawnMove, s, p) == 0);
    assert(kind_len(TokKind::DoubleBang, s, p) == 0);
    assert(kind_len(TokKind::DoubleQuestion, s, p) == 0);
    assert(kind_len(TokKind::BangQuestion, s, p) == 0);
    assert(kind_len(TokKind::QuestionBang, s, p) == 0);
    assert(kind_len(TokKind::WhiteWinning, s, p) == 0);
    assert(kind_len(TokKind::BlackWinning, s, p) == 0);
    assert(kind_len(TokKind::WhiteBetter, s, p) == 0);
    assert(kind_len(TokKind::BlackBetter, s, p) == 0);
    assert(kind_len(TokKind::WhiteSlightlyBetter, s, p) == 0);
    assert(kind_len(TokKind::BlackSlightlyBetter, s, p) == 0);
    assert(kind_len(TokKind::Equal, s, p) == 0);
    assert(kind_len(TokKind::Bang, s, p) == 0);
    assert(kind_len(TokKind::Question, s, p) == 0);
    assert(kind_len(TokKind::Digit, s, p) == 0);
    assert(kind_len(TokKind::Newline, s, p) == 1);
    assert(kind_len(TokKind::BareText, s, p) == 0);
    assert(kind_len(TokKind::Punctuation, s, p) == 0);
    reveal_with_fuel(best_upto, 33);
}

/// Words, each followed by a space.
pub open spec fn spaced(ws: Seq<Word>) -> Seq<char>
    decreases ws.len(),
{
    if ws.len() == 0 {
        Seq::empty()
    } else {
        ws[0].1 + seq![' '] + spaced(ws.drop_first())
    }
}

/// A word the lexer reads, where a space follows it, as one token of its
/// kind spanning the word: a comment in braces, or a word that starts
/// plainly and is read so on its own.
pub open spec fn good_word(w: Word) -> bool {
    &&& w.1.len() > 0
    &&& w.0 != TokKind::BareText
    &&& !is_ws(w.1[0]) && !is_ws(w.1.last())
    &&& ((w.0 == TokKind::BraceComment && brace_word(w.1)) || (w.0 != TokKind::BraceComment && w.0
        != TokKind::SemicolonComment && plain_start(w.1[0]) && best(w.1.push(' '), 0) == (
        w.0,
        w.1.len(),
    )))
}


/// A word read where it stands carries the text it carries alone.
pub(crate) proof fn lemma_word_text(s: Seq<char>, p: int, w: Word)
    requires
        0 <= p,
        p + w.1.len() <= s.len(),
        s.subrange(p, p + w.1.len()) == w.1,
        w.0 == TokKind::BraceComment ==> w.1.len() >= 2,
        w.0 != TokKind::SemicolonComment,
    ensures
        locate(s, (w.0, p, p + w.1.len())).0 == word_tok(w),
{
    let m = w.1.len() as int;
    if w.0 == TokKind::BraceComment {
        assert(s.subrange(p + 1, p + m - 1) =~= w.1.subrange(1, m - 1));
    } else {
        assert(s.subrange(p, p + m) =~= w.1.subrange(0, m));
    }
}

/// A good word where it stands, followed by a space: the lexer makes one
/// token of it.
#[verifier::spinoff_prover]
pub(crate) proof fn lemma_located_word(s: Seq<char>, p: int, w: Word)
    requires
        0 <= p,
        p + w.1.len() < s.len(),
        s.subrange(p, p + w.1.len()) == w.1,
        stopper(s[p + w.1.len()]),
        good_word(w),
    ensures
        located_from(s, p) == seq![locate(s, (w.0, p, p + w.1.len()))] + located_from(s, p + w.1.len()),
{
    let m = w.1.len() as int;
    assert(s[p + 0] == w.1[0]);
    if w.0 == TokKind::BraceComment && brace_word(w.1) {
        lemma_brace_best(s, p, w.1);
    } else {
        let t = w.1.push(' ');
        assert forall|j: int| 0 <= j < t.len() - 1 implies s[p + j] == #[trigger] t[j] by {
            assert(s.subrange(p, p + m)[j] == s[p + j]);
        }
        lemma_best_near(s, p, t);
    }
    assert(!has_class(s, p, CharClass::Skip));
    assert(step(s, p) == Step::Tok(w.0, w.1.len()));
    lemma_word_text(s, p, w);
    assert(!dropped(locate(s, (w.0, p, p + m)).0));
}

/// A single space before something that is not a space or tab is skipped.
pub(crate) proof fn lemma_located_space(s: Seq<char>, p: int)
    requires
        0 <= p < s.len(),
        s[p] == ' ',
        p + 1 < s.len() ==> !in_class(CharClass::Skip, s[p + 1]),
    ensures
        located_from(s, p) == located_from(s, p + 1),
{
    assert(has_class(s, p, CharClass::Skip));
    assert(!has_class(s, p + 1, CharClass::Skip));
    assert(run(s, p + 1, CharClass::Skip) == 0);
    assert(run(s, p, CharClass::Skip) == 1);
    assert(step(s, p) == Step::Skip(1));
}




/// A text without whitespace.
pub open spec fn no_ws(t: Seq<char>) -> bool {
    forall|i: int| 0 <= i < t.len() ==> !is_ws(#[trigger] t[i])
}

/// A move the lexer reads, where a space follows it, as one move token
/// spanning it.
pub open spec fn reads_as_move(san: Seq<char>) -> bool {
    &&& is_move_kind(best(san.push(' '), 0).0)
    &&& best(san.push(' '), 0).1 == san.len()
}

pub(crate) proof fn lemma_best_upto_len(t: Seq<char>, i: nat)
    requires
        i <= 32,
    ensures
        best_upto(t, 0, i).1 > 0 ==> kind_len(best_upto(t, 0, i).0, t, 0) == best_upto(t, 0, i).1,
    decreases i,
{
    if i > 0 {
        lemma_best_upto_len(t, (i - 1) as nat);
    }
}

pub(crate) proof fn lemma_good_move(san: Seq<char>)
    requires
        san.len() > 0,
        no_ws(san),
        reads_as_move(san),
    ensures
        good_word((move_kind(san), san)),
{
    let t = san.push(' ');
    lemma_best_upto_len(t, 32);
    assert(t[0] == san[0]);
    assert(!is_ws(san[0]) && !is_ws(san.last()));
}

pub(crate) proof fn lemma_good_number(k: u16)
    ensures
        good_word((TokKind::MoveNumber, dec(k as nat).push('.'))),
{
    lemma_number_best(k);
    lemma_dec_value(k as nat);
    let w = dec(k as nat).push('.');
    assert(w[0] == dec(k as nat)[0]);
    assert(is_digit(dec(k as nat)[0]));
}

pub(crate) proof fn lemma_good_nag(v: u8)
    ensures
        good_word(nag_word(v)),
{
    lemma_nag_word_best(v);
    let w = nag_word(v).1;
    if nag_symbol(v) is None {
        lemma_dec_value(v as nat);
        let d = dec(v as nat);
        assert(w.last() == d.last());
        assert(is_digit(d[d.len() - 1]));
    }
}

/// A comment, written in braces with a space inside each.
pub open spec fn brace_text(c: Seq<char>) -> Seq<char> {
    seq!['{', ' '] + c + seq![' ', '}']
}

pub(crate) proof fn lemma_good_brace(c: Seq<char>)
    requires
        forall|i: int| 0 <= i < c.len() ==> #[trigger] c[i] != '}',
    ensures
        good_word((TokKind::BraceComment, brace_text(c))),
{
    let x = brace_text(c);
    assert forall|i: int| 0 < i < x.len() - 1 implies #[trigger] x[i] != '}' by {
        if 2 <= i < c.len() + 2 {
            assert(x[i] == c[i - 2]);
        }
    }
}

// ---------------------------------------------------------------------------
// Words separated by spaces or line breaks
// ---------------------------------------------------------------------------

/// A space, or a line break where `b` is set.
pub open spec fn sep_char(b: bool) -> char {
    if b {
        '\n'
    } else {
        ' '
    }
}

/// Words, each followed by a space, or by a line break where `bs` says so.
pub open spec fn seps_text(ws: Seq<Word>, bs: Seq<bool>) -> Seq<char>
    decreases ws.len(),
{
    if ws.len() == 0 {
        Seq::empty()
    } else {
        ws[0].1 + seq![sep_char(bs[0])] + seps_text(ws.drop_first(), bs.drop_first())
    }
}

/// The line break, as a word.
pub open spec fn newline_word() -> Word {
    (TokKind::Newline, seq!['\n'])
}

/// The words that words separated so read as: each word, and a line break
/// after it where `bs` says so.
pub open spec fn seps_words(ws: Seq<Word>, bs: Seq<bool>) -> Seq<Word>
    decreases ws.len(),
{
    if ws.len() == 0 {
        Seq::empty()
    } else {
        seq![ws[0]] + (if bs[0] { seq![newline_word()] } else { Seq::empty() }) + seps_words(
            ws.drop_first(),
            bs.drop_first(),
        )
    }
}

pub(crate) proof fn lemma_seps_len(ws: Seq<Word>, bs: Seq<bool>)
    requires
        ws.len() > 0,
    ensures
        seps_text(ws, bs) == ws[0].1 + seq![sep_char(bs[0])] + seps_text(ws.drop_first(), bs.drop_first()),
        seps_text(ws, bs).len() == ws[0].1.len() + 1 + seps_text(ws.drop_first(), bs.drop_first()).len(),
{
}

/// Good words, each followed by a space or a line break, with neither a
/// space, a tab nor a line break after the last one's: the lexer makes one
/// token of each word, and a line-break token of each line break, in order.
#[verifier::spinoff_prover]
#[verifier::rlimit(40)]
pub(crate) proof fn lemma_located_seps(s: Seq<char>, p: int, ws: Seq<Word>, bs: Seq<bool>) -> (toks: Seq<TokModel>)
    requires
        0 <= p,
        bs.len() == ws.len(),
        p + seps_text(ws, bs).len() <= s.len(),
        s.subrange(p, p + seps_text(ws, bs).len()) == seps_text(ws, bs),
        forall|k: int| 0 <= k < ws.len() ==> good_word(#[trigger] ws[k]),
        p + seps_text(ws, bs).len() < s.len() ==> !in_class(CharClass::Skip, s[p + seps_text(ws, bs).len()])
            && s[p + seps_text(ws, bs).len()] != '\n',
    ensures
        located_from(s, p) == toks + located_from(s, p + seps_text(ws, bs).len()),
        toks.len() == seps_words(ws, bs).len(),
        forall|k: int| 0 <= k < toks.len() ==> (#[trigger] toks[k]).0 == word_tok(seps_words(ws, bs)[k]),
    decreases ws.len(),
{
    if ws.len() == 0 {
        assert(Seq::<TokModel>::empty() + located_from(s, p) =~= located_from(s, p));
        Seq::empty()
    } else {
        let w = ws[0];
        let rest = ws.drop_first();
        let brest = bs.drop_first();
        let m = w.1.len() as int;
        let sp = seps_text(ws, bs);
        let L = sp.len() as int;
        lemma_seps_len(ws, bs);
        assert(good_word(ws[0]));
        assert(s.subrange(p, p + m) =~= sp.subrange(0, m));
        assert(sp.subrange(0, m) =~= w.1);
        assert(s[p + m] == sp[m]);
        assert(sp[m] == sep_char(bs[0]));
        lemma_located_word(s, p, w);
        lemma_word_text(s, p, w);
        let q = p + m + 1;
        let rl = seps_text(rest, brest).len() as int;
        assert(q + rl == p + L);
        if q < s.len() {
            if rest.len() > 0 {
                assert(good_word(rest[0]));
                assert(s[q] == sp[m + 1]);
                assert(sp[m + 1] == rest[0].1[0]) by {
                    lemma_seps_len(rest, brest);
                }
            }
        }
        let lw = locate(s, (w.0, p, p + m));
        let first: Seq<TokModel> = if bs[0] {
            lemma_newline_best(s, p + m);
            assert(!has_class(s, p + m, CharClass::Skip));
            assert(step(s, p + m) == Step::Tok(TokKind::Newline, 1));
            assert(s.subrange(p + m, p + m + 1) =~= seq!['\n']);
            lemma_word_text(s, p + m, newline_word());
            seq![lw, locate(s, (TokKind::Newline, p + m, p + m + 1))]
        } else {
            lemma_located_space(s, p + m);
            seq![lw]
        };
        assert(located_from(s, p) == first + located_from(s, q));
        assert(s.subrange(q, q + rl) =~= seps_text(rest, brest)) by {
            assert(s.subrange(q, q + rl) =~= sp.subrange(m + 1, L));
        }
        assert forall|k: int| 0 <= k < rest.len() implies good_word(#[trigger] rest[k]) by {
            assert(rest[k] == ws[k + 1]);
        }
        let more = lemma_located_seps(s, q, rest, brest);
        let toks = first + more;
        let head: Seq<Word> = seq![w] + (if bs[0] { seq![newline_word()] } else { Seq::<Word>::empty() });
        assert(seps_words(ws, bs) == head + seps_words(rest, brest));
        assert forall|k: int| 0 <= k < toks.len() implies (#[trigger] toks[k]).0 == word_tok(seps_words(ws, bs)[k]) by {
            if k < first.len() {
                assert(toks[k] == first[k]);
                assert(seps_words(ws, bs)[k] == head[k]);
            } else {
                assert(toks[k] == more[k - first.len()]);
                assert(seps_words(ws, bs)[k] == seps_words(rest, brest)[k - first.len()]);
            }
        }
        assert(located_from(s, p) =~= toks + located_from(s, p + L));
        toks
    }
}

} // verus!
