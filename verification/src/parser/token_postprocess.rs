//! Phase 2: token post-processing.  In lenient mode, a parenthesis in prose
//! that holds one or two move references, such as "the Petrosian (7.d5) is
//! avoided", is turned into bare text instead of a variation.

use vstd::prelude::*;
use crate::error::ParseMode;
use crate::parser::builder::{tokens_model, TokModel};
use crate::parser::lexer::{located_model, LocatedToken};
use crate::parser::token::{is_move_kind, TokKind, Token};
use crate::text::push_str;

verus! {

broadcast use vstd::string::group_string_axioms;

/// Index of the first "(" at or after `from`.
pub open spec fn first_var_start(toks: Seq<TokModel>, from: int) -> Option<int>
    decreases toks.len() - from,
{
    if from < 0 || from >= toks.len() {
        None
    } else if toks[from].0.0 == TokKind::VariationStart {
        Some(from)
    } else {
        first_var_start(toks, from + 1)
    }
}

/// All tokens in `a..b` are bare text or newlines.
pub open spec fn only_text_between(toks: Seq<TokModel>, a: int, b: int) -> bool {
    forall|j: int|
        a <= j < b ==> (#[trigger] toks[j].0.0 == TokKind::BareText || toks[j].0.0 == TokKind::Newline)
}

/// Index of the ")" that closes the parenthesis open at depth `depth`
/// before index `j`.
pub open spec fn match_end(toks: Seq<TokModel>, j: int, depth: int) -> Option<int>
    decreases toks.len() - j,
{
    if j < 0 || j >= toks.len() {
        None
    } else if toks[j].0.0 == TokKind::VariationStart {
        match_end(toks, j + 1, depth + 1)
    } else if toks[j].0.0 == TokKind::VariationEnd {
        if depth - 1 == 0 {
            Some(j)
        } else {
            match_end(toks, j + 1, depth - 1)
        }
    } else {
        match_end(toks, j + 1, depth)
    }
}

/// Number of move tokens in `a..b`.
pub open spec fn move_count(toks: Seq<TokModel>, a: int, b: int) -> nat
    decreases b - a,
{
    if a >= b {
        0
    } else {
        (if is_move_kind(toks[a].0.0) { 1nat } else { 0nat }) + move_count(toks, a + 1, b)
    }
}

/// The text a token contributes when a parenthesis is turned into prose.
pub open spec fn piece(t: (TokKind, Seq<char>)) -> Seq<char> {
    match t.0 {
        TokKind::VariationStart => seq!['('],
        TokKind::VariationEnd => seq![')'],
        TokKind::MoveNumber | TokKind::PawnMove | TokKind::PieceMove | TokKind::CastleShort
        | TokKind::CastleLong | TokKind::BareText => t.1,
        _ => Seq::empty(),
    }
}

/// The texts of the tokens in `a..b`, joined.
pub open spec fn pieces(toks: Seq<TokModel>, a: int, b: int) -> Seq<char>
    decreases b - a,
{
    if a >= b {
        Seq::empty()
    } else {
        piece(toks[a].0) + pieces(toks, a + 1, b)
    }
}

/// Byte length from the start of token `a` to the end of token `b`
/// (computed as machine words, wrapping).
pub open spec fn span_between(a: TokModel, b: TokModel) -> int {
    vstd::wrapping::usize_specs::wrapping_sub(
        vstd::wrapping::usize_specs::wrapping_add(b.3 as usize, b.4 as usize),
        a.3 as usize,
    ) as int
}

/// Tokens `vs..=ve` as one bare-text token at the location of the first.
pub open spec fn collapsed(toks: Seq<TokModel>, vs: int, ve: int) -> TokModel {
    (
        (TokKind::BareText, pieces(toks, vs, ve + 1)),
        toks[vs].1,
        toks[vs].2,
        toks[vs].3,
        span_between(toks[vs], toks[ve]),
    )
}

pub proof fn lemma_match_end_bounds(toks: Seq<TokModel>, j: int, depth: int)
    ensures
        match_end(toks, j, depth) matches Some(e) ==> j <= e < toks.len() && toks[e].0.0
            == TokKind::VariationEnd,
    decreases toks.len() - j,
{
    if 0 <= j < toks.len() {
        if toks[j].0.0 == TokKind::VariationStart {
            lemma_match_end_bounds(toks, j + 1, depth + 1);
        } else if toks[j].0.0 == TokKind::VariationEnd {
            lemma_match_end_bounds(toks, j + 1, depth - 1);
        } else {
            lemma_match_end_bounds(toks, j + 1, depth);
        }
    }
}

pub proof fn lemma_first_var_start_bounds(toks: Seq<TokModel>, from: int)
    ensures
        first_var_start(toks, from) matches Some(v) ==> from <= v < toks.len() && toks[v].0.0
            == TokKind::VariationStart,
    decreases toks.len() - from,
{
    if 0 <= from < toks.len() && toks[from].0.0 != TokKind::VariationStart {
        lemma_first_var_start_bounds(toks, from + 1);
    }
}

/// Whether the parenthesis opening at `vs` (the first after the bare text at
/// `i`, with only text between) closes at `ve` around at most two moves
/// and is followed by bare text: a reference in prose.
pub open spec fn is_reference(toks: Seq<TokModel>, vs: int, ve: int) -> bool {
    move_count(toks, vs + 1, ve) <= 2 && ve + 1 < toks.len() && toks[ve + 1].0.0
        == TokKind::BareText
}

/// Collapsing from index `i` on: at each bare-text token, the parenthesis
/// that follows it (with only text between) is turned into one bare-text
/// token where it is a reference in prose, and the same index is looked at
/// again; otherwise the next index.
pub open spec fn collapse_from(toks: Seq<TokModel>, i: int) -> Seq<TokModel>
    decreases toks.len(), toks.len() - i,
{
    if i < 0 || i >= toks.len() {
        toks
    } else if toks[i].0.0 != TokKind::BareText {
        collapse_from(toks, i + 1)
    } else {
        match first_var_start(toks, i + 1) {
            None => collapse_from(toks, i + 1),
            Some(vs) => if !only_text_between(toks, i + 1, vs) {
                collapse_from(toks, i + 1)
            } else {
                match match_end(toks, vs, 0) {
                    None => collapse_from(toks, i + 1),
                    Some(ve) => if is_reference(toks, vs, ve) {
                        proof {
                            lemma_first_var_start_bounds(toks, i + 1);
                            lemma_match_end_bounds(toks, vs, 0);
                        }
                        collapse_from(
                            toks.take(vs) + seq![collapsed(toks, vs, ve)] + toks.skip(ve + 1),
                            i,
                        )
                    } else {
                        collapse_from(toks, i + 1)
                    },
                }
            },
        }
    }
}

/// The tokens after post-processing in the given mode.
pub open spec fn process_spec(toks: Seq<TokModel>, mode: ParseMode) -> Seq<TokModel> {
    if mode == ParseMode::Lenient {
        collapse_from(toks, 0)
    } else {
        toks
    }
}

proof fn lemma_tokens_model_push(s: Seq<LocatedToken>, t: LocatedToken)
    ensures
        tokens_model(s.push(t)) == tokens_model(s).push(located_model(t)),
{
    assert(tokens_model(s.push(t)) =~= tokens_model(s).push(located_model(t)));
}

fn find_var_start(toks: &Vec<LocatedToken>, from: usize) -> (r: Option<usize>)
    ensures
        match r {
            Some(j) => first_var_start(tokens_model(toks@), from as int) == Some(j as int),
            None => first_var_start(tokens_model(toks@), from as int) is None,
        },
{
    let ghost m = tokens_model(toks@);
    let mut j = from;
    while j < toks.len()
        invariant
            m == tokens_model(toks@),
            from <= j,
            first_var_start(m, from as int) == first_var_start(m, j as int),
        decreases toks@.len() - j,
    {
        assert(m[j as int] == located_model(toks@[j as int]));
        if toks[j].token.kind() == TokKind::VariationStart {
            return Some(j);
        }
        j = j + 1;
    }
    None
}

fn only_text(toks: &Vec<LocatedToken>, a: usize, b: usize) -> (r: bool)
    requires
        b <= toks@.len(),
    ensures
        r == only_text_between(tokens_model(toks@), a as int, b as int),
{
    let ghost m = tokens_model(toks@);
    let mut j = a;
    while j < b
        invariant
            m == tokens_model(toks@),
            b <= toks@.len(),
            a <= j || j == a,
            forall|k: int| a <= k < j ==> (#[trigger] m[k].0.0 == TokKind::BareText || m[k].0.0 == TokKind::Newline),
        decreases b - j,
    {
        assert(m[j as int] == located_model(toks@[j as int]));
        let k = toks[j].token.kind();
        if !(k == TokKind::BareText || k == TokKind::Newline) {
            assert(!(m[j as int].0.0 == TokKind::BareText || m[j as int].0.0 == TokKind::Newline));
            return false;
        }
        j = j + 1;
    }
    true
}

fn find_match_end(toks: &Vec<LocatedToken>, s: usize) -> (r: Option<usize>)
    requires
        s < toks@.len(),
        tokens_model(toks@)[s as int].0.0 == TokKind::VariationStart,
    ensures
        match r {
            Some(j) => match_end(tokens_model(toks@), s as int, 0) == Some(j as int),
            None => match_end(tokens_model(toks@), s as int, 0) is None,
        },
{
    let ghost m = tokens_model(toks@);
    let mut depth: usize = 0;
    let mut j = s;
    while j < toks.len()
        invariant
            m == tokens_model(toks@),
            s <= j,
            s < toks@.len(),
            m[s as int].0.0 == TokKind::VariationStart,
            depth <= j - s,
            j == s || depth >= 1,
            match_end(m, s as int, 0) == match_end(m, j as int, depth as int),
        decreases toks@.len() - j,
    {
        assert(m[j as int] == located_model(toks@[j as int]));
        let k = toks[j].token.kind();
        if k == TokKind::VariationStart {
            depth = depth + 1;
        } else if k == TokKind::VariationEnd {
            depth = depth - 1;
            if depth == 0 {
                return Some(j);
            }
        }
        j = j + 1;
    }
    None
}

fn count_moves(toks: &Vec<LocatedToken>, a: usize, b: usize) -> (n: usize)
    requires
        a <= b <= toks@.len(),
    ensures
        n == move_count(tokens_model(toks@), a as int, b as int),
{
    let ghost m = tokens_model(toks@);
    let mut n: usize = 0;
    let mut j = b;
    while j > a
        invariant
            m == tokens_model(toks@),
            a <= j <= b <= toks@.len(),
            n == move_count(m, j as int, b as int),
            n <= b - j,
        decreases j - a,
    {
        j = j - 1;
        assert(m[j as int] == located_model(toks@[j as int]));
        if toks[j].token.is_move() {
            n = n + 1;
        }
    }
    n
}

proof fn lemma_pieces_split(toks: Seq<TokModel>, a: int, b: int)
    requires
        a <= b,
    ensures
        pieces(toks, a, b + 1) == pieces(toks, a, b) + piece(toks[b].0),
    decreases b - a,
{
    if a < b {
        lemma_pieces_split(toks, a + 1, b);
        assert(pieces(toks, a, b + 1) == piece(toks[a].0) + pieces(toks, a + 1, b + 1));
        assert(piece(toks[a].0) + (pieces(toks, a + 1, b) + piece(toks[b].0)) =~= (piece(toks[a].0)
            + pieces(toks, a + 1, b)) + piece(toks[b].0));
    } else {
        assert(pieces(toks, a + 1, b + 1) =~= Seq::<char>::empty());
        assert(pieces(toks, a, b) =~= Seq::<char>::empty());
        assert(piece(toks[b].0) + Seq::<char>::empty() =~= piece(toks[b].0));
        assert(Seq::<char>::empty() + piece(toks[b].0) =~= piece(toks[b].0));
    }
}

/// Tokens `vs..=ve` as one bare-text token.
fn collapsed_token(toks: &Vec<LocatedToken>, vs: usize, ve: usize) -> (t: LocatedToken)
    requires
        vs <= ve < toks@.len(),
    ensures
        located_model(t) == collapsed(tokens_model(toks@), vs as int, ve as int),
{
    let ghost m = tokens_model(toks@);
    let len = toks.len();
    let mut text = String::new();
    let mut j = vs;
    assert(text@ =~= pieces(m, vs as int, vs as int));
    while j <= ve
        invariant
            m == tokens_model(toks@),
            vs <= j <= ve + 1,
            ve < toks@.len(),
            len == toks@.len(),
            text@ == pieces(m, vs as int, j as int),
        decreases ve + 1 - j,
    {
        assert(m[j as int] == located_model(toks@[j as int]));
        proof {
            lemma_pieces_split(m, vs as int, j as int);
        }
        let k = toks[j].token.kind();
        match k {
            TokKind::VariationStart => {
                push_str(&mut text, "(");
                proof {
                    reveal_strlit("(");
                }
            },
            TokKind::VariationEnd => {
                push_str(&mut text, ")");
                proof {
                    reveal_strlit(")");
                }
            },
            TokKind::MoveNumber | TokKind::PawnMove | TokKind::PieceMove | TokKind::CastleShort
            | TokKind::CastleLong | TokKind::BareText => {
                push_str(&mut text, toks[j].token.text());
            },
            _ => {
                assert(piece(m[j as int].0) =~= Seq::<char>::empty());
                assert(text@ + piece(m[j as int].0) =~= text@);
            },
        }
        j = j + 1;
    }
    let first = &toks[vs];
    let last = &toks[ve];
    assert(m[vs as int] == located_model(toks@[vs as int]));
    assert(m[ve as int] == located_model(toks@[ve as int]));
    LocatedToken::new(
        Token::BareText(text),
        first.line,
        first.column,
        first.offset,
        last.offset.wrapping_add(last.len).wrapping_sub(first.offset),
    )
}

/// Replace tokens `vs..=ve` by `t`.
fn splice_one(toks: Vec<LocatedToken>, vs: usize, ve: usize, t: LocatedToken) -> (r: Vec<LocatedToken>)
    requires
        vs <= ve < toks@.len(),
    ensures
        tokens_model(r@) == tokens_model(toks@).take(vs as int) + seq![located_model(t)] + tokens_model(
            toks@,
        ).skip(ve + 1),
{
    let ghost m = tokens_model(toks@);
    let len = toks.len();
    let mut r: Vec<LocatedToken> = Vec::new();
    let mut j: usize = 0;
    while j < vs
        invariant
            m == tokens_model(toks@),
            j <= vs <= ve < toks@.len(),
            tokens_model(r@) == m.take(j as int),
        decreases vs - j,
    {
        let c = toks[j].copy();
        assert(m[j as int] == located_model(toks@[j as int]));
        proof {
            lemma_tokens_model_push(r@, c);
        }
        r.push(c);
        assert(tokens_model(r@) =~= m.take(j + 1));
        j = j + 1;
    }
    proof {
        lemma_tokens_model_push(r@, t);
    }
    r.push(t);
    let ghost head = tokens_model(r@);
    assert(head =~= m.take(vs as int) + seq![located_model(t)]);
    let mut j = ve + 1;
    while j < toks.len()
        invariant
            m == tokens_model(toks@),
            ve < j <= toks@.len(),
            head == m.take(vs as int) + seq![located_model(t)],
            tokens_model(r@) == head + m.subrange(ve + 1, j as int),
        decreases toks@.len() - j,
    {
        let c = toks[j].copy();
        assert(m[j as int] == located_model(toks@[j as int]));
        proof {
            lemma_tokens_model_push(r@, c);
        }
        r.push(c);
        assert(tokens_model(r@) =~= head + m.subrange(ve + 1, j + 1));
        j = j + 1;
    }
    assert(m.subrange(ve + 1, m.len() as int) =~= m.skip(ve + 1));
    r
}

/// Turn parentheses in prose that hold one or two move references into bare text.
fn collapse_prose(tokens: Vec<LocatedToken>) -> (r: Vec<LocatedToken>)
    ensures
        tokens_model(r@) == collapse_from(tokens_model(tokens@), 0),
{
    let ghost orig = tokens_model(tokens@);
    let mut toks = tokens;
    let mut i: usize = 0;
    while i < toks.len()
        invariant
            collapse_from(orig, 0) == collapse_from(tokens_model(toks@), i as int),
        decreases toks@.len(), toks@.len() - i,
    {
        let ghost m = tokens_model(toks@);
        assert(m[i as int] == located_model(toks@[i as int]));
        if toks[i].token.kind() != TokKind::BareText {
            i = i + 1;
            continue;
        }
        let vs = match find_var_start(&toks, i + 1) {
            Some(v) => v,
            None => {
                i = i + 1;
                continue;
            },
        };
        proof {
            lemma_first_var_start_bounds(m, i + 1);
        }
        if !only_text(&toks, i + 1, vs) {
            i = i + 1;
            continue;
        }
        let ve = match find_match_end(&toks, vs) {
            Some(e) => e,
            None => {
                i = i + 1;
                continue;
            },
        };
        proof {
            lemma_match_end_bounds(m, vs as int, 0);
        }
        let moves = count_moves(&toks, vs + 1, ve);
        if moves > 2 {
            i = i + 1;
            continue;
        }
        let followed = ve + 1 < toks.len() && toks[ve + 1].token.kind() == TokKind::BareText;
        proof {
            if ve + 1 < toks@.len() {
                assert(m[ve + 1] == located_model(toks@[ve + 1]));
            }
        }
        if followed {
            let t = collapsed_token(&toks, vs, ve);
            assert(vs < ve);
            toks = splice_one(toks, vs, ve, t);
            assert(tokens_model(toks@).len() < m.len());
            continue;
        }
        i = i + 1;
    }
    toks
}

/// Apply the post-processing of a mode: lenient mode turns parenthetical
/// move references in prose into bare text; strict mode changes nothing.
pub fn process(tokens: Vec<LocatedToken>, mode: ParseMode) -> (r: Vec<LocatedToken>)
    ensures
        tokens_model(r@) == process_spec(tokens_model(tokens@), mode),
{
    if mode == ParseMode::Lenient {
        collapse_prose(tokens)
    } else {
        tokens
    }
}

} // verus!
