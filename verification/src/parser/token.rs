//! Token types for PGN parsing.

use vstd::prelude::*;
use crate::text::{parse_unsigned, parse_unsigned_at, str_chars};

verus! {

broadcast use vstd::string::group_string_axioms;

/// The kinds of token the lexer produces.
#[derive(Debug, Clone, Copy, PartialEq, Eq, Structural)]
pub enum TokKind {
    Header,
    MoveNumber,
    CastleLong,
    CastleShort,
    PieceMove,
    PawnMove,
    BraceComment,
    SemicolonComment,
    Nag,
    DoubleBang,
    DoubleQuestion,
    BangQuestion,
    QuestionBang,
    Bang,
    Question,
    WhiteWinning,
    BlackWinning,
    WhiteBetter,
    BlackBetter,
    WhiteSlightlyBetter,
    BlackSlightlyBetter,
    Equal,
    VariationStart,
    VariationEnd,
    WhiteWins,
    BlackWins,
    Draw,
    Ongoing,
    Newline,
    BareText,
    Digit,
    Punctuation,
}

/// Token types produced by the lexer.  Tokens that carry text hold the
/// matched text; a brace comment holds what is between the braces and a
/// semicolon comment what follows the semicolon.
#[derive(Debug, Clone)]
pub enum Token {
    /// PGN header like `[Event "Test"]`.
    Header(String),
    /// Move number like "1." or "1...".
    MoveNumber(String),
    /// Long castling, "O-O-O" with an optional check sign.
    CastleLong(String),
    /// Short castling, "O-O" with an optional check sign.
    CastleShort(String),
    /// Piece move in SAN.
    PieceMove(String),
    /// Pawn move (e4, exd5, e8=Q, ...).
    PawnMove(String),
    /// Brace comment `{ text }`.
    BraceComment(String),
    /// Semicolon comment (to end of line).
    SemicolonComment(String),
    /// NAG like $1, $14.
    Nag(String),
    DoubleBang(String),
    DoubleQuestion(String),
    BangQuestion(String),
    QuestionBang(String),
    Bang(String),
    Question(String),
    /// Positional assessment symbols.
    WhiteWinning,
    BlackWinning,
    WhiteBetter,
    BlackBetter,
    WhiteSlightlyBetter,
    BlackSlightlyBetter,
    /// "=", equal position.
    Equal,
    /// Variation start "(".
    VariationStart,
    /// Variation end ")".
    VariationEnd,
    /// Game results.
    WhiteWins,
    BlackWins,
    Draw,
    Ongoing,
    /// One or more newlines (significant for bare comment detection).
    Newline,
    /// A word of bare text (a potential Lichess-style comment).
    BareText(String),
    /// A standalone number, such as a list marker "1" in "1)".
    Digit(String),
    /// A punctuation mark: comma, colon, dash or plus.
    Punctuation(String),
}

/// Whether a kind of token carries text.
pub open spec fn has_text(k: TokKind) -> bool {
    match k {
        TokKind::WhiteWinning | TokKind::BlackWinning | TokKind::WhiteBetter | TokKind::BlackBetter
        | TokKind::WhiteSlightlyBetter | TokKind::BlackSlightlyBetter | TokKind::Equal
        | TokKind::VariationStart | TokKind::VariationEnd | TokKind::WhiteWins | TokKind::BlackWins
        | TokKind::Draw | TokKind::Ongoing | TokKind::Newline => false,
        _ => true,
    }
}

/// Whether a kind of token carries text.
pub fn kind_has_text(k: TokKind) -> (b: bool)
    ensures
        b == has_text(k),
{
    match k {
        TokKind::WhiteWinning | TokKind::BlackWinning | TokKind::WhiteBetter | TokKind::BlackBetter
        | TokKind::WhiteSlightlyBetter | TokKind::BlackSlightlyBetter | TokKind::Equal
        | TokKind::VariationStart | TokKind::VariationEnd | TokKind::WhiteWins | TokKind::BlackWins
        | TokKind::Draw | TokKind::Ongoing | TokKind::Newline => false,
        _ => true,
    }
}

impl View for Token {
    type V = (TokKind, Seq<char>);

    open spec fn view(&self) -> (TokKind, Seq<char>) {
        match self {
            Token::Header(s) => (TokKind::Header, s@),
            Token::MoveNumber(s) => (TokKind::MoveNumber, s@),
            Token::CastleLong(s) => (TokKind::CastleLong, s@),
            Token::CastleShort(s) => (TokKind::CastleShort, s@),
            Token::PieceMove(s) => (TokKind::PieceMove, s@),
            Token::PawnMove(s) => (TokKind::PawnMove, s@),
            Token::BraceComment(s) => (TokKind::BraceComment, s@),
            Token::SemicolonComment(s) => (TokKind::SemicolonComment, s@),
            Token::Nag(s) => (TokKind::Nag, s@),
            Token::DoubleBang(s) => (TokKind::DoubleBang, s@),
            Token::DoubleQuestion(s) => (TokKind::DoubleQuestion, s@),
            Token::BangQuestion(s) => (TokKind::BangQuestion, s@),
            Token::QuestionBang(s) => (TokKind::QuestionBang, s@),
            Token::Bang(s) => (TokKind::Bang, s@),
            Token::Question(s) => (TokKind::Question, s@),
            Token::WhiteWinning => (TokKind::WhiteWinning, Seq::empty()),
            Token::BlackWinning => (TokKind::BlackWinning, Seq::empty()),
            Token::WhiteBetter => (TokKind::WhiteBetter, Seq::empty()),
            Token::BlackBetter => (TokKind::BlackBetter, Seq::empty()),
            Token::WhiteSlightlyBetter => (TokKind::WhiteSlightlyBetter, Seq::empty()),
            Token::BlackSlightlyBetter => (TokKind::BlackSlightlyBetter, Seq::empty()),
            Token::Equal => (TokKind::Equal, Seq::empty()),
            Token::VariationStart => (TokKind::VariationStart, Seq::empty()),
            Token::VariationEnd => (TokKind::VariationEnd, Seq::empty()),
            Token::WhiteWins => (TokKind::WhiteWins, Seq::empty()),
            Token::BlackWins => (TokKind::BlackWins, Seq::empty()),
            Token::Draw => (TokKind::Draw, Seq::empty()),
            Token::Ongoing => (TokKind::Ongoing, Seq::empty()),
            Token::Newline => (TokKind::Newline, Seq::empty()),
            Token::BareText(s) => (TokKind::BareText, s@),
            Token::Digit(s) => (TokKind::Digit, s@),
            Token::Punctuation(s) => (TokKind::Punctuation, s@),
        }
    }
}

pub open spec fn is_move_kind(k: TokKind) -> bool {
    k == TokKind::PieceMove || k == TokKind::PawnMove || k == TokKind::CastleLong || k
        == TokKind::CastleShort
}

pub open spec fn is_comment_kind(k: TokKind) -> bool {
    k == TokKind::BraceComment || k == TokKind::SemicolonComment || k == TokKind::BareText
}

pub open spec fn is_nag_kind(k: TokKind) -> bool {
    ||| k == TokKind::Nag
    ||| k == TokKind::DoubleBang
    ||| k == TokKind::DoubleQuestion
    ||| k == TokKind::BangQuestion
    ||| k == TokKind::QuestionBang
    ||| k == TokKind::Bang
    ||| k == TokKind::Question
    ||| k == TokKind::WhiteWinning
    ||| k == TokKind::BlackWinning
    ||| k == TokKind::WhiteBetter
    ||| k == TokKind::BlackBetter
    ||| k == TokKind::WhiteSlightlyBetter
    ||| k == TokKind::BlackSlightlyBetter
    ||| k == TokKind::Equal
}

pub open spec fn is_result_kind(k: TokKind) -> bool {
    k == TokKind::WhiteWins || k == TokKind::BlackWins || k == TokKind::Draw || k
        == TokKind::Ongoing
}

/// The NAG number a token stands for: `$N` by its digits, the symbols by
/// their standard numbers.
pub open spec fn nag_value_spec(t: (TokKind, Seq<char>)) -> Option<u8> {
    match t.0 {
        TokKind::Nag => if t.1.len() > 0 && t.1[0] == '$' {
            match parse_unsigned(t.1.drop_first(), 255) {
                Some(v) => Some(v as u8),
                None => None,
            }
        } else {
            None
        },
        TokKind::Bang => Some(1u8),
        TokKind::Question => Some(2u8),
        TokKind::DoubleBang => Some(3u8),
        TokKind::DoubleQuestion => Some(4u8),
        TokKind::BangQuestion => Some(5u8),
        TokKind::QuestionBang => Some(6u8),
        TokKind::Equal => Some(10u8),
        TokKind::WhiteSlightlyBetter => Some(14u8),
        TokKind::BlackSlightlyBetter => Some(15u8),
        TokKind::WhiteBetter => Some(16u8),
        TokKind::BlackBetter => Some(17u8),
        TokKind::WhiteWinning => Some(18u8),
        TokKind::BlackWinning => Some(19u8),
        _ => None,
    }
}

impl Token {
    /// The kind of the token.
    pub fn kind(&self) -> (k: TokKind)
        ensures
            k == self@.0,
    {
        match self {
            Token::Header(_) => TokKind::Header,
            Token::MoveNumber(_) => TokKind::MoveNumber,
            Token::CastleLong(_) => TokKind::CastleLong,
            Token::CastleShort(_) => TokKind::CastleShort,
            Token::PieceMove(_) => TokKind::PieceMove,
            Token::PawnMove(_) => TokKind::PawnMove,
            Token::BraceComment(_) => TokKind::BraceComment,
            Token::SemicolonComment(_) => TokKind::SemicolonComment,
            Token::Nag(_) => TokKind::Nag,
            Token::DoubleBang(_) => TokKind::DoubleBang,
            Token::DoubleQuestion(_) => TokKind::DoubleQuestion,
            Token::BangQuestion(_) => TokKind::BangQuestion,
            Token::QuestionBang(_) => TokKind::QuestionBang,
            Token::Bang(_) => TokKind::Bang,
            Token::Question(_) => TokKind::Question,
            Token::WhiteWinning => TokKind::WhiteWinning,
            Token::BlackWinning => TokKind::BlackWinning,
            Token::WhiteBetter => TokKind::WhiteBetter,
            Token::BlackBetter => TokKind::BlackBetter,
            Token::WhiteSlightlyBetter => TokKind::WhiteSlightlyBetter,
            Token::BlackSlightlyBetter => TokKind::BlackSlightlyBetter,
            Token::Equal => TokKind::Equal,
            Token::VariationStart => TokKind::VariationStart,
            Token::VariationEnd => TokKind::VariationEnd,
            Token::WhiteWins => TokKind::WhiteWins,
            Token::BlackWins => TokKind::BlackWins,
            Token::Draw => TokKind::Draw,
            Token::Ongoing => TokKind::Ongoing,
            Token::Newline => TokKind::Newline,
            Token::BareText(_) => TokKind::BareText,
            Token::Digit(_) => TokKind::Digit,
            Token::Punctuation(_) => TokKind::Punctuation,
        }
    }

    /// Whether this token is a move.
    pub fn is_move(&self) -> (b: bool)
        ensures
            b == is_move_kind(self@.0),
    {
        match self {
            Token::PieceMove(_) | Token::PawnMove(_) | Token::CastleLong(_) | Token::CastleShort(_) => true,
            _ => false,
        }
    }

    /// Whether this token is a comment (brace, semicolon or bare text).
    pub fn is_comment(&self) -> (b: bool)
        ensures
            b == is_comment_kind(self@.0),
    {
        match self {
            Token::BraceComment(_) | Token::SemicolonComment(_) | Token::BareText(_) => true,
            _ => false,
        }
    }

    /// Whether this token is a NAG.
    pub fn is_nag(&self) -> (b: bool)
        ensures
            b == is_nag_kind(self@.0),
    {
        match self {
            Token::Nag(_) | Token::DoubleBang(_) | Token::DoubleQuestion(_) | Token::BangQuestion(_)
            | Token::QuestionBang(_) | Token::Bang(_) | Token::Question(_) | Token::WhiteWinning
            | Token::BlackWinning | Token::WhiteBetter | Token::BlackBetter
            | Token::WhiteSlightlyBetter | Token::BlackSlightlyBetter | Token::Equal => true,
            _ => false,
        }
    }

    /// Whether this is a result token.
    pub fn is_result(&self) -> (b: bool)
        ensures
            b == is_result_kind(self@.0),
    {
        match self {
            Token::WhiteWins | Token::BlackWins | Token::Draw | Token::Ongoing => true,
            _ => false,
        }
    }

    /// The move text, if this is a move token.
    pub fn as_move(&self) -> (r: Option<&str>)
        ensures
            r is Some <==> is_move_kind(self@.0),
            r matches Some(s) ==> s@ == self@.1,
    {
        match self {
            Token::PieceMove(s) | Token::PawnMove(s) | Token::CastleLong(s) | Token::CastleShort(s) => Some(
                s.as_str(),
            ),
            _ => None,
        }
    }

    /// The comment text, if this is a comment token.
    pub fn as_comment(&self) -> (r: Option<&str>)
        ensures
            r is Some <==> is_comment_kind(self@.0),
            r matches Some(s) ==> s@ == self@.1,
    {
        match self {
            Token::BraceComment(s) | Token::SemicolonComment(s) | Token::BareText(s) => Some(s.as_str()),
            _ => None,
        }
    }

    /// The NAG number this token stands for.
    pub fn as_nag_value(&self) -> (r: Option<u8>)
        ensures
            r == nag_value_spec(self@),
    {
        match self {
            Token::Nag(s) => {
                let v = str_chars(s.as_str());
                if v.len() > 0 && v[0] == '$' {
                    assert(v@.skip(1) =~= v@.drop_first());
                    match parse_unsigned_at(&v, 1, 255) {
                        Some(n) => Some(n as u8),
                        None => None,
                    }
                } else {
                    None
                }
            },
            Token::Bang(_) => Some(1),
            Token::Question(_) => Some(2),
            Token::DoubleBang(_) => Some(3),
            Token::DoubleQuestion(_) => Some(4),
            Token::BangQuestion(_) => Some(5),
            Token::QuestionBang(_) => Some(6),
            Token::Equal => Some(10),
            Token::WhiteSlightlyBetter => Some(14),
            Token::BlackSlightlyBetter => Some(15),
            Token::WhiteBetter => Some(16),
            Token::BlackBetter => Some(17),
            Token::WhiteWinning => Some(18),
            Token::BlackWinning => Some(19),
            _ => None,
        }
    }

    /// The text the token carries (empty for tokens without text).
    pub fn text(&self) -> (r: &str)
        ensures
            r@ == self@.1,
    {
        match self {
            Token::Header(s) | Token::MoveNumber(s) | Token::CastleLong(s) | Token::CastleShort(s)
            | Token::PieceMove(s) | Token::PawnMove(s) | Token::BraceComment(s)
            | Token::SemicolonComment(s) | Token::Nag(s) | Token::DoubleBang(s)
            | Token::DoubleQuestion(s) | Token::BangQuestion(s) | Token::QuestionBang(s)
            | Token::Bang(s) | Token::Question(s) | Token::BareText(s) | Token::Digit(s)
            | Token::Punctuation(s) => s.as_str(),
            _ => {
                proof {
                    reveal_strlit("");
                }
                ""
            },
        }
    }

    /// A token of the given kind carrying the given text (ignored for kinds without text).
    pub fn make(k: TokKind, text: String) -> (t: Token)
        ensures
            t@.0 == k,
            has_text(k) ==> t@.1 == text@,
            !has_text(k) ==> t@.1.len() == 0,
    {
        match k {
            TokKind::Header => Token::Header(text),
            TokKind::MoveNumber => Token::MoveNumber(text),
            TokKind::CastleLong => Token::CastleLong(text),
            TokKind::CastleShort => Token::CastleShort(text),
            TokKind::PieceMove => Token::PieceMove(text),
            TokKind::PawnMove => Token::PawnMove(text),
            TokKind::BraceComment => Token::BraceComment(text),
            TokKind::SemicolonComment => Token::SemicolonComment(text),
            TokKind::Nag => Token::Nag(text),
            TokKind::DoubleBang => Token::DoubleBang(text),
            TokKind::DoubleQuestion => Token::DoubleQuestion(text),
            TokKind::BangQuestion => Token::BangQuestion(text),
            TokKind::QuestionBang => Token::QuestionBang(text),
            TokKind::Bang => Token::Bang(text),
            TokKind::Question => Token::Question(text),
            TokKind::WhiteWinning => Token::WhiteWinning,
            TokKind::BlackWinning => Token::BlackWinning,
            TokKind::WhiteBetter => Token::WhiteBetter,
            TokKind::BlackBetter => Token::BlackBetter,
            TokKind::WhiteSlightlyBetter => Token::WhiteSlightlyBetter,
            TokKind::BlackSlightlyBetter => Token::BlackSlightlyBetter,
            TokKind::Equal => Token::Equal,
            TokKind::VariationStart => Token::VariationStart,
            TokKind::VariationEnd => Token::VariationEnd,
            TokKind::WhiteWins => Token::WhiteWins,
            TokKind::BlackWins => Token::BlackWins,
            TokKind::Draw => Token::Draw,
            TokKind::Ongoing => Token::Ongoing,
            TokKind::Newline => Token::Newline,
            TokKind::BareText => Token::BareText(text),
            TokKind::Digit => Token::Digit(text),
            TokKind::Punctuation => Token::Punctuation(text),
        }
    }

    /// A copy of the token.
    pub fn copy(&self) -> (t: Token)
        ensures
            t@ == self@,
    {
        let k = self.kind();
        let s = self.text().to_owned();
        let t = Token::make(k, s);
        proof {
            if !has_text(k) {
                assert(self@.1 =~= Seq::<char>::empty());
                assert(t@.1 =~= Seq::<char>::empty());
            }
        }
        t
    }
}

} // verus!
