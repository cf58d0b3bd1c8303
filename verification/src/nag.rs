//! Numeric Annotation Glyphs (NAGs) for chess move annotations.

use vstd::prelude::*;
use crate::text::{all_digits, digit_char, digit_value, is_digit, dec, dec_value, parse_unsigned, parse_unsigned_at, push_char, push_dec, str_chars};

verus! {

broadcast use vstd::string::group_string_axioms;

/// Numeric Annotation Glyph - standard chess annotation.
#[derive(Debug, Clone, Copy, PartialEq, Eq, Hash, Structural)]
pub struct Nag(pub u8);

/// The symbol of a NAG number, where it has one.
pub open spec fn nag_symbol(n: u8) -> Option<Seq<char>> {
    if n == 1 { Some(seq!['!']) }
    else if n == 2 { Some(seq!['?']) }
    else if n == 3 { Some(seq!['!', '!']) }
    else if n == 4 { Some(seq!['?', '?']) }
    else if n == 5 { Some(seq!['!', '?']) }
    else if n == 6 { Some(seq!['?', '!']) }
    else if n == 10 { Some(seq!['=']) }
    else if n == 14 { Some(seq!['+', '=']) }
    else if n == 15 { Some(seq!['=', '+']) }
    else if n == 16 { Some(seq!['+', '/', '-']) }
    else if n == 17 { Some(seq!['-', '/', '+']) }
    else if n == 18 { Some(seq!['+', '-']) }
    else if n == 19 { Some(seq!['-', '+']) }
    else { None }
}

pub open spec fn is_chars1(s: Seq<char>, a: char) -> bool {
    s.len() == 1 && s[0] == a
}

pub open spec fn is_chars2(s: Seq<char>, a: char, b: char) -> bool {
    s.len() == 2 && s[0] == a && s[1] == b
}

pub open spec fn is_chars3(s: Seq<char>, a: char, b: char, c: char) -> bool {
    s.len() == 3 && s[0] == a && s[1] == b && s[2] == c
}

/// The NAG number that a symbol stands for.  Besides the ASCII symbols,
/// the Unicode assessment signs are accepted.
pub open spec fn symbol_nag(s: Seq<char>) -> Option<u8> {
    if is_chars2(s, '!', '!') { Some(3u8) }
    else if is_chars2(s, '?', '?') { Some(4u8) }
    else if is_chars2(s, '!', '?') { Some(5u8) }
    else if is_chars2(s, '?', '!') { Some(6u8) }
    else if is_chars1(s, '!') { Some(1u8) }
    else if is_chars1(s, '?') { Some(2u8) }
    else if is_chars1(s, '=') { Some(10u8) }
    else if is_chars2(s, '+', '=') || is_chars1(s, '\u{2A72}') { Some(14u8) }
    else if is_chars2(s, '=', '+') || is_chars1(s, '\u{2A71}') { Some(15u8) }
    else if is_chars3(s, '+', '/', '-') || is_chars1(s, '\u{B1}') { Some(16u8) }
    else if is_chars3(s, '-', '/', '+') || is_chars1(s, '\u{2213}') { Some(17u8) }
    else if is_chars2(s, '+', '-') { Some(18u8) }
    else if is_chars2(s, '-', '+') { Some(19u8) }
    else { None }
}

fn eq1(v: &Vec<char>, a: char) -> (r: bool)
    ensures
        r == is_chars1(v@, a),
{
    v.len() == 1 && v[0] == a
}

fn eq2(v: &Vec<char>, a: char, b: char) -> (r: bool)
    ensures
        r == is_chars2(v@, a, b),
{
    v.len() == 2 && v[0] == a && v[1] == b
}

fn eq3(v: &Vec<char>, a: char, b: char, c: char) -> (r: bool)
    ensures
        r == is_chars3(v@, a, b, c),
{
    v.len() == 3 && v[0] == a && v[1] == b && v[2] == c
}

/// `$N` notation: a dollar sign followed by a `u8` in the syntax of `u8::from_str`.
pub open spec fn dollar_nag(s: Seq<char>) -> Option<u8> {
    if s.len() > 0 && s[0] == '$' {
        match parse_unsigned(s.drop_first(), 255) {
            Some(v) => Some(v as u8),
            None => None,
        }
    } else {
        None
    }
}

/// How a NAG is written: its symbol, or `$N`.
pub open spec fn nag_text(n: u8) -> Seq<char> {
    match nag_symbol(n) {
        Some(s) => s,
        None => seq!['$'] + dec(n as nat),
    }
}

impl Nag {
    #[allow(non_snake_case)]
    pub fn GOOD_MOVE() -> (n: Nag)
        ensures
            n.0 == 1,
    {
        Nag(1)
    }
    #[allow(non_snake_case)]
    pub fn POOR_MOVE() -> (n: Nag)
        ensures
            n.0 == 2,
    {
        Nag(2)
    }
    #[allow(non_snake_case)]
    pub fn BRILLIANT_MOVE() -> (n: Nag)
        ensures
            n.0 == 3,
    {
        Nag(3)
    }
    #[allow(non_snake_case)]
    pub fn BLUNDER() -> (n: Nag)
        ensures
            n.0 == 4,
    {
        Nag(4)
    }
    #[allow(non_snake_case)]
    pub fn INTERESTING_MOVE() -> (n: Nag)
        ensures
            n.0 == 5,
    {
        Nag(5)
    }
    #[allow(non_snake_case)]
    pub fn DUBIOUS_MOVE() -> (n: Nag)
        ensures
            n.0 == 6,
    {
        Nag(6)
    }
    #[allow(non_snake_case)]
    pub fn EQUAL() -> (n: Nag)
        ensures
            n.0 == 10,
    {
        Nag(10)
    }
    #[allow(non_snake_case)]
    pub fn WHITE_SLIGHT_ADVANTAGE() -> (n: Nag)
        ensures
            n.0 == 14,
    {
        Nag(14)
    }
    #[allow(non_snake_case)]
    pub fn BLACK_SLIGHT_ADVANTAGE() -> (n: Nag)
        ensures
            n.0 == 15,
    {
        Nag(15)
    }
    #[allow(non_snake_case)]
    pub fn WHITE_MODERATE_ADVANTAGE() -> (n: Nag)
        ensures
            n.0 == 16,
    {
        Nag(16)
    }
    #[allow(non_snake_case)]
    pub fn BLACK_MODERATE_ADVANTAGE() -> (n: Nag)
        ensures
            n.0 == 17,
    {
        Nag(17)
    }
    #[allow(non_snake_case)]
    pub fn WHITE_DECISIVE_ADVANTAGE() -> (n: Nag)
        ensures
            n.0 == 18,
    {
        Nag(18)
    }
    #[allow(non_snake_case)]
    pub fn BLACK_DECISIVE_ADVANTAGE() -> (n: Nag)
        ensures
            n.0 == 19,
    {
        Nag(19)
    }

    /// A NAG with the given number.
    pub fn new(v: u8) -> (n: Nag)
        ensures
            n.0 == v,
    {
        Nag(v)
    }

    /// Convert the NAG to its symbolic representation.
    pub fn to_symbol(self) -> (r: Option<&'static str>)
        ensures
            r is Some <==> nag_symbol(self.0) is Some,
            r matches Some(s) ==> s@ == nag_symbol(self.0)->0,
    {
        proof {
            reveal_strlit("!");
            reveal_strlit("?");
            reveal_strlit("!!");
            reveal_strlit("??");
            reveal_strlit("!?");
            reveal_strlit("?!");
            reveal_strlit("=");
            reveal_strlit("+=");
            reveal_strlit("=+");
            reveal_strlit("+/-");
            reveal_strlit("-/+");
            reveal_strlit("+-");
            reveal_strlit("-+");
        }
        let n = self.0;
        if n == 1 { Some("!") }
        else if n == 2 { Some("?") }
        else if n == 3 { Some("!!") }
        else if n == 4 { Some("??") }
        else if n == 5 { Some("!?") }
        else if n == 6 { Some("?!") }
        else if n == 10 { Some("=") }
        else if n == 14 { Some("+=") }
        else if n == 15 { Some("=+") }
        else if n == 16 { Some("+/-") }
        else if n == 17 { Some("-/+") }
        else if n == 18 { Some("+-") }
        else if n == 19 { Some("-+") }
        else { None }
    }

    /// Parse a NAG from a symbol string (`!`, `?`, `!!`, ...).
    pub fn from_symbol(s: &str) -> (r: Option<Nag>)
        ensures
            r is Some <==> symbol_nag(s@) is Some,
            r matches Some(n) ==> n.0 == symbol_nag(s@)->0,
    {
        let v = str_chars(s);
        if eq2(&v, '!', '!') { Some(Nag(3)) }
        else if eq2(&v, '?', '?') { Some(Nag(4)) }
        else if eq2(&v, '!', '?') { Some(Nag(5)) }
        else if eq2(&v, '?', '!') { Some(Nag(6)) }
        else if eq1(&v, '!') { Some(Nag(1)) }
        else if eq1(&v, '?') { Some(Nag(2)) }
        else if eq1(&v, '=') { Some(Nag(10)) }
        else if eq2(&v, '+', '=') || eq1(&v, '\u{2A72}') { Some(Nag(14)) }
        else if eq2(&v, '=', '+') || eq1(&v, '\u{2A71}') { Some(Nag(15)) }
        else if eq3(&v, '+', '/', '-') || eq1(&v, '\u{B1}') { Some(Nag(16)) }
        else if eq3(&v, '-', '/', '+') || eq1(&v, '\u{2213}') { Some(Nag(17)) }
        else if eq2(&v, '+', '-') { Some(Nag(18)) }
        else if eq2(&v, '-', '+') { Some(Nag(19)) }
        else { None }
    }

    /// Parse a NAG from `$N` notation.
    pub fn from_dollar_notation(s: &str) -> (r: Option<Nag>)
        ensures
            r is Some <==> dollar_nag(s@) is Some,
            r matches Some(n) ==> n.0 == dollar_nag(s@)->0,
    {
        let v = str_chars(s);
        if v.len() > 0 && v[0] == '$' {
            assert(v@.skip(1) =~= v@.drop_first());
            match parse_unsigned_at(&v, 1, 255) {
                Some(n) => Some(Nag(n as u8)),
                None => None,
            }
        } else {
            None
        }
    }

    /// The text of the NAG: its symbol, or `$N` where it has none.
    pub fn to_string(&self) -> (s: String)
        ensures
            s@ == nag_text(self.0),
    {
        match self.to_symbol() {
            Some(sym) => sym.to_owned(),
            None => {
                let mut s = String::new();
                push_char(&mut s, '$');
                push_dec(&mut s, self.0 as u64);
                s
            },
        }
    }
}

proof fn lemma_digit_roundtrip(k: nat)
    requires
        k < 10,
    ensures
        digit_value(digit_char(k)) == k,
        is_digit(digit_char(k)),
{
}

/// The decimal notation of a number consists of digits and denotes it.
pub proof fn lemma_dec_roundtrip(n: nat)
    ensures
        dec(n).len() > 0,
        all_digits(dec(n)),
        dec_value(dec(n)) == n,
        dec(n)[0] != '+',
    decreases n,
{
    lemma_digit_roundtrip(n % 10);
    if n < 10 {
        assert(dec(n).drop_last() =~= Seq::<char>::empty());
        assert(dec_value(Seq::<char>::empty()) == 0);
        assert(dec_value(dec(n)) == dec_value(dec(n).drop_last()) * 10 + digit_value(dec(n).last()));
    } else {
        lemma_dec_roundtrip(n / 10);
        let d = dec(n);
        assert(d.drop_last() =~= dec(n / 10));
        assert(d.last() == digit_char(n % 10));
        assert(dec_value(d) == dec_value(dec(n / 10)) * 10 + digit_value(digit_char(n % 10)));
        assert(n == (n / 10) * 10 + n % 10);
        assert(forall|i: int| 0 <= i < d.len() - 1 ==> d[i] == dec(n / 10)[i]);
    }
}

/// A NAG written as a symbol reads back as the same NAG.
pub proof fn law_symbol_roundtrip(n: Nag)
    requires
        nag_symbol(n.0) is Some,
    ensures
        symbol_nag(nag_symbol(n.0)->0) == Some(n.0),
{
}

/// A NAG without a symbol is written as `$N`, which reads back as the same NAG.
pub proof fn law_dollar_roundtrip(n: Nag)
    requires
        nag_symbol(n.0) is None,
    ensures
        dollar_nag(nag_text(n.0)) == Some(n.0),
{
    lemma_dec_roundtrip(n.0 as nat);
    let t = nag_text(n.0);
    assert(t.drop_first() =~= dec(n.0 as nat));
}

} // verus!
