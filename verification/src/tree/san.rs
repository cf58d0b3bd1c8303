//! SAN (Standard Algebraic Notation) utilities: normalizing and comparing
//! moves, ignoring move-number prefixes such as "1." or "15...".

use vstd::prelude::*;
use crate::text::{is_alpha, is_ascii_alpha, is_ws, lemma_trim_noop, lemma_trim_shape, str_chars, string_of, sub_chars, trim, trim_bounds, trim_end, trim_start};

verus! {

/// Index of the first ASCII letter of `s`, or `s.len()` where there is none.
pub open spec fn first_alpha(s: Seq<char>) -> nat
    decreases s.len(),
{
    if s.len() == 0 {
        0
    } else if is_alpha(s[0]) {
        0
    } else {
        1 + first_alpha(s.drop_first())
    }
}

/// A move with surrounding whitespace and any move-number prefix removed:
/// the trimmed text from its first ASCII letter on, or the whole trimmed
/// text where it holds no letter.
pub open spec fn normalize_spec(s: Seq<char>) -> Seq<char> {
    let t = trim(s);
    if first_alpha(t) < t.len() {
        t.skip(first_alpha(t) as int)
    } else {
        t
    }
}

proof fn lemma_first_alpha(s: Seq<char>)
    ensures
        first_alpha(s) <= s.len(),
        first_alpha(s) < s.len() ==> is_alpha(s[first_alpha(s) as int]),
        forall|j: int| 0 <= j < first_alpha(s) ==> !is_alpha(#[trigger] s[j]),
    decreases s.len(),
{
    if s.len() > 0 && !is_alpha(s[0]) {
        lemma_first_alpha(s.drop_first());
        assert forall|j: int| 0 <= j < first_alpha(s) implies !is_alpha(#[trigger] s[j]) by {
            if j > 0 {
                assert(s[j] == s.drop_first()[j - 1]);
            }
        }
    }
}

proof fn lemma_first_alpha_unique(s: Seq<char>, k: int)
    requires
        0 <= k <= s.len(),
        k < s.len() ==> is_alpha(s[k]),
        forall|j: int| 0 <= j < k ==> !is_alpha(#[trigger] s[j]),
    ensures
        first_alpha(s) == k,
    decreases s.len(),
{
    if s.len() > 0 && k > 0 {
        assert(!is_alpha(s[0]));
        assert forall|j: int| 0 <= j < k - 1 implies !is_alpha(#[trigger] s.drop_first()[j]) by {
            assert(s.drop_first()[j] == s[j + 1]);
        }
        lemma_first_alpha_unique(s.drop_first(), k - 1);
    }
}

/// The characters of the normalized form of `v`.
pub fn normalize_chars(v: &[char]) -> (r: Vec<char>)
    ensures
        r@ == normalize_spec(v@),
{
    let (a, b) = trim_bounds(v);
    let ghost t = v@.subrange(a as int, b as int);
    let mut i = a;
    while i < b && !is_ascii_alpha(v[i])
        invariant
            a <= i <= b <= v@.len(),
            t == v@.subrange(a as int, b as int),
            forall|j: int| 0 <= j < i - a ==> !is_alpha(#[trigger] t[j]),
        decreases b - i,
    {
        assert(t[i - a] == v@[i as int]);
        i = i + 1;
    }
    proof {
        if i < b {
            assert(t[i - a] == v@[i as int]);
        }
        lemma_first_alpha_unique(t, i - a);
    }
    if i < b {
        let r = sub_chars(v, i, b);
        assert(r@ =~= t.skip(i - a));
        r
    } else {
        sub_chars(v, a, b)
    }
}

/// Normalize a SAN move string by stripping surrounding whitespace and any
/// move-number prefix ("1. e4" becomes "e4", "15... Nf6" becomes "Nf6").
pub fn normalize(san: &str) -> (r: String)
    ensures
        r@ == normalize_spec(san@),
{
    let v = str_chars(san);
    let n = normalize_chars(&v);
    string_of(&n)
}

/// Whether two SAN moves are the same after normalization.
pub fn moves_match(san1: &str, san2: &str) -> (r: bool)
    ensures
        r == (normalize_spec(san1@) == normalize_spec(san2@)),
{
    let a = normalize_chars(&str_chars(san1));
    let b = normalize_chars(&str_chars(san2));
    crate::text::chars_eq(&a, &b)
}

/// Normalizing twice gives what normalizing once gives.
pub proof fn law_normalize_idempotent(s: Seq<char>)
    ensures
        normalize_spec(normalize_spec(s)) == normalize_spec(s),
{
    let t = trim(s);
    lemma_first_alpha(t);
    let n = normalize_spec(s);
    lemma_trim_shape(s);
    if first_alpha(t) < t.len() {
        let k = first_alpha(t) as int;
        assert(n == t.skip(k));
        assert(n.last() == t.last());
        lemma_trim_noop(n);
        assert(trim(n) == n);
        assert(n[0] == t[k]);
        lemma_first_alpha_unique(n, 0);
        assert(n.skip(0) =~= n);
    } else {
        assert(n == t);
        lemma_trim_noop(t);
    }
}

/// `s` holds no ASCII letter.
pub open spec fn no_alpha(s: Seq<char>) -> bool {
    forall|i: int| 0 <= i < s.len() ==> !is_alpha(#[trigger] s[i])
}

proof fn lemma_alpha_not_ws(c: char)
    requires
        is_alpha(c),
    ensures
        !is_ws(c),
{
}

/// Leading whitespace goes before the first letter.
proof fn lemma_trim_start_alpha(s: Seq<char>)
    requires
        first_alpha(s) < s.len(),
    ensures
        first_alpha(trim_start(s)) < trim_start(s).len(),
        trim_start(s).skip(first_alpha(trim_start(s)) as int) == s.skip(first_alpha(s) as int),
    decreases s.len(),
{
    lemma_first_alpha(s);
    if s.len() > 0 && is_ws(s[0]) {
        let d = s.drop_first();
        if first_alpha(s) == 0 {
            lemma_alpha_not_ws(s[0]);
        }
        assert(!is_alpha(s[0]));
        assert(first_alpha(s) == 1 + first_alpha(d));
        lemma_trim_start_alpha(d);
        assert(d.skip(first_alpha(d) as int) =~= s.skip(first_alpha(s) as int));
    }
}

/// Trailing whitespace goes after the first letter.
proof fn lemma_trim_end_alpha(t: Seq<char>)
    requires
        first_alpha(t) < t.len(),
    ensures
        first_alpha(trim_end(t)) < trim_end(t).len(),
        trim_end(t).skip(first_alpha(trim_end(t)) as int) == trim_end(t.skip(first_alpha(t) as int)),
    decreases t.len(),
{
    lemma_first_alpha(t);
    let f = first_alpha(t) as int;
    if t.len() > 0 && is_ws(t.last()) {
        let d = t.drop_last();
        if f == t.len() - 1 {
            lemma_alpha_not_ws(t[f]);
        }
        assert(f < d.len());
        assert(d[f] == t[f]);
        assert forall|j: int| 0 <= j < f implies !is_alpha(#[trigger] d[j]) by {
            assert(d[j] == t[j]);
        }
        lemma_first_alpha_unique(d, f);
        lemma_trim_end_alpha(d);
        let u = t.skip(f);
        assert(u.len() > 0 && u.last() == t.last());
        assert(u.drop_last() =~= d.skip(f));
    }
}

/// Where `s` holds a letter, its normalized form runs from its first
/// letter to its last character that is not whitespace.
proof fn lemma_normalize_alpha(s: Seq<char>)
    requires
        first_alpha(s) < s.len(),
    ensures
        normalize_spec(s) == trim_end(s.skip(first_alpha(s) as int)),
{
    lemma_trim_start_alpha(s);
    lemma_trim_end_alpha(trim_start(s));
}

/// A prefix without letters moves the first letter by its length.
proof fn lemma_first_alpha_after(p: Seq<char>, m: Seq<char>)
    requires
        no_alpha(p),
        first_alpha(m) < m.len(),
    ensures
        first_alpha(p + m) == p.len() + first_alpha(m),
{
    lemma_first_alpha(m);
    let k = p.len() + first_alpha(m);
    assert((p + m)[k as int] == m[first_alpha(m) as int]);
    assert forall|j: int| 0 <= j < k implies !is_alpha(#[trigger] (p + m)[j]) by {
        if j < p.len() {
            assert((p + m)[j] == p[j]);
        } else {
            assert((p + m)[j] == m[j - p.len()]);
        }
    }
    lemma_first_alpha_unique(p + m, k as int);
}

/// A move number in front of a move does not change it: a prefix without
/// letters (such as "1." or "15... ") before a text that holds a letter
/// normalizes away, so "1.e4" and "e4" match.
pub proof fn law_move_number_ignored(p: Seq<char>, m: Seq<char>)
    requires
        no_alpha(p),
        first_alpha(m) < m.len(),
    ensures
        normalize_spec(p + m) == normalize_spec(m),
{
    lemma_first_alpha_after(p, m);
    lemma_normalize_alpha(p + m);
    lemma_normalize_alpha(m);
    assert((p + m).skip(first_alpha(p + m) as int) =~= m.skip(first_alpha(m) as int));
}

} // verus!
