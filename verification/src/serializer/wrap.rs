//! Wrapping movetext at a line width: a space between words becomes a line
//! break where the word after it would pass the width.  Spaces inside
//! comments in braces are never broken, so a comment stays on one line.

use vstd::prelude::*;
use crate::text::extend_chars;

verus! {

/// Whether the text after `c` lies inside braces, where it was inside
/// braces (`inb`) before `c`.
pub open spec fn next_inb(c: char, inb: bool) -> bool {
    if c == '{' {
        true
    } else if c == '}' {
        false
    } else {
        inb
    }
}

/// The length of the word that starts at `i`: the characters up to the
/// next space outside braces, or the end of the text.
pub open spec fn word_len(s: Seq<char>, i: int, inb: bool) -> nat
    decreases s.len() - i,
{
    if i < 0 || i >= s.len() {
        0
    } else if s[i] == ' ' && !inb {
        0
    } else {
        1 + word_len(s, i + 1, next_inb(s[i], inb))
    }
}

/// Whether the space at `i`, on a line that holds `col` characters so far,
/// becomes a line break: the line is not empty and the word after the space
/// would end past the width `w`.
pub open spec fn breaks_at(s: Seq<char>, i: int, col: nat, w: nat) -> bool {
    col > 0 && col + 1 + word_len(s, i + 1, false) > w
}

/// The text from `i` on, laid out in lines of width `w`, where the current
/// line holds `col` characters and `inb` says whether `i` lies inside braces.
pub open spec fn wrap_from(s: Seq<char>, i: int, col: nat, inb: bool, w: nat) -> Seq<char>
    decreases s.len() - i,
{
    if i < 0 || i >= s.len() {
        Seq::empty()
    } else {
        let c = s[i];
        if c == ' ' && !inb && breaks_at(s, i, col, w) {
            seq!['\n'] + wrap_from(s, i + 1, 0, false, w)
        } else {
            seq![c] + wrap_from(s, i + 1, if c == '\n' { 0 } else { col + 1 }, next_inb(c, inb), w)
        }
    }
}

/// The text laid out in lines of width `w`; with width 0, unchanged.
pub open spec fn wrap_text(s: Seq<char>, w: nat) -> Seq<char> {
    if w == 0 {
        s
    } else {
        wrap_from(s, 0, 0, false, w)
    }
}

/// Wrapping from `i` gives as many characters as there are from `i`, each
/// the same but where a space became a line break.
proof fn lemma_wrap_from(s: Seq<char>, i: int, col: nat, inb: bool, w: nat)
    requires
        0 <= i <= s.len(),
    ensures
        wrap_from(s, i, col, inb, w).len() == s.len() - i,
        forall|k: int|
            0 <= k < s.len() - i ==> #[trigger] wrap_from(s, i, col, inb, w)[k] == s[i + k] || (s[i + k] == ' '
                && wrap_from(s, i, col, inb, w)[k] == '\n'),
    decreases s.len() - i,
{
    if i < s.len() {
        let c = s[i];
        let (col2, inb2) = if c == ' ' && !inb && breaks_at(s, i, col, w) {
            (0nat, false)
        } else {
            ((if c == '\n' { 0nat } else { col + 1 }), next_inb(c, inb))
        };
        lemma_wrap_from(s, i + 1, col2, inb2, w);
        let r = wrap_from(s, i, col, inb, w);
        let t = wrap_from(s, i + 1, col2, inb2, w);
        assert forall|k: int| 0 <= k < s.len() - i implies #[trigger] r[k] == s[i + k] || (s[i + k] == ' '
            && r[k] == '\n') by {
            if k > 0 {
                assert(r[k] == t[k - 1]);
                assert(s[i + k] == s[(i + 1) + (k - 1)]);
            }
        }
    }
}

/// Wrapping keeps the text but for line breaks: the wrapped text has the
/// same length, and each of its characters is the text's character there,
/// or a line break where the text has a space.
pub proof fn law_wrap_only_breaks(s: Seq<char>, w: nat)
    ensures
        wrap_text(s, w).len() == s.len(),
        forall|k: int|
            0 <= k < s.len() ==> #[trigger] wrap_text(s, w)[k] == s[k] || (s[k] == ' ' && wrap_text(s, w)[k]
                == '\n'),
{
    if w > 0 {
        lemma_wrap_from(s, 0, 0, false, w);
        assert forall|k: int| 0 <= k < s.len() implies #[trigger] wrap_text(s, w)[k] == s[k] || (s[k] == ' '
            && wrap_text(s, w)[k] == '\n') by {
            assert(s[0 + k] == s[k]);
        }
    }
}

/// The length of the word that starts at `i` in `s`.
fn word_len_at(s: &Vec<char>, i: usize) -> (r: usize)
    requires
        i <= s@.len(),
    ensures
        r == word_len(s@, i as int, false),
        r <= s@.len() - i,
{
    let mut j = i;
    let mut inb = false;
    while j < s.len() && !(s[j] == ' ' && !inb)
        invariant
            i <= j <= s@.len(),
            word_len(s@, i as int, false) == (j - i) + word_len(s@, j as int, inb),
        decreases s@.len() - j,
    {
        let c = s[j];
        inb = if c == '{' {
            true
        } else if c == '}' {
            false
        } else {
            inb
        };
        j = j + 1;
    }
    j - i
}

/// The text laid out in lines of width `w`; with width 0, unchanged.
pub fn wrap_chars(s: &Vec<char>, w: usize) -> (r: Vec<char>)
    ensures
        r@ == wrap_text(s@, w as nat),
{
    if w == 0 {
        let mut same: Vec<char> = Vec::new();
        extend_chars(&mut same, s.as_slice());
        assert(same@ =~= s@);
        return same;
    }
    let mut r: Vec<char> = Vec::new();
    let mut i: usize = 0;
    let mut col: usize = 0;
    let mut inb = false;
    while i < s.len()
        invariant
            w > 0,
            i <= s@.len(),
            col <= i,
            r@ + wrap_from(s@, i as int, col as nat, inb, w as nat) == wrap_from(s@, 0, 0, false, w as nat),
        decreases s@.len() - i,
    {
        let c = s[i];
        let ghost rest = wrap_from(s@, i as int, col as nat, inb, w as nat);
        let mut brk = false;
        if c == ' ' && !inb && col > 0 {
            let n = word_len_at(s, i + 1);
            brk = col >= w || n > w - col - 1;
        }
        if brk {
            assert(rest == seq!['\n'] + wrap_from(s@, i + 1, 0, false, w as nat));
            r.push('\n');
            col = 0;
            inb = false;
        } else {
            assert(rest == seq![c] + wrap_from(
                s@,
                i + 1,
                if c == '\n' { 0 } else { col as nat + 1 },
                next_inb(c, inb),
                w as nat,
            ));
            r.push(c);
            col = if c == '\n' { 0 } else { col + 1 };
            inb = if c == '{' {
                true
            } else if c == '}' {
                false
            } else {
                inb
            };
        }
        assert(r@ + wrap_from(s@, i + 1, col as nat, inb, w as nat) =~= wrap_from(s@, 0, 0, false, w as nat));
        i = i + 1;
    }
    assert(wrap_from(s@, i as int, col as nat, inb, w as nat) =~= Seq::<char>::empty());
    assert(r@ =~= wrap_from(s@, 0, 0, false, w as nat));
    r
}

} // verus!
