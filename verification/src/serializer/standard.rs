//! Standard PGN serialization.

use vstd::prelude::*;
use crate::nag::{nag_text, Nag};
use crate::serializer::options::OutputOptions;
use crate::parser::builder::{first_quote, has_ellipsis, move_number_value, parse_header_spec, scan_value};
use crate::parser::lexer::{has_class, lemma_run_bound, run, CharClass};
use crate::text::{dec, is_digit, is_ws, lemma_dec_value, is_whitespace, lemma_trim_noop, push_char, push_chars, push_dec, push_str, str_chars, trim, trim_chars, trim_end, trim_start};
use crate::tree::game::{header_or, result_text, GameTree};
use crate::tree::model::{depth, forest_depth, group_node_model, is_root_model, lemma_depth_bound, node_count, GameNode, NodeModel};
use crate::tree::path::{lemma_next_char, next_char};
use crate::serializer::wrap::{wrap_chars, wrap_text};
use crate::text::extend_chars;

verus! {

broadcast use {vstd::string::group_string_axioms, group_node_model};

// ---------------------------------------------------------------------------
// Comments
// ---------------------------------------------------------------------------

/// `s` with every `[` that is followed by `pat` removed together with what
/// follows it up to and including the next `]` (or the end).
pub open spec fn remove_cmd(s: Seq<char>, pat: Seq<char>) -> Seq<char>
    decreases s.len(),
{
    if s.len() == 0 {
        Seq::empty()
    } else if s[0] == '[' && pat.len() + 1 <= s.len() && s.subrange(1, pat.len() + 1 as int) == pat {
        let r = s.drop_first();
        let j = next_char(r, 0, ']');
        proof {
            lemma_next_char(r, 0, ']');
        }
        if j < r.len() {
            remove_cmd(r.skip(j + 1), pat)
        } else {
            Seq::empty()
        }
    } else {
        seq![s[0]] + remove_cmd(s.drop_first(), pat)
    }
}

/// Index of the first whitespace character at or after `i`, or the length.
pub open spec fn next_ws(s: Seq<char>, i: int) -> int
    decreases s.len() - i,
{
    if i < 0 || i >= s.len() {
        s.len() as int
    } else if is_ws(s[i]) {
        i
    } else {
        next_ws(s, i + 1)
    }
}

/// Index of the first character that is not whitespace at or after `i`, or the length.
pub open spec fn next_word(s: Seq<char>, i: int) -> int
    decreases s.len() - i,
{
    if i < 0 || i >= s.len() {
        s.len() as int
    } else if !is_ws(s[i]) {
        i
    } else {
        next_word(s, i + 1)
    }
}

pub proof fn lemma_next_ws(s: Seq<char>, i: int)
    requires
        0 <= i <= s.len(),
    ensures
        i <= next_ws(s, i) <= s.len(),
    decreases s.len() - i,
{
    if i < s.len() && !is_ws(s[i]) {
        lemma_next_ws(s, i + 1);
    }
}

pub proof fn lemma_next_word(s: Seq<char>, i: int)
    requires
        0 <= i <= s.len(),
    ensures
        i <= next_word(s, i) <= s.len(),
        next_word(s, i) < s.len() ==> !is_ws(s[next_word(s, i)]),
    decreases s.len() - i,
{
    if i < s.len() && is_ws(s[i]) {
        lemma_next_word(s, i + 1);
    }
}

/// The words of `s` from index `i` on: the maximal runs of characters that
/// are not whitespace.
pub open spec fn words_from(s: Seq<char>, i: int) -> Seq<Seq<char>>
    decreases s.len() - i,
{
    if i < 0 || i > s.len() {
        Seq::empty()
    } else {
        let j = next_word(s, i);
        proof {
            lemma_next_word(s, i);
        }
        if j >= s.len() {
            Seq::empty()
        } else {
            let e = next_ws(s, j);
            proof {
                lemma_next_ws(s, j + 1);
            }
            seq![s.subrange(j, e)] + words_from(s, e)
        }
    }
}

/// Words joined by single spaces.
pub open spec fn join_words(w: Seq<Seq<char>>) -> Seq<char>
    decreases w.len(),
{
    if w.len() == 0 {
        Seq::empty()
    } else if w.len() == 1 {
        w[0]
    } else {
        join_words(w.drop_last()) + seq![' '] + w.last()
    }
}

/// `s` with its whitespace runs made single spaces, and none at either end.
pub open spec fn squash(s: Seq<char>) -> Seq<char> {
    join_words(words_from(s, 0))
}

/// The comment text standard PGN writes: clock and elapsed-time commands
/// removed where clocks are stripped, evaluations where they are stripped,
/// whitespace squashed.
pub open spec fn process_comment_spec(c: Seq<char>, o: OutputOptions) -> Seq<char> {
    let a = if o.strip_clocks { remove_cmd(remove_cmd(c, "%clk"@), "%emt"@) } else { c };
    let b = if o.strip_evals { remove_cmd(a, "%eval"@) } else { a };
    squash(b)
}

/// Whether `s` holds the command `pat`: a `[` followed by `pat`.
pub open spec fn has_cmd(s: Seq<char>, pat: Seq<char>) -> bool {
    exists|i: int| 0 <= i && i + 1 + pat.len() <= s.len() && s[i] == '[' && #[trigger] s.subrange(i + 1, i + 1 + pat.len()) == pat
}

/// The command `pat` with the value `v`, in brackets.
pub open spec fn command(pat: Seq<char>, v: Seq<char>) -> Seq<char> {
    seq!['['] + pat + v + seq![']']
}

/// Text without `c`.
pub open spec fn lacks(s: Seq<char>, c: char) -> bool {
    forall|i: int| 0 <= i < s.len() ==> #[trigger] s[i] != c
}

proof fn lemma_remove_absent(s: Seq<char>, pat: Seq<char>)
    requires
        !has_cmd(s, pat),
    ensures
        remove_cmd(s, pat) == s,
    decreases s.len(),
{
    if s.len() > 0 {
        if s[0] == '[' && pat.len() + 1 <= s.len() && s.subrange(1, pat.len() + 1 as int) == pat {
            assert(s.subrange(0int + 1, 0int + 1 + pat.len()) == pat);
        } else {
            let d = s.drop_first();
            if has_cmd(d, pat) {
                let i = choose|i: int| 0 <= i && i + 1 + pat.len() <= d.len() && d[i] == '[' && #[trigger] d.subrange(i + 1, i + 1 + pat.len()) == pat;
                assert(s.subrange(i + 1 + 1, i + 1 + 1 + pat.len()) =~= d.subrange(i + 1, i + 1 + pat.len()));
                assert(s[i + 1] == '[');
            }
            lemma_remove_absent(d, pat);
            assert(seq![s[0]] + d =~= s);
        }
    }
}

proof fn lemma_first_close(r: Seq<char>, i: int)
    requires
        0 <= i < r.len(),
        r.last() == ']',
        forall|k: int| i <= k < r.len() - 1 ==> #[trigger] r[k] != ']',
    ensures
        next_char(r, i, ']') == r.len() - 1,
    decreases r.len() - i,
{
    if i < r.len() - 1 {
        lemma_first_close(r, i + 1);
    }
}

/// Removing the command `pat` from text without brackets followed by that
/// command gives the text.
proof fn lemma_remove_command_at_end(t: Seq<char>, pat: Seq<char>, v: Seq<char>)
    requires
        lacks(t, '['),
        lacks(pat, ']'),
        lacks(v, ']'),
    ensures
        remove_cmd(t + command(pat, v), pat) == t,
    decreases t.len(),
{
    let s = t + command(pat, v);
    if t.len() == 0 {
        assert(t =~= Seq::<char>::empty());
        assert(s =~= command(pat, v));
        assert(s[0] == '[');
        assert(s.subrange(1, pat.len() + 1 as int) =~= pat);
        let r = s.drop_first();
        assert(r =~= pat + v + seq![']']);
        assert(r.last() == ']');
        assert forall|k: int| 0 <= k < r.len() - 1 implies #[trigger] r[k] != ']' by {
            if k < pat.len() {
                assert(r[k] == pat[k]);
            } else {
                assert(r[k] == v[k - pat.len()]);
            }
        }
        lemma_first_close(r, 0);
        let j = next_char(r, 0, ']');
        assert(j == r.len() - 1);
        assert(r.skip(j + 1) =~= Seq::<char>::empty());
        assert(remove_cmd(r.skip(j + 1), pat) =~= Seq::<char>::empty());
        assert(remove_cmd(s, pat) == remove_cmd(r.skip(j + 1), pat));
    } else {
        assert(s[0] == t[0]);
        assert(t[0] != '[');
        assert(remove_cmd(s, pat) == seq![s[0]] + remove_cmd(s.drop_first(), pat));
        assert(s.drop_first() =~= t.drop_first() + command(pat, v));
        assert(lacks(t.drop_first(), '[')) by {
            assert forall|i: int| 0 <= i < t.drop_first().len() implies #[trigger] t.drop_first()[i] != '[' by {
                assert(t.drop_first()[i] == t[i + 1]);
            }
        }
        lemma_remove_command_at_end(t.drop_first(), pat, v);
        assert(seq![t[0]] + t.drop_first() =~= t);
    }
}

/// Text without brackets followed by the command `p2` holds no other
/// command `p1` (one that differs from `p2` at `d`).
proof fn lemma_other_absent(t: Seq<char>, p1: Seq<char>, p2: Seq<char>, v: Seq<char>, d: int)
    requires
        lacks(t, '['),
        lacks(p2, '['),
        lacks(v, '['),
        0 <= d < p1.len(),
        d < p2.len(),
        p1[d] != p2[d],
    ensures
        !has_cmd(t + command(p2, v), p1),
{
    let s = t + command(p2, v);
    if has_cmd(s, p1) {
        let i = choose|i: int| 0 <= i && i + 1 + p1.len() <= s.len() && s[i] == '[' && #[trigger] s.subrange(i + 1, i + 1 + p1.len()) == p1;
        let tl = t.len() as int;
        if i < tl {
            assert(s[i] == t[i]);
        } else if i > tl {
            if i <= tl + p2.len() {
                assert(s[i] == p2[i - tl - 1]);
            } else if i < s.len() - 1 {
                assert(s[i] == v[i - tl - 1 - p2.len()]);
            } else {
                assert(s[i] == ']');
            }
        } else {
            assert(s.subrange(i + 1, i + 1 + p1.len())[d] == s[i + 1 + d]);
            assert(s[tl + 1 + d] == p2[d]);
        }
    }
}

/// Text without brackets holds no command.
proof fn lemma_plain_absent(t: Seq<char>, pat: Seq<char>)
    requires
        lacks(t, '['),
    ensures
        !has_cmd(t, pat),
{
}

/// Stripping clocks leaves a comment without clock or elapsed-time
/// commands as it is: it is written as it would be without stripping them.
pub proof fn law_strip_clocks_keeps_others(c: Seq<char>, o: OutputOptions)
    requires
        !has_cmd(c, "%clk"@),
        !has_cmd(c, "%emt"@),
    ensures
        process_comment_spec(c, o) == process_comment_spec(c, OutputOptions { strip_clocks: false, ..o }),
{
    lemma_remove_absent(c, "%clk"@);
    lemma_remove_absent(c, "%emt"@);
}

/// Stripping evaluations leaves a comment without evaluation commands as it
/// is (and, where clocks are stripped too, without clock or elapsed-time
/// commands): it is written as it would be without stripping them.
pub proof fn law_strip_evals_keeps_others(c: Seq<char>, o: OutputOptions)
    requires
        !has_cmd(c, "%eval"@),
        o.strip_clocks ==> !has_cmd(c, "%clk"@) && !has_cmd(c, "%emt"@),
    ensures
        process_comment_spec(c, o) == process_comment_spec(c, OutputOptions { strip_evals: false, ..o }),
{
    let a = if o.strip_clocks { remove_cmd(remove_cmd(c, "%clk"@), "%emt"@) } else { c };
    if o.strip_clocks {
        lemma_remove_absent(c, "%clk"@);
        lemma_remove_absent(c, "%emt"@);
    }
    lemma_remove_absent(a, "%eval"@);
}

proof fn lemma_patterns()
    ensures
        "%clk"@ =~= seq!['%', 'c', 'l', 'k'],
        "%emt"@ =~= seq!['%', 'e', 'm', 't'],
        "%eval"@ =~= seq!['%', 'e', 'v', 'a', 'l'],
{
    reveal_strlit("%clk");
    reveal_strlit("%emt");
    reveal_strlit("%eval");
}

/// Stripping clocks removes a clock or elapsed-time command that ends a
/// comment (its text before without brackets, its value without brackets):
/// the comment is written as its text alone would be.
pub proof fn law_strip_clocks_removes(t: Seq<char>, v: Seq<char>, o: OutputOptions)
    requires
        o.strip_clocks,
        lacks(t, '['),
        lacks(v, '['),
        lacks(v, ']'),
    ensures
        process_comment_spec(t + command("%clk"@, v), o) == process_comment_spec(t, o),
        process_comment_spec(t + command("%emt"@, v), o) == process_comment_spec(t, o),
{
    lemma_patterns();
    let clk = "%clk"@;
    let emt = "%emt"@;
    let ev = "%eval"@;
    lemma_plain_absent(t, clk);
    lemma_plain_absent(t, emt);
    lemma_plain_absent(t, ev);
    lemma_remove_absent(t, clk);
    lemma_remove_absent(t, emt);
    lemma_remove_absent(t, ev);
    lemma_remove_command_at_end(t, clk, v);
    lemma_other_absent(t, clk, emt, v, 1);
    lemma_remove_absent(t + command(emt, v), clk);
    lemma_remove_command_at_end(t, emt, v);
}

/// Stripping evaluations removes an evaluation command that ends a comment
/// (its text before without brackets, its value without brackets): the
/// comment is written as its text alone would be.
pub proof fn law_strip_evals_removes(t: Seq<char>, v: Seq<char>, o: OutputOptions)
    requires
        o.strip_evals,
        lacks(t, '['),
        lacks(v, '['),
        lacks(v, ']'),
    ensures
        process_comment_spec(t + command("%eval"@, v), o) == process_comment_spec(t, o),
{
    lemma_patterns();
    let clk = "%clk"@;
    let emt = "%emt"@;
    let ev = "%eval"@;
    lemma_plain_absent(t, clk);
    lemma_plain_absent(t, emt);
    lemma_remove_absent(t, clk);
    lemma_remove_absent(t, emt);
    lemma_other_absent(t, clk, ev, v, 1);
    lemma_other_absent(t, emt, ev, v, 2);
    lemma_remove_absent(t + command(ev, v), clk);
    lemma_remove_absent(t + command(ev, v), emt);
    lemma_remove_command_at_end(t, ev, v);
    lemma_plain_absent(t, ev);
    lemma_remove_absent(t, ev);
}

/// Remove a command such as `[%clk ...]` from a text.
pub fn remove_command(text: &str, cmd: &str) -> (r: String)
    ensures
        r@ == remove_cmd(text@, seq!['%'] + cmd@),
{
    let v = str_chars(text);
    let mut pat: Vec<char> = Vec::new();
    pat.push('%');
    let c = str_chars(cmd);
    crate::text::extend_chars(&mut pat, &c);
    let ghost p = seq!['%'] + cmd@;
    assert(pat@ =~= p);
    let mut r = String::new();
    let mut i: usize = 0;
    let n = v.len();
    assert(v@.skip(0) =~= v@);
    assert(r@ + remove_cmd(text@, p) =~= remove_cmd(text@, p));
    while i < n
        invariant
            n == v@.len(),
            v@ == text@,
            pat@ == p,
            i <= n,
            remove_cmd(text@, p) == r@ + remove_cmd(v@.skip(i as int), p),
        decreases n - i,
    {
        let ghost s = v@.skip(i as int);
        assert(s[0] == v[i as int]);
        if v[i] == '[' && pat.len() < n - i && crate::text::starts_with(
            &crate::text::sub_chars(&v, i + 1, n),
            &pat,
        ) {
            assert(v@.subrange(i + 1, n as int).take(pat@.len() as int) =~= s.subrange(1, p.len() + 1 as int));
            let mut j = i + 1;
            while j < n && v[j] != ']'
                invariant
                    i + 1 <= j <= n,
                    i < n,
                    n == v@.len(),
                    s == v@.skip(i as int),
                    next_char(s.drop_first(), 0, ']') == next_char(s.drop_first(), (j - i - 1) as int, ']'),
                decreases n - j,
            {
                assert(s.drop_first()[(j - i - 1) as int] == v@[j as int]);
                j = j + 1;
            }
            if j < n {
                assert(s.drop_first()[(j - i - 1) as int] == v@[j as int]);
                assert(s.drop_first().skip((j - i - 1) + 1) =~= v@.skip(j + 1));
                i = j + 1;
            } else {
                assert(v@.skip(n as int) =~= Seq::<char>::empty());
                i = n;
            }
        } else {
            proof {
                if v@[i as int] == '[' && pat@.len() + 1 <= n - i {
                    assert(v@.subrange(i + 1, n as int).take(pat@.len() as int) =~= s.subrange(
                        1,
                        p.len() + 1 as int,
                    ));
                }
                assert(s.drop_first() =~= v@.skip(i + 1));
            }
            push_char(&mut r, v[i]);
            i = i + 1;
        }
    }
    assert(v@.skip(n as int) =~= Seq::<char>::empty());
    r
}

/// Squash the whitespace of a text: single spaces between words, none at the ends.
pub fn squash_whitespace(text: &[char]) -> (r: Vec<char>)
    ensures
        r@ == squash(text@),
{
    let n = text.len();
    let mut out: Vec<char> = Vec::new();
    let mut i: usize = 0;
    let ghost mut done: Seq<Seq<char>> = Seq::empty();
    while i < n
        invariant
            n == text@.len(),
            i <= n,
            words_from(text@, 0) == done + words_from(text@, i as int),
            out@ == join_words(done),
            done.len() > 0 <==> out@.len() > 0,
        decreases n - i,
    {
        proof {
            lemma_next_word(text@, i as int);
        }
        let mut j = i;
        while j < n && is_whitespace(text[j])
            invariant
                i <= j <= n,
                n == text@.len(),
                next_word(text@, i as int) == next_word(text@, j as int),
            decreases n - j,
        {
            j = j + 1;
        }
        if j == n {
            assert(words_from(text@, i as int) =~= Seq::<Seq<char>>::empty());
            assert(done + Seq::<Seq<char>>::empty() =~= done);
            i = n;
        } else {
            proof {
                lemma_next_ws(text@, j + 1);
            }
            let mut e = j + 1;
            while e < n && !is_whitespace(text[e])
                invariant
                    j < e <= n,
                    n == text@.len(),
                    next_ws(text@, (j + 1) as int) == next_ws(text@, e as int),
                decreases n - e,
            {
                e = e + 1;
            }
            assert(next_ws(text@, j as int) == next_ws(text@, (j + 1) as int));
            let ghost w = text@.subrange(j as int, e as int);
            if out.len() > 0 {
                out.push(' ');
            }
            let mut k = j;
            let ghost base = out@;
            while k < e
                invariant
                    j <= k <= e <= n,
                    n == text@.len(),
                    out@ == base + text@.subrange(j as int, k as int),
                decreases e - k,
            {
                out.push(text[k]);
                assert(out@ =~= base + text@.subrange(j as int, k + 1));
                k = k + 1;
            }
            proof {
                assert(words_from(text@, i as int) == seq![w] + words_from(text@, e as int));
                assert(done + (seq![w] + words_from(text@, e as int)) =~= done.push(w) + words_from(
                    text@,
                    e as int,
                ));
                assert(done.push(w).drop_last() =~= done);
                if done.len() == 0 {
                    assert(join_words(done) =~= Seq::<char>::empty());
                    assert(out@ =~= w);
                    assert(join_words(done.push(w)) == done.push(w)[0]);
                } else {
                    assert(join_words(done.push(w)) == join_words(done) + seq![' '] + w);
                    assert(out@ =~= join_words(done) + seq![' '] + w);
                }
            }
            proof {
                done = done.push(w);
            }
            i = e;
        }
    }
    out
}

/// Process a comment: strip clock and evaluation commands as the options
/// say, and squash whitespace.
pub fn process_comment(comment: &str, options: &OutputOptions) -> (r: String)
    ensures
        r@ == process_comment_spec(comment@, *options),
{
    let mut result = comment.to_owned();
    if options.strip_clocks {
        result = remove_command(result.as_str(), "clk");
        result = remove_command(result.as_str(), "emt");
        proof {
            reveal_strlit("clk");
            reveal_strlit("emt");
            reveal_strlit("%clk");
            reveal_strlit("%emt");
            assert(seq!['%'] + "clk"@ =~= "%clk"@);
            assert(seq!['%'] + "emt"@ =~= "%emt"@);
        }
    }
    if options.strip_evals {
        result = remove_command(result.as_str(), "eval");
        proof {
            reveal_strlit("eval");
            reveal_strlit("%eval");
            assert(seq!['%'] + "eval"@ =~= "%eval"@);
        }
    }
    let v = str_chars(result.as_str());
    let w = squash_whitespace(&v);
    crate::text::string_of(&w)
}

// ---------------------------------------------------------------------------
// Tag pairs
// ---------------------------------------------------------------------------

/// A tag pair line: `[Key "value"]` and a newline.
pub open spec fn header_line(k: Seq<char>, v: Seq<char>) -> Seq<char> {
    seq!['['] + k + " \""@ + v + "\"]\n"@
}

/// Whether a key is one of the Seven Tag Roster.
pub open spec fn is_str_key(k: Seq<char>) -> bool {
    k == "Event"@ || k == "Site"@ || k == "Date"@ || k == "Round"@ || k == "White"@ || k == "Black"@
        || k == "Result"@
}

/// The Seven Tag Roster lines, with their defaults.
pub open spec fn roster_text(h: Seq<(Seq<char>, Seq<char>)>, r: crate::tree::game::GameResult) -> Seq<char> {
    header_line("Event"@, header_or(h, "Event"@, "?"@)) + header_line("Site"@, header_or(h, "Site"@, "?"@))
        + header_line("Date"@, header_or(h, "Date"@, "????.??.??"@)) + header_line(
        "Round"@,
        header_or(h, "Round"@, "?"@),
    ) + header_line("White"@, header_or(h, "White"@, "?"@)) + header_line(
        "Black"@,
        header_or(h, "Black"@, "?"@),
    ) + header_line("Result"@, result_text(r))
}

/// The lines of the other tag pairs, in order.
pub open spec fn extra_headers(h: Seq<(Seq<char>, Seq<char>)>) -> Seq<char>
    decreases h.len(),
{
    if h.len() == 0 {
        Seq::empty()
    } else {
        extra_headers(h.drop_last()) + if is_str_key(h.last().0) {
            Seq::empty()
        } else {
            header_line(h.last().0, h.last().1)
        }
    }
}

/// The tag section: the roster, the other tag pairs, and a blank line.
pub open spec fn headers_text(h: Seq<(Seq<char>, Seq<char>)>, r: crate::tree::game::GameResult) -> Seq<char> {
    roster_text(h, r) + extra_headers(h) + seq!['\n']
}

/// Whether a key is one of the Seven Tag Roster.
pub fn is_str_header(key: &str) -> (b: bool)
    ensures
        b == is_str_key(key@),
{
    let k = str_chars(key);
    let is = |w: &str| -> (b: bool)
        ensures
            b == (k@ == w@),
        { crate::text::chars_eq(&k, &str_chars(w)) };
    is("Event") || is("Site") || is("Date") || is("Round") || is("White") || is("Black") || is(
        "Result",
    )
}

fn push_header(out: &mut String, k: &str, v: &str)
    ensures
        final(out)@ == old(out)@ + header_line(k@, v@),
{
    push_char(out, '[');
    push_str(out, k);
    push_str(out, " \"");
    push_str(out, v);
    push_str(out, "\"]\n");
    assert(final(out)@ =~= old(out)@ + header_line(k@, v@));
}

/// Writes the tag section of a game.
pub fn write_headers(tree: &GameTree, out: &mut String)
    ensures
        final(out)@ == old(out)@ + headers_text(tree.headers@, tree.result),
{
    let r = tree.seven_tag_roster();
    let ghost base = out@;
    push_header(out, "Event", r.event.as_str());
    push_header(out, "Site", r.site.as_str());
    push_header(out, "Date", r.date.as_str());
    push_header(out, "Round", r.round.as_str());
    push_header(out, "White", r.white.as_str());
    push_header(out, "Black", r.black.as_str());
    push_header(out, "Result", r.result.as_str());
    assert(out@ =~= base + roster_text(tree.headers@, tree.result));
    let entries = tree.headers.entries();
    let ghost h = tree.headers@;
    let ghost mid = out@;
    let mut i: usize = 0;
    while i < entries.len()
        invariant
            i <= entries@.len(),
            crate::tree::game::entry_models(entries@) == h,
            out@ == mid + extra_headers(h.take(i as int)),
        decreases entries@.len() - i,
    {
        let (k, v) = &entries[i];
        assert(h[i as int] == (k@, v@));
        assert(h.take(i + 1).drop_last() =~= h.take(i as int));
        if !is_str_header(k.as_str()) {
            push_header(out, k.as_str(), v.as_str());
        }
        assert(out@ =~= mid + extra_headers(h.take(i + 1)));
        i = i + 1;
    }
    assert(h.take(i as int) =~= h);
    push_char(out, '\n');
    assert(out@ =~= base + headers_text(tree.headers@, tree.result));
}

// ---------------------------------------------------------------------------
// Movetext
// ---------------------------------------------------------------------------

/// The NAGs of a move, each after a space.
pub open spec fn nags_text(g: Seq<Nag>) -> Seq<char>
    decreases g.len(),
{
    if g.len() == 0 {
        Seq::empty()
    } else {
        nags_text(g.drop_last()) + seq![' '] + nag_text(g.last().0)
    }
}

/// The move number written before a move: "N. " for White, "N... " for
/// Black; none without a number.
pub open spec fn number_text(n: NodeModel) -> Seq<char> {
    match n.move_number {
        Some(k) => if n.is_black {
            dec(k as nat) + "... "@
        } else {
            dec(k as nat) + ". "@
        },
        None => Seq::empty(),
    }
}

/// A move as standard PGN writes it: its number where `force` is set or it
/// is White's, the move, its NAGs, its comment in braces, and a space.
pub open spec fn std_head(n: NodeModel, o: OutputOptions, force: bool) -> Seq<char> {
    if is_root_model(n) {
        Seq::empty()
    } else {
        let c = process_comment_spec(n.comment, o);
        (if force || !n.is_black { number_text(n) } else { Seq::empty() }) + n.san + (if o.nags {
            nags_text(n.nags)
        } else {
            Seq::empty()
        }) + (if o.comments && n.comment.len() > 0 && c.len() > 0 {
            " { "@ + c + " }"@
        } else {
            Seq::empty()
        }) + seq![' ']
    }
}

/// Whether nodes at depth `depth` are below the depth limit.
pub open spec fn std_cut(o: OutputOptions, depth: int) -> bool {
    o.max_depth > 0 && depth > o.max_depth
}

/// The movetext of the subtree of `n` at depth `depth`: the move, then
/// what follows it.  Nothing below the depth limit.
pub open spec fn std_node(n: NodeModel, o: OutputOptions, depth: int, force: bool) -> Seq<char>
    decreases n, 2nat,
{
    if std_cut(o, depth) {
        Seq::empty()
    } else {
        std_head(n, o, force) + std_after(n, o, depth, false)
    }
}

/// What follows the move `n` at depth `depth`: its main-line move (numbered
/// where `force` is set or it is White's), then each of its other children
/// as a variation in parentheses, then the rest of the main line, whose
/// first move is numbered again where variations came between.
pub open spec fn std_after(n: NodeModel, o: OutputOptions, depth: int, force: bool) -> Seq<char>
    decreases n, 1nat,
{
    if n.children.len() == 0 {
        Seq::empty()
    } else {
        let c0 = n.children[0];
        (if std_cut(o, depth + 1) { Seq::empty() } else { std_head(c0, o, force) }) + (if o.variations {
            std_vars(n.children, o, depth + 1)
        } else {
            Seq::empty()
        }) + (if std_cut(o, depth + 1) {
            Seq::empty()
        } else {
            std_after(c0, o, depth + 1, o.variations && n.children.len() > 1)
        })
    }
}

/// The variations among `s` (all but the first), each in parentheses.
pub open spec fn std_vars(s: Seq<NodeModel>, o: OutputOptions, depth: int) -> Seq<char>
    decreases s, 0nat,
{
    if s.len() <= 1 {
        Seq::empty()
    } else {
        std_vars(s.subrange(0, s.len() - 1), o, depth) + "( "@ + std_node(s[s.len() - 1], o, depth, true)
            + ") "@
    }
}

/// The whole game in standard PGN: the tag section, then the movetext and
/// the result, wrapped at the line width (unless it is 0), and a newline.
pub open spec fn standard_text(t: &GameTree, o: OutputOptions) -> Seq<char> {
    (if o.headers { headers_text(t.headers@, t.result) } else { Seq::empty() }) + wrap_text(
        trim(std_node(t.root@, o, 0, true)) + (if o.result {
            seq![' '] + result_text(t.result)
        } else {
            Seq::empty()
        }),
        o.line_width as nat,
    ) + seq!['\n']
}

pub fn push_nags(out: &mut String, nags: &Vec<Nag>)
    ensures
        final(out)@ == old(out)@ + nags_text(nags@),
{
    let ghost base = out@;
    let mut i: usize = 0;
    while i < nags.len()
        invariant
            i <= nags@.len(),
            out@ == base + nags_text(nags@.take(i as int)),
        decreases nags@.len() - i,
    {
        assert(nags@.take(i + 1).drop_last() =~= nags@.take(i as int));
        push_char(out, ' ');
        let t = nags[i].to_string();
        push_str(out, t.as_str());
        assert(out@ =~= base + nags_text(nags@.take(i + 1)));
        i = i + 1;
    }
    assert(nags@.take(i as int) =~= nags@);
}

pub fn push_number(out: &mut String, node: &GameNode)
    ensures
        final(out)@ == old(out)@ + number_text(node@),
{
    if let Some(num) = node.move_number {
        push_dec(out, num as u64);
        if node.is_black {
            push_str(out, "... ");
        } else {
            push_str(out, ". ");
        }
    }
}

fn std_head_exec(node: &GameNode, options: &OutputOptions, force: bool, out: &mut String)
    ensures
        final(out)@ == old(out)@ + std_head(node@, *options, force),
{
    if node.is_root() {
        assert(old(out)@ + Seq::<char>::empty() =~= old(out)@);
        return;
    }
    let ghost base = out@;
    let ghost c = process_comment_spec(node@.comment, *options);
    let ghost num = if force || !node@.is_black { number_text(node@) } else { Seq::<char>::empty() };
    if force || !node.is_black {
        push_number(out, node);
    }
    assert(out@ =~= base + num);
    push_str(out, node.san.as_str());
    let ghost a = out@;
    if options.nags {
        push_nags(out, &node.nags);
    }
    let ghost b = out@;
    assert(b =~= a + if options.nags { nags_text(node@.nags) } else { Seq::<char>::empty() });
    if options.comments && !node.comment.as_str().is_empty() {
        let comment = process_comment(node.comment.as_str(), options);
        if !comment.as_str().is_empty() {
            push_str(out, " { ");
            push_str(out, comment.as_str());
            push_str(out, " }");
        }
    }
    let ghost d = out@;
    assert(d =~= b + if options.comments && node@.comment.len() > 0 && c.len() > 0 {
        " { "@ + c + " }"@
    } else {
        Seq::<char>::empty()
    });
    push_char(out, ' ');
    assert(out@ =~= base + std_head(node@, *options, force));
}

/// Serialize a node and its subtree to PGN movetext.
pub fn serialize_node(node: &GameNode, options: &OutputOptions, depth: usize, force_move_number: bool) -> (r: String)
    requires
        depth + crate::tree::model::depth(node@) < usize::MAX,
    ensures
        r@ == std_node(node@, *options, depth as int, force_move_number),
    decreases node, 2nat,
{
    let mut output = String::new();
    if options.max_depth > 0 && depth > options.max_depth {
        return output;
    }
    std_head_exec(node, options, force_move_number, &mut output);
    serialize_after(node, options, depth, false, &mut output);
    output
}

/// Write the variations among the children of `node` (all but the first).
fn push_vars(node: &GameNode, options: &OutputOptions, depth: usize, out: &mut String)
    requires
        depth + crate::tree::model::depth(node@) <= usize::MAX,
        node.children@.len() > 0,
    ensures
        final(out)@ == old(out)@ + std_vars(node@.children, *options, depth as int),
    decreases node, 0nat,
{
    let ghost base = out@;
    let ghost ch = node@.children;
    let mut i: usize = 1;
    assert(std_vars(ch.take(1), *options, depth as int) =~= Seq::<char>::empty());
    while i < node.children.len()
        invariant
            1 <= i <= ch.len(),
            ch == node@.children,
            ch.len() == node.children@.len(),
            depth + crate::tree::model::depth(node@) <= usize::MAX,
            out@ == base + std_vars(ch.take(i as int), *options, depth as int),
        decreases ch.len() - i,
    {
        proof {
            crate::tree::iter::lemma_child_depth_pub(node@, i as int);
        }
        let var = serialize_node(&node.children[i], options, depth, true);
        push_str(out, "( ");
        push_str(out, var.as_str());
        push_str(out, ") ");
        assert(ch.take(i + 1).subrange(0, i as int) =~= ch.take(i as int));
        assert(ch.take(i + 1)[i as int] == ch[i as int]);
        assert(out@ =~= base + std_vars(ch.take(i + 1), *options, depth as int));
        i = i + 1;
    }
    assert(ch.take(i as int) =~= ch);
}

/// Serialize what follows a move: its main-line move, its variations, and
/// the rest of the main line.
#[verifier::spinoff_prover]
#[verifier::rlimit(50)]
fn serialize_after(node: &GameNode, options: &OutputOptions, depth: usize, force: bool, out: &mut String)
    requires
        depth + crate::tree::model::depth(node@) < usize::MAX,
    ensures
        final(out)@ == old(out)@ + std_after(node@, *options, depth as int, force),
    decreases node, 1nat,
{
    let ghost base = out@;
    if node.children.len() == 0 {
        assert(out@ =~= base + Seq::<char>::empty());
        return;
    }
    proof {
        crate::tree::iter::lemma_child_depth_pub(node@, 0);
    }
    let cut = options.max_depth > 0 && depth + 1 > options.max_depth;
    let ghost ch = node@.children;
    if !cut {
        std_head_exec(&node.children[0], options, force, out);
    }
    let ghost after_main = out@;
    assert(after_main =~= base + if cut { Seq::<char>::empty() } else { std_head(ch[0], *options, force) });
    if options.variations {
        push_vars(node, options, depth + 1, out);
    }
    let ghost h = if cut { Seq::<char>::empty() } else { std_head(ch[0], *options, force) };
    let ghost vs = if options.variations { std_vars(ch, *options, depth + 1) } else { Seq::<char>::empty() };
    let ghost after_vars = out@;
    assert(after_vars == base + h + vs);
    let v = options.variations && node.children.len() > 1;
    let ghost rest = if cut { Seq::<char>::empty() } else { std_after(ch[0], *options, depth + 1, v) };
    if !cut {
        serialize_after(&node.children[0], options, depth + 1, v, out);
    }
    assert(out@ == after_vars + rest);
    assert(std_after(node@, *options, depth as int, force) == h + vs + rest);
    assert(out@ =~= base + (h + vs + rest));
}

/// Serialize a game tree to standard PGN.
pub fn to_standard(tree: &GameTree, options: &OutputOptions) -> (r: String)
    requires
        node_count(tree.root@) <= usize::MAX,
    ensures
        r@ == standard_text(tree, *options),
{
    proof {
        lemma_depth_bound(tree.root@);
    }
    let mut output = String::new();
    if options.headers {
        write_headers(tree, &mut output);
    }
    let movetext = serialize_node(&tree.root, options, 0, true);
    let mut line = trim_chars(&str_chars(movetext.as_str()));
    let ghost b = line@;
    if options.result {
        line.push(' ');
        extend_chars(&mut line, str_chars(tree.result.as_str()).as_slice());
    }
    assert(line@ =~= b + if options.result { seq![' '] + result_text(tree.result) } else { Seq::<char>::empty() });
    let wrapped = wrap_chars(&line, options.line_width);
    push_chars(&mut output, &wrapped);
    push_char(&mut output, '\n');
    assert(output@ =~= standard_text(tree, *options));
    output
}

/// A value without quotes or backslashes, then a quote, reads as that value.
proof fn lemma_scan_plain(v: Seq<char>)
    requires
        forall|i: int| 0 <= i < v.len() ==> #[trigger] v[i] != '"' && v[i] != '\\',
    ensures
        scan_value(v + seq!['"']) == (v, true),
    decreases v.len(),
{
    let s = v + seq!['"'];
    if v.len() > 0 {
        let d = v.drop_first();
        assert forall|i: int| 0 <= i < d.len() implies #[trigger] d[i] != '"' && d[i] != '\\' by {
            assert(d[i] == v[i + 1]);
        }
        lemma_scan_plain(d);
        assert(s[0] == v[0]);
        assert(s.skip(1) =~= d + seq!['"']);
        assert(seq![v[0]] + d =~= v);
    } else {
        assert(s =~= seq!['"']);
    }
}

/// The first quote of a text without quotes, followed by more, comes right
/// after it.
proof fn lemma_first_quote_after(k: Seq<char>, rest: Seq<char>)
    requires
        forall|i: int| 0 <= i < k.len() ==> #[trigger] k[i] != '"',
        rest.len() > 0 && rest[0] == '"',
    ensures
        first_quote(k + rest) == Some(k.len()),
    decreases k.len(),
{
    if k.len() > 0 {
        let d = k.drop_first();
        assert forall|i: int| 0 <= i < d.len() implies #[trigger] d[i] != '"' by {
            assert(d[i] == k[i + 1]);
        }
        lemma_first_quote_after(d, rest);
        assert((k + rest).drop_first() =~= d + rest);
        assert((k + rest)[0] == k[0]);
    } else {
        assert(k + rest =~= rest);
    }
}

/// A tag pair as `[Key "value"]`.
pub open spec fn tag_word(k: Seq<char>, v: Seq<char>) -> Seq<char> {
    seq!['['] + k + seq![' ', '"'] + v + seq!['"', ']']
}

/// `[Key "value"]` reads, through the tag-pair reader, as that key and
/// value, for a key without quotes and without whitespace at its ends, and
/// a value without quotes or backslashes.
pub proof fn lemma_tag_word(k: Seq<char>, v: Seq<char>)
    requires
        k.len() > 0,
        !is_ws(k[0]) && !is_ws(k.last()),
        forall|i: int| 0 <= i < k.len() ==> #[trigger] k[i] != '"',
        forall|i: int| 0 <= i < v.len() ==> #[trigger] v[i] != '"' && v[i] != '\\',
    ensures
        parse_header_spec(tag_word(k, v)) == Some((k, v)),
{
    let h = tag_word(k, v);
    assert(h[0] == '[');
    assert(h.last() == ']');
    lemma_trim_noop(h);
    let inner = h.subrange(1, h.len() - 1);
    let rest = seq![' ', '"'] + v + seq!['"'];
    assert(inner =~= k + rest);
    let rest2 = seq!['"'] + v + seq!['"'];
    assert(k + rest =~= k.push(' ') + rest2);
    let kp = k.push(' ');
    assert forall|i: int| 0 <= i < kp.len() implies #[trigger] kp[i] != '"' by {
        if i < k.len() {
            assert(kp[i] == k[i]);
        }
    }
    lemma_first_quote_after(kp, rest2);
    assert(inner.take((k.len() + 1) as int) =~= kp);
    assert(trim_start(kp) == kp);
    assert(kp.drop_last() =~= k);
    assert(trim_end(kp) == trim_end(k));
    lemma_trim_noop(k);
    assert(trim_start(k) == k);
    assert(trim(kp) == k);
    assert(inner.skip((k.len() + 2) as int) =~= v + seq!['"']);
    lemma_scan_plain(v);
}

/// A header line as the writer emits it reads back, through the tag-pair
/// reader, as the same key and value: for a key without quotes and without
/// whitespace at its ends, and a value without quotes or backslashes (the
/// writer does not escape them).
pub proof fn law_tag_pair_roundtrip(k: Seq<char>, v: Seq<char>)
    requires
        k.len() > 0,
        !is_ws(k[0]) && !is_ws(k.last()),
        forall|i: int| 0 <= i < k.len() ==> #[trigger] k[i] != '"',
        forall|i: int| 0 <= i < v.len() ==> #[trigger] v[i] != '"' && v[i] != '\\',
    ensures
        parse_header_spec(header_line(k, v)) == Some((k, v)),
{
    reveal_strlit(" \"");
    reveal_strlit("\"]\n");
    let h = tag_word(k, v);
    let line = header_line(k, v);
    assert(line =~= h.push('\n'));
    assert(h[0] == '[');
    assert(h.last() == ']');
    assert(trim_start(line) == line);
    assert(line.drop_last() =~= h);
    assert(trim_end(h) == h);
    assert(trim_end(line) == h);
    assert(trim(line) == h);
    lemma_trim_noop(h);
    lemma_tag_word(k, v);
}

/// The move number the writer puts before a move reads back as the same
/// number, with an ellipsis exactly where the move is Black's.
pub proof fn law_move_number_roundtrip(n: NodeModel)
    requires
        n.move_number is Some,
    ensures
        move_number_value(number_text(n)) == n.move_number,
        has_ellipsis(number_text(n)) == n.is_black,
{
    reveal_strlit("... ");
    reveal_strlit(". ");
    let k = n.move_number->0;
    let d = dec(k as nat);
    lemma_dec_value(k as nat);
    let t = number_text(n);
    let tail: Seq<char> = if n.is_black { "... "@ } else { ". "@ };
    assert(t == d + tail);
    assert(t[d.len() as int] == '.');
    lemma_run_bound(t, 0, CharClass::Digit);
    let r = run(t, 0, CharClass::Digit);
    assert forall|j: int| 0 <= j < d.len() implies #[trigger] has_class(t, j, CharClass::Digit) by {
        assert(t[j] == d[j]);
        assert(is_digit(d[j]));
    }
    if r > d.len() {
        assert(has_class(t, d.len() as int, CharClass::Digit));
    }
    if r < d.len() {
        assert(has_class(t, r as int, CharClass::Digit));
    }
    assert(r == d.len());
    assert(t.take(r as int) =~= d);
    assert(d[0] != '+') by {
        assert(is_digit(d[0]));
    }
    if n.is_black {
        assert(t[d.len() + 1int] == '.' && t[d.len() + 2int] == '.');
        assert(has_ellipsis(t));
    } else {
        assert forall|i: int| 0 <= i && i + 3 <= t.len() implies !(#[trigger] t[i] == '.' && t[i + 1] == '.' && t[i + 2] == '.') by {
            if i < d.len() {
                assert(t[i] == d[i]);
                assert(is_digit(d[i]));
            }
        }
    }
}

} // verus!
