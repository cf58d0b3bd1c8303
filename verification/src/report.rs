//! The text of an error: its head, its place, the source lines around it
//! with the span marked, then its notes and help. Words and marks are
//! painted through `colored`, which leaves them plain where the terminal or
//! the environment asks for no colors.

use vstd::prelude::*;
use colored::Colorize;
use crate::error::{code_text, error_model, Error, ErrorModel, ParseError, SourceLine};
use crate::text::{dec, dec_chars, push_char, push_chars, push_dec, push_str};

verus! {

broadcast use vstd::string::group_string_axioms;

// ---------------------------------------------------------------------------
// Painting
// ---------------------------------------------------------------------------

/// The sequence that ends a painted text.
pub open spec fn reset_seq() -> Seq<char> {
    seq!['\x1B', '[', '0', 'm']
}

/// The sequence that starts a text painted with the given SGR codes.
pub open spec fn sgr(codes: Seq<char>) -> Seq<char> {
    seq!['\x1B', '['] + codes + seq!['m']
}

/// `t` with `style` added after each reset sequence in it, the sequences
/// taken from left to right.
pub open spec fn escape_resets(t: Seq<char>, style: Seq<char>) -> Seq<char>
    decreases t.len(),
{
    if t.len() < 4 {
        t
    } else if t.take(4) == reset_seq() {
        reset_seq() + style + escape_resets(t.skip(4), style)
    } else {
        seq![t[0]] + escape_resets(t.drop_first(), style)
    }
}

/// `r` is how `t` shows when painted with `codes` (no codes: plain): the
/// text itself where colors are off; where they are on, the text between
/// the start and reset sequences, the style repeated after each reset
/// sequence inside the text.
pub open spec fn shown_as(t: Seq<char>, codes: Seq<char>, r: Seq<char>) -> bool {
    if codes.len() == 0 {
        r == t
    } else {
        r == t || r == sgr(codes) + escape_resets(t, sgr(codes)) + reset_seq()
    }
}

pub open spec fn bold_sgr() -> Seq<char> {
    seq!['1']
}

pub open spec fn red_sgr() -> Seq<char> {
    seq!['3', '1']
}

pub open spec fn red_bold_sgr() -> Seq<char> {
    seq!['1', ';', '3', '1']
}

pub open spec fn cyan_sgr() -> Seq<char> {
    seq!['3', '6']
}

pub open spec fn cyan_bold_sgr() -> Seq<char> {
    seq!['1', ';', '3', '6']
}

pub open spec fn green_bold_sgr() -> Seq<char> {
    seq!['1', ';', '3', '2']
}

/// `colored`: `text.bold()` displayed. Colors on or off is decided by the
/// environment (`CLICOLOR`, `NO_COLOR`, `CLICOLOR_FORCE`, whether standard
/// output is a terminal) or by an override, so either form may come back;
/// the contract takes the decision to stay the same during the call (no
/// other thread changes the override meanwhile).
#[verifier::external_body]
fn paint_bold(text: &str) -> (r: String)
    ensures
        shown_as(text@, bold_sgr(), r@),
{
    text.bold().to_string()
}

/// `colored`: `text.red()` displayed; see `paint_bold` for what is stated.
#[verifier::external_body]
fn paint_red(text: &str) -> (r: String)
    ensures
        shown_as(text@, red_sgr(), r@),
{
    text.red().to_string()
}

/// `colored`: `text.red().bold()` displayed; see `paint_bold`.
#[verifier::external_body]
fn paint_red_bold(text: &str) -> (r: String)
    ensures
        shown_as(text@, red_bold_sgr(), r@),
{
    text.red().bold().to_string()
}

/// `colored`: `text.cyan()` displayed; see `paint_bold`.
#[verifier::external_body]
fn paint_cyan(text: &str) -> (r: String)
    ensures
        shown_as(text@, cyan_sgr(), r@),
{
    text.cyan().to_string()
}

/// `colored`: `text.cyan().bold()` displayed; see `paint_bold`.
#[verifier::external_body]
fn paint_cyan_bold(text: &str) -> (r: String)
    ensures
        shown_as(text@, cyan_bold_sgr(), r@),
{
    text.cyan().bold().to_string()
}

/// `colored`: `text.green().bold()` displayed; see `paint_bold`.
#[verifier::external_body]
fn paint_green_bold(text: &str) -> (r: String)
    ensures
        shown_as(text@, green_bold_sgr(), r@),
{
    text.green().bold().to_string()
}

// ---------------------------------------------------------------------------
// The pieces of an error's text
// ---------------------------------------------------------------------------

/// A text shown plain.
pub open spec fn plain(t: Seq<char>) -> (Seq<char>, Seq<char>) {
    (t, Seq::empty())
}

pub open spec fn spaces(n: nat) -> Seq<char> {
    Seq::new(n, |i: int| ' ')
}

pub open spec fn carets(n: nat) -> Seq<char> {
    Seq::new(n, |i: int| '^')
}

/// `s` right-aligned in a field of `w` characters.
pub open spec fn pad_left(s: Seq<char>, w: nat) -> Seq<char> {
    if s.len() < w {
        spaces((w - s.len()) as nat) + s
    } else {
        s
    }
}

/// "file:line:column", with "<input>" where the file is not known.
pub open spec fn location_text(e: ErrorModel) -> Seq<char> {
    let name = match e.file {
        Some(f) => f,
        None => "<input>"@,
    };
    name + seq![':'] + dec(e.line as nat) + seq![':'] + dec(e.column as nat)
}

/// "error[CODE]: message" and "  --> location".
pub open spec fn head_pieces(e: ErrorModel) -> Seq<(Seq<char>, Seq<char>)> {
    seq![
        ("error"@, red_bold_sgr()),
        ("["@, bold_sgr()),
        (code_text(e.code), red_bold_sgr()),
        ("]"@, bold_sgr()),
        plain(" "@),
        (e.message, bold_sgr()),
        plain("\n"@),
        plain("  "@),
        ("-->"@, cyan_bold_sgr()),
        plain(" "@),
        (location_text(e), cyan_sgr()),
        plain("\n"@),
    ]
}

/// The greatest line number of the context.
pub open spec fn max_line(c: Seq<(int, Seq<char>, Option<(int, int, Seq<char>)>)>) -> int
    decreases c.len(),
{
    if c.len() == 0 {
        0
    } else if c.last().0 > max_line(c.drop_last()) {
        c.last().0
    } else {
        max_line(c.drop_last())
    }
}

/// An empty gutter line of `n` spaces and a bar.
pub open spec fn bar_pieces(n: nat) -> Seq<(Seq<char>, Seq<char>)> {
    seq![plain(spaces(n) + " "@), ("|"@, cyan_bold_sgr()), plain("\n"@)]
}

/// A source line with its number in a field of `w`, and the line of carets
/// under its highlight where it has one (at least one caret).
pub open spec fn line_pieces(l: (int, Seq<char>, Option<(int, int, Seq<char>)>), w: nat) -> Seq<
    (Seq<char>, Seq<char>),
> {
    seq![
        (pad_left(dec(l.0 as nat), w), cyan_bold_sgr()),
        plain(" "@),
        ("|"@, cyan_bold_sgr()),
        plain(" "@ + l.1 + "\n"@),
    ] + match l.2 {
        Some(h) => seq![
            plain(spaces(w) + " "@),
            ("|"@, cyan_bold_sgr()),
            plain(" "@ + spaces(h.0 as nat)),
            (carets(if h.1 >= 1 { h.1 as nat } else { 1 }) + " "@ + h.2, red_sgr()),
            plain("\n"@),
        ],
        None => Seq::empty(),
    }
}

pub open spec fn lines_pieces(c: Seq<(int, Seq<char>, Option<(int, int, Seq<char>)>)>, w: nat) -> Seq<
    (Seq<char>, Seq<char>),
>
    decreases c.len(),
{
    if c.len() == 0 {
        Seq::empty()
    } else {
        lines_pieces(c.drop_last(), w) + line_pieces(c.last(), w)
    }
}

/// The source context between two gutter lines, numbers as wide as the
/// greatest; nothing where there is no context.
pub open spec fn context_pieces(c: Seq<(int, Seq<char>, Option<(int, int, Seq<char>)>)>) -> Seq<
    (Seq<char>, Seq<char>),
> {
    if c.len() == 0 {
        Seq::empty()
    } else {
        let w = dec(max_line(c) as nat).len();
        bar_pieces(w + 1) + lines_pieces(c, w) + bar_pieces(w + 1)
    }
}

/// Lines "   = word: text", one per text.
pub open spec fn note_pieces(notes: Seq<Seq<char>>, word: Seq<char>, codes: Seq<char>) -> Seq<
    (Seq<char>, Seq<char>),
>
    decreases notes.len(),
{
    if notes.len() == 0 {
        Seq::empty()
    } else {
        note_pieces(notes.drop_last(), word, codes) + seq![
            plain("   "@),
            ("="@, cyan_bold_sgr()),
            plain(" "@),
            (word, codes),
            plain(": "@ + notes.last() + "\n"@),
        ]
    }
}

/// All the pieces of an error's text, in order.
pub open spec fn render_pieces(e: ErrorModel) -> Seq<(Seq<char>, Seq<char>)> {
    head_pieces(e) + context_pieces(e.context) + note_pieces(e.notes, "note"@, bold_sgr()) + note_pieces(
        e.help,
        "help"@,
        green_bold_sgr(),
    )
}

/// Each text of `out` is how the matching piece shows.
pub open spec fn shows(ps: Seq<(Seq<char>, Seq<char>)>, out: Seq<Seq<char>>) -> bool {
    &&& out.len() == ps.len()
    &&& forall|i: int| 0 <= i < ps.len() ==> shown_as(ps[i].0, ps[i].1, #[trigger] out[i])
}

pub open spec fn concat(s: Seq<Seq<char>>) -> Seq<char>
    decreases s.len(),
{
    if s.len() == 0 {
        Seq::empty()
    } else {
        concat(s.drop_last()) + s.last()
    }
}

/// `t` is the text of the error `e`: its pieces, each plain or painted.
pub open spec fn is_error_text(e: ErrorModel, t: Seq<char>) -> bool {
    exists|out: Seq<Seq<char>>| shows(render_pieces(e), out) && t == concat(out)
}

// ---------------------------------------------------------------------------
// Writing
// ---------------------------------------------------------------------------

/// The text written so far, with the pieces it is made of.
struct Writer {
    text: String,
    pieces: Ghost<Seq<(Seq<char>, Seq<char>)>>,
    shown: Ghost<Seq<Seq<char>>>,
}

impl Writer {
    spec fn ok(&self) -> bool {
        self.text@ == concat(self.shown@) && shows(self.pieces@, self.shown@)
    }

    fn new() -> (w: Writer)
        ensures
            w.ok(),
            w.pieces@ == Seq::<(Seq<char>, Seq<char>)>::empty(),
    {
        let w = Writer { text: String::new(), pieces: Ghost(Seq::empty()), shown: Ghost(Seq::empty()) };
        assert(w.text@ =~= concat(w.shown@));
        w
    }

    /// Adds a piece, shown as `s`.
    fn add(&mut self, s: &str, Ghost(p): Ghost<(Seq<char>, Seq<char>)>)
        requires
            old(self).ok(),
            shown_as(p.0, p.1, s@),
        ensures
            final(self).ok(),
            final(self).pieces@ == old(self).pieces@.push(p),
    {
        let ghost sh = self.shown@;
        let ghost ps = self.pieces@;
        push_str(&mut self.text, s);
        self.shown = Ghost(sh.push(s@));
        self.pieces = Ghost(ps.push(p));
        assert(sh.push(s@).drop_last() =~= sh);
        assert forall|i: int| 0 <= i < ps.push(p).len() implies shown_as(
            ps.push(p)[i].0,
            ps.push(p)[i].1,
            #[trigger] sh.push(s@)[i],
        ) by {
            if i < ps.len() {
                assert(sh[i] == sh.push(s@)[i]);
            }
        }
    }

    fn add_plain(&mut self, s: &str)
        requires
            old(self).ok(),
        ensures
            final(self).ok(),
            final(self).pieces@ == old(self).pieces@.push(plain(s@)),
    {
        self.add(s, Ghost(plain(s@)));
    }
}

fn repeat_char(c: char, n: usize) -> (s: String)
    ensures
        s@ == Seq::new(n as nat, |i: int| c),
{
    let mut s = String::new();
    let mut i: usize = 0;
    while i < n
        invariant
            i <= n,
            s@ == Seq::new(i as nat, |k: int| c),
        decreases n - i,
    {
        push_char(&mut s, c);
        assert(s@ =~= Seq::new((i + 1) as nat, |k: int| c));
        i = i + 1;
    }
    s
}

fn location_string(e: &ParseError) -> (s: String)
    ensures
        s@ == location_text(error_model(*e)),
{
    let mut s = String::new();
    match &e.file {
        Some(f) => push_str(&mut s, f.as_str()),
        None => push_str(&mut s, "<input>"),
    }
    push_char(&mut s, ':');
    push_dec(&mut s, e.line as u64);
    push_char(&mut s, ':');
    push_dec(&mut s, e.column as u64);
    assert(s@ =~= location_text(error_model(*e)));
    s
}

fn write_head(w: &mut Writer, e: &ParseError)
    requires
        old(w).ok(),
    ensures
        final(w).ok(),
        final(w).pieces@ == old(w).pieces@ + head_pieces(error_model(*e)),
{
    let ghost base = w.pieces@;
    let ghost m = error_model(*e);
    w.add(paint_red_bold("error").as_str(), Ghost(("error"@, red_bold_sgr())));
    w.add(paint_bold("[").as_str(), Ghost(("["@, bold_sgr())));
    w.add(paint_red_bold(e.code.code()).as_str(), Ghost((code_text(e.code), red_bold_sgr())));
    w.add(paint_bold("]").as_str(), Ghost(("]"@, bold_sgr())));
    w.add_plain(" ");
    w.add(paint_bold(e.message.as_str()).as_str(), Ghost((m.message, bold_sgr())));
    w.add_plain("\n");
    w.add_plain("  ");
    w.add(paint_cyan_bold("-->").as_str(), Ghost(("-->"@, cyan_bold_sgr())));
    w.add_plain(" ");
    let loc = location_string(e);
    w.add(paint_cyan(loc.as_str()).as_str(), Ghost((location_text(m), cyan_sgr())));
    w.add_plain("\n");
    assert(w.pieces@ =~= base + head_pieces(m));
}

fn write_bar(w: &mut Writer, n: usize)
    requires
        old(w).ok(),
    ensures
        final(w).ok(),
        final(w).pieces@ == old(w).pieces@ + bar_pieces(n as nat),
{
    let ghost base = w.pieces@;
    let mut s = repeat_char(' ', n);
    push_str(&mut s, " ");
    assert(s@ =~= spaces(n as nat) + " "@);
    w.add_plain(s.as_str());
    w.add(paint_cyan_bold("|").as_str(), Ghost(("|"@, cyan_bold_sgr())));
    w.add_plain("\n");
    assert(w.pieces@ =~= base + bar_pieces(n as nat));
}

fn write_line(w: &mut Writer, l: &SourceLine, width: usize)
    requires
        old(w).ok(),
    ensures
        final(w).ok(),
        final(w).pieces@ == old(w).pieces@ + line_pieces(crate::error::source_line_model(*l), width as nat),
{
    let ghost base = w.pieces@;
    let ghost lm = crate::error::source_line_model(*l);
    let digits = dec_chars(l.line_num as u64);
    let mut num = String::new();
    if digits.len() < width {
        num = repeat_char(' ', width - digits.len());
    }
    push_chars(&mut num, &digits);
    assert(num@ =~= pad_left(dec(lm.0 as nat), width as nat));
    w.add(paint_cyan_bold(num.as_str()).as_str(), Ghost((pad_left(dec(lm.0 as nat), width as nat), cyan_bold_sgr())));
    w.add_plain(" ");
    w.add(paint_cyan_bold("|").as_str(), Ghost(("|"@, cyan_bold_sgr())));
    let mut content = String::new();
    push_str(&mut content, " ");
    push_str(&mut content, l.content.as_str());
    push_str(&mut content, "\n");
    assert(content@ =~= " "@ + lm.1 + "\n"@);
    w.add_plain(content.as_str());
    let ghost mid = w.pieces@;
    match &l.highlight {
        Some(h) => {
            let mut gutter = repeat_char(' ', width);
            push_str(&mut gutter, " ");
            assert(gutter@ =~= spaces(width as nat) + " "@);
            w.add_plain(gutter.as_str());
            w.add(paint_cyan_bold("|").as_str(), Ghost(("|"@, cyan_bold_sgr())));
            let mut lead = String::new();
            push_str(&mut lead, " ");
            push_str(&mut lead, repeat_char(' ', h.start).as_str());
            assert(lead@ =~= " "@ + spaces(h.start as nat));
            w.add_plain(lead.as_str());
            let n = if h.len >= 1 { h.len } else { 1 };
            let mut marks = repeat_char('^', n);
            push_str(&mut marks, " ");
            push_str(&mut marks, h.label.as_str());
            assert(marks@ =~= carets(n as nat) + " "@ + h.label@);
            w.add(
                paint_red(marks.as_str()).as_str(),
                Ghost((carets(if h.len >= 1 { h.len as nat } else { 1 }) + " "@ + h.label@, red_sgr())),
            );
            w.add_plain("\n");
        },
        None => {},
    }
    assert(w.pieces@ =~= base + line_pieces(lm, width as nat));
}

proof fn lemma_dec_len(n: nat)
    ensures
        dec(n).len() <= n / 2 + 1,
    decreases n,
{
    if n >= 10 {
        lemma_dec_len(n / 10);
    }
}

fn write_context(w: &mut Writer, c: &Vec<SourceLine>)
    requires
        old(w).ok(),
    ensures
        final(w).ok(),
        final(w).pieces@ == old(w).pieces@ + context_pieces(
            c@.map_values(|l: SourceLine| crate::error::source_line_model(l)),
        ),
{
    let ghost cm = c@.map_values(|l: SourceLine| crate::error::source_line_model(l));
    if c.len() == 0 {
        assert(w.pieces@ =~= w.pieces@ + context_pieces(cm));
        return;
    }
    let mut max: usize = 0;
    let mut i: usize = 0;
    while i < c.len()
        invariant
            i <= c@.len(),
            cm == c@.map_values(|l: SourceLine| crate::error::source_line_model(l)),
            max as int == max_line(cm.take(i as int)),
        decreases c@.len() - i,
    {
        assert(cm.take(i + 1).drop_last() =~= cm.take(i as int));
        assert(cm.take(i + 1).last() == cm[i as int]);
        if c[i].line_num > max {
            max = c[i].line_num;
        }
        i = i + 1;
    }
    assert(cm.take(i as int) =~= cm);
    let width = dec_chars(max as u64).len();
    proof {
        lemma_dec_len(max as nat);
    }
    let ghost base = w.pieces@;
    write_bar(w, width + 1);
    let ghost start = w.pieces@;
    let mut j: usize = 0;
    while j < c.len()
        invariant
            j <= c@.len(),
            cm == c@.map_values(|l: SourceLine| crate::error::source_line_model(l)),
            w.ok(),
            w.pieces@ == start + lines_pieces(cm.take(j as int), width as nat),
        decreases c@.len() - j,
    {
        assert(cm.take(j + 1).drop_last() =~= cm.take(j as int));
        assert(cm.take(j + 1).last() == cm[j as int]);
        write_line(w, &c[j], width);
        assert(w.pieces@ =~= start + lines_pieces(cm.take(j + 1), width as nat));
        j = j + 1;
    }
    assert(cm.take(j as int) =~= cm);
    write_bar(w, width + 1);
    assert(w.pieces@ =~= base + context_pieces(cm));
}

fn write_notes(w: &mut Writer, notes: &Vec<String>, word: &str, is_help: bool)
    requires
        old(w).ok(),
    ensures
        final(w).ok(),
        final(w).pieces@ == old(w).pieces@ + note_pieces(
            notes@.map_values(|n: String| n@),
            word@,
            if is_help { green_bold_sgr() } else { bold_sgr() },
        ),
{
    let ghost nm = notes@.map_values(|n: String| n@);
    let ghost codes = if is_help { green_bold_sgr() } else { bold_sgr() };
    let ghost base = w.pieces@;
    let mut i: usize = 0;
    while i < notes.len()
        invariant
            i <= notes@.len(),
            nm == notes@.map_values(|n: String| n@),
            codes == if is_help { green_bold_sgr() } else { bold_sgr() },
            w.ok(),
            w.pieces@ == base + note_pieces(nm.take(i as int), word@, codes),
        decreases notes@.len() - i,
    {
        assert(nm.take(i + 1).drop_last() =~= nm.take(i as int));
        assert(nm.take(i + 1).last() == nm[i as int]);
        w.add_plain("   ");
        w.add(paint_cyan_bold("=").as_str(), Ghost(("="@, cyan_bold_sgr())));
        w.add_plain(" ");
        if is_help {
            w.add(paint_green_bold(word).as_str(), Ghost((word@, codes)));
        } else {
            w.add(paint_bold(word).as_str(), Ghost((word@, codes)));
        }
        let mut text = String::new();
        push_str(&mut text, ": ");
        push_str(&mut text, notes[i].as_str());
        push_str(&mut text, "\n");
        assert(text@ =~= ": "@ + nm[i as int] + "\n"@);
        w.add_plain(text.as_str());
        assert(w.pieces@ =~= base + note_pieces(nm.take(i + 1), word@, codes));
        i = i + 1;
    }
    assert(nm.take(i as int) =~= nm);
}

impl ParseError {
    /// The text of the error: "error[CODE]: message", the place, the source
    /// lines around the error with the span marked, then the notes and the
    /// help, each on a line of its own.
    pub fn to_string(&self) -> (r: String)
        ensures
            is_error_text(error_model(*self), r@),
    {
        let mut w = Writer::new();
        write_head(&mut w, self);
        write_context(&mut w, &self.source_context);
        write_notes(&mut w, &self.notes, "note", false);
        write_notes(&mut w, &self.help, "help", true);
        let ghost m = error_model(*self);
        assert(w.pieces@ =~= render_pieces(m));
        assert(shows(render_pieces(m), w.shown@) && w.text@ == concat(w.shown@));
        w.text
    }
}

impl Error {
    /// The text of the error.
    pub fn to_string(&self) -> (r: String)
        ensures
            match self {
                Error::PathNotFound(p) => r@ == "Path not found: "@ + p@,
                Error::InvalidPath(p) => r@ == "Invalid path syntax: "@ + p@,
                Error::Parse(e) => is_error_text(error_model(*e), r@),
                Error::Other(m) => r@ == m@,
            },
    {
        match self {
            Error::PathNotFound(p) => {
                let mut s = String::new();
                push_str(&mut s, "Path not found: ");
                push_str(&mut s, p.as_str());
                s
            },
            Error::InvalidPath(p) => {
                let mut s = String::new();
                push_str(&mut s, "Invalid path syntax: ");
                push_str(&mut s, p.as_str());
                s
            },
            Error::Parse(e) => e.to_string(),
            Error::Other(m) => {
                let mut s = String::new();
                push_str(&mut s, m.as_str());
                s
            },
        }
    }
}

} // verus!
