//! `pgnq info`: a game's tag pairs and statistics as text.

use vstd::prelude::*;
use crate::cli::InputSource;
use crate::serializer::standard::{is_str_header, is_str_key};
use crate::text::{dec, push_char, push_dec, push_str};
use crate::tree::game::{header_or, line_count, result_text, GameTree};
use crate::tree::model::{comment_count, depth, main_line_len, node_count};

verus! {

broadcast use vstd::string::group_string_axioms;

/// Arguments of `pgnq info`.
pub struct InfoArgs {
    /// Input PGN file ("-" for standard input).
    pub input: InputSource,
    /// Output file (default: standard output).
    pub output: Option<String>,
    /// Output as JSON.
    pub json: bool,
    /// Show only the headers.
    pub headers_only: bool,
    /// Game number to select from a file of several games (1-indexed).
    pub game: Option<usize>,
}

/// A line "  Key: value".
pub open spec fn info_line(k: Seq<char>, v: Seq<char>) -> Seq<char> {
    "  "@ + k + ": "@ + v + seq!['\n']
}

/// The lines of the tag pairs outside the Seven Tag Roster, in order.
pub open spec fn info_extra(h: Seq<(Seq<char>, Seq<char>)>) -> Seq<char>
    decreases h.len(),
{
    if h.len() == 0 {
        Seq::empty()
    } else {
        info_extra(h.drop_last()) + if is_str_key(h.last().0) {
            Seq::empty()
        } else {
            info_line(h.last().0, h.last().1)
        }
    }
}

/// The "Headers:" section: the Seven Tag Roster with defaults, then the
/// other tag pairs in order.
pub open spec fn info_headers_spec(t: &GameTree) -> Seq<char> {
    let h = t.headers@;
    "Headers:\n"@ + info_line("Event"@, header_or(h, "Event"@, "?"@)) + info_line("Site"@, header_or(h, "Site"@, "?"@))
        + info_line("Date"@, header_or(h, "Date"@, "????.??.??"@)) + info_line("Round"@, header_or(h, "Round"@, "?"@))
        + info_line("White"@, header_or(h, "White"@, "?"@)) + info_line("Black"@, header_or(h, "Black"@, "?"@))
        + info_line("Result"@, result_text(t.result)) + info_extra(h)
}

/// The "Statistics:" section, after an empty line.
pub open spec fn info_stats_spec(t: &GameTree) -> Seq<char> {
    seq!['\n'] + "Statistics:\n"@ + info_line("Nodes"@, dec((node_count(t.root@) - 1) as nat)) + info_line(
        "Lines"@,
        dec(line_count(t)),
    ) + info_line("Comments"@, dec(comment_count(t.root@))) + info_line("Max depth"@, dec(depth(t.root@)))
        + info_line("Main line length"@, dec(main_line_len(t.root@)))
}

/// The information text of a game read from `name`.
pub open spec fn info_text_spec(t: &GameTree, name: Seq<char>, headers_only: bool) -> Seq<char> {
    "File: "@ + name + seq!['\n'] + seq!['\n'] + info_headers_spec(t) + if headers_only {
        Seq::empty()
    } else {
        info_stats_spec(t)
    }
}

fn push_info_line(out: &mut String, k: &str, v: &str)
    ensures
        final(out)@ == old(out)@ + info_line(k@, v@),
{
    push_str(out, "  ");
    push_str(out, k);
    push_str(out, ": ");
    push_str(out, v);
    push_char(out, '\n');
    assert(final(out)@ =~= old(out)@ + info_line(k@, v@));
}

fn push_info_num(out: &mut String, k: &str, v: usize)
    ensures
        final(out)@ == old(out)@ + info_line(k@, dec(v as nat)),
{
    push_str(out, "  ");
    push_str(out, k);
    push_str(out, ": ");
    push_dec(out, v as u64);
    push_char(out, '\n');
    assert(final(out)@ =~= old(out)@ + info_line(k@, dec(v as nat)));
}

fn push_headers_info(out: &mut String, tree: &GameTree)
    ensures
        final(out)@ == old(out)@ + info_headers_spec(tree),
{
    let ghost start = out@;
    push_str(out, "Headers:\n");
    let r = tree.seven_tag_roster();
    push_info_line(out, "Event", r.event.as_str());
    push_info_line(out, "Site", r.site.as_str());
    push_info_line(out, "Date", r.date.as_str());
    push_info_line(out, "Round", r.round.as_str());
    push_info_line(out, "White", r.white.as_str());
    push_info_line(out, "Black", r.black.as_str());
    push_info_line(out, "Result", r.result.as_str());
    let ghost mid = out@;
    let entries = tree.headers.entries();
    let ghost h = tree.headers@;
    let mut i: usize = 0;
    while i < entries.len()
        invariant
            i <= entries@.len(),
            crate::tree::game::entry_models(entries@) == h,
            out@ == mid + info_extra(h.take(i as int)),
        decreases entries@.len() - i,
    {
        let (k, v) = &entries[i];
        assert(h[i as int] == (k@, v@));
        assert(h.take(i + 1).drop_last() =~= h.take(i as int));
        if !is_str_header(k.as_str()) {
            push_info_line(out, k.as_str(), v.as_str());
        }
        assert(out@ =~= mid + info_extra(h.take(i + 1)));
        i = i + 1;
    }
    assert(h.take(i as int) =~= h);
    assert(out@ =~= start + info_headers_spec(tree));
}

fn push_stats_info(out: &mut String, tree: &GameTree)
    requires
        node_count(tree.root@) <= usize::MAX,
    ensures
        final(out)@ == old(out)@ + info_stats_spec(tree),
{
    let ghost start = out@;
    push_char(out, '\n');
    push_str(out, "Statistics:\n");
    push_info_num(out, "Nodes", tree.count_nodes());
    push_info_num(out, "Lines", tree.count_lines());
    push_info_num(out, "Comments", tree.count_comments());
    push_info_num(out, "Max depth", tree.max_depth());
    push_info_num(out, "Main line length", tree.main_line_length());
    assert(out@ =~= start + info_stats_spec(tree));
}

/// The information text of a game: where it was read from, its tag pairs
/// (the Seven Tag Roster first, with defaults), and, unless only headers
/// are asked for, its statistics.
pub fn info_text(tree: &GameTree, name: &str, headers_only: bool) -> (r: String)
    requires
        node_count(tree.root@) <= usize::MAX,
    ensures
        r@ == info_text_spec(tree, name@, headers_only),
{
    let mut out = String::new();
    push_str(&mut out, "File: ");
    push_str(&mut out, name);
    push_char(&mut out, '\n');
    push_char(&mut out, '\n');
    push_headers_info(&mut out, tree);
    if !headers_only {
        push_stats_info(&mut out, tree);
    }
    assert(out@ =~= info_text_spec(tree, name@, headers_only));
    out
}

} // verus!
