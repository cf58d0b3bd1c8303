//! Serialization of game trees: standard PGN, Lichess study format, a tree
//! view, and the bare main line.

pub mod lichess;
pub mod options;
pub mod standard;
pub mod tree_view;
pub mod wrap;

pub use lichess::to_lichess;
pub use options::{OutputFormat, OutputOptions};
pub use standard::to_standard;
pub use tree_view::to_tree_view;

use vstd::prelude::*;
use crate::serializer::lichess::lichess_text;
use crate::serializer::standard::{header_line, standard_text};
use crate::serializer::tree_view::{chars_for, tree_view_text, tv_ok_forest};
use crate::text::{dec, push_char, push_dec, push_str, str_chars, string_of, trim, trim_chars};
use crate::tree::game::{result_text, GameTree};
use crate::tree::model::{group_node_model, lemma_depth_bound, main_line_len, node_count, GameNode, NodeModel};

verus! {

broadcast use {vstd::string::group_string_axioms, group_node_model};

/// Every tag pair, in order, as lines.
pub open spec fn all_headers(h: Seq<(Seq<char>, Seq<char>)>) -> Seq<char>
    decreases h.len(),
{
    if h.len() == 0 {
        Seq::empty()
    } else {
        all_headers(h.drop_last()) + header_line(h.last().0, h.last().1)
    }
}

/// The main line below `n`: each White move after its number, each move
/// followed by a space; `num` and `black` tell the number and side of the
/// next move.
pub open spec fn min_moves(n: NodeModel, num: int, black: bool) -> Seq<char>
    decreases n,
{
    if n.children.len() == 0 {
        Seq::empty()
    } else {
        let c = n.children[0];
        (if !black { dec(num as nat) + ". "@ } else { Seq::empty() }) + c.san + seq![' '] + min_moves(
            c,
            if black { num + 1 } else { num },
            !black,
        )
    }
}

/// The game as its bare main line: all tag pairs where headers are
/// asked for, the numbered moves, the result where asked for, trimmed.
pub open spec fn minimal_text(t: &GameTree, o: OutputOptions) -> Seq<char> {
    trim(
        (if o.headers {
            all_headers(t.headers@) + (if t.headers@.len() > 0 { seq!['\n'] } else { Seq::empty() })
        } else {
            Seq::empty()
        }) + min_moves(t.root@, 1, false) + (if o.result { result_text(t.result) } else { Seq::empty() }),
    )
}

/// The text of a game in the format the options ask for.
pub open spec fn pgn_text(t: &GameTree, o: OutputOptions) -> Seq<char> {
    match o.format {
        OutputFormat::Standard => standard_text(t, o),
        OutputFormat::Lichess => lichess_text(t, o),
        OutputFormat::Tree => tree_view_text(t, o, chars_for(o)),
        OutputFormat::Minimal => minimal_text(t, o),
    }
}

/// Serialize a game tree in the format the options ask for.
pub fn to_pgn(tree: &GameTree, options: &OutputOptions) -> (r: String)
    requires
        node_count(tree.root@) <= usize::MAX,
        options.format == OutputFormat::Tree ==> tv_ok_forest(tree.root@.children, *options, 1),
    ensures
        r@ == pgn_text(tree, *options),
{
    match options.format {
        OutputFormat::Standard => to_standard(tree, options),
        OutputFormat::Lichess => to_lichess(tree, options),
        OutputFormat::Tree => to_tree_view(tree, options),
        OutputFormat::Minimal => to_minimal(tree, options),
    }
}

/// The game as its bare main line.
pub fn to_minimal(tree: &GameTree, options: &OutputOptions) -> (r: String)
    requires
        node_count(tree.root@) <= usize::MAX,
    ensures
        r@ == minimal_text(tree, *options),
{
    proof {
        lemma_depth_bound(tree.root@);
    }
    let mut output = String::new();
    if options.headers {
        let entries = tree.headers.entries();
        let ghost h = tree.headers@;
        let mut i: usize = 0;
        while i < entries.len()
            invariant
                i <= entries@.len(),
                crate::tree::game::entry_models(entries@) == h,
                output@ == all_headers(h.take(i as int)),
            decreases entries@.len() - i,
        {
            let (k, v) = &entries[i];
            assert(h[i as int] == (k@, v@));
            assert(h.take(i + 1).drop_last() =~= h.take(i as int));
            push_char(&mut output, '[');
            push_str(&mut output, k.as_str());
            push_str(&mut output, " \"");
            push_str(&mut output, v.as_str());
            push_str(&mut output, "\"]\n");
            assert(output@ =~= all_headers(h.take(i + 1)));
            i = i + 1;
        }
        assert(h.take(i as int) =~= h);
        if !tree.headers.is_empty() {
            push_char(&mut output, '\n');
        }
    }
    let ghost head = output@;
    assert(head =~= (if options.headers {
        all_headers(tree.headers@) + (if tree.headers@.len() > 0 { seq!['\n'] } else { Seq::<char>::empty() })
    } else {
        Seq::<char>::empty()
    }));
    let mut current = &tree.root;
    assert(output@.subrange(head.len() as int, output@.len() as int) =~= Seq::<char>::empty());
    assert(output@.subrange(0, head.len() as int) =~= head);
    proof {
        crate::tree::model::lemma_depth_bound(tree.root@);
    }
    let mut move_num: usize = 1;
    let mut is_black = false;
    while current.children.len() > 0
        invariant
            min_moves(tree.root@, 1, false) =~= (output@.subrange(head.len() as int, output@.len() as int)
                + min_moves(current@, move_num as int, is_black)),
            output@.subrange(0, head.len() as int) == head,
            head.len() <= output@.len(),
            move_num + main_line_len(current@) <= usize::MAX,
        decreases main_line_len(current@),
    {
        let child = &current.children[0];
        let ghost before = output@;
        if !is_black {
            push_dec(&mut output, move_num as u64);
            push_str(&mut output, ". ");
        }
        push_str(&mut output, child.san.as_str());
        push_char(&mut output, ' ');
        proof {
            let piece = (if !is_black { dec(move_num as nat) + ". "@ } else { Seq::<char>::empty() }) + child@.san
                + seq![' '];
            assert(output@ =~= before + piece);
            assert(output@.subrange(head.len() as int, output@.len() as int) =~= before.subrange(
                head.len() as int,
                before.len() as int,
            ) + piece);
            assert(output@.subrange(0, head.len() as int) =~= before.subrange(0, head.len() as int));
        }
        if is_black {
            move_num = move_num + 1;
        }
        is_black = !is_black;
        current = child;
    }
    let ghost moves = output@.subrange(head.len() as int, output@.len() as int);
    assert(min_moves(current@, move_num as int, is_black) =~= Seq::<char>::empty());
    assert(moves =~= min_moves(tree.root@, 1, false));
    assert(output@ =~= head + moves);
    if options.result {
        push_str(&mut output, tree.result.as_str());
    }
    proof {
        assert(output@.subrange(0, head.len() as int) =~= head);
        assert(output@ =~= head + moves + (if options.result { result_text(tree.result) } else {
            Seq::<char>::empty()
        }));
    }
    let t = trim_chars(&str_chars(output.as_str()));
    string_of(&t)
}

} // verus!
