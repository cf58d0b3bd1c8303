//! Lichess study format: one move per line, comments on lines of their own.

use vstd::prelude::*;
use crate::serializer::options::OutputOptions;
use crate::serializer::standard::{headers_text, nags_text, number_text, push_nags, push_number, remove_cmd, remove_command, write_headers};
use crate::text::{push_char, push_chars, push_str, str_chars, trim, trim_chars};
use crate::tree::game::{result_text, GameTree};
use crate::tree::model::{group_node_model, is_root_model, lemma_depth_bound, node_count, GameNode, NodeModel};

verus! {

broadcast use {vstd::string::group_string_axioms, group_node_model};

/// The comment text the Lichess format writes: clock and evaluation
/// commands stripped as the options say, then trimmed.
pub open spec fn lichess_comment_spec(c: Seq<char>, o: OutputOptions) -> Seq<char> {
    let a = if o.strip_clocks { remove_cmd(remove_cmd(c, "%clk"@), "%emt"@) } else { c };
    let b = if o.strip_evals { remove_cmd(a, "%eval"@) } else { a };
    trim(b)
}

/// A move as the Lichess format writes it: number, move and NAGs on one
/// line, then the comment on a line of its own.
pub open spec fn lic_head(n: NodeModel, o: OutputOptions) -> Seq<char> {
    if is_root_model(n) {
        Seq::empty()
    } else {
        let c = lichess_comment_spec(n.comment, o);
        number_text(n) + n.san + (if o.nags { nags_text(n.nags) } else { Seq::empty() }) + seq!['\n']
            + (if o.comments && n.comment.len() > 0 && c.len() > 0 {
            c + seq!['\n']
        } else {
            Seq::empty()
        })
    }
}

/// The Lichess text of the subtree of `n` at depth `depth`: the move, then
/// what follows it.
pub open spec fn lic_node(n: NodeModel, o: OutputOptions, depth: int) -> Seq<char>
    decreases n, 2nat,
{
    if o.max_depth > 0 && depth > o.max_depth {
        Seq::empty()
    } else {
        lic_head(n, o) + lic_after(n, o, depth)
    }
}

/// What follows the move `n` at depth `depth`: its main-line move, then its
/// other children as variations, then the rest of the main line.
pub open spec fn lic_after(n: NodeModel, o: OutputOptions, depth: int) -> Seq<char>
    decreases n, 1nat,
{
    if n.children.len() == 0 {
        Seq::empty()
    } else {
        let cut = o.max_depth > 0 && depth + 1 > o.max_depth;
        (if cut { Seq::empty() } else { lic_head(n.children[0], o) }) + (if o.variations {
            lic_vars(n.children, o, depth + 1)
        } else {
            Seq::empty()
        }) + (if cut { Seq::empty() } else { lic_after(n.children[0], o, depth + 1) })
    }
}

/// The variations among `s` (all but the first), each between "(" and ")" lines.
pub open spec fn lic_vars(s: Seq<NodeModel>, o: OutputOptions, depth: int) -> Seq<char>
    decreases s, 0nat,
{
    if s.len() <= 1 {
        Seq::empty()
    } else {
        lic_vars(s.subrange(0, s.len() - 1), o, depth) + "(\n"@ + lic_node(s[s.len() - 1], o, depth)
            + ")\n"@
    }
}

/// The whole game in Lichess format.
pub open spec fn lichess_text(t: &GameTree, o: OutputOptions) -> Seq<char> {
    (if o.headers { headers_text(t.headers@, t.result) } else { Seq::empty() }) + lic_node(t.root@, o, 0)
        + (if o.result { result_text(t.result) + seq!['\n'] } else { Seq::empty() })
}

/// Process a comment for the Lichess format.
pub fn process_lichess_comment(comment: &str, options: &OutputOptions) -> (r: String)
    ensures
        r@ == lichess_comment_spec(comment@, *options),
{
    let mut result = comment.to_owned();
    if options.strip_clocks {
        result = remove_command(result.as_str(), "clk");
        result = remove_command(result.as_str(), "emt");
        proof {
            reveal_strlit("clk");
            reveal_strlit("emt");
            reveal_strlit("%clk");
            reveal_strlit("%emt");
            assert(seq!['%'] + "clk"@ =~= "%clk"@);
            assert(seq!['%'] + "emt"@ =~= "%emt"@);
        }
    }
    if options.strip_evals {
        result = remove_command(result.as_str(), "eval");
        proof {
            reveal_strlit("eval");
            reveal_strlit("%eval");
            assert(seq!['%'] + "eval"@ =~= "%eval"@);
        }
    }
    let t = trim_chars(&str_chars(result.as_str()));
    crate::text::string_of(&t)
}

fn lic_head_exec(node: &GameNode, options: &OutputOptions, out: &mut String)
    ensures
        final(out)@ == old(out)@ + lic_head(node@, *options),
{
    if node.is_root() {
        assert(old(out)@ + Seq::<char>::empty() =~= old(out)@);
        return;
    }
    let ghost base = out@;
    push_number(out, node);
    push_str(out, node.san.as_str());
    let ghost a = out@;
    if options.nags {
        push_nags(out, &node.nags);
    }
    assert(out@ =~= a + if options.nags { nags_text(node@.nags) } else { Seq::<char>::empty() });
    push_char(out, '\n');
    let ghost b = out@;
    let ghost c = lichess_comment_spec(node@.comment, *options);
    if options.comments && !node.comment.as_str().is_empty() {
        let comment = process_lichess_comment(node.comment.as_str(), options);
        if !comment.as_str().is_empty() {
            push_str(out, comment.as_str());
            push_char(out, '\n');
        }
    }
    assert(out@ =~= b + if options.comments && node@.comment.len() > 0 && c.len() > 0 {
        c + seq!['\n']
    } else {
        Seq::<char>::empty()
    });
    assert(out@ =~= base + lic_head(node@, *options));
}

/// Write a node and its subtree in Lichess format.
pub fn serialize_lichess_node(node: &GameNode, options: &OutputOptions, output: &mut String, depth: usize)
    requires
        depth + crate::tree::model::depth(node@) < usize::MAX,
    ensures
        final(output)@ == old(output)@ + lic_node(node@, *options, depth as int),
    decreases node, 2nat,
{
    if options.max_depth > 0 && depth > options.max_depth {
        assert(old(output)@ + Seq::<char>::empty() =~= old(output)@);
        return;
    }
    let ghost base = output@;
    lic_head_exec(node, options, output);
    let ghost head = output@;
    lichess_after(node, options, output, depth);
    assert(output@ =~= base + lic_node(node@, *options, depth as int));
}

/// Write the variations among the children of `node` (all but the first).
fn lichess_vars(node: &GameNode, options: &OutputOptions, output: &mut String, depth: usize)
    requires
        depth + crate::tree::model::depth(node@) <= usize::MAX,
        node.children@.len() > 0,
    ensures
        final(output)@ == old(output)@ + lic_vars(node@.children, *options, depth as int),
    decreases node, 0nat,
{
    let ghost base = output@;
    let ghost ch = node@.children;
    let mut i: usize = 1;
    assert(lic_vars(ch.take(1), *options, depth as int) =~= Seq::<char>::empty());
    while i < node.children.len()
        invariant
            1 <= i <= ch.len(),
            ch == node@.children,
            ch.len() == node.children@.len(),
            depth + crate::tree::model::depth(node@) <= usize::MAX,
            output@ == base + lic_vars(ch.take(i as int), *options, depth as int),
        decreases ch.len() - i,
    {
        proof {
            crate::tree::iter::lemma_child_depth_pub(node@, i as int);
        }
        push_str(output, "(\n");
        serialize_lichess_node(&node.children[i], options, output, depth);
        push_str(output, ")\n");
        assert(ch.take(i + 1).subrange(0, i as int) =~= ch.take(i as int));
        assert(ch.take(i + 1)[i as int] == ch[i as int]);
        assert(output@ =~= base + lic_vars(ch.take(i + 1), *options, depth as int));
        i = i + 1;
    }
    assert(ch.take(i as int) =~= ch);
}

/// Write what follows a move: its main-line move, its variations, and the
/// rest of the main line.
#[verifier::spinoff_prover]
#[verifier::rlimit(50)]
fn lichess_after(node: &GameNode, options: &OutputOptions, output: &mut String, depth: usize)
    requires
        depth + crate::tree::model::depth(node@) < usize::MAX,
    ensures
        final(output)@ == old(output)@ + lic_after(node@, *options, depth as int),
    decreases node, 1nat,
{
    let ghost base = output@;
    if node.children.len() == 0 {
        assert(output@ =~= base + Seq::<char>::empty());
        return;
    }
    proof {
        crate::tree::iter::lemma_child_depth_pub(node@, 0);
    }
    let ghost ch = node@.children;
    let cut = options.max_depth > 0 && depth + 1 > options.max_depth;
    if !cut {
        lic_head_exec(&node.children[0], options, output);
    }
    let ghost h = if cut { Seq::<char>::empty() } else { lic_head(ch[0], *options) };
    assert(output@ == base + h);
    if options.variations {
        lichess_vars(node, options, output, depth + 1);
    }
    let ghost vs = if options.variations { lic_vars(ch, *options, depth + 1) } else { Seq::<char>::empty() };
    let ghost after_vars = output@;
    assert(after_vars == base + h + vs);
    let ghost rest = if cut { Seq::<char>::empty() } else { lic_after(ch[0], *options, depth + 1) };
    if !cut {
        lichess_after(&node.children[0], options, output, depth + 1);
    }
    assert(output@ == after_vars + rest);
    assert(lic_after(node@, *options, depth as int) == h + vs + rest);
    assert(output@ =~= base + (h + vs + rest));
}

/// Serialize a game tree to Lichess study format.
pub fn to_lichess(tree: &GameTree, options: &OutputOptions) -> (r: String)
    requires
        node_count(tree.root@) <= usize::MAX,
    ensures
        r@ == lichess_text(tree, *options),
{
    proof {
        lemma_depth_bound(tree.root@);
    }
    let mut output = String::new();
    if options.headers {
        write_headers(tree, &mut output);
    }
    let ghost a = output@;
    serialize_lichess_node(&tree.root, options, &mut output, 0);
    let ghost b = output@;
    if options.result {
        push_str(&mut output, tree.result.as_str());
        push_char(&mut output, '\n');
    }
    assert(output@ =~= b + if options.result { result_text(tree.result) + seq!['\n'] } else {
        Seq::<char>::empty()
    });
    assert(output@ =~= lichess_text(tree, *options));
    output
}

} // verus!
