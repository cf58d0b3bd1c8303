//! `pgnq filter`: the moves of a game that meet criteria.

use vstd::prelude::*;
use crate::cli::{format_spec, CliOutputFormat, InputSource};
use crate::nag::{dollar_nag, symbol_nag, Nag};
use crate::serializer::options::{OutputFormat, OutputOptions};
use crate::error::Error;
use crate::text::push_str;
use crate::tree::game::GameTree;
use crate::tree::path::{nodes_model, parse_path_spec, resolve_all_spec, NodePath};
use crate::tree::model::{depth, forest_count, group_node_model, lemma_depth_bound, node_count, GameNode, NodeModel};

verus! {

broadcast use {vstd::string::group_string_axioms, group_node_model};

/// Arguments of `pgnq filter`.
pub struct FilterArgs {
    /// Input PGN file ("-" for standard input).
    pub input: InputSource,
    /// Path expression to match (e.g. "e4/**", "*/Nf3").
    pub path: Option<String>,
    /// Only moves with comments.
    pub has_comment: bool,
    /// Only moves with this NAG (e.g. "!!", "$1").
    pub has_nag: Option<String>,
    /// Only moves at this depth or deeper.
    pub min_depth: Option<usize>,
    /// Only moves at this depth or shallower.
    pub max_depth: Option<usize>,
    /// Show the main line only.
    pub main_line: bool,
    /// Keep the moves that do not match instead.
    pub invert: bool,
    /// Output format.
    pub format: CliOutputFormat,
    /// Game number to select from a file of several games (1-indexed).
    pub game: Option<usize>,
}

/// Whether a move at depth `depth` meets the criteria.
pub open spec fn matches_spec(n: NodeModel, args: &FilterArgs, nag: Option<Nag>, depth: int) -> bool {
    &&& (args.min_depth matches Some(m) ==> depth >= m)
    &&& (args.max_depth matches Some(m) ==> depth <= m)
    &&& (args.has_comment ==> n.comment.len() > 0)
    &&& (nag matches Some(g) ==> n.nags.contains(g))
}

/// A move meets the NAG criterion exactly where the NAG occurs anywhere in
/// its list (first or not); the other criteria are met as without it.
pub proof fn law_nag_criterion(n: NodeModel, args: &FilterArgs, g: Nag, depth: int)
    ensures
        matches_spec(n, args, Some(g), depth) <==> (matches_spec(n, args, None, depth) && exists|i: int|
            0 <= i < n.nags.len() && n.nags[i] == g),
{
    if exists|i: int| 0 <= i < n.nags.len() && n.nags[i] == g {
        let i = choose|i: int| 0 <= i < n.nags.len() && n.nags[i] == g;
        assert(n.nags.contains(g));
    }
}

/// Whether a move at depth `depth` is kept.
pub open spec fn kept(n: NodeModel, args: &FilterArgs, nag: Option<Nag>, depth: int) -> bool {
    if args.invert { !matches_spec(n, args, nag, depth) } else { matches_spec(n, args, nag, depth) }
}

/// The moves kept below the children `s` of a node at depth `depth`: a kept
/// child is copied with the moves kept below it; the moves kept below a
/// child that is not kept take its place.
pub open spec fn filter_forest(s: Seq<NodeModel>, args: &FilterArgs, nag: Option<Nag>, depth: int) -> Seq<NodeModel>
    decreases s,
{
    if s.len() == 0 {
        Seq::empty()
    } else {
        filter_forest(s.subrange(0, s.len() - 1), args, nag, depth) + filter_one(s[s.len() - 1], args, nag, depth)
    }
}

pub open spec fn filter_one(c: NodeModel, args: &FilterArgs, nag: Option<Nag>, depth: int) -> Seq<NodeModel>
    decreases c,
{
    if kept(c, args, nag, depth + 1) {
        seq![NodeModel {
            san: c.san,
            move_number: c.move_number,
            is_black: c.is_black,
            comment: c.comment,
            nags: c.nags,
            children: filter_forest(c.children, args, nag, depth + 1),
        }]
    } else {
        filter_forest(c.children, args, nag, depth + 1)
    }
}

/// Whether a move meets the criteria at a depth.
pub fn node_matches(node: &GameNode, args: &FilterArgs, nag_filter: Option<Nag>, depth: usize) -> (b: bool)
    ensures
        b == matches_spec(node@, args, nag_filter, depth as int),
{
    if let Some(min) = args.min_depth {
        if depth < min {
            return false;
        }
    }
    if let Some(max) = args.max_depth {
        if depth > max {
            return false;
        }
    }
    if args.has_comment && node.comment.as_str().is_empty() {
        return false;
    }
    if let Some(nag) = nag_filter {
        let mut i: usize = 0;
        let mut found = false;
        while i < node.nags.len()
            invariant
                i <= node.nags@.len(),
                found == exists|j: int| 0 <= j < i && node.nags@[j] == nag,
            decreases node.nags@.len() - i,
        {
            if node.nags[i].0 == nag.0 {
                found = true;
            }
            i = i + 1;
        }
        if !found {
            return false;
        }
    }
    true
}

/// Appends to `target` the moves kept below the children of `source`.
pub fn filter_node(source: &GameNode, target: &mut GameNode, args: &FilterArgs, nag_filter: Option<Nag>, depth: usize)
    requires
        depth + crate::tree::model::depth(source@) < usize::MAX,
    ensures
        final(target)@.children == old(target)@.children + filter_forest(source@.children, args, nag_filter, depth as int),
        final(target)@.san == old(target)@.san,
        final(target)@.move_number == old(target)@.move_number,
        final(target)@.is_black == old(target)@.is_black,
        final(target)@.comment == old(target)@.comment,
        final(target)@.nags == old(target)@.nags,
    decreases source,
{
    let ghost ch = source@.children;
    let ghost base = target@.children;
    let mut i: usize = 0;
    assert(ch.take(0) =~= Seq::<NodeModel>::empty());
    assert(base + Seq::<NodeModel>::empty() =~= base);
    while i < source.children.len()
        invariant
            i <= ch.len(),
            ch == source@.children,
            ch.len() == source.children@.len(),
            depth + crate::tree::model::depth(source@) < usize::MAX,
            target@.children == base + filter_forest(ch.take(i as int), args, nag_filter, depth as int),
            target@.san == old(target)@.san,
            target@.move_number == old(target)@.move_number,
            target@.is_black == old(target)@.is_black,
            target@.comment == old(target)@.comment,
            target@.nags == old(target)@.nags,
        decreases ch.len() - i,
    {
        proof {
            crate::tree::iter::lemma_child_depth_pub(source@, i as int);
        }
        let child = &source.children[i];
        let ghost before = target@.children;
        let matches = node_matches(child, args, nag_filter, depth + 1);
        let keep = if args.invert { !matches } else { matches };
        if keep {
            let mut new_child = GameNode::new(child.san.as_str());
            new_child.move_number = child.move_number;
            new_child.is_black = child.is_black;
            new_child.comment = child.comment.clone();
            new_child.nags = child.nags.clone();
            assert(new_child@.children =~= Seq::<NodeModel>::empty());
            filter_node(child, &mut new_child, args, nag_filter, depth + 1);
            assert(new_child@.children =~= filter_forest(child@.children, args, nag_filter, depth + 1));
            target.children.push(new_child);
            assert(target@.children =~= before + filter_one(ch[i as int], args, nag_filter, depth as int));
        } else {
            filter_node(child, target, args, nag_filter, depth + 1);
            assert(target@.children =~= before + filter_one(ch[i as int], args, nag_filter, depth as int));
        }
        assert(ch.take(i + 1).subrange(0, i as int) =~= ch.take(i as int));
        assert(ch.take(i + 1)[i as int] == ch[i as int]);
        assert(target@.children =~= base + filter_forest(ch.take(i + 1), args, nag_filter, depth as int));
        i = i + 1;
    }
    assert(ch.take(i as int) =~= ch);
}

/// The NAG that a filter text names: its symbol, or its `$N` notation.
pub open spec fn named_nag(has_nag: Option<String>) -> Option<Nag> {
    match has_nag {
        Some(s) => match symbol_nag(s@) {
            Some(v) => Some(Nag(v)),
            None => match dollar_nag(s@) {
                Some(v) => Some(Nag(v)),
                None => None,
            },
        },
        None => None,
    }
}

/// The NAG a filter names: its symbol, or its `$N` notation.
pub fn nag_filter(has_nag: &Option<String>) -> (r: Option<Nag>)
    ensures
        r == named_nag(*has_nag),
{
    match has_nag {
        Some(s) => match Nag::from_symbol(s.as_str()) {
            Some(n) => Some(n),
            None => Nag::from_dollar_notation(s.as_str()),
        },
        None => None,
    }
}

/// The game with only the moves that meet the criteria: its headers and
/// result, and the kept moves under the root.
pub fn filter_tree(tree: &GameTree, args: &FilterArgs, nag: Option<Nag>) -> (r: GameTree)
    requires
        node_count(tree.root@) <= usize::MAX,
    ensures
        r.headers@ == tree.headers@,
        r.result == tree.result,
        r.root@.children == filter_forest(tree.root@.children, args, nag, 0),
        r.root@.san.len() == 0 && r.root@.move_number is None && r.root@.comment.len() == 0
            && r.root@.nags.len() == 0,
{
    proof {
        lemma_depth_bound(tree.root@);
    }
    let mut filtered = GameTree::new();
    filtered.headers = tree.headers.copy();
    filtered.result = tree.result;
    filter_node(&tree.root, &mut filtered.root, args, nag, 0);
    assert(filtered.root@.children =~= filter_forest(tree.root@.children, args, nag, 0));
    filtered
}

/// The game that `pgnq filter` writes: the whole game where only the main
/// line is asked for (the options leave the variations out); the subtree
/// at the first node the path leads to, with the game's tag pairs and
/// result, where a path is given; otherwise the moves that meet the
/// criteria.
pub fn filter_game(tree: &GameTree, args: &FilterArgs) -> (r: Result<GameTree, Error>)
    requires
        node_count(tree.root@) <= usize::MAX,
    ensures
        args.main_line ==> (r matches Ok(g) && g.root@ == tree.root@ && g.headers@ == tree.headers@
            && g.result == tree.result),
        !args.main_line && args.path is Some ==> match parse_path_spec(args.path->0@) {
            Err(m) => r matches Err(Error::InvalidPath(x)) && x@ == m,
            Ok(segs) => if resolve_all_spec(tree.root@, segs, 0, seq![tree.root@]).len() == 0 {
                r matches Err(Error::Other(x)) && x@ == "No nodes match path: "@ + args.path->0@
            } else {
                r matches Ok(g) && g.root@ == resolve_all_spec(tree.root@, segs, 0, seq![tree.root@])[0]
                    && g.headers@ == tree.headers@ && g.result == tree.result
            },
        },
        !args.main_line && args.path is None ==> (r matches Ok(g) && g.headers@ == tree.headers@ && g.result
            == tree.result && g.root@.children == filter_forest(tree.root@.children, args, named_nag(args.has_nag), 0)
            && g.root@.san.len() == 0 && g.root@.move_number is None && g.root@.comment.len() == 0
            && g.root@.nags.len() == 0),
{
    if args.main_line {
        return Ok(tree.copy());
    }
    match &args.path {
        Some(p) => {
            let path = match NodePath::parse(p.as_str()) {
                Ok(path) => path,
                Err(e) => {
                    return Err(e);
                },
            };
            let nodes = path.resolve_all(tree);
            if nodes.len() == 0 {
                let mut m = String::new();
                push_str(&mut m, "No nodes match path: ");
                push_str(&mut m, p.as_str());
                return Err(Error::Other(m));
            }
            assert(nodes_model(nodes@)[0] == nodes@[0]@);
            Ok(GameTree { headers: tree.headers.copy(), root: nodes[0].deep_clone(), result: tree.result })
        },
        None => {
            let nag = nag_filter(&args.has_nag);
            Ok(filter_tree(tree, args, nag))
        },
    }
}

/// The output options of a filtered game: headers and result, in the chosen format.
pub fn filter_options(args: &FilterArgs) -> (o: OutputOptions)
    ensures
        o.format == format_spec(args.format),
        o.headers && o.comments && o.nags && o.result,
        o.variations == !args.main_line,
        !o.strip_clocks && !o.strip_evals && !o.ascii && !o.show_comments && !o.show_nags,
        o.line_width == 80 && o.indent == 2 && o.max_depth == 0,
{
    let mut o = OutputOptions::default();
    o.format = OutputFormat::from(args.format);
    o.variations = !args.main_line;
    o
}

/// The same criteria with `invert` the other way.
pub open spec fn inverted(args: FilterArgs) -> FilterArgs {
    FilterArgs { invert: !args.invert, ..args }
}

proof fn lemma_count_concat(a: Seq<NodeModel>, b: Seq<NodeModel>)
    ensures
        forest_count(a + b) == forest_count(a) + forest_count(b),
    decreases b.len(),
{
    if b.len() > 0 {
        lemma_count_concat(a, b.drop_last());
        assert((a + b).subrange(0, (a + b).len() - 1) =~= a + b.drop_last());
        assert(b.subrange(0, b.len() - 1) =~= b.drop_last());
    } else {
        assert(a + b =~= a);
    }
}

proof fn lemma_partition_forest(s: Seq<NodeModel>, args: FilterArgs, nag: Option<Nag>, depth: int)
    ensures
        forest_count(filter_forest(s, &args, nag, depth)) + forest_count(filter_forest(s, &inverted(args), nag, depth))
            == forest_count(s),
    decreases s,
{
    if s.len() > 0 {
        let init = s.subrange(0, s.len() - 1);
        let last = s[s.len() - 1];
        lemma_partition_forest(init, args, nag, depth);
        lemma_partition_one(last, args, nag, depth);
        lemma_count_concat(filter_forest(init, &args, nag, depth), filter_one(last, &args, nag, depth));
        lemma_count_concat(
            filter_forest(init, &inverted(args), nag, depth),
            filter_one(last, &inverted(args), nag, depth),
        );
    }
}

proof fn lemma_partition_one(c: NodeModel, args: FilterArgs, nag: Option<Nag>, depth: int)
    ensures
        forest_count(filter_one(c, &args, nag, depth)) + forest_count(filter_one(c, &inverted(args), nag, depth))
            == node_count(c),
    decreases c,
{
    lemma_partition_forest(c.children, args, nag, depth + 1);
    let kept_copy = NodeModel {
        san: c.san,
        move_number: c.move_number,
        is_black: c.is_black,
        comment: c.comment,
        nags: c.nags,
        children: filter_forest(c.children, &args, nag, depth + 1),
    };
    let inverted_copy = NodeModel { children: filter_forest(c.children, &inverted(args), nag, depth + 1), ..kept_copy };
    assert(forest_count(Seq::<NodeModel>::empty()) == 0);
    assert(seq![kept_copy].subrange(0, 0) =~= Seq::<NodeModel>::empty());
    assert(seq![inverted_copy].subrange(0, 0) =~= Seq::<NodeModel>::empty());
    assert(forest_count(seq![kept_copy]) == node_count(kept_copy));
    assert(forest_count(seq![inverted_copy]) == node_count(inverted_copy));
}

/// Filtering with the criteria and with the criteria inverted divides the
/// moves between the two results: each move is kept by exactly one, so
/// together they hold as many moves as the tree.
pub proof fn law_filter_partition(s: Seq<NodeModel>, args: FilterArgs, nag: Option<Nag>, depth: int)
    ensures
        forest_count(filter_forest(s, &args, nag, depth)) + forest_count(filter_forest(s, &inverted(args), nag, depth))
            == forest_count(s),
{
    lemma_partition_forest(s, args, nag, depth);
}

} // verus!
