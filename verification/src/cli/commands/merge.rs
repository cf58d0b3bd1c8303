//! `pgnq merge`: several games merged into one tree, moves grouped by their
//! normalized SAN, the first-seen move of each group first (main line).

use vstd::prelude::*;
use crate::cli::{format_spec, CliOutputFormat, InputSource};
use crate::error::Error;
use crate::serializer::options::{OutputFormat, OutputOptions};
use crate::nag::Nag;
use crate::serializer::standard::join_words;
use crate::text::{chars_eq, push_char, push_str, str_chars};
use crate::tree::game::{GameResult, GameTree, Headers};
use crate::tree::model::{depth, empty_node, first_with_san, group_node_model, path_lookup, child_index, GameNode, NodeModel};
use crate::tree::path::nodes_model;
use crate::tree::san::{normalize_chars, normalize_spec};

verus! {

broadcast use {vstd::string::group_string_axioms, group_node_model};

/// Arguments of `pgnq merge`.
pub struct MergeArgs {
    /// Input PGN files (standard input, "-", at most once).
    pub inputs: Vec<InputSource>,
    /// Output file (default: standard output).
    pub output: Option<String>,
    /// Output format.
    pub format: CliOutputFormat,
    /// Strip all comments.
    pub no_comments: bool,
    /// Remove NAG annotations.
    pub no_nags: bool,
    /// Concatenate comments when merging duplicate moves.
    pub concat_comments: bool,
    /// Wrap lines at N characters (0 = no wrapping).
    pub line_width: usize,
}

/// Options for merging.
pub struct MergeOptions {
    /// Join the comments of merged moves instead of keeping the first.
    pub concat_comments: bool,
}

impl Default for MergeOptions {
    fn default() -> (o: MergeOptions)
        ensures
            !o.concat_comments,
    {
        MergeOptions { concat_comments: false }
    }
}

// ---------------------------------------------------------------------------
// The merged tree, as plain values
// ---------------------------------------------------------------------------

/// The key a move is grouped by.
pub open spec fn san_key(n: NodeModel) -> Seq<char> {
    normalize_spec(n.san)
}

/// The distinct keys of `s`, in the order they are first seen.
pub open spec fn keys_of(s: Seq<NodeModel>) -> Seq<Seq<char>>
    decreases s.len(),
{
    if s.len() == 0 {
        Seq::empty()
    } else {
        let k = keys_of(s.drop_last());
        if k.contains(san_key(s.last())) {
            k
        } else {
            k.push(san_key(s.last()))
        }
    }
}

/// The nodes of `s` with key `key`, in order.
pub open spec fn members(s: Seq<NodeModel>, key: Seq<char>) -> Seq<NodeModel>
    decreases s.len(),
{
    if s.len() == 0 {
        Seq::empty()
    } else {
        members(s.drop_last(), key) + if san_key(s.last()) == key {
            seq![s.last()]
        } else {
            Seq::empty()
        }
    }
}

/// The comments of `g` that are not empty, in order.
pub open spec fn nonempty_comments(g: Seq<NodeModel>) -> Seq<Seq<char>>
    decreases g.len(),
{
    if g.len() == 0 {
        Seq::empty()
    } else {
        nonempty_comments(g.drop_last()) + if g.last().comment.len() > 0 {
            seq![g.last().comment]
        } else {
            Seq::empty()
        }
    }
}

/// The first comment of `g` that is not empty, or the empty text.
pub open spec fn first_comment(g: Seq<NodeModel>) -> Seq<char>
    decreases g.len(),
{
    if g.len() == 0 {
        Seq::empty()
    } else if g[0].comment.len() > 0 {
        g[0].comment
    } else {
        first_comment(g.drop_first())
    }
}

/// The first NAG list of `g` that is not empty, or none.
pub open spec fn first_nags(g: Seq<NodeModel>) -> Seq<Nag>
    decreases g.len(),
{
    if g.len() == 0 {
        Seq::empty()
    } else if g[0].nags.len() > 0 {
        g[0].nags
    } else {
        first_nags(g.drop_first())
    }
}

/// The children of all nodes of `g`, in order.
pub open spec fn child_pool(g: Seq<NodeModel>) -> Seq<NodeModel>
    decreases g.len(),
{
    if g.len() == 0 {
        Seq::empty()
    } else {
        child_pool(g.drop_last()) + g.last().children
    }
}

/// The merged nodes of the moves `s`: one per key, in first-seen order,
/// `fuel` levels deep.
pub open spec fn merge_forest(s: Seq<NodeModel>, concat: bool, fuel: nat) -> Seq<NodeModel>
    decreases fuel, 1nat, 0nat,
{
    if fuel == 0 {
        Seq::empty()
    } else {
        merge_groups(s, keys_of(s), concat, fuel)
    }
}

pub open spec fn merge_groups(s: Seq<NodeModel>, ks: Seq<Seq<char>>, concat: bool, fuel: nat) -> Seq<NodeModel>
    decreases fuel, 0nat, ks.len(),
{
    if fuel == 0 || ks.len() == 0 {
        Seq::empty()
    } else {
        merge_groups(s, ks.drop_last(), concat, fuel).push(
            merge_group(members(s, ks.last()), concat, (fuel - 1) as nat),
        )
    }
}

/// One merged node: the move, number and side of the first node of the
/// group; the first comment (or all comments joined by spaces); the first
/// NAGs; and the merged children of all nodes of the group.
pub open spec fn merge_group(g: Seq<NodeModel>, concat: bool, fuel: nat) -> NodeModel
    decreases fuel, 2nat, 0nat,
{
    NodeModel {
        san: g[0].san,
        move_number: g[0].move_number,
        is_black: g[0].is_black,
        comment: if concat { join_words(nonempty_comments(g)) } else { first_comment(g) },
        nags: first_nags(g),
        children: merge_forest(child_pool(g), concat, fuel),
    }
}

/// The first moves of all trees, in order.
pub open spec fn first_moves(trees: Seq<GameTree>) -> Seq<NodeModel>
    decreases trees.len(),
{
    if trees.len() == 0 {
        Seq::empty()
    } else {
        first_moves(trees.drop_last()) + trees.last().root@.children
    }
}

/// Every node of `s` is shallower than `f`.
pub open spec fn all_below(s: Seq<NodeModel>, f: nat) -> bool {
    forall|k: int| 0 <= k < s.len() ==> #[trigger] depth(s[k]) < f
}

/// As many levels as the deepest first move has, and one more.
pub open spec fn merge_depth(s: Seq<NodeModel>) -> nat {
    crate::tree::model::forest_depth(s) + 1
}

// ---------------------------------------------------------------------------
// Facts
// ---------------------------------------------------------------------------

proof fn lemma_members_below(s: Seq<NodeModel>, key: Seq<char>, f: nat)
    requires
        all_below(s, f),
    ensures
        all_below(members(s, key), f),
        members(s, key).len() <= s.len(),
    decreases s.len(),
{
    if s.len() > 0 {
        lemma_members_below(s.drop_last(), key, f);
        let a = members(s.drop_last(), key);
        assert forall|k: int| 0 <= k < members(s, key).len() implies #[trigger] depth(members(s, key)[k]) < f by {
            if k < a.len() {
                assert(members(s, key)[k] == a[k]);
            } else {
                assert(members(s, key)[k] == s.last());
            }
        }
    }
}

proof fn lemma_pool_below(g: Seq<NodeModel>, f: nat)
    requires
        all_below(g, f),
        f > 0,
    ensures
        all_below(child_pool(g), (f - 1) as nat),
    decreases g.len(),
{
    if g.len() > 0 {
        lemma_pool_below(g.drop_last(), f);
        let a = child_pool(g.drop_last());
        let last = g.last();
        assert(depth(last) < f);
        assert forall|k: int| 0 <= k < child_pool(g).len() implies #[trigger] depth(child_pool(g)[k]) < (f
            - 1) as nat by {
            if k < a.len() {
                assert(child_pool(g)[k] == a[k]);
            } else {
                assert(child_pool(g)[k] == last.children[k - a.len()]);
                crate::tree::iter::lemma_child_depth_pub(last, k - a.len());
            }
        }
    }
}

proof fn lemma_first_moves_below(trees: Seq<GameTree>)
    ensures
        all_below(first_moves(trees), merge_depth(first_moves(trees))),
{
    let s = first_moves(trees);
    assert forall|k: int| 0 <= k < s.len() implies #[trigger] depth(s[k]) < merge_depth(s) by {
        crate::tree::iter::lemma_forest_depth_max_pub(s, k);
    }
}

proof fn lemma_keys_distinct_members(s: Seq<NodeModel>, key: Seq<char>)
    requires
        keys_of(s).contains(key),
    ensures
        members(s, key).len() > 0,
    decreases s.len(),
{
    if s.len() > 0 {
        let k = keys_of(s.drop_last());
        if k.contains(key) {
            lemma_keys_distinct_members(s.drop_last(), key);
        } else {
            assert(san_key(s.last()) == key) by {
                if !k.contains(san_key(s.last())) {
                    assert(keys_of(s) == k.push(san_key(s.last())));
                    let i = choose|i: int| 0 <= i < keys_of(s).len() && keys_of(s)[i] == key;
                    if i < k.len() {
                        assert(k[i] == key);
                    }
                }
            }
        }
    }
}

// ---------------------------------------------------------------------------
// Merging
// ---------------------------------------------------------------------------

proof fn lemma_nodes_push(v: Seq<&GameNode>, n: &GameNode)
    ensures
        nodes_model(v.push(n)) == nodes_model(v).push(n@),
{
    assert(nodes_model(v.push(n)) =~= nodes_model(v).push(n@));
}

/// The distinct keys of the moves, in first-seen order, and each move's key.
fn group_keys(sources: &Vec<&GameNode>) -> (r: (Vec<Vec<char>>, Vec<Vec<char>>))
    ensures
        r.0@.map_values(|k: Vec<char>| k@) == keys_of(nodes_model(sources@)),
        r.1@.len() == sources@.len(),
        forall|i: int| 0 <= i < sources@.len() ==> #[trigger] r.1@[i]@ == san_key(sources@[i]@),
{
    let ghost s = nodes_model(sources@);
    let mut keys: Vec<Vec<char>> = Vec::new();
    let mut skeys: Vec<Vec<char>> = Vec::new();
    let mut i: usize = 0;
    while i < sources.len()
        invariant
            i <= sources@.len(),
            s == nodes_model(sources@),
            keys@.map_values(|k: Vec<char>| k@) == keys_of(s.take(i as int)),
            skeys@.len() == i,
            forall|j: int| 0 <= j < i ==> #[trigger] skeys@[j]@ == san_key(sources@[j]@),
        decreases sources@.len() - i,
    {
        let k = normalize_chars(&str_chars(sources[i].san.as_str()));
        let ghost km = keys@.map_values(|k: Vec<char>| k@);
        let mut j: usize = 0;
        let mut found = false;
        while j < keys.len()
            invariant
                j <= keys@.len(),
                km == keys@.map_values(|k: Vec<char>| k@),
                found == exists|x: int| 0 <= x < j && km[x] == k@,
            decreases keys@.len() - j,
        {
            assert(km[j as int] == keys@[j as int]@);
            if chars_eq(&keys[j], &k) {
                found = true;
            }
            j = j + 1;
        }
        assert(found == km.contains(k@));
        assert(s.take(i + 1).drop_last() =~= s.take(i as int));
        assert(s.take(i + 1).last() == sources@[i as int]@);
        if !found {
            let kc = k.clone();
            keys.push(kc);
            assert(keys@.map_values(|k: Vec<char>| k@) =~= km.push(k@));
        }
        skeys.push(k);
        i = i + 1;
    }
    assert(s.take(i as int) =~= s);
    (keys, skeys)
}

/// The moves with a given key, in order.
fn collect_members<'a>(sources: &Vec<&'a GameNode>, skeys: &Vec<Vec<char>>, key: &Vec<char>) -> (g: Vec<&'a GameNode>)
    requires
        skeys@.len() == sources@.len(),
        forall|i: int| 0 <= i < sources@.len() ==> #[trigger] skeys@[i]@ == san_key(sources@[i]@),
    ensures
        nodes_model(g@) == members(nodes_model(sources@), key@),
{
    let ghost s = nodes_model(sources@);
    let mut g: Vec<&'a GameNode> = Vec::new();
    let mut i: usize = 0;
    while i < sources.len()
        invariant
            i <= sources@.len(),
            s == nodes_model(sources@),
            skeys@.len() == sources@.len(),
            forall|i: int| 0 <= i < sources@.len() ==> #[trigger] skeys@[i]@ == san_key(sources@[i]@),
            nodes_model(g@) == members(s.take(i as int), key@),
        decreases sources@.len() - i,
    {
        assert(s.take(i + 1).drop_last() =~= s.take(i as int));
        assert(s.take(i + 1).last() == sources@[i as int]@);
        let ghost before = nodes_model(g@);
        if chars_eq(&skeys[i], key) {
            proof {
                lemma_nodes_push(g@, sources@[i as int]);
            }
            g.push(sources[i]);
            assert(nodes_model(g@) =~= before + seq![sources@[i as int]@]);
        } else {
            assert(before + Seq::<NodeModel>::empty() =~= before);
        }
        i = i + 1;
    }
    assert(s.take(i as int) =~= s);
    g
}

/// The merged comment of a group.
fn merged_comment(group: &Vec<&GameNode>, concat: bool) -> (c: String)
    ensures
        c@ == if concat { join_words(nonempty_comments(nodes_model(group@))) } else { first_comment(
            nodes_model(group@),
        ) },
{
    let ghost g = nodes_model(group@);
    if concat {
        let mut out = String::new();
        let mut i: usize = 0;
        while i < group.len()
            invariant
                i <= group@.len(),
                g == nodes_model(group@),
                out@ == join_words(nonempty_comments(g.take(i as int))),
                nonempty_comments(g.take(i as int)).len() > 0 <==> out@.len() > 0,
                forall|j: int| 0 <= j < nonempty_comments(g.take(i as int)).len() ==> #[trigger] nonempty_comments(g.take(i as int))[j].len() > 0,
            decreases group@.len() - i,
        {
            assert(g.take(i + 1).drop_last() =~= g.take(i as int));
            assert(g.take(i + 1).last() == group@[i as int]@);
            let ghost prev = nonempty_comments(g.take(i as int));
            if !group[i].comment.as_str().is_empty() {
                let ghost w = group@[i as int]@.comment;
                let ghost now = prev.push(w);
                assert(nonempty_comments(g.take(i + 1)) =~= now);
                assert(now.drop_last() =~= prev);
                if out.as_str().is_empty() {
                    assert(prev.len() == 0);
                    push_str(&mut out, group[i].comment.as_str());
                    assert(join_words(now) == now[0]);
                } else {
                    push_char(&mut out, ' ');
                    push_str(&mut out, group[i].comment.as_str());
                    assert(join_words(now) == join_words(prev) + seq![' '] + w);
                }
                assert(out@ =~= join_words(now));
            } else {
                assert(nonempty_comments(g.take(i + 1)) =~= prev);
            }
            i = i + 1;
        }
        assert(g.take(i as int) =~= g);
        out
    } else {
        let mut i: usize = 0;
        assert(g.skip(0) =~= g);
        while i < group.len()
            invariant
                i <= group@.len(),
                g == nodes_model(group@),
                !concat,
                first_comment(g) == first_comment(g.skip(i as int)),
            decreases group@.len() - i,
        {
            assert(g.skip(i as int)[0] == group@[i as int]@);
            if !group[i].comment.as_str().is_empty() {
                assert(first_comment(g.skip(i as int)) == group@[i as int]@.comment);
                let c = group[i].comment.clone();
                assert(c@ == group@[i as int]@.comment);
                return c;
            }
            assert(g.skip(i as int).drop_first() =~= g.skip(i + 1));
            i = i + 1;
        }
        assert(g.skip(i as int) =~= Seq::<NodeModel>::empty());
        String::new()
    }
}

/// The first NAG list of a group that is not empty.
fn merged_nags(group: &Vec<&GameNode>) -> (r: Vec<Nag>)
    ensures
        r@ == first_nags(nodes_model(group@)),
{
    let ghost g = nodes_model(group@);
    let mut i: usize = 0;
    assert(g.skip(0) =~= g);
    while i < group.len()
        invariant
            i <= group@.len(),
            g == nodes_model(group@),
            first_nags(g) == first_nags(g.skip(i as int)),
        decreases group@.len() - i,
    {
        assert(g.skip(i as int)[0] == group@[i as int]@);
        if group[i].nags.len() > 0 {
            let mut out: Vec<Nag> = Vec::new();
            let mut k: usize = 0;
            while k < group[i].nags.len()
                invariant
                    i < group@.len(),
                    k <= group@[i as int].nags@.len(),
                    out@ == group@[i as int].nags@.take(k as int),
                decreases group@[i as int].nags@.len() - k,
            {
                out.push(group[i].nags[k]);
                assert(out@ =~= group@[i as int].nags@.take(k + 1));
                k = k + 1;
            }
            assert(out@ =~= group@[i as int].nags@);
            return out;
        }
        assert(g.skip(i as int).drop_first() =~= g.skip(i + 1));
        i = i + 1;
    }
    assert(g.skip(i as int) =~= Seq::<NodeModel>::empty());
    Vec::new()
}

/// The children of all nodes of a group, in order.
fn collect_pool<'a>(group: &Vec<&'a GameNode>) -> (p: Vec<&'a GameNode>)
    ensures
        nodes_model(p@) == child_pool(nodes_model(group@)),
{
    let ghost g = nodes_model(group@);
    let mut p: Vec<&'a GameNode> = Vec::new();
    let mut i: usize = 0;
    while i < group.len()
        invariant
            i <= group@.len(),
            g == nodes_model(group@),
            nodes_model(p@) == child_pool(g.take(i as int)),
        decreases group@.len() - i,
    {
        assert(g.take(i + 1).drop_last() =~= g.take(i as int));
        assert(g.take(i + 1).last() == group@[i as int]@);
        let node = group[i];
        let ghost base = nodes_model(p@);
        let mut k: usize = 0;
        while k < node.children.len()
            invariant
                k <= node.children@.len(),
                nodes_model(p@) == base + node@.children.take(k as int),
            decreases node.children@.len() - k,
        {
            proof {
                lemma_nodes_push(p@, &node.children@[k as int]);
            }
            p.push(&node.children[k]);
            assert(node@.children.take(k + 1) =~= node@.children.take(k as int).push(node@.children[k as int]));
            assert(base + node@.children.take(k + 1) =~= (base + node@.children.take(k as int)).push(
                node@.children[k as int],
            ));
            k = k + 1;
        }
        assert(node@.children.take(k as int) =~= node@.children);
        i = i + 1;
    }
    assert(g.take(i as int) =~= g);
    p
}

/// Appends to `target` the merged nodes of the moves `sources`.
fn merge_into(target: &mut GameNode, sources: &Vec<&GameNode>, concat: bool, Ghost(fuel): Ghost<nat>)
    requires
        all_below(nodes_model(sources@), fuel),
    ensures
        final(target)@.children == old(target)@.children + merge_forest(nodes_model(sources@), concat, fuel),
        final(target)@.san == old(target)@.san,
        final(target)@.move_number == old(target)@.move_number,
        final(target)@.is_black == old(target)@.is_black,
        final(target)@.comment == old(target)@.comment,
        final(target)@.nags == old(target)@.nags,
    decreases fuel,
{
    let ghost s = nodes_model(sources@);
    let (keys, skeys) = group_keys(sources);
    let ghost ks = keys@.map_values(|k: Vec<char>| k@);
    let ghost base = target@.children;
    if keys.len() == 0 {
        proof {
            if fuel > 0 {
                assert(merge_groups(s, ks, concat, fuel) =~= Seq::<NodeModel>::empty());
            }
        }
        assert(base + merge_forest(s, concat, fuel) =~= base);
        return;
    }
    assert(ks.len() > 0);
    proof {
        lemma_keys_distinct_members(s, ks[0]);
        lemma_members_below(s, ks[0], fuel);
        assert(ks.contains(ks[0]));
    }
    assert(s.len() > 0);
    assert(depth(s[0]) < fuel);
    let mut j: usize = 0;
    assert(merge_groups(s, ks.take(0), concat, fuel) =~= Seq::<NodeModel>::empty());
    while j < keys.len()
        invariant
            j <= keys@.len(),
            fuel > 0,
            s == nodes_model(sources@),
            ks == keys@.map_values(|k: Vec<char>| k@),
            ks == keys_of(s),
            all_below(s, fuel),
            skeys@.len() == sources@.len(),
            forall|i: int| 0 <= i < sources@.len() ==> #[trigger] skeys@[i]@ == san_key(sources@[i]@),
            target@.children == base + merge_groups(s, ks.take(j as int), concat, fuel),
            target@.san == old(target)@.san,
            target@.move_number == old(target)@.move_number,
            target@.is_black == old(target)@.is_black,
            target@.comment == old(target)@.comment,
            target@.nags == old(target)@.nags,
        decreases keys@.len() - j,
    {
        let group = collect_members(sources, &skeys, &keys[j]);
        let ghost g = nodes_model(group@);
        proof {
            assert(ks.contains(ks[j as int]));
            lemma_keys_distinct_members(s, ks[j as int]);
            lemma_members_below(s, ks[j as int], fuel);
            lemma_pool_below(g, fuel);
        }
        let first = group[0];
        let mut merged = GameNode::new(first.san.as_str());
        merged.move_number = first.move_number;
        merged.is_black = first.is_black;
        merged.comment = merged_comment(&group, concat);
        merged.nags = merged_nags(&group);
        let pool = collect_pool(&group);
        let ghost before_push = target@.children;
        target.children.push(merged);
        let idx = target.children.len() - 1;
        let ghost fields_ok = target@.children[idx as int];
        merge_into(&mut target.children[idx], &pool, concat, Ghost((fuel - 1) as nat));
        proof {
            let want = merge_group(g, concat, (fuel - 1) as nat);
            assert(target@.children[idx as int].children =~= want.children);
            assert(target@.children[idx as int] == want);
            assert(ks.take(j + 1).drop_last() =~= ks.take(j as int));
            assert(ks.take(j + 1).last() == ks[j as int]);
            assert(target@.children =~= base + merge_groups(s, ks.take(j + 1), concat, fuel));
        }
        j = j + 1;
    }
    assert(ks.take(j as int) =~= ks);
}

/// Merge several game trees into one: headers from the first tree, result
/// ongoing, and the moves of all trees merged level by level, moves with
/// the same normalized SAN becoming one node; the first-seen move of each
/// group comes first, so the first game's line is the main line.
pub fn merge_trees(trees: &[GameTree], options: &MergeOptions) -> (r: GameTree)
    ensures
        r.root@ == (NodeModel {
            children: merge_forest(
                first_moves(trees@),
                options.concat_comments,
                merge_depth(first_moves(trees@)),
            ),
            ..empty_node()
        }),
        r.headers@ == if trees@.len() > 0 { trees@[0].headers@ } else { Seq::empty() },
        r.result == GameResult::Ongoing,
{
    let mut result = GameTree::new();
    if trees.len() > 0 {
        result.headers = trees[0].headers.copy();
    }
    result.result = GameResult::Ongoing;
    let ghost pool_spec = first_moves(trees@);
    let mut pool: Vec<&GameNode> = Vec::new();
    let mut t: usize = 0;
    while t < trees.len()
        invariant
            t <= trees@.len(),
            pool_spec == first_moves(trees@),
            nodes_model(pool@) == first_moves(trees@.take(t as int)),
        decreases trees@.len() - t,
    {
        assert(trees@.take(t + 1).drop_last() =~= trees@.take(t as int));
        assert(trees@.take(t + 1).last() == trees@[t as int]);
        let root = &trees[t].root;
        let ghost base = nodes_model(pool@);
        let mut k: usize = 0;
        while k < root.children.len()
            invariant
                k <= root.children@.len(),
                nodes_model(pool@) == base + root@.children.take(k as int),
            decreases root.children@.len() - k,
        {
            proof {
                lemma_nodes_push(pool@, &root.children@[k as int]);
            }
            pool.push(&root.children[k]);
            assert(root@.children.take(k + 1) =~= root@.children.take(k as int).push(root@.children[k as int]));
            assert(base + root@.children.take(k + 1) =~= (base + root@.children.take(k as int)).push(
                root@.children[k as int],
            ));
            k = k + 1;
        }
        assert(root@.children.take(k as int) =~= root@.children);
        t = t + 1;
    }
    assert(trees@.take(t as int) =~= trees@);
    proof {
        lemma_first_moves_below(trees@);
    }
    merge_into(&mut result.root, &pool, options.concat_comments, Ghost(merge_depth(pool_spec)));
    assert(result.root@.children =~= merge_forest(pool_spec, options.concat_comments, merge_depth(pool_spec)));
    result
}

proof fn lemma_members_key(s: Seq<NodeModel>, key: Seq<char>)
    ensures
        forall|i: int| 0 <= i < members(s, key).len() ==> #[trigger] san_key(members(s, key)[i]) == key,
    decreases s.len(),
{
    if s.len() > 0 {
        lemma_members_key(s.drop_last(), key);
        let a = members(s.drop_last(), key);
        assert forall|i: int| 0 <= i < members(s, key).len() implies #[trigger] san_key(members(s, key)[i]) == key by {
            if i < a.len() {
                assert(members(s, key)[i] == a[i]);
            }
        }
    }
}

proof fn lemma_keys_distinct(s: Seq<NodeModel>)
    ensures
        forall|i: int, j: int| 0 <= i < j < keys_of(s).len() ==> #[trigger] keys_of(s)[i] != #[trigger] keys_of(s)[j],
    decreases s.len(),
{
    if s.len() > 0 {
        lemma_keys_distinct(s.drop_last());
        let k = keys_of(s.drop_last());
        let x = san_key(s.last());
        if !k.contains(x) {
            assert(keys_of(s) == k.push(x));
            assert forall|i: int, j: int| 0 <= i < j < keys_of(s).len() implies #[trigger] keys_of(s)[i]
                != #[trigger] keys_of(s)[j] by {
                assert(keys_of(s)[i] == k[i]);
                if j == k.len() {
                    if k[i] == x {
                        assert(k.contains(x));
                    }
                } else {
                    assert(keys_of(s)[j] == k[j]);
                }
            }
        }
    }
}

proof fn lemma_merge_groups_keys(s: Seq<NodeModel>, ks: Seq<Seq<char>>, concat: bool, fuel: nat)
    requires
        fuel > 0,
        forall|i: int| 0 <= i < ks.len() ==> #[trigger] keys_of(s).contains(ks[i]),
    ensures
        merge_groups(s, ks, concat, fuel).len() == ks.len(),
        forall|i: int| 0 <= i < ks.len() ==> #[trigger] san_key(merge_groups(s, ks, concat, fuel)[i]) == ks[i],
    decreases ks.len(),
{
    if ks.len() > 0 {
        lemma_merge_groups_keys(s, ks.drop_last(), concat, fuel);
        let k = ks.last();
        assert(keys_of(s).contains(ks[ks.len() - 1]));
        lemma_keys_distinct_members(s, k);
        lemma_members_key(s, k);
        assert(san_key(members(s, k)[0]) == k);
        let m = merge_groups(s, ks, concat, fuel);
        let g = members(s, k);
        assert(m == merge_groups(s, ks.drop_last(), concat, fuel).push(merge_group(g, concat, (fuel - 1) as nat)));
        assert(san_key(m[ks.len() - 1]) == san_key(g[0]));
        assert forall|i: int| 0 <= i < ks.len() implies #[trigger] san_key(m[i]) == ks[i] by {
            if i < ks.len() - 1 {
                assert(m[i] == merge_groups(s, ks.drop_last(), concat, fuel)[i]);
                assert(ks.drop_last()[i] == ks[i]);
            }
        }
    }
}

/// Merging gives one node per distinct move, in the order the moves are
/// first seen (so the first game's move is the main line), and no two
/// merged siblings stand for the same move.
pub proof fn law_merge_first_seen_order(s: Seq<NodeModel>, concat: bool, fuel: nat)
    requires
        fuel > 0,
    ensures
        merge_forest(s, concat, fuel).len() == keys_of(s).len(),
        forall|i: int| 0 <= i < keys_of(s).len() ==> #[trigger] san_key(merge_forest(s, concat, fuel)[i]) == keys_of(s)[i],
        forall|i: int, j: int| 0 <= i < j < merge_forest(s, concat, fuel).len() ==> san_key(
            #[trigger] merge_forest(s, concat, fuel)[i],
        ) != san_key(#[trigger] merge_forest(s, concat, fuel)[j]),
        s.len() > 0 ==> san_key(merge_forest(s, concat, fuel)[0]) == san_key(s[0]),
{
    let ks = keys_of(s);
    assert forall|i: int| 0 <= i < ks.len() implies #[trigger] keys_of(s).contains(ks[i]) by {
    }
    lemma_merge_groups_keys(s, ks, concat, fuel);
    lemma_keys_distinct(s);
    if s.len() > 0 {
        lemma_first_key(s);
    }
}

/// The first key seen is the key of the first move.
proof fn lemma_first_key(s: Seq<NodeModel>)
    requires
        s.len() > 0,
    ensures
        keys_of(s).len() > 0,
        keys_of(s)[0] == san_key(s[0]),
    decreases s.len(),
{
    let k = keys_of(s.drop_last());
    let x = san_key(s.last());
    if s.len() > 1 {
        lemma_first_key(s.drop_last());
        assert(s.drop_last()[0] == s[0]);
        if k.contains(x) {
            assert(keys_of(s) == k);
        } else {
            assert(keys_of(s) == k.push(x));
            assert(k.push(x)[0] == k[0]);
        }
    } else {
        assert(s.drop_last() =~= Seq::<NodeModel>::empty());
        assert(k =~= Seq::<Seq<char>>::empty());
        assert(!k.contains(x));
        assert(keys_of(s) == k.push(x));
        assert(s.last() == s[0]);
    }
}

/// The number of inputs that are standard input.
pub open spec fn stdin_count(inputs: Seq<InputSource>) -> nat
    decreases inputs.len(),
{
    if inputs.len() == 0 {
        0
    } else {
        stdin_count(inputs.drop_last()) + if inputs.last() is Stdin { 1nat } else { 0nat }
    }
}

/// The inputs of `pgnq merge` name standard input at most once.
pub fn check_inputs(inputs: &Vec<InputSource>) -> (r: Result<(), Error>)
    ensures
        stdin_count(inputs@) <= 1 ==> r is Ok,
        stdin_count(inputs@) > 1 ==> (r matches Err(Error::Other(m)) && m@ == "stdin ('-') can only be specified once"@),
{
    let mut n: usize = 0;
    let mut i: usize = 0;
    while i < inputs.len()
        invariant
            i <= inputs@.len(),
            n <= 2,
            n == (if stdin_count(inputs@.take(i as int)) > 2 { 2 } else { stdin_count(inputs@.take(i as int)) }),
        decreases inputs@.len() - i,
    {
        assert(inputs@.take(i + 1).drop_last() =~= inputs@.take(i as int));
        assert(inputs@.take(i + 1).last() == inputs@[i as int]);
        if let InputSource::Stdin = inputs[i] {
            if n < 2 {
                n = n + 1;
            }
        }
        i = i + 1;
    }
    assert(inputs@.take(i as int) =~= inputs@);
    if n > 1 {
        Err(Error::Other("stdin ('-') can only be specified once".to_owned()))
    } else {
        Ok(())
    }
}

/// The merged game of all the games read, or the error that there is none.
pub fn merge_games(trees: &[GameTree], options: &MergeOptions) -> (r: Result<GameTree, Error>)
    ensures
        trees@.len() == 0 ==> (r matches Err(Error::Other(m)) && m@ == "no games found in input files"@),
        trees@.len() > 0 ==> (r matches Ok(g) && g.root@ == (NodeModel {
            children: merge_forest(
                first_moves(trees@),
                options.concat_comments,
                merge_depth(first_moves(trees@)),
            ),
            ..empty_node()
        }) && g.headers@ == trees@[0].headers@ && g.result == GameResult::Ongoing),
{
    if trees.len() == 0 {
        return Err(Error::Other("no games found in input files".to_owned()));
    }
    Ok(merge_trees(trees, options))
}

/// The output options of a merged game.
pub fn merge_output_options(args: &MergeArgs) -> (o: OutputOptions)
    ensures
        o.format == format_spec(args.format),
        o.headers && o.variations && o.result,
        o.comments == !args.no_comments,
        o.nags == !args.no_nags,
        o.line_width == args.line_width,
        !o.strip_clocks && !o.strip_evals && !o.ascii && !o.show_comments && !o.show_nags,
        o.indent == 2 && o.max_depth == 0,
{
    let mut o = OutputOptions::default();
    o.format = OutputFormat::from(args.format);
    o.comments = !args.no_comments;
    o.nags = !args.no_nags;
    o.line_width = args.line_width;
    o
}

// ---------------------------------------------------------------------------
// Merging, over whole lines of moves
// ---------------------------------------------------------------------------

/// Whether the moves `p`, compared as normalized moves, lead down from the
/// forest `s`: a node of `s` for the first, one of its children for the
/// next, and so on.
pub open spec fn has_line(s: Seq<NodeModel>, p: Seq<Seq<char>>) -> bool
    decreases p.len(),
{
    p.len() > 0 && exists|i: int|
        0 <= i < s.len() && san_key(#[trigger] s[i]) == normalize_spec(p[0]) && (p.len() == 1 || has_line(
            s[i].children,
            p.drop_first(),
        ))
}

/// The nodes of the forest `s` that the moves `p` lead to, in order:
/// those of the first forest first, and among the children of several
/// nodes, those of the earlier node first.
pub open spec fn nodes_at(s: Seq<NodeModel>, p: Seq<Seq<char>>) -> Seq<NodeModel>
    decreases p.len(),
{
    if p.len() == 0 {
        Seq::empty()
    } else if p.len() == 1 {
        members(s, normalize_spec(p[0]))
    } else {
        nodes_at(child_pool(members(s, normalize_spec(p[0]))), p.drop_first())
    }
}

proof fn lemma_first_with_key(s: Seq<NodeModel>, k: Seq<char>)
    ensures
        match first_with_san(s, k) {
            Some(i) => i < s.len() && san_key(s[i as int]) == k && forall|j: int|
                0 <= j < i ==> san_key(#[trigger] s[j]) != k,
            None => forall|j: int| 0 <= j < s.len() ==> san_key(#[trigger] s[j]) != k,
        },
    decreases s.len(),
{
    if s.len() > 0 {
        lemma_first_with_key(s.drop_first(), k);
        assert forall|j: int| 0 < j < s.len() implies #[trigger] s[j] == s.drop_first()[j - 1] by {
        }
    }
}

proof fn lemma_line_add(a: Seq<NodeModel>, b: Seq<NodeModel>, q: Seq<Seq<char>>)
    ensures
        has_line(a + b, q) <==> (has_line(a, q) || has_line(b, q)),
{
    let ab = a + b;
    if q.len() > 0 {
        let x = normalize_spec(q[0]);
        if has_line(ab, q) {
            let i = choose|i: int|
                0 <= i < ab.len() && san_key(#[trigger] ab[i]) == x && (q.len() == 1 || has_line(
                    ab[i].children,
                    q.drop_first(),
                ));
            if i < a.len() {
                assert(ab[i] == a[i]);
            } else {
                assert(ab[i] == b[i - a.len()]);
            }
        }
        if has_line(a, q) {
            let i = choose|i: int|
                0 <= i < a.len() && san_key(#[trigger] a[i]) == x && (q.len() == 1 || has_line(
                    a[i].children,
                    q.drop_first(),
                ));
            assert(ab[i] == a[i]);
        }
        if has_line(b, q) {
            let i = choose|i: int|
                0 <= i < b.len() && san_key(#[trigger] b[i]) == x && (q.len() == 1 || has_line(
                    b[i].children,
                    q.drop_first(),
                ));
            assert(ab[i + a.len()] == b[i]);
        }
    }
}

/// Some node of `s` with key `k` has the line `q` below it exactly where
/// the children of the nodes of `s` with key `k` have it.
proof fn lemma_members_line(s: Seq<NodeModel>, k: Seq<char>, q: Seq<Seq<char>>)
    ensures
        (exists|j: int| 0 <= j < s.len() && san_key(#[trigger] s[j]) == k && has_line(s[j].children, q))
            <==> has_line(child_pool(members(s, k)), q),
    decreases s.len(),
{
    if s.len() == 0 {
        assert(members(s, k) =~= Seq::<NodeModel>::empty());
        assert(child_pool(members(s, k)) =~= Seq::<NodeModel>::empty());
    } else {
        let init = s.drop_last();
        let x = s.last();
        lemma_members_line(init, k, q);
        let mi = members(init, k);
        if san_key(x) == k {
            assert(members(s, k) == mi + seq![x]);
            assert((mi + seq![x]).drop_last() =~= mi);
            assert(child_pool(members(s, k)) == child_pool(mi) + x.children);
            lemma_line_add(child_pool(mi), x.children, q);
        } else {
            assert(members(s, k) =~= mi);
        }
        if exists|j: int| 0 <= j < s.len() && san_key(#[trigger] s[j]) == k && has_line(s[j].children, q) {
            let j = choose|j: int| 0 <= j < s.len() && san_key(#[trigger] s[j]) == k && has_line(s[j].children, q);
            if j < init.len() {
                assert(init[j] == s[j]);
            }
        }
        if exists|j: int| 0 <= j < init.len() && san_key(#[trigger] init[j]) == k && has_line(init[j].children, q) {
            let j = choose|j: int| 0 <= j < init.len() && san_key(#[trigger] init[j]) == k && has_line(init[j].children, q);
            assert(init[j] == s[j]);
        }
        if san_key(x) == k && has_line(x.children, q) {
            assert(s[s.len() - 1] == x);
        }
    }
}

/// Every key of a node of `s` is among the keys of `s`, and each key of `s`
/// is that of some node of `s`.
proof fn lemma_keys_of_nodes(s: Seq<NodeModel>)
    ensures
        forall|j: int| 0 <= j < s.len() ==> keys_of(s).contains(san_key(#[trigger] s[j])),
        forall|i: int| #![trigger keys_of(s)[i]] 0 <= i < keys_of(s).len() ==> exists|j: int| 0 <= j < s.len() && san_key(#[trigger] s[j]) == keys_of(s)[i],
    decreases s.len(),
{
    if s.len() > 0 {
        let init = s.drop_last();
        lemma_keys_of_nodes(init);
        let k = keys_of(init);
        let x = san_key(s.last());
        assert forall|j: int| 0 <= j < s.len() implies keys_of(s).contains(san_key(#[trigger] s[j])) by {
            if j < init.len() {
                assert(init[j] == s[j]);
                let t = choose|t: int| 0 <= t < k.len() && k[t] == san_key(init[j]);
                if !k.contains(x) {
                    assert(keys_of(s)[t] == k[t]);
                }
            } else if k.contains(x) {
            } else {
                assert(keys_of(s)[k.len() as int] == x);
            }
        }
        assert forall|i: int| #![trigger keys_of(s)[i]] 0 <= i < keys_of(s).len() implies exists|j: int| 0 <= j < s.len() && san_key(#[trigger] s[j]) == keys_of(s)[i] by {
            if i < k.len() {
                assert(keys_of(s)[i] == k[i]);
                let j = choose|j: int| 0 <= j < init.len() && san_key(#[trigger] init[j]) == k[i];
                assert(init[j] == s[j]);
            } else {
                assert(keys_of(s)[i] == x);
                assert(s[s.len() - 1] == s.last());
            }
        }
    }
}

proof fn lemma_groups_index(s: Seq<NodeModel>, ks: Seq<Seq<char>>, concat: bool, fuel: nat)
    requires
        fuel > 0,
    ensures
        merge_groups(s, ks, concat, fuel).len() == ks.len(),
        forall|i: int| 0 <= i < ks.len() ==> #[trigger] merge_groups(s, ks, concat, fuel)[i] == merge_group(
            members(s, ks[i]),
            concat,
            (fuel - 1) as nat,
        ),
    decreases ks.len(),
{
    if ks.len() > 0 {
        lemma_groups_index(s, ks.drop_last(), concat, fuel);
        assert forall|i: int| 0 <= i < ks.len() implies #[trigger] merge_groups(s, ks, concat, fuel)[i] == merge_group(
            members(s, ks[i]),
            concat,
            (fuel - 1) as nat,
        ) by {
            if i < ks.len() - 1 {
                assert(ks.drop_last()[i] == ks[i]);
            }
        }
    }
}

/// Below a node whose children are the merge of the forest `s`, the moves
/// `p` lead to a node exactly where they lead down from `s`, and there to
/// the merge of the nodes of `s` that they lead to.
proof fn lemma_merged_line(m: NodeModel, s: Seq<NodeModel>, p: Seq<Seq<char>>, c: bool, fuel: nat)
    requires
        m.children == merge_forest(s, c, fuel),
        all_below(s, fuel),
        p.len() > 0,
    ensures
        (path_lookup(m, p) is Some) <==> has_line(s, p),
        has_line(s, p) ==> p.len() <= fuel && nodes_at(s, p).len() > 0 && path_lookup(m, p) == Some(
            merge_group(nodes_at(s, p), c, (fuel - p.len()) as nat),
        ),
    decreases p.len(),
{
    let k = normalize_spec(p[0]);
    let mf = m.children;
    let rest = p.drop_first();
    lemma_keys_of_nodes(s);
    lemma_first_with_key(mf, k);
    assert(child_index(m, p[0]) == first_with_san(mf, k));
    if fuel == 0 {
        if s.len() > 0 {
            assert(depth(s[0]) < 0);
        }
        assert(mf.len() == 0);
    } else {
        let ks = keys_of(s);
        lemma_groups_index(s, ks, c, fuel);
        law_merge_first_seen_order(s, c, fuel);
        if ks.contains(k) {
            let i = choose|i: int| 0 <= i < ks.len() && ks[i] == k;
            assert(san_key(mf[i]) == k);
            let i0 = first_with_san(mf, k)->0 as int;
            assert(i0 == i) by {
                if i0 != i {
                    if i0 < i {
                        assert(san_key(mf[i0]) != san_key(mf[i]));
                    } else {
                        assert(san_key(mf[i]) != k);
                    }
                }
            }
            let g = members(s, k);
            assert(mf[i] == merge_group(g, c, (fuel - 1) as nat));
            lemma_keys_distinct_members(s, k);
            assert(path_lookup(m, p) == path_lookup(mf[i], rest));
            let j = choose|j: int| 0 <= j < s.len() && san_key(#[trigger] s[j]) == ks[i];
            if p.len() == 1 {
                assert(rest.len() == 0);
                assert(has_line(s, p)) by {
                    assert(0 <= j < s.len() && san_key(s[j]) == normalize_spec(p[0]));
                }
                assert(nodes_at(s, p) == g);
            } else {
                let pool = child_pool(g);
                lemma_members_below(s, k, fuel);
                lemma_pool_below(g, fuel);
                lemma_merged_line(mf[i], pool, rest, c, (fuel - 1) as nat);
                lemma_members_line(s, k, rest);
                assert(nodes_at(s, p) == nodes_at(pool, rest));
                if has_line(s, p) {
                    let j2 = choose|j2: int|
                        0 <= j2 < s.len() && san_key(#[trigger] s[j2]) == normalize_spec(p[0]) && (p.len() == 1
                            || has_line(s[j2].children, p.drop_first()));
                    assert(has_line(pool, rest));
                }
                if has_line(pool, rest) {
                    let j3 = choose|j3: int| 0 <= j3 < s.len() && san_key(#[trigger] s[j3]) == k && has_line(s[j3].children, rest);
                    assert(has_line(s, p)) by {
                        assert(0 <= j3 < s.len() && san_key(s[j3]) == normalize_spec(p[0]) && has_line(s[j3].children, p.drop_first()));
                    }
                }
            }
        } else {
            assert forall|j: int| 0 <= j < mf.len() implies san_key(#[trigger] mf[j]) != k by {
                assert(san_key(mf[j]) == ks[j]);
            }
            if has_line(s, p) {
                let j = choose|j: int|
                    0 <= j < s.len() && san_key(#[trigger] s[j]) == normalize_spec(p[0]) && (p.len() == 1
                        || has_line(s[j].children, p.drop_first()));
                assert(ks.contains(san_key(s[j])));
            }
        }
    }
}

proof fn lemma_first_moves_line(trees: Seq<GameTree>, p: Seq<Seq<char>>)
    ensures
        has_line(first_moves(trees), p) <==> exists|t: int| 0 <= t < trees.len() && has_line(#[trigger] trees[t].root@.children, p),
    decreases trees.len(),
{
    if trees.len() > 0 {
        let init = trees.drop_last();
        lemma_first_moves_line(init, p);
        lemma_line_add(first_moves(init), trees.last().root@.children, p);
        if exists|t: int| 0 <= t < init.len() && has_line(#[trigger] init[t].root@.children, p) {
            let t = choose|t: int| 0 <= t < init.len() && has_line(#[trigger] init[t].root@.children, p);
            assert(init[t] == trees[t]);
        }
        if exists|t: int| 0 <= t < trees.len() && has_line(#[trigger] trees[t].root@.children, p) {
            let t = choose|t: int| 0 <= t < trees.len() && has_line(#[trigger] trees[t].root@.children, p);
            if t < init.len() {
                assert(init[t] == trees[t]);
            }
        }
    } else {
        assert(first_moves(trees) =~= Seq::<NodeModel>::empty());
    }
}

/// The lines of moves of a merge are those of the games merged: following
/// moves `p` (compared as normalized moves) from the root of the merge
/// (what `merge_trees` returns) leads to a node exactly where `p` is a line
/// of moves of one of the games.
pub proof fn law_merge_lines(trees: Seq<GameTree>, concat: bool, m: GameTree, p: Seq<Seq<char>>)
    requires
        m.root@ == (NodeModel {
            children: merge_forest(first_moves(trees), concat, merge_depth(first_moves(trees))),
            ..empty_node()
        }),
        p.len() > 0,
    ensures
        (path_lookup(m.root@, p) is Some) <==> exists|t: int|
            0 <= t < trees.len() && has_line(#[trigger] trees[t].root@.children, p),
{
    lemma_first_moves_below(trees);
    lemma_merged_line(m.root@, first_moves(trees), p, concat, merge_depth(first_moves(trees)));
    lemma_first_moves_line(trees, p);
}

/// The node of a merge that moves `p` lead to stands for the nodes of the
/// games merged that `p` leads to (`nodes_at`, earlier games first): it has
/// the move, number and side of the first of them, the first NAGs that are
/// not empty, and the first comment that is not empty, or, where comments
/// are joined, all comments that are not empty joined by spaces.
pub proof fn law_merged_node(trees: Seq<GameTree>, concat: bool, m: GameTree, p: Seq<Seq<char>>)
    requires
        m.root@ == (NodeModel {
            children: merge_forest(first_moves(trees), concat, merge_depth(first_moves(trees))),
            ..empty_node()
        }),
        p.len() > 0,
        exists|t: int| 0 <= t < trees.len() && has_line(#[trigger] trees[t].root@.children, p),
    ensures
        nodes_at(first_moves(trees), p).len() > 0,
        path_lookup(m.root@, p) matches Some(n) && {
            let g = nodes_at(first_moves(trees), p);
            &&& n.san == g[0].san
            &&& n.move_number == g[0].move_number
            &&& n.is_black == g[0].is_black
            &&& n.nags == first_nags(g)
            &&& n.comment == if concat { join_words(nonempty_comments(g)) } else { first_comment(g) }
        },
{
    lemma_first_moves_below(trees);
    lemma_merged_line(m.root@, first_moves(trees), p, concat, merge_depth(first_moves(trees)));
    lemma_first_moves_line(trees, p);
}

/// The nodes of a forest that a line of moves leads to are shallower than
/// the levels left below that line.
proof fn lemma_nodes_at_below(s: Seq<NodeModel>, p: Seq<Seq<char>>, fuel: nat)
    requires
        all_below(s, fuel),
        0 < p.len() <= fuel,
    ensures
        all_below(nodes_at(s, p), (fuel - p.len() + 1) as nat),
    decreases p.len(),
{
    let k = normalize_spec(p[0]);
    lemma_members_below(s, k, fuel);
    if p.len() > 1 {
        lemma_pool_below(members(s, k), fuel);
        lemma_nodes_at_below(child_pool(members(s, k)), p.drop_first(), (fuel - 1) as nat);
    }
}

/// At every node of a merge, the children are one per distinct move among
/// the children of the nodes merged there (those of earlier games first),
/// in the order those moves are first seen, and no two of them stand for
/// the same move.
pub proof fn law_merge_children_order(trees: Seq<GameTree>, concat: bool, m: GameTree, p: Seq<Seq<char>>)
    requires
        m.root@ == (NodeModel {
            children: merge_forest(first_moves(trees), concat, merge_depth(first_moves(trees))),
            ..empty_node()
        }),
        p.len() > 0,
        exists|t: int| 0 <= t < trees.len() && has_line(#[trigger] trees[t].root@.children, p),
    ensures
        path_lookup(m.root@, p) matches Some(n) && {
            let pool = child_pool(nodes_at(first_moves(trees), p));
            &&& n.children.len() == keys_of(pool).len()
            &&& forall|i: int| 0 <= i < n.children.len() ==> #[trigger] san_key(n.children[i]) == keys_of(pool)[i]
            &&& forall|i: int, j: int| 0 <= i < j < n.children.len() ==> san_key(#[trigger] n.children[i]) != san_key(
                #[trigger] n.children[j],
            )
        },
{
    let s = first_moves(trees);
    let fuel = merge_depth(s);
    lemma_first_moves_below(trees);
    lemma_merged_line(m.root@, s, p, concat, fuel);
    lemma_first_moves_line(trees, p);
    let g = nodes_at(s, p);
    let pool = child_pool(g);
    let f2 = (fuel - p.len()) as nat;
    lemma_nodes_at_below(s, p, fuel);
    lemma_pool_below(g, (fuel - p.len() + 1) as nat);
    let n = path_lookup(m.root@, p)->0;
    assert(n.children == merge_forest(pool, concat, f2));
    if f2 == 0 {
        if pool.len() > 0 {
            assert(depth(pool[0]) < 0);
        }
        assert(keys_of(pool) =~= Seq::<Seq<char>>::empty());
    } else {
        law_merge_first_seen_order(pool, concat, f2);
    }
}

/// Where the node at `j` is the first of `g` with NAGs, the first NAG list
/// that is not empty is its list.
proof fn lemma_first_nags_at(g: Seq<NodeModel>, j: int)
    requires
        0 <= j < g.len(),
        g[j].nags.len() > 0,
        forall|k: int| 0 <= k < j ==> (#[trigger] g[k]).nags.len() == 0,
    ensures
        first_nags(g) == g[j].nags,
    decreases j,
{
    if j > 0 {
        let d = g.drop_first();
        assert(g[0].nags.len() == 0);
        assert forall|k: int| 0 <= k < j - 1 implies (#[trigger] d[k]).nags.len() == 0 by {
            assert(d[k] == g[k + 1]);
        }
        assert(d[j - 1] == g[j]);
        lemma_first_nags_at(d, j - 1);
    }
}

proof fn lemma_first_nags_none(g: Seq<NodeModel>)
    requires
        forall|k: int| 0 <= k < g.len() ==> (#[trigger] g[k]).nags.len() == 0,
    ensures
        first_nags(g).len() == 0,
    decreases g.len(),
{
    if g.len() > 0 {
        let d = g.drop_first();
        assert(g[0].nags.len() == 0);
        assert forall|k: int| 0 <= k < d.len() implies (#[trigger] d[k]).nags.len() == 0 by {
            assert(d[k] == g[k + 1]);
        }
        lemma_first_nags_none(d);
    }
}

/// Where the node at `j` is the first of `g` with a comment, the first
/// comment that is not empty is its comment.
proof fn lemma_first_comment_at(g: Seq<NodeModel>, j: int)
    requires
        0 <= j < g.len(),
        g[j].comment.len() > 0,
        forall|k: int| 0 <= k < j ==> (#[trigger] g[k]).comment.len() == 0,
    ensures
        first_comment(g) == g[j].comment,
    decreases j,
{
    if j > 0 {
        let d = g.drop_first();
        assert(g[0].comment.len() == 0);
        assert forall|k: int| 0 <= k < j - 1 implies (#[trigger] d[k]).comment.len() == 0 by {
            assert(d[k] == g[k + 1]);
        }
        assert(d[j - 1] == g[j]);
        lemma_first_comment_at(d, j - 1);
    }
}

proof fn lemma_first_comment_none(g: Seq<NodeModel>)
    requires
        forall|k: int| 0 <= k < g.len() ==> (#[trigger] g[k]).comment.len() == 0,
    ensures
        first_comment(g).len() == 0,
    decreases g.len(),
{
    if g.len() > 0 {
        let d = g.drop_first();
        assert(g[0].comment.len() == 0);
        assert forall|k: int| 0 <= k < d.len() implies (#[trigger] d[k]).comment.len() == 0 by {
            assert(d[k] == g[k + 1]);
        }
        lemma_first_comment_none(d);
    }
}

/// The NAGs of a merged node are those of the first of the nodes merged
/// there (earlier games first) whose NAGs are not empty, and none where
/// none of them has any. Without joining, its comment is chosen in the same
/// way: the first comment that is not empty, or none.
pub proof fn law_merged_first_annotations(trees: Seq<GameTree>, concat: bool, m: GameTree, p: Seq<Seq<char>>)
    requires
        m.root@ == (NodeModel {
            children: merge_forest(first_moves(trees), concat, merge_depth(first_moves(trees))),
            ..empty_node()
        }),
        p.len() > 0,
        exists|t: int| 0 <= t < trees.len() && has_line(#[trigger] trees[t].root@.children, p),
    ensures
        path_lookup(m.root@, p) matches Some(n) && {
            let g = nodes_at(first_moves(trees), p);
            &&& g.len() > 0
            &&& (forall|k: int| 0 <= k < g.len() ==> (#[trigger] g[k]).nags.len() == 0) ==> n.nags.len() == 0
            &&& forall|j: int|
                0 <= j < g.len() && (#[trigger] g[j]).nags.len() > 0 && (forall|k: int|
                    0 <= k < j ==> (#[trigger] g[k]).nags.len() == 0) ==> n.nags == g[j].nags
            &&& !concat ==> ((forall|k: int| 0 <= k < g.len() ==> (#[trigger] g[k]).comment.len() == 0)
                ==> n.comment.len() == 0)
            &&& !concat ==> forall|j: int|
                0 <= j < g.len() && (#[trigger] g[j]).comment.len() > 0 && (forall|k: int|
                    0 <= k < j ==> (#[trigger] g[k]).comment.len() == 0) ==> n.comment == g[j].comment
        },
{
    law_merged_node(trees, concat, m, p);
    let g = nodes_at(first_moves(trees), p);
    if forall|k: int| 0 <= k < g.len() ==> (#[trigger] g[k]).nags.len() == 0 {
        lemma_first_nags_none(g);
    }
    if forall|k: int| 0 <= k < g.len() ==> (#[trigger] g[k]).comment.len() == 0 {
        lemma_first_comment_none(g);
    }
    assert forall|j: int|
        0 <= j < g.len() && (#[trigger] g[j]).nags.len() > 0 && (forall|k: int|
            0 <= k < j ==> (#[trigger] g[k]).nags.len() == 0) implies first_nags(g) == g[j].nags by {
        lemma_first_nags_at(g, j);
    }
    assert forall|j: int|
        0 <= j < g.len() && (#[trigger] g[j]).comment.len() > 0 && (forall|k: int|
            0 <= k < j ==> (#[trigger] g[k]).comment.len() == 0) implies first_comment(g) == g[j].comment by {
        lemma_first_comment_at(g, j);
    }
}

} // verus!
