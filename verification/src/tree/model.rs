//! The game tree node and its mathematical model: measures, paths and
//! lookups by move, stated over the model.

use vstd::prelude::*;
use crate::nag::Nag;
use crate::text::dec;
use crate::tree::san::normalize_spec;

verus! {


/// The mathematical model of a node: its fields, with the children as models too.
pub struct NodeModel {
    pub san: Seq<char>,
    pub move_number: Option<u16>,
    pub is_black: bool,
    pub comment: Seq<char>,
    pub nags: Seq<Nag>,
    pub children: Seq<NodeModel>,
}

/// A single node in the game tree.  The root has an empty move; the first
/// child is the main line, the others are variations.
#[derive(Debug)]
pub struct GameNode {
    /// The move in SAN notation (e.g., "e4", "Nf3", "O-O"); empty for the root.
    pub san: String,
    /// Move number (1, 2, 3, ...).
    pub move_number: Option<u16>,
    /// True if this is Black's move.
    pub is_black: bool,
    /// Human-readable comment/annotation.
    pub comment: String,
    /// Numeric Annotation Glyphs.
    pub nags: Vec<Nag>,
    /// Child nodes (first child is main line, rest are variations).
    pub children: Vec<GameNode>,
}

impl View for GameNode {
    type V = NodeModel;

    open spec fn view(&self) -> NodeModel
        decreases self,
    {
        NodeModel {
            san: self.san@,
            move_number: self.move_number,
            is_black: self.is_black,
            comment: self.comment@,
            nags: self.nags@,
            children: Seq::new(
                self.children@.len(),
                |i: int|
                    if 0 <= i < self.children@.len() {
                        self.children@[i].view()
                    } else {
                        arbitrary()
                    },
            ),
        }
    }
}

/// The models of a sequence of nodes.
pub open spec fn models(s: Seq<GameNode>) -> Seq<NodeModel> {
    Seq::new(s.len(), |i: int| s[i]@)
}

/// The model of a node is made of its fields' views and its children's models.
pub broadcast proof fn lemma_node_view(n: GameNode)
    ensures
        #[trigger] n@ == (NodeModel {
            san: n.san@,
            move_number: n.move_number,
            is_black: n.is_black,
            comment: n.comment@,
            nags: n.nags@,
            children: models(n.children@),
        }),
{
    reveal_with_fuel(<GameNode as View>::view, 2);
    let v = n@;
    assert(v.children.len() == n.children@.len());
    assert forall|i: int| 0 <= i < v.children.len() implies v.children[i] == models(n.children@)[i] by {
        assert(v.children[i] == n.children@[i]@);
    }
    assert(v.children =~= models(n.children@));
}

pub broadcast proof fn lemma_models_update(s: Seq<GameNode>, i: int, x: GameNode)
    requires
        0 <= i < s.len(),
    ensures
        #[trigger] models(s.update(i, x)) == models(s).update(i, x@),
{
    assert(models(s.update(i, x)) =~= models(s).update(i, x@));
}

pub broadcast proof fn lemma_models_push(s: Seq<GameNode>, x: GameNode)
    ensures
        #[trigger] models(s.push(x)) == models(s).push(x@),
{
    assert(models(s.push(x)) =~= models(s).push(x@));
}

pub broadcast proof fn lemma_models_take(s: Seq<GameNode>, i: int)
    requires
        0 <= i <= s.len(),
    ensures
        #[trigger] models(s.take(i)) == models(s).take(i),
{
    assert(models(s.take(i)) =~= models(s).take(i));
}

pub broadcast group group_node_model {
    lemma_node_view,
    lemma_models_update,
    lemma_models_push,
    lemma_models_take,
}

// ---------------------------------------------------------------------------
// Measures of a tree
// ---------------------------------------------------------------------------

pub open spec fn node_count(n: NodeModel) -> nat
    decreases n,
{
    1 + forest_count(n.children)
}

pub open spec fn forest_count(s: Seq<NodeModel>) -> nat
    decreases s,
{
    if s.len() == 0 {
        0
    } else {
        forest_count(s.subrange(0, s.len() - 1)) + node_count(s[s.len() - 1])
    }
}

/// Number of leaves: a node without children is one leaf.
pub open spec fn leaf_count(n: NodeModel) -> nat
    decreases n,
{
    if n.children.len() == 0 {
        1
    } else {
        forest_leaves(n.children)
    }
}

pub open spec fn forest_leaves(s: Seq<NodeModel>) -> nat
    decreases s,
{
    if s.len() == 0 {
        0
    } else {
        forest_leaves(s.subrange(0, s.len() - 1)) + leaf_count(s[s.len() - 1])
    }
}

/// Number of nodes with a non-empty comment.
pub open spec fn comment_count(n: NodeModel) -> nat
    decreases n,
{
    (if n.comment.len() > 0 { 1nat } else { 0nat }) + forest_comments(n.children)
}

pub open spec fn forest_comments(s: Seq<NodeModel>) -> nat
    decreases s,
{
    if s.len() == 0 {
        0
    } else {
        forest_comments(s.subrange(0, s.len() - 1)) + comment_count(s[s.len() - 1])
    }
}

/// Length of the longest path from the node down to a leaf.
pub open spec fn depth(n: NodeModel) -> nat
    decreases n,
{
    if n.children.len() == 0 {
        0
    } else {
        1 + forest_depth(n.children)
    }
}

pub open spec fn forest_depth(s: Seq<NodeModel>) -> nat
    decreases s,
{
    if s.len() == 0 {
        0
    } else {
        let a = forest_depth(s.subrange(0, s.len() - 1));
        let b = depth(s[s.len() - 1]);
        if a >= b { a } else { b }
    }
}

/// Number of moves along the first children from the node.
pub open spec fn main_line_len(n: NodeModel) -> nat
    decreases n,
{
    if n.children.len() == 0 {
        0
    } else {
        1 + main_line_len(n.children[0])
    }
}

pub proof fn lemma_forest_count_step(s: Seq<NodeModel>, i: int)
    requires
        0 <= i < s.len(),
    ensures
        forest_count(s.take(i + 1)) == forest_count(s.take(i)) + node_count(s[i]),
        forest_leaves(s.take(i + 1)) == forest_leaves(s.take(i)) + leaf_count(s[i]),
        forest_comments(s.take(i + 1)) == forest_comments(s.take(i)) + comment_count(s[i]),
        forest_depth(s.take(i + 1)) == (if forest_depth(s.take(i)) >= depth(s[i]) {
            forest_depth(s.take(i))
        } else {
            depth(s[i])
        }),
{
    assert(s.take(i + 1).subrange(0, i) =~= s.take(i));
}

pub proof fn lemma_forest_take_all(s: Seq<NodeModel>)
    ensures
        s.take(s.len() as int) == s,
{
    assert(s.take(s.len() as int) =~= s);
}

pub proof fn lemma_forest_monotone(s: Seq<NodeModel>, i: int)
    requires
        0 <= i <= s.len(),
    ensures
        forest_count(s.take(i)) <= forest_count(s),
        forest_leaves(s.take(i)) <= forest_leaves(s),
        forest_comments(s.take(i)) <= forest_comments(s),
    decreases s.len() - i,
{
    if i < s.len() {
        lemma_forest_count_step(s, i);
        lemma_forest_monotone(s, i + 1);
    } else {
        lemma_forest_take_all(s);
    }
}

/// Depth and main-line length are both below the number of nodes.
pub proof fn lemma_depth_bound(n: NodeModel)
    ensures
        depth(n) < node_count(n),
        main_line_len(n) < node_count(n),
        leaf_count(n) <= node_count(n),
    decreases n,
{
    lemma_forest_depth_bound(n.children);
    if n.children.len() > 0 {
        lemma_depth_bound(n.children[0]);
        lemma_forest_count_step(n.children, 0);
        lemma_forest_monotone(n.children, 1);
        assert(n.children.take(0) =~= Seq::<NodeModel>::empty());
    }
}

pub proof fn lemma_forest_depth_bound(s: Seq<NodeModel>)
    ensures
        forest_depth(s) <= forest_count(s),
        s.len() > 0 ==> forest_depth(s) < forest_count(s),
        forest_leaves(s) <= forest_count(s),
    decreases s,
{
    if s.len() > 0 {
        lemma_forest_depth_bound(s.subrange(0, s.len() - 1));
        lemma_depth_bound(s[s.len() - 1]);
    }
}

// ---------------------------------------------------------------------------
// Paths of child indices
// ---------------------------------------------------------------------------

/// Whether following the child indices of `p` from `n` stays inside the tree.
pub open spec fn valid_path(n: NodeModel, p: Seq<usize>) -> bool
    decreases p.len(),
{
    p.len() == 0 || (p[0] < n.children.len() && valid_path(n.children[p[0] as int], p.drop_first()))
}

/// The node reached by following the child indices of `p` from `n`.
pub open spec fn at_path(n: NodeModel, p: Seq<usize>) -> NodeModel
    decreases p.len(),
{
    if p.len() == 0 {
        n
    } else {
        at_path(n.children[p[0] as int], p.drop_first())
    }
}

/// `n` with the node at `p` replaced by `v`.
pub open spec fn replace_at(n: NodeModel, p: Seq<usize>, v: NodeModel) -> NodeModel
    decreases p.len(),
{
    if p.len() == 0 {
        v
    } else {
        NodeModel {
            san: n.san,
            move_number: n.move_number,
            is_black: n.is_black,
            comment: n.comment,
            nags: n.nags,
            children: n.children.update(
                p[0] as int,
                replace_at(n.children[p[0] as int], p.drop_first(), v),
            ),
        }
    }
}

/// A path of a single step goes to one child.
pub proof fn lemma_single_step(n: NodeModel, i: usize, v: NodeModel)
    requires
        i < n.children.len(),
    ensures
        valid_path(n, seq![i]),
        at_path(n, seq![i]) == n.children[i as int],
        replace_at(n, seq![i], v).children == n.children.update(i as int, v),
        replace_at(n, seq![i], v).san == n.san,
        replace_at(n, seq![i], v).comment == n.comment,
        replace_at(n, seq![i], v).nags == n.nags,
        replace_at(n, seq![i], v).move_number == n.move_number,
        replace_at(n, seq![i], v).is_black == n.is_black,
{
    let p = seq![i];
    assert(p.drop_first() =~= Seq::<usize>::empty());
    assert(valid_path(n.children[i as int], p.drop_first()));
    assert(at_path(n.children[i as int], p.drop_first()) == n.children[i as int]);
    assert(replace_at(n.children[i as int], p.drop_first(), v) == v);
}

/// `n` with `c` appended to its children.
pub open spec fn with_child(n: NodeModel, c: NodeModel) -> NodeModel {
    NodeModel {
        san: n.san,
        move_number: n.move_number,
        is_black: n.is_black,
        comment: n.comment,
        nags: n.nags,
        children: n.children.push(c),
    }
}

/// A node with no move, number, comment, NAGs or children.
pub open spec fn empty_node() -> NodeModel {
    NodeModel {
        san: Seq::empty(),
        move_number: None,
        is_black: false,
        comment: Seq::empty(),
        nags: Seq::empty(),
        children: Seq::empty(),
    }
}

/// `b` keeps the children of `a`, possibly with more after them.
pub open spec fn extends(a: NodeModel, b: NodeModel) -> bool {
    &&& a.children.len() <= b.children.len()
    &&& forall|i: int| 0 <= i < a.children.len() ==> #[trigger] b.children[i] == a.children[i]
}

/// Replacing a node by one that keeps its children keeps every path valid.
pub proof fn lemma_replace_keeps_paths(n: NodeModel, q: Seq<usize>, v: NodeModel, p: Seq<usize>)
    requires
        valid_path(n, q),
        extends(at_path(n, q), v),
        valid_path(n, p),
    ensures
        valid_path(replace_at(n, q, v), p),
    decreases p.len(),
{
    if p.len() > 0 {
        if q.len() == 0 {
            assert(v.children[p[0] as int] == n.children[p[0] as int]);
        } else {
            let m = replace_at(n, q, v);
            if p[0] == q[0] {
                lemma_replace_keeps_paths(n.children[q[0] as int], q.drop_first(), v, p.drop_first());
            }
            assert(m.children[p[0] as int] == if p[0] == q[0] {
                replace_at(n.children[q[0] as int], q.drop_first(), v)
            } else {
                n.children[p[0] as int]
            });
        }
    }
}

/// A path extended by one step: valid where the step stays inside the
/// children, and reaching that child.
pub proof fn lemma_path_push(n: NodeModel, q: Seq<usize>, i: usize)
    requires
        valid_path(n, q),
    ensures
        valid_path(n, q.push(i)) <==> i < at_path(n, q).children.len(),
        i < at_path(n, q).children.len() ==> at_path(n, q.push(i)) == at_path(n, q).children[i as int],
    decreases q.len(),
{
    let p = q.push(i);
    if q.len() == 0 {
        assert(p.drop_first() =~= Seq::<usize>::empty());
        assert(p[0] == i);
        if i < n.children.len() {
            assert(valid_path(n.children[i as int], p.drop_first()));
            assert(at_path(n.children[i as int], p.drop_first()) == n.children[i as int]);
        }
    } else {
        lemma_path_push(n.children[q[0] as int], q.drop_first(), i);
        assert(p.drop_first() =~= q.drop_first().push(i));
        assert(p[0] == q[0]);
    }
}

/// The node put at a valid path is found there again, and the path stays valid.
pub proof fn lemma_replace_at_path(n: NodeModel, q: Seq<usize>, v: NodeModel)
    requires
        valid_path(n, q),
    ensures
        valid_path(replace_at(n, q, v), q),
        at_path(replace_at(n, q, v), q) == v,
    decreases q.len(),
{
    if q.len() > 0 {
        lemma_replace_at_path(n.children[q[0] as int], q.drop_first(), v);
    }
}

/// A child has fewer nodes than its parent.
pub proof fn lemma_child_count(n: NodeModel, i: int)
    requires
        0 <= i < n.children.len(),
    ensures
        node_count(n.children[i]) < node_count(n),
{
    lemma_forest_count_step(n.children, i);
    lemma_forest_monotone(n.children, i + 1);
    lemma_forest_take_all(n.children);
}

/// The node at a valid path has no more nodes than the tree.
pub proof fn lemma_at_path_count(n: NodeModel, p: Seq<usize>)
    requires
        valid_path(n, p),
    ensures
        node_count(at_path(n, p)) <= node_count(n),
    decreases p.len(),
{
    if p.len() > 0 {
        lemma_child_count(n, p[0] as int);
        lemma_at_path_count(n.children[p[0] as int], p.drop_first());
    }
}

/// A prefix of a valid path is valid.
pub proof fn lemma_path_prefix(n: NodeModel, p: Seq<usize>)
    requires
        valid_path(n, p),
        p.len() > 0,
    ensures
        valid_path(n, p.drop_last()),
    decreases p.len(),
{
    if p.len() > 1 {
        lemma_path_prefix(n.children[p[0] as int], p.drop_first());
        assert(p.drop_last().drop_first() =~= p.drop_first().drop_last());
    }
}

// ---------------------------------------------------------------------------
// Looking up children by move
// ---------------------------------------------------------------------------

/// Index of the first node of `s` whose normalized move is `k`.
pub open spec fn first_with_san(s: Seq<NodeModel>, k: Seq<char>) -> Option<nat>
    decreases s.len(),
{
    if s.len() == 0 {
        None
    } else if normalize_spec(s[0].san) == k {
        Some(0)
    } else {
        match first_with_san(s.drop_first(), k) {
            Some(i) => Some(i + 1),
            None => None,
        }
    }
}

/// Index of the first child of `n` whose move matches `san` after normalization.
pub open spec fn child_index(n: NodeModel, san: Seq<char>) -> Option<nat> {
    first_with_san(n.children, normalize_spec(san))
}

/// The node reached from `n` by following the moves of `path`.
pub open spec fn path_lookup(n: NodeModel, path: Seq<Seq<char>>) -> Option<NodeModel>
    decreases path.len(),
{
    if path.len() == 0 {
        Some(n)
    } else {
        match child_index(n, path[0]) {
            Some(i) => path_lookup(n.children[i as int], path.drop_first()),
            None => None,
        }
    }
}

/// The child indices that the moves of `path` lead through.
pub open spec fn path_indices(n: NodeModel, path: Seq<Seq<char>>) -> Option<Seq<usize>>
    decreases path.len(),
{
    if path.len() == 0 {
        Some(Seq::empty())
    } else {
        match child_index(n, path[0]) {
            Some(i) => match path_indices(n.children[i as int], path.drop_first()) {
                Some(rest) => Some(seq![i as usize] + rest),
                None => None,
            },
            None => None,
        }
    }
}

pub proof fn lemma_first_with_san(s: Seq<NodeModel>, k: Seq<char>, i: int)
    requires
        0 <= i <= s.len(),
        forall|j: int| 0 <= j < i ==> normalize_spec(#[trigger] s[j].san) != k,
    ensures
        i < s.len() && normalize_spec(s[i].san) == k ==> first_with_san(s, k) == Some(i as nat),
        i == s.len() ==> first_with_san(s, k) is None,
    decreases i,
{
    if s.len() > 0 && i > 0 {
        assert forall|j: int| 0 <= j < i - 1 implies normalize_spec(
            #[trigger] s.drop_first()[j].san,
        ) != k by {
            assert(s.drop_first()[j] == s[j + 1]);
        }
        lemma_first_with_san(s.drop_first(), k, i - 1);
    }
}

pub proof fn lemma_first_with_san_bound(s: Seq<NodeModel>, k: Seq<char>)
    ensures
        first_with_san(s, k) matches Some(i) ==> i < s.len() && normalize_spec(s[i as int].san) == k,
    decreases s.len(),
{
    if s.len() > 0 {
        lemma_first_with_san_bound(s.drop_first(), k);
    }
}

pub proof fn lemma_path_indices(g: GameNode, path: Seq<Seq<char>>)
    ensures
        path_lookup(g@, path) is Some <==> path_indices(g@, path) is Some,
        path_indices(g@, path) matches Some(p) ==> valid_path(g@, p) && at_path(g@, p)
            == path_lookup(g@, path)->0,
    decreases path.len(),
{
    broadcast use group_node_model;

    let n = g@;
    if path.len() > 0 {
        lemma_first_with_san_bound(n.children, normalize_spec(path[0]));
        if let Some(i) = child_index(n, path[0]) {
            assert(g.children.len() == g.children@.len());
            let c = g.children@[i as int];
            assert(n.children[i as int] == c@);
            lemma_path_indices(c, path.drop_first());
            if let Some(rest) = path_indices(c@, path.drop_first()) {
                let p = seq![i as usize] + rest;
                assert(p.drop_first() =~= rest);
                assert(p[0] == i as usize);
            }
        }
    }
}

/// Whether the node is a root: no move and no move number.
pub open spec fn is_root_model(n: NodeModel) -> bool {
    n.san.len() == 0 && n.move_number is None
}

/// How a move is written: "1. e4" for White, "1... e5" for Black, the bare
/// move without a number, and nothing for the root.
pub open spec fn move_text_spec(n: NodeModel) -> Seq<char> {
    if n.san.len() == 0 {
        Seq::empty()
    } else {
        match n.move_number {
            Some(k) => if n.is_black {
                dec(k as nat) + "... "@ + n.san
            } else {
                dec(k as nat) + ". "@ + n.san
            },
            None => n.san,
        }
    }
}

pub proof fn lemma_comment_bound(n: NodeModel)
    ensures
        comment_count(n) <= node_count(n),
        forest_comments(n.children) <= forest_count(n.children),
    decreases n,
{
    lemma_forest_comment_bound(n.children);
}

pub proof fn lemma_forest_comment_bound(s: Seq<NodeModel>)
    ensures
        forest_comments(s) <= forest_count(s),
    decreases s,
{
    if s.len() > 0 {
        lemma_forest_comment_bound(s.subrange(0, s.len() - 1));
        lemma_comment_bound(s[s.len() - 1]);
    }
}

} // verus!
