//! Traversals of a game tree: depth-first, along the main line, with
//! depths, and over the leaves.  Each is a stepper with `next`, and
//! `GameNode` gathers each traversal into a vector.

use vstd::prelude::*;
use crate::tree::model::{depth, forest_count, forest_depth, forest_leaves, group_node_model, lemma_depth_bound, leaf_count, main_line_len, node_count, GameNode, NodeModel};
use crate::tree::path::nodes_model;

verus! {

broadcast use group_node_model;

// ---------------------------------------------------------------------------
// Orders
// ---------------------------------------------------------------------------

/// `n`, then the subtrees of its children in order.
pub open spec fn preorder(n: NodeModel) -> Seq<NodeModel>
    decreases n,
{
    seq![n] + pre_forest(n.children)
}

pub open spec fn pre_forest(s: Seq<NodeModel>) -> Seq<NodeModel>
    decreases s,
{
    if s.len() == 0 {
        Seq::empty()
    } else {
        pre_forest(s.subrange(0, s.len() - 1)) + preorder(s[s.len() - 1])
    }
}

/// What a stack of nodes yields: the subtree of its top node first.
pub open spec fn stack_order(st: Seq<NodeModel>) -> Seq<NodeModel>
    decreases st.len(),
{
    if st.len() == 0 {
        Seq::empty()
    } else {
        preorder(st.last()) + stack_order(st.drop_last())
    }
}

/// The leaves of the subtree of `n`, left to right.
pub open spec fn leaves(n: NodeModel) -> Seq<NodeModel>
    decreases n,
{
    if n.children.len() == 0 {
        seq![n]
    } else {
        leaves_forest(n.children)
    }
}

pub open spec fn leaves_forest(s: Seq<NodeModel>) -> Seq<NodeModel>
    decreases s,
{
    if s.len() == 0 {
        Seq::empty()
    } else {
        leaves_forest(s.subrange(0, s.len() - 1)) + leaves(s[s.len() - 1])
    }
}

/// The leaves a stack of nodes yields: those under its top node first.
pub open spec fn stack_leaves(st: Seq<NodeModel>) -> Seq<NodeModel>
    decreases st.len(),
{
    if st.len() == 0 {
        Seq::empty()
    } else {
        leaves(st.last()) + stack_leaves(st.drop_last())
    }
}

/// `n` and the main line that follows it.
pub open spec fn main_line_nodes(n: NodeModel) -> Seq<NodeModel>
    decreases n,
{
    if n.children.len() == 0 {
        seq![n]
    } else {
        seq![n] + main_line_nodes(n.children[0])
    }
}

/// The nodes of the subtree of `n` in depth-first order, with their depth
/// counted from `d` at `n`.
pub open spec fn with_depth(n: NodeModel, d: int) -> Seq<(NodeModel, int)>
    decreases n,
{
    seq![(n, d)] + depth_forest(n.children, d + 1)
}

pub open spec fn depth_forest(s: Seq<NodeModel>, d: int) -> Seq<(NodeModel, int)>
    decreases s,
{
    if s.len() == 0 {
        Seq::empty()
    } else {
        depth_forest(s.subrange(0, s.len() - 1), d) + with_depth(s[s.len() - 1], d)
    }
}

pub open spec fn stack_depths(st: Seq<(NodeModel, int)>) -> Seq<(NodeModel, int)>
    decreases st.len(),
{
    if st.len() == 0 {
        Seq::empty()
    } else {
        with_depth(st.last().0, st.last().1) + stack_depths(st.drop_last())
    }
}

// ---------------------------------------------------------------------------
// Facts about the orders
// ---------------------------------------------------------------------------

proof fn lemma_pre_forest_first(s: Seq<NodeModel>)
    requires
        s.len() > 0,
    ensures
        pre_forest(s) == preorder(s[0]) + pre_forest(s.drop_first()),
    decreases s.len(),
{
    if s.len() == 1 {
        assert(s.subrange(0, 0) =~= Seq::<NodeModel>::empty());
        assert(s.drop_first() =~= Seq::<NodeModel>::empty());
        assert(Seq::<NodeModel>::empty() + preorder(s[0]) =~= preorder(s[0]));
        assert(preorder(s[0]) + Seq::<NodeModel>::empty() =~= preorder(s[0]));
    } else {
        let init = s.subrange(0, s.len() - 1);
        lemma_pre_forest_first(init);
        assert(init.drop_first() =~= s.drop_first().subrange(0, s.drop_first().len() - 1));
        assert(s.drop_first()[s.drop_first().len() - 1] == s[s.len() - 1]);
        assert(init[0] == s[0]);
        assert((preorder(s[0]) + pre_forest(init.drop_first())) + preorder(s[s.len() - 1]) =~= preorder(
            s[0],
        ) + (pre_forest(init.drop_first()) + preorder(s[s.len() - 1])));
    }
}

proof fn lemma_leaves_forest_first(s: Seq<NodeModel>)
    requires
        s.len() > 0,
    ensures
        leaves_forest(s) == leaves(s[0]) + leaves_forest(s.drop_first()),
    decreases s.len(),
{
    if s.len() == 1 {
        assert(s.subrange(0, 0) =~= Seq::<NodeModel>::empty());
        assert(s.drop_first() =~= Seq::<NodeModel>::empty());
        assert(Seq::<NodeModel>::empty() + leaves(s[0]) =~= leaves(s[0]));
        assert(leaves(s[0]) + Seq::<NodeModel>::empty() =~= leaves(s[0]));
    } else {
        let init = s.subrange(0, s.len() - 1);
        lemma_leaves_forest_first(init);
        assert(init.drop_first() =~= s.drop_first().subrange(0, s.drop_first().len() - 1));
        assert(s.drop_first()[s.drop_first().len() - 1] == s[s.len() - 1]);
        assert(init[0] == s[0]);
        assert((leaves(s[0]) + leaves_forest(init.drop_first())) + leaves(s[s.len() - 1]) =~= leaves(
            s[0],
        ) + (leaves_forest(init.drop_first()) + leaves(s[s.len() - 1])));
    }
}

proof fn lemma_depth_forest_first(s: Seq<NodeModel>, d: int)
    requires
        s.len() > 0,
    ensures
        depth_forest(s, d) == with_depth(s[0], d) + depth_forest(s.drop_first(), d),
    decreases s.len(),
{
    if s.len() == 1 {
        assert(s.subrange(0, 0) =~= Seq::<NodeModel>::empty());
        assert(s.drop_first() =~= Seq::<NodeModel>::empty());
        assert(Seq::<(NodeModel, int)>::empty() + with_depth(s[0], d) =~= with_depth(s[0], d));
        assert(with_depth(s[0], d) + Seq::<(NodeModel, int)>::empty() =~= with_depth(s[0], d));
    } else {
        let init = s.subrange(0, s.len() - 1);
        lemma_depth_forest_first(init, d);
        assert(init.drop_first() =~= s.drop_first().subrange(0, s.drop_first().len() - 1));
        assert(s.drop_first()[s.drop_first().len() - 1] == s[s.len() - 1]);
        assert(init[0] == s[0]);
        assert((with_depth(s[0], d) + depth_forest(init.drop_first(), d)) + with_depth(
            s[s.len() - 1],
            d,
        ) =~= with_depth(s[0], d) + (depth_forest(init.drop_first(), d) + with_depth(
            s[s.len() - 1],
            d,
        )));
    }
}

/// A depth-first walk visits every node once.
pub proof fn law_preorder_visits_every_node(n: NodeModel)
    ensures
        preorder(n).len() == node_count(n),
    decreases n,
{
    lemma_pre_forest_len(n.children);
}

proof fn lemma_pre_forest_len(s: Seq<NodeModel>)
    ensures
        pre_forest(s).len() == forest_count(s),
    decreases s,
{
    if s.len() > 0 {
        lemma_pre_forest_len(s.subrange(0, s.len() - 1));
        law_preorder_visits_every_node(s[s.len() - 1]);
    }
}

/// The leaves a walk yields are as many as the tree's lines.
pub proof fn law_leaves_are_lines(n: NodeModel)
    ensures
        leaves(n).len() == leaf_count(n),
    decreases n,
{
    if n.children.len() > 0 {
        lemma_leaves_forest_len(n.children);
    }
}

proof fn lemma_leaves_forest_len(s: Seq<NodeModel>)
    ensures
        leaves_forest(s).len() == forest_leaves(s),
    decreases s,
{
    if s.len() > 0 {
        lemma_leaves_forest_len(s.subrange(0, s.len() - 1));
        law_leaves_are_lines(s[s.len() - 1]);
    }
}

/// The main line from a node has one more node than it has moves.
pub proof fn law_main_line_length(n: NodeModel)
    ensures
        main_line_nodes(n).len() == main_line_len(n) + 1,
    decreases n,
{
    if n.children.len() > 0 {
        law_main_line_length(n.children[0]);
    }
}

/// Every depth a depth walk gives is at most the depth it starts from plus
/// the depth of the tree.
proof fn lemma_with_depth_bound(n: NodeModel, d: int)
    ensures
        forall|k: int| 0 <= k < with_depth(n, d).len() ==> #[trigger] with_depth(n, d)[k].1 <= d + depth(n),
    decreases n,
{
    lemma_depth_forest_bound(n.children, d + 1);
    assert forall|k: int| 0 <= k < with_depth(n, d).len() implies #[trigger] with_depth(n, d)[k].1 <= d
        + depth(n) by {
        if k > 0 {
            assert(with_depth(n, d)[k] == depth_forest(n.children, d + 1)[k - 1]);
        }
    }
}

proof fn lemma_depth_forest_bound(s: Seq<NodeModel>, d: int)
    ensures
        forall|k: int| 0 <= k < depth_forest(s, d).len() ==> #[trigger] depth_forest(s, d)[k].1 <= d
            + forest_depth(s),
    decreases s,
{
    if s.len() > 0 {
        let init = s.subrange(0, s.len() - 1);
        lemma_depth_forest_bound(init, d);
        lemma_with_depth_bound(s[s.len() - 1], d);
        let a = depth_forest(init, d);
        assert forall|k: int| 0 <= k < depth_forest(s, d).len() implies #[trigger] depth_forest(s, d)[k].1
            <= d + forest_depth(s) by {
            if k < a.len() {
                assert(depth_forest(s, d)[k] == a[k]);
            } else {
                assert(depth_forest(s, d)[k] == with_depth(s[s.len() - 1], d)[k - a.len()]);
            }
        }
    }
}

/// A depth walk from depth `d` visits the nodes of a pre-order walk, in
/// that order, each at a depth from `d` on, one of them at `d` plus the
/// depth of the tree.
proof fn lemma_with_depth_walk(n: NodeModel, d: int)
    ensures
        with_depth(n, d).len() == preorder(n).len(),
        forall|k: int| 0 <= k < with_depth(n, d).len() ==> (#[trigger] with_depth(n, d)[k]).0 == preorder(n)[k]
            && with_depth(n, d)[k].1 >= d,
        exists|k: int| 0 <= k < with_depth(n, d).len() && (#[trigger] with_depth(n, d)[k]).1 == d + depth(n),
    decreases n, 1nat,
{
    lemma_depth_forest_walk(n.children, d + 1);
    let w = with_depth(n, d);
    let f = depth_forest(n.children, d + 1);
    assert forall|k: int| 0 <= k < w.len() implies (#[trigger] w[k]).0 == preorder(n)[k] && w[k].1 >= d by {
        if k > 0 {
            assert(w[k] == f[k - 1]);
            assert(preorder(n)[k] == pre_forest(n.children)[k - 1]);
        }
    }
    if n.children.len() == 0 {
        assert(w[0].1 == d + depth(n));
    } else {
        let k = choose|k: int| 0 <= k < f.len() && (#[trigger] f[k]).1 == d + 1 + forest_depth(n.children);
        assert(w[k + 1] == f[k]);
        assert(w[k + 1].1 == d + depth(n));
    }
}

proof fn lemma_depth_forest_walk(s: Seq<NodeModel>, d: int)
    ensures
        depth_forest(s, d).len() == pre_forest(s).len(),
        forall|k: int| 0 <= k < depth_forest(s, d).len() ==> (#[trigger] depth_forest(s, d)[k]).0 == pre_forest(s)[k]
            && depth_forest(s, d)[k].1 >= d,
        s.len() > 0 ==> exists|k: int|
            0 <= k < depth_forest(s, d).len() && (#[trigger] depth_forest(s, d)[k]).1 == d + forest_depth(s),
    decreases s, 0nat,
{
    if s.len() > 0 {
        let init = s.subrange(0, s.len() - 1);
        let last = s[s.len() - 1];
        lemma_depth_forest_walk(init, d);
        lemma_with_depth_walk(last, d);
        let a = depth_forest(init, d);
        let w = with_depth(last, d);
        let f = depth_forest(s, d);
        assert(f == a + w);
        assert(pre_forest(s) == pre_forest(init) + preorder(last));
        assert forall|k: int| 0 <= k < f.len() implies (#[trigger] f[k]).0 == pre_forest(s)[k] && f[k].1 >= d by {
            if k < a.len() {
                assert(f[k] == a[k]);
                assert(pre_forest(s)[k] == pre_forest(init)[k]);
            } else {
                assert(f[k] == w[k - a.len()]);
                assert(pre_forest(s)[k] == preorder(last)[k - a.len()]);
            }
        }
        if init.len() > 0 && forest_depth(init) >= depth(last) {
            assert(forest_depth(s) == forest_depth(init));
            let k = choose|k: int| 0 <= k < a.len() && (#[trigger] a[k]).1 == d + forest_depth(init);
            assert(f[k] == a[k]);
            assert(f[k].1 == d + forest_depth(s));
        } else {
            if init.len() == 0 {
                assert(forest_depth(init) == 0);
            }
            assert(forest_depth(s) == depth(last));
            let k = choose|k: int| 0 <= k < w.len() && (#[trigger] w[k]).1 == d + depth(last);
            assert(f[k + a.len()] == w[k]);
            assert(f[k + a.len()].1 == d + forest_depth(s));
        }
    }
}

/// A walk with depths visits the nodes of the pre-order walk, in that
/// order; the root is at depth 0, every depth is at most the tree's depth,
/// and some node is at the tree's depth.
pub proof fn law_depth_walk(n: NodeModel)
    ensures
        with_depth(n, 0).len() == preorder(n).len(),
        forall|k: int| 0 <= k < with_depth(n, 0).len() ==> (#[trigger] with_depth(n, 0)[k]).0 == preorder(n)[k]
            && 0 <= with_depth(n, 0)[k].1 <= depth(n),
        with_depth(n, 0)[0] == (n, 0int),
        exists|k: int| 0 <= k < with_depth(n, 0).len() && (#[trigger] with_depth(n, 0)[k]).1 == depth(n),
{
    lemma_with_depth_walk(n, 0);
    lemma_with_depth_bound(n, 0);
}

// ---------------------------------------------------------------------------
// Steppers
// ---------------------------------------------------------------------------

proof fn lemma_nodes_push(v: Seq<&GameNode>, n: &GameNode)
    ensures
        nodes_model(v.push(n)) == nodes_model(v).push(n@),
{
    assert(nodes_model(v.push(n)) =~= nodes_model(v).push(n@));
}

/// Pushes the children of `node` onto `stack`, the last child first, so
/// that the first child is on top.
fn push_children_reversed<'a>(node: &'a GameNode, stack: &mut Vec<&'a GameNode>)
    ensures
        stack_order(nodes_model(final(stack)@)) == pre_forest(node@.children) + stack_order(
            nodes_model(old(stack)@),
        ),
        stack_leaves(nodes_model(final(stack)@)) == leaves_forest(node@.children) + stack_leaves(
            nodes_model(old(stack)@),
        ),
{
    let ghost ch = node@.children;
    let ghost base = nodes_model(stack@);
    let mut k = node.children.len();
    assert(ch.subrange(k as int, k as int) =~= Seq::<NodeModel>::empty());
    while k > 0
        invariant
            k <= ch.len(),
            ch == node@.children,
            ch.len() == node.children@.len(),
            stack_order(nodes_model(stack@)) == pre_forest(ch.subrange(k as int, ch.len() as int))
                + stack_order(base),
            stack_leaves(nodes_model(stack@)) == leaves_forest(ch.subrange(k as int, ch.len() as int))
                + stack_leaves(base),
        decreases k,
    {
        let c = &node.children[k - 1];
        let ghost before = nodes_model(stack@);
        proof {
            lemma_nodes_push(stack@, c);
        }
        stack.push(c);
        proof {
            let sub = ch.subrange(k - 1, ch.len() as int);
            lemma_pre_forest_first(sub);
            lemma_leaves_forest_first(sub);
            assert(sub.drop_first() =~= ch.subrange(k as int, ch.len() as int));
            assert(sub[0] == ch[k - 1]);
            assert(before.push(c@).drop_last() =~= before);
            assert(preorder(ch[k - 1]) + (pre_forest(ch.subrange(k as int, ch.len() as int))
                + stack_order(base)) =~= (preorder(ch[k - 1]) + pre_forest(
                ch.subrange(k as int, ch.len() as int),
            )) + stack_order(base));
            assert(leaves(ch[k - 1]) + (leaves_forest(ch.subrange(k as int, ch.len() as int))
                + stack_leaves(base)) =~= (leaves(ch[k - 1]) + leaves_forest(
                ch.subrange(k as int, ch.len() as int),
            )) + stack_leaves(base));
        }
        k = k - 1;
    }
    assert(ch.subrange(0, ch.len() as int) =~= ch);
}

/// Depth-first stepper over the nodes of a subtree.
pub struct DfsIter<'a> {
    stack: Vec<&'a GameNode>,
}

impl<'a> DfsIter<'a> {
    /// The nodes still to come.
    pub closed spec fn remaining(&self) -> Seq<NodeModel> {
        stack_order(nodes_model(self.stack@))
    }

    /// A stepper over the subtree of `root`.
    pub fn new(root: &'a GameNode) -> (it: DfsIter<'a>)
        ensures
            it.remaining() == preorder(root@),
    {
        let it = DfsIter { stack: vec![root] };
        assert(nodes_model(it.stack@) =~= seq![root@]);
        assert(seq![root@].drop_last() =~= Seq::<NodeModel>::empty());
        assert(stack_order(Seq::<NodeModel>::empty()) =~= Seq::<NodeModel>::empty());
        assert(preorder(root@) + Seq::<NodeModel>::empty() =~= preorder(root@));
        it
    }

    /// The next node, if any.
    pub fn next(&mut self) -> (r: Option<&'a GameNode>)
        ensures
            old(self).remaining().len() == 0 ==> r is None && final(self).remaining().len() == 0,
            old(self).remaining().len() > 0 ==> (r matches Some(n) && n@ == old(self).remaining()[0]
                && final(self).remaining() == old(self).remaining().drop_first()),
    {
        let ghost old_stack = nodes_model(self.stack@);
        match self.stack.pop() {
            None => {
                assert(old_stack =~= Seq::<NodeModel>::empty());
                None
            },
            Some(node) => {
                let ghost rest = nodes_model(self.stack@);
                assert(old_stack.drop_last() =~= rest);
                assert(old_stack.last() == node@);
                push_children_reversed(node, &mut self.stack);
                assert((seq![node@] + pre_forest(node@.children)) + stack_order(rest) =~= seq![node@]
                    + (pre_forest(node@.children) + stack_order(rest)));
                assert((seq![node@] + (pre_forest(node@.children) + stack_order(rest))).drop_first()
                    =~= pre_forest(node@.children) + stack_order(rest));
                Some(node)
            },
        }
    }
}

/// Stepper along the main line.
pub struct MainLineIter<'a> {
    current: Option<&'a GameNode>,
}

impl<'a> MainLineIter<'a> {
    /// The nodes still to come.
    pub closed spec fn remaining(&self) -> Seq<NodeModel> {
        match self.current {
            Some(n) => main_line_nodes(n@),
            None => Seq::empty(),
        }
    }

    /// A stepper along the main line from `root`.
    pub fn new(root: &'a GameNode) -> (it: MainLineIter<'a>)
        ensures
            it.remaining() == main_line_nodes(root@),
    {
        MainLineIter { current: Some(root) }
    }

    /// The next node, if any.
    pub fn next(&mut self) -> (r: Option<&'a GameNode>)
        ensures
            old(self).remaining().len() == 0 ==> r is None && final(self).remaining().len() == 0,
            old(self).remaining().len() > 0 ==> (r matches Some(n) && n@ == old(self).remaining()[0]
                && final(self).remaining() == old(self).remaining().drop_first()),
    {
        match self.current {
            None => None,
            Some(node) => {
                self.current = node.main_line();
                proof {
                    if node@.children.len() > 0 {
                        assert(node.children@[0]@ == node@.children[0]);
                        assert((seq![node@] + main_line_nodes(node@.children[0])).drop_first()
                            =~= main_line_nodes(node@.children[0]));
                    } else {
                        assert(seq![node@].drop_first() =~= Seq::<NodeModel>::empty());
                    }
                }
                Some(node)
            },
        }
    }
}

/// Depth-first stepper that gives each node with its depth.
pub struct DepthIter<'a> {
    stack: Vec<(&'a GameNode, usize)>,
}

pub open spec fn depth_entries(v: Seq<(&GameNode, usize)>) -> Seq<(NodeModel, int)> {
    v.map_values(|e: (&GameNode, usize)| (e.0@, e.1 as int))
}

pub open spec fn depth_items(v: Seq<(&GameNode, usize)>) -> Seq<(NodeModel, int)> {
    depth_entries(v)
}

impl<'a> DepthIter<'a> {
    /// The nodes, with their depths, still to come.
    pub closed spec fn remaining(&self) -> Seq<(NodeModel, int)> {
        stack_depths(depth_entries(self.stack@))
    }

    /// No depth still to come reaches the largest machine word.
    pub closed spec fn bounded(&self) -> bool {
        forall|k: int| 0 <= k < self.stack@.len() ==> #[trigger] self.stack@[k].1 + depth(self.stack@[k].0@)
            < usize::MAX
    }

    /// A stepper over the subtree of `root`, `root` at depth 0.
    pub fn new(root: &'a GameNode) -> (it: DepthIter<'a>)
        requires
            depth(root@) < usize::MAX,
        ensures
            it.remaining() == with_depth(root@, 0),
            it.bounded(),
    {
        let it = DepthIter { stack: vec![(root, 0)] };
        assert(depth_entries(it.stack@) =~= seq![(root@, 0int)]);
        assert(seq![(root@, 0int)].drop_last() =~= Seq::<(NodeModel, int)>::empty());
        assert(stack_depths(Seq::<(NodeModel, int)>::empty()) =~= Seq::<(NodeModel, int)>::empty());
        assert(with_depth(root@, 0) + Seq::<(NodeModel, int)>::empty() =~= with_depth(root@, 0));
        it
    }

    /// The next node with its depth, if any.
    pub fn next(&mut self) -> (r: Option<(&'a GameNode, usize)>)
        requires
            old(self).bounded(),
        ensures
            final(self).bounded(),
            old(self).remaining().len() == 0 ==> r is None && final(self).remaining().len() == 0,
            old(self).remaining().len() > 0 ==> (r matches Some(e) && (e.0@, e.1 as int) == old(
                self,
            ).remaining()[0] && final(self).remaining() == old(self).remaining().drop_first()),
    {
        let ghost old_stack = depth_entries(self.stack@);
        match self.stack.pop() {
            None => {
                assert(old_stack =~= Seq::<(NodeModel, int)>::empty());
                None
            },
            Some((node, d)) => {
                let ghost rest = depth_entries(self.stack@);
                let ghost ch = node@.children;
                assert(old_stack.drop_last() =~= rest);
                assert(old_stack.last() == (node@, d as int));
                assert(d + depth(node@) < usize::MAX) by {
                    assert(old(self).stack@[old(self).stack@.len() - 1] == (node, d));
                }
                let mut k = node.children.len();
                assert(ch.subrange(k as int, k as int) =~= Seq::<NodeModel>::empty());
                while k > 0
                    invariant
                        k <= ch.len(),
                        ch == node@.children,
                        ch.len() == node.children@.len(),
                        d + depth(node@) < usize::MAX,
                        forall|j: int| 0 <= j < self.stack@.len() ==> #[trigger] self.stack@[j].1 + depth(
                            self.stack@[j].0@,
                        ) < usize::MAX,
                        stack_depths(depth_entries(self.stack@)) == depth_forest(
                            ch.subrange(k as int, ch.len() as int),
                            d + 1,
                        ) + stack_depths(rest),
                    decreases k,
                {
                    let c = &node.children[k - 1];
                    let ghost before = depth_entries(self.stack@);
                    proof {
                        crate::tree::model::lemma_forest_depth_bound(ch);
                        lemma_child_depth(node@, k - 1);
                    }
                    self.stack.push((c, d + 1));
                    proof {
                        assert(depth_entries(self.stack@) =~= before.push((c@, d + 1)));
                        let sub = ch.subrange(k - 1, ch.len() as int);
                        lemma_depth_forest_first(sub, d + 1);
                        assert(sub.drop_first() =~= ch.subrange(k as int, ch.len() as int));
                        assert(sub[0] == ch[k - 1]);
                        assert(before.push((c@, d + 1)).drop_last() =~= before);
                        assert(with_depth(ch[k - 1], d + 1) + (depth_forest(
                            ch.subrange(k as int, ch.len() as int),
                            d + 1,
                        ) + stack_depths(rest)) =~= (with_depth(ch[k - 1], d + 1) + depth_forest(
                            ch.subrange(k as int, ch.len() as int),
                            d + 1,
                        )) + stack_depths(rest));
                    }
                    k = k - 1;
                }
                assert(ch.subrange(0, ch.len() as int) =~= ch);
                assert((seq![(node@, d as int)] + depth_forest(ch, d + 1)) + stack_depths(rest)
                    =~= seq![(node@, d as int)] + (depth_forest(ch, d + 1) + stack_depths(rest)));
                assert((seq![(node@, d as int)] + (depth_forest(ch, d + 1) + stack_depths(rest))).drop_first()
                    =~= depth_forest(ch, d + 1) + stack_depths(rest));
                Some((node, d))
            },
        }
    }
}

/// A child is at least one level shallower than its parent.
pub proof fn lemma_child_depth_pub(n: NodeModel, i: int)
    requires
        0 <= i < n.children.len(),
    ensures
        depth(n.children[i]) + 1 <= depth(n),
{
    lemma_child_depth(n, i);
}

proof fn lemma_child_depth(n: NodeModel, i: int)
    requires
        0 <= i < n.children.len(),
    ensures
        depth(n.children[i]) + 1 <= depth(n),
{
    lemma_forest_depth_max(n.children, i);
}

/// Every node of a forest is at most as deep as the forest.
pub proof fn lemma_forest_depth_max_pub(s: Seq<NodeModel>, i: int)
    requires
        0 <= i < s.len(),
    ensures
        depth(s[i]) <= forest_depth(s),
{
    lemma_forest_depth_max(s, i);
}

proof fn lemma_forest_depth_max(s: Seq<NodeModel>, i: int)
    requires
        0 <= i < s.len(),
    ensures
        depth(s[i]) <= forest_depth(s),
    decreases s.len(),
{
    if i < s.len() - 1 {
        lemma_forest_depth_max(s.subrange(0, s.len() - 1), i);
    }
}

/// Stepper over the leaves of a subtree.
pub struct LeavesIter<'a> {
    stack: Vec<&'a GameNode>,
}

impl<'a> LeavesIter<'a> {
    /// The leaves still to come.
    pub closed spec fn remaining(&self) -> Seq<NodeModel> {
        stack_leaves(nodes_model(self.stack@))
    }

    spec fn size(&self) -> nat {
        stack_order(nodes_model(self.stack@)).len()
    }

    /// A stepper over the leaves of the subtree of `root`.
    pub fn new(root: &'a GameNode) -> (it: LeavesIter<'a>)
        ensures
            it.remaining() == leaves(root@),
    {
        let it = LeavesIter { stack: vec![root] };
        assert(nodes_model(it.stack@) =~= seq![root@]);
        assert(seq![root@].drop_last() =~= Seq::<NodeModel>::empty());
        assert(stack_leaves(Seq::<NodeModel>::empty()) =~= Seq::<NodeModel>::empty());
        assert(leaves(root@) + Seq::<NodeModel>::empty() =~= leaves(root@));
        it
    }

    /// The next leaf, if any.
    pub fn next(&mut self) -> (r: Option<&'a GameNode>)
        ensures
            old(self).remaining().len() == 0 ==> r is None && final(self).remaining().len() == 0,
            old(self).remaining().len() > 0 ==> (r matches Some(n) && n@ == old(self).remaining()[0]
                && final(self).remaining() == old(self).remaining().drop_first()),
    {
        let ghost want = self.remaining();
        loop
            invariant
                self.remaining() == want,
                want == old(self).remaining(),
            decreases self.size(),
        {
            let ghost old_stack = nodes_model(self.stack@);
            match self.stack.pop() {
                None => {
                    assert(old_stack =~= Seq::<NodeModel>::empty());
                    assert(stack_leaves(old_stack) =~= Seq::<NodeModel>::empty());
                    return None;
                },
                Some(node) => {
                    let ghost rest = nodes_model(self.stack@);
                    assert(old_stack.drop_last() =~= rest);
                    assert(old_stack.last() == node@);
                    assert(stack_leaves(old_stack) == leaves(node@) + stack_leaves(rest));
                    assert(stack_order(old_stack) == preorder(node@) + stack_order(rest));
                    if node.children.len() == 0 {
                        assert(leaves(node@) == seq![node@]);
                        assert((seq![node@] + stack_leaves(rest)).drop_first() =~= stack_leaves(rest));
                        return Some(node);
                    }
                    push_children_reversed(node, &mut self.stack);
                    assert((seq![node@] + pre_forest(node@.children)) + stack_order(rest) =~= seq![node@]
                        + (pre_forest(node@.children) + stack_order(rest)));
                }
            }
        }
    }
}

impl GameNode {
    /// All nodes of the subtree, depth-first.
    pub fn iter_dfs(&self) -> (r: Vec<&GameNode>)
        ensures
            nodes_model(r@) == preorder(self@),
    {
        let mut it = DfsIter::new(self);
        let mut out: Vec<&GameNode> = Vec::new();
        loop
            invariant
                nodes_model(out@) + it.remaining() == preorder(self@),
            decreases it.remaining().len(),
        {
            let ghost rem = it.remaining();
            match it.next() {
                Some(n) => {
                    proof {
                        lemma_nodes_push(out@, n);
                    }
                    let ghost before = nodes_model(out@);
                    out.push(n);
                    assert(before + rem =~= before.push(n@) + rem.drop_first());
                },
                None => {
                    assert(nodes_model(out@) + rem =~= nodes_model(out@));
                    return out;
                },
            }
        }
    }

    /// The node and the main line that follows it.
    pub fn iter_main_line(&self) -> (r: Vec<&GameNode>)
        ensures
            nodes_model(r@) == main_line_nodes(self@),
    {
        let mut it = MainLineIter::new(self);
        let mut out: Vec<&GameNode> = Vec::new();
        loop
            invariant
                nodes_model(out@) + it.remaining() == main_line_nodes(self@),
            decreases it.remaining().len(),
        {
            let ghost rem = it.remaining();
            match it.next() {
                Some(n) => {
                    proof {
                        lemma_nodes_push(out@, n);
                    }
                    let ghost before = nodes_model(out@);
                    out.push(n);
                    assert(before + rem =~= before.push(n@) + rem.drop_first());
                },
                None => {
                    assert(nodes_model(out@) + rem =~= nodes_model(out@));
                    return out;
                },
            }
        }
    }

    /// All nodes of the subtree, depth-first, each with its depth below this node.
    pub fn iter_with_depth(&self) -> (r: Vec<(&GameNode, usize)>)
        requires
            node_count(self@) <= usize::MAX,
        ensures
            depth_items(r@) == with_depth(self@, 0),
    {
        proof {
            lemma_depth_bound(self@);
        }
        let mut it = DepthIter::new(self);
        let mut out: Vec<(&GameNode, usize)> = Vec::new();
        loop
            invariant
                it.bounded(),
                depth_items(out@) + it.remaining() == with_depth(self@, 0),
            decreases it.remaining().len(),
        {
            let ghost rem = it.remaining();
            match it.next() {
                Some(e) => {
                    let ghost before = depth_items(out@);
                    out.push(e);
                    assert(depth_items(out@) =~= before.push((e.0@, e.1 as int)));
                    assert(before + rem =~= before.push((e.0@, e.1 as int)) + rem.drop_first());
                },
                None => {
                    assert(depth_items(out@) + rem =~= depth_items(out@));
                    return out;
                },
            }
        }
    }

    /// The leaves of the subtree, left to right.
    pub fn iter_leaves(&self) -> (r: Vec<&GameNode>)
        ensures
            nodes_model(r@) == leaves(self@),
    {
        let mut it = LeavesIter::new(self);
        let mut out: Vec<&GameNode> = Vec::new();
        loop
            invariant
                nodes_model(out@) + it.remaining() == leaves(self@),
            decreases it.remaining().len(),
        {
            let ghost rem = it.remaining();
            match it.next() {
                Some(n) => {
                    proof {
                        lemma_nodes_push(out@, n);
                    }
                    let ghost before = nodes_model(out@);
                    out.push(n);
                    assert(before + rem =~= before.push(n@) + rem.drop_first());
                },
                None => {
                    assert(nodes_model(out@) + rem =~= nodes_model(out@));
                    return out;
                },
            }
        }
    }
}

} // verus!
