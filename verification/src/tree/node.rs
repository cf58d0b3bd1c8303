//! GameNode - a single position/move in the game tree.

use vstd::prelude::*;
use crate::text::{push_dec, push_str, str_chars};
use crate::nag::Nag;
use crate::tree::model::{at_path, empty_node, child_index, comment_count, depth, forest_comments, forest_count, forest_depth, forest_leaves, GameNode, NodeModel, is_root_model, lemma_comment_bound, lemma_depth_bound, lemma_first_with_san, lemma_first_with_san_bound, lemma_forest_count_step, lemma_forest_depth_bound, lemma_forest_monotone, lemma_forest_take_all, group_node_model, lemma_path_indices, lemma_single_step, leaf_count, main_line_len, models, move_text_spec, node_count, path_indices, path_lookup, replace_at, valid_path, with_child};
use crate::tree::san::{normalize, normalize_chars, normalize_spec};

verus! {

broadcast use {vstd::string::group_string_axioms, group_node_model};

impl GameNode {
    /// A new empty root node.
    pub fn root() -> (n: GameNode)
        ensures
            n@ == empty_node(),
            n@.san.len() == 0,
            n@.move_number is None,
            !n@.is_black,
            n@.comment.len() == 0,
            n@.nags.len() == 0,
            n@.children.len() == 0,
    {
        let n = GameNode {
            san: String::new(),
            move_number: None,
            is_black: false,
            comment: String::new(),
            nags: Vec::new(),
            children: Vec::new(),
        };
        assert(n@.children =~= Seq::<NodeModel>::empty());
        assert(n@.san =~= Seq::<char>::empty());
        assert(n@.comment =~= Seq::<char>::empty());
        assert(n@.nags =~= Seq::<Nag>::empty());
        n
    }

    /// A new node for a move, with no number, comment, NAGs or children.
    pub fn new(san: &str) -> (n: GameNode)
        ensures
            n@.san == san@,
            n@.move_number is None,
            !n@.is_black,
            n@.comment.len() == 0,
            n@.nags.len() == 0,
            n@.children.len() == 0,
    {
        GameNode {
            san: san.to_owned(),
            move_number: None,
            is_black: false,
            comment: String::new(),
            nags: Vec::new(),
            children: Vec::new(),
        }
    }

    /// Whether this is the root node (no move and no move number).
    pub fn is_root(&self) -> (b: bool)
        ensures
            b == is_root_model(self@),
    {
        self.san.as_str().is_empty() && self.move_number.is_none()
    }

    /// The first (main line) child.
    pub fn main_line(&self) -> (r: Option<&GameNode>)
        ensures
            r is Some <==> self.children@.len() > 0,
            r matches Some(c) ==> *c == self.children@[0],
    {
        if self.children.len() > 0 {
            Some(&self.children[0])
        } else {
            None
        }
    }

    /// The first (main line) child, for changing it.
    pub fn main_line_mut(&mut self) -> (r: Option<&mut GameNode>)
        ensures
            r is Some <==> old(self).children@.len() > 0,
            r is None ==> *final(self) == *old(self),
            r matches Some(c) ==> c@ == old(self)@.children[0],
            r is Some ==> final(self)@ == replace_at(old(self)@, seq![0usize], final(r.unwrap())@),
    {
        if self.children.len() > 0 {
            proof {
                lemma_single_step(self@, 0, self@);
            }
            let p = [0usize];
            assert(p@ =~= seq![0usize]);
            let r = self.navigate_path_mut(&p);
            Some(r)
        } else {
            None
        }
    }

    /// The variation children: all but the first.
    pub fn variations(&self) -> (r: &[GameNode])
        ensures
            r@ == (if self.children@.len() > 1 {
                self.children@.subrange(1, self.children@.len() as int)
            } else {
                Seq::<GameNode>::empty()
            }),
    {
        if self.children.len() > 1 {
            let n = self.children.len();
            &self.children.as_slice()[1..n]
        } else {
            &[]
        }
    }

    /// Whether the node has alternative variations.
    pub fn has_variations(&self) -> (b: bool)
        ensures
            b == (self.children@.len() > 1),
    {
        self.children.len() > 1
    }

    /// Whether the node has any children.
    pub fn has_children(&self) -> (b: bool)
        ensures
            b == (self.children@.len() > 0),
    {
        self.children.len() > 0
    }

    /// Whether this is a leaf node.
    pub fn is_leaf(&self) -> (b: bool)
        ensures
            b == (self.children@.len() == 0),
    {
        self.children.len() == 0
    }

    /// The move with its number: "1. e4" or "1... e5".
    pub fn move_text(&self) -> (s: String)
        ensures
            s@ == move_text_spec(self@),
    {
        if self.san.as_str().is_empty() {
            return String::new();
        }
        match self.move_number {
            Some(n) => {
                let mut s = String::new();
                push_dec(&mut s, n as u64);
                if self.is_black {
                    push_str(&mut s, "... ");
                } else {
                    push_str(&mut s, ". ");
                }
                push_str(&mut s, self.san.as_str());
                s
            },
            None => self.san.clone(),
        }
    }

    /// Index of the first child whose move matches `san` (normalized comparison).
    pub fn find_child_index(&self, san: &str) -> (r: Option<usize>)
        ensures
            r matches Some(i) ==> child_index(self@, san@) == Some(i as nat),
            r is None ==> child_index(self@, san@) is None,
    {
        let key = normalize_chars(&str_chars(san));
        let ghost k = normalize_spec(san@);
        let mut i: usize = 0;
        while i < self.children.len()
            invariant
                i <= self.children@.len(),
                key@ == k,
                k == normalize_spec(san@),
                forall|j: int| 0 <= j < i ==> normalize_spec(#[trigger] self@.children[j].san) != k,
            decreases self.children@.len() - i,
        {
            let c = normalize_chars(&str_chars(self.children[i].san.as_str()));
            assert(self@.children[i as int].san == self.children@[i as int].san@);
            if crate::text::chars_eq(&c, &key) {
                proof {
                    lemma_first_with_san(self@.children, k, i as int);
                }
                return Some(i);
            }
            i = i + 1;
        }
        proof {
            lemma_first_with_san(self@.children, k, i as int);
        }
        None
    }

    /// Find a child by SAN move (normalized comparison).
    pub fn find_child(&self, san: &str) -> (r: Option<&GameNode>)
        ensures
            r is Some <==> child_index(self@, san@) is Some,
            r matches Some(c) ==> c@ == self@.children[child_index(self@, san@)->0 as int],
    {
        match self.find_child_index(san) {
            Some(i) => {
                proof {
                    lemma_first_with_san_bound(self@.children, normalize_spec(san@));
                }
                Some(&self.children[i])
            },
            None => None,
        }
    }

    /// Find a child by SAN move (mutable).
    pub fn find_child_mut(&mut self, san: &str) -> (r: Option<&mut GameNode>)
        ensures
            r is Some <==> child_index(old(self)@, san@) is Some,
            r is None ==> *final(self) == *old(self),
            r matches Some(c) ==> c@ == old(self)@.children[child_index(old(self)@, san@)->0 as int],
            r is Some ==> final(self)@ == replace_at(
                old(self)@,
                seq![child_index(old(self)@, san@)->0 as usize],
                final(r.unwrap())@,
            ),
    {
        match self.find_child_index(san) {
            Some(i) => {
                proof {
                    lemma_first_with_san_bound(self@.children, normalize_spec(san@));
                }
                proof {
                    lemma_single_step(self@, i, self@);
                }
                let p = [i];
                assert(p@ =~= seq![i]);
                Some(self.navigate_path_mut(&p))
            },
            None => None,
        }
    }

    /// Navigate to a node following a path of moves.
    pub fn find_path(&self, path: &[&str]) -> (r: Option<&GameNode>)
        ensures
            r is Some <==> path_lookup(self@, path@.map_values(|s: &str| s@)) is Some,
            r matches Some(c) ==> c@ == path_lookup(self@, path@.map_values(|s: &str| s@))->0,
    {
        let ghost ps = path@.map_values(|s: &str| s@);
        let mut current: &GameNode = self;
        let mut i: usize = 0;
        assert(ps.skip(0) =~= ps);
        while i < path.len()
            invariant
                i <= path@.len(),
                ps == path@.map_values(|s: &str| s@),
                path_lookup(self@, ps) == path_lookup(current@, ps.skip(i as int)),
            decreases path@.len() - i,
        {
            assert(ps.skip(i as int).drop_first() =~= ps.skip(i + 1));
            assert(ps.skip(i as int)[0] == path@[i as int]@);
            match current.find_child(path[i]) {
                Some(c) => {
                    current = c;
                },
                None => {
                    return None;
                },
            }
            i = i + 1;
        }
        assert(ps.skip(i as int) =~= Seq::<Seq<char>>::empty());
        Some(current)
    }

    /// The child indices leading along a path of moves, where it exists.
    pub fn find_path_indices(&self, path: &[&str]) -> (r: Option<Vec<usize>>)
        ensures
            r is Some <==> path_indices(self@, path@.map_values(|s: &str| s@)) is Some,
            r matches Some(v) ==> v@ == path_indices(self@, path@.map_values(|s: &str| s@))->0,
    {
        let ghost ps = path@.map_values(|s: &str| s@);
        let mut current: &GameNode = self;
        let mut idx: Vec<usize> = Vec::new();
        let mut i: usize = 0;
        assert(ps.skip(0) =~= ps);
        assert(Seq::<usize>::empty() + path_indices(self@, ps).unwrap_or(Seq::empty()) =~= path_indices(self@, ps).unwrap_or(Seq::empty()));
        while i < path.len()
            invariant
                i <= path@.len(),
                ps == path@.map_values(|s: &str| s@),
                path_indices(self@, ps) == (match path_indices(current@, ps.skip(i as int)) {
                    Some(rest) => Some(idx@ + rest),
                    None => None::<Seq<usize>>,
                }),
            decreases path@.len() - i,
        {
            assert(ps.skip(i as int).drop_first() =~= ps.skip(i + 1));
            assert(ps.skip(i as int)[0] == path@[i as int]@);
            match current.find_child_index(path[i]) {
                Some(k) => {
                    proof {
                        lemma_first_with_san_bound(current@.children, normalize_spec(path@[i as int]@));
                        let rest = path_indices(current.children@[k as int]@, ps.skip(i + 1));
                        if let Some(r) = rest {
                            assert(idx@.push(k) + r =~= idx@ + (seq![k] + r));
                        }
                    }
                    idx.push(k);
                    current = &current.children[k];
                },
                None => {
                    return None;
                },
            }
            i = i + 1;
        }
        assert(ps.skip(i as int) =~= Seq::<Seq<char>>::empty());
        assert(idx@ + Seq::<usize>::empty() =~= idx@);
        Some(idx)
    }

    /// Navigate to a node following a path of moves (mutable).
    pub fn find_path_mut(&mut self, path: &[&str]) -> (r: Option<&mut GameNode>)
        ensures
            r is Some <==> path_lookup(old(self)@, path@.map_values(|s: &str| s@)) is Some,
            r is None ==> *final(self) == *old(self),
            r matches Some(c) ==> c@ == path_lookup(old(self)@, path@.map_values(|s: &str| s@))->0,
            r is Some ==> final(self)@ == replace_at(
                old(self)@,
                path_indices(old(self)@, path@.map_values(|s: &str| s@))->0,
                final(r.unwrap())@,
            ),
    {
        proof {
            lemma_path_indices(*self, path@.map_values(|s: &str| s@));
        }
        match self.find_path_indices(path) {
            Some(idx) => Some(self.navigate_path_mut(&idx)),
            None => None,
        }
    }

    /// The node at a path of child indices.
    pub fn node_at(&self, path: &[usize]) -> (r: &GameNode)
        requires
            valid_path(self@, path@),
        ensures
            r@ == at_path(self@, path@),
    {
        let mut cur = self;
        let mut k: usize = 0;
        assert(path@.skip(0) =~= path@);
        while k < path.len()
            invariant
                k <= path@.len(),
                valid_path(cur@, path@.skip(k as int)),
                at_path(self@, path@) == at_path(cur@, path@.skip(k as int)),
            decreases path@.len() - k,
        {
            assert(path@.skip(k as int).drop_first() =~= path@.skip(k + 1));
            assert(path@.skip(k as int)[0] == path@[k as int]);
            cur = &cur.children[path[k]];
            k = k + 1;
        }
        assert(path@.skip(k as int) =~= Seq::<usize>::empty());
        cur
    }

    /// The node at a path of child indices, for changing it.
    pub fn navigate_path_mut(&mut self, path: &[usize]) -> (r: &mut GameNode)
        requires
            valid_path(old(self)@, path@),
        ensures
            r@ == at_path(old(self)@, path@),
            final(self)@ == replace_at(old(self)@, path@, final(r)@),
    {
        assert(path@.skip(0) =~= path@);
        self.navigate_from(path, 0)
    }

    fn navigate_from(&mut self, path: &[usize], k: usize) -> (r: &mut GameNode)
        requires
            k <= path@.len(),
            valid_path(old(self)@, path@.skip(k as int)),
        ensures
            r@ == at_path(old(self)@, path@.skip(k as int)),
            final(self)@ == replace_at(old(self)@, path@.skip(k as int), final(r)@),
        decreases path@.len() - k,
    {
        if k == path.len() {
            self
        } else {
            let i = path[k];
            assert(path@.skip(k as int).drop_first() =~= path@.skip(k + 1));
            let child = &mut self.children[i];
            child.navigate_from(path, k + 1)
        }
    }

    /// Count all nodes in this subtree.
    pub fn count_nodes(&self) -> (r: usize)
        requires
            node_count(self@) <= usize::MAX,
        ensures
            r == node_count(self@),
        decreases self,
    {
        let mut total: usize = 1;
        let mut i: usize = 0;
        let ghost s = self@.children;
        while i < self.children.len()
            invariant
                i <= self.children@.len(),
                s == self@.children,
                node_count(self@) <= usize::MAX,
                total == 1 + forest_count(s.take(i as int)),
            decreases self.children@.len() - i,
        {
            proof {
                lemma_forest_count_step(s, i as int);
                lemma_forest_monotone(s, i + 1);
            }
            let c = self.children[i].count_nodes();
            total = total + c;
            i = i + 1;
        }
        proof {
            lemma_forest_take_all(s);
        }
        total
    }

    /// Count leaf nodes (lines) in this subtree.
    pub fn count_leaves(&self) -> (r: usize)
        requires
            node_count(self@) <= usize::MAX,
        ensures
            r == leaf_count(self@),
        decreases self,
    {
        if self.children.len() == 0 {
            return 1;
        }
        let mut total: usize = 0;
        let mut i: usize = 0;
        let ghost s = self@.children;
        proof {
            lemma_forest_depth_bound(s);
        }
        while i < self.children.len()
            invariant
                i <= self.children@.len(),
                s == self@.children,
                forest_count(s) < usize::MAX,
                forest_leaves(s) <= forest_count(s),
                total == forest_leaves(s.take(i as int)),
            decreases self.children@.len() - i,
        {
            proof {
                lemma_forest_count_step(s, i as int);
                lemma_forest_monotone(s, i + 1);
            }
            let c = self.children[i].count_leaves();
            total = total + c;
            i = i + 1;
        }
        proof {
            lemma_forest_take_all(s);
        }
        total
    }

    /// Count nodes with comments.
    pub fn count_comments(&self) -> (r: usize)
        requires
            node_count(self@) <= usize::MAX,
        ensures
            r == comment_count(self@),
        decreases self,
    {
        proof {
            lemma_comment_bound(self@);
        }
        let mut total: usize = if self.comment.as_str().is_empty() { 0 } else { 1 };
        let mut i: usize = 0;
        let ghost s = self@.children;
        while i < self.children.len()
            invariant
                i <= self.children@.len(),
                s == self@.children,
                node_count(self@) <= usize::MAX,
                comment_count(self@) <= node_count(self@),
                forest_comments(s) <= forest_count(s),
                total == (if self@.comment.len() > 0 { 1nat } else { 0nat }) + forest_comments(
                    s.take(i as int),
                ),
            decreases self.children@.len() - i,
        {
            proof {
                lemma_forest_count_step(s, i as int);
                lemma_forest_monotone(s, i + 1);
                lemma_comment_bound(s[i as int]);
            }
            let c = self.children[i].count_comments();
            total = total + c;
            i = i + 1;
        }
        proof {
            lemma_forest_take_all(s);
        }
        total
    }

    /// Maximum depth of this subtree (0 for a leaf).
    pub fn max_depth(&self) -> (r: usize)
        requires
            node_count(self@) <= usize::MAX,
        ensures
            r == depth(self@),
        decreases self,
    {
        if self.children.len() == 0 {
            return 0;
        }
        let mut best: usize = 0;
        let mut i: usize = 0;
        let ghost s = self@.children;
        proof {
            lemma_depth_bound(self@);
        }
        while i < self.children.len()
            invariant
                i <= self.children@.len(),
                s == self@.children,
                node_count(self@) <= usize::MAX,
                depth(self@) < node_count(self@),
                forest_count(s) < usize::MAX,
                best == forest_depth(s.take(i as int)),
            decreases self.children@.len() - i,
        {
            proof {
                lemma_forest_count_step(s, i as int);
                lemma_forest_monotone(s, i + 1);
            }
            let d = self.children[i].max_depth();
            if d > best {
                best = d;
            }
            i = i + 1;
        }
        proof {
            lemma_forest_take_all(s);
        }
        best + 1
    }

    /// Number of moves along the main line from this node.
    pub fn main_line_length(&self) -> (r: usize)
        requires
            node_count(self@) <= usize::MAX,
        ensures
            r == main_line_len(self@),
        decreases self,
    {
        if self.children.len() == 0 {
            0
        } else {
            proof {
                lemma_depth_bound(self@);
                lemma_forest_count_step(self@.children, 0);
                lemma_forest_monotone(self@.children, 1);
            }
            1 + self.children[0].main_line_length()
        }
    }

    /// Add a child node and return a mutable reference to it.
    pub fn add_child(&mut self, child: GameNode) -> (r: &mut GameNode)
        ensures
            r@ == child@,
            final(self)@ == with_child(old(self)@, final(r)@),
    {
        self.children.push(child);
        let n = self.children.len();
        let ghost mid = self@;
        proof {
            lemma_single_step(mid, (n - 1) as usize, mid);
            assert(mid.children =~= old(self)@.children.push(child@));
        }
        let p = [n - 1];
        assert(p@ =~= seq![(n - 1) as usize]);
        let r = self.navigate_path_mut(&p);
        proof {
            lemma_single_step(mid, (n - 1) as usize, final(r)@);
            assert(mid.children.update(n - 1, final(r)@) =~= old(self)@.children.push(final(r)@));
        }
        r
    }

    /// A deep copy of this subtree.
    pub fn deep_clone(&self) -> (r: GameNode)
        ensures
            r@ == self@,
        decreases self,
    {
        let mut children: Vec<GameNode> = Vec::new();
        let mut i: usize = 0;
        while i < self.children.len()
            invariant
                i <= self.children@.len(),
                models(children@) == models(self.children@.take(i as int)),
            decreases self.children@.len() - i,
        {
            let c = self.children[i].deep_clone();
            children.push(c);
            assert(models(children@) =~= models(self.children@.take(i + 1)));
            i = i + 1;
        }
        let r = GameNode {
            san: self.san.clone(),
            move_number: self.move_number,
            is_black: self.is_black,
            comment: self.comment.clone(),
            nags: self.nags.clone(),
            children,
        };
        assert(self.children@.take(self.children@.len() as int) =~= self.children@);
        assert(r@.children =~= self@.children);
        assert(r@.nags =~= self@.nags);
        r
    }
}

impl Default for GameNode {
    fn default() -> (n: GameNode)
        ensures
            n@.san.len() == 0,
            n@.move_number is None,
            n@.children.len() == 0,
    {
        GameNode::root()
    }
}

impl Clone for GameNode {
    fn clone(&self) -> (r: GameNode)
        ensures
            r@ == self@,
    {
        self.deep_clone()
    }
}

/// Normalize SAN for comparison (strip move numbers and whitespace).
pub fn normalize_san(san: &str) -> (r: String)
    ensures
        r@ == normalize_spec(san@),
{
    normalize(san)
}

} // verus!
