//! Node paths such as "e4/e5/Nf3", "e4/c5:1" or "e4/**": parsing them, and
//! finding the nodes of a tree that they lead to.

use vstd::prelude::*;
use crate::error::Error;
use crate::text::{chars_eq, is_ws, lemma_trim_noop, parse_unsigned, parse_unsigned_at, push_chars, push_str, str_chars, string_of, sub_chars, trim, trim_chars};
use crate::tree::game::GameTree;
use crate::tree::iter::{main_line_nodes, pre_forest, preorder};
use crate::tree::model::{at_path, child_index, path_lookup, forest_count, group_node_model, lemma_first_with_san_bound, lemma_path_push, main_line_len, node_count, valid_path, GameNode, NodeModel};
use crate::tree::san::{normalize, normalize_chars, normalize_spec};

verus! {

broadcast use {vstd::string::group_string_axioms, group_node_model};

/// A segment of a node path.
#[derive(Debug, Clone)]
pub enum PathSegment {
    /// A move, optionally with the index of the child it must be.
    Move { san: String, variation_index: Option<usize> },
    /// The node the path starts from.
    Root,
    /// Follow the main line to its end.
    End,
    /// The child with this index.
    Variation(usize),
    /// All descendants (glob).
    AllDescendants,
    /// Direct children only.
    DirectChildren,
}

/// A path segment as plain values.
pub enum SegModel {
    Move(Seq<char>, Option<usize>),
    Root,
    End,
    Variation(usize),
    AllDescendants,
    DirectChildren,
}

impl View for PathSegment {
    type V = SegModel;

    open spec fn view(&self) -> SegModel {
        match self {
            PathSegment::Move { san, variation_index } => SegModel::Move(san@, *variation_index),
            PathSegment::Root => SegModel::Root,
            PathSegment::End => SegModel::End,
            PathSegment::Variation(i) => SegModel::Variation(*i),
            PathSegment::AllDescendants => SegModel::AllDescendants,
            PathSegment::DirectChildren => SegModel::DirectChildren,
        }
    }
}

impl PartialEq for PathSegment {
    fn eq(&self, other: &Self) -> (r: bool) {
        match (self, other) {
            (
                PathSegment::Move { san: a, variation_index: x },
                PathSegment::Move { san: b, variation_index: y },
            ) => {
                let same_index = match (x, y) {
                    (Some(i), Some(j)) => *i == *j,
                    (None, None) => true,
                    _ => false,
                };
                same_index && chars_eq(&str_chars(a.as_str()), &str_chars(b.as_str()))
            },
            (PathSegment::Root, PathSegment::Root) => true,
            (PathSegment::End, PathSegment::End) => true,
            (PathSegment::Variation(i), PathSegment::Variation(j)) => *i == *j,
            (PathSegment::AllDescendants, PathSegment::AllDescendants) => true,
            (PathSegment::DirectChildren, PathSegment::DirectChildren) => true,
            _ => false,
        }
    }
}

impl vstd::std_specs::cmp::PartialEqSpecImpl for PathSegment {
    open spec fn obeys_eq_spec() -> bool {
        true
    }

    open spec fn eq_spec(&self, other: &PathSegment) -> bool {
        self@ == other@
    }
}

/// A parsed node path.
#[derive(Debug, Clone)]
pub struct NodePath {
    pub segments: Vec<PathSegment>,
}

pub open spec fn segs_model(v: Seq<PathSegment>) -> Seq<SegModel> {
    v.map_values(|s: PathSegment| s@)
}

// ---------------------------------------------------------------------------
// Parsing
// ---------------------------------------------------------------------------

/// Index of the first `c` at or after `p`, or the length.
pub open spec fn next_char(s: Seq<char>, p: int, c: char) -> int
    decreases s.len() - p,
{
    if p < 0 || p >= s.len() {
        s.len() as int
    } else if s[p] == c {
        p
    } else {
        next_char(s, p + 1, c)
    }
}

/// Index of the last `c` in `s`, if any.
pub open spec fn last_char(s: Seq<char>, c: char) -> Option<int>
    decreases s.len(),
{
    if s.len() == 0 {
        None
    } else if s.last() == c {
        Some(s.len() - 1)
    } else {
        last_char(s.drop_last(), c)
    }
}

/// A move with surrounding whitespace and any move-number prefix removed.
pub open spec fn strip_move_number_spec(s: Seq<char>) -> Seq<char> {
    normalize_spec(s)
}

/// A move segment "e4", "1.e4", "c5:1" or "Nf3:v2": the move, without its
/// number, and the child index after the last colon; the message where
/// that index is not a number.
pub open spec fn move_segment_spec(s: Seq<char>) -> Result<SegModel, Seq<char>> {
    match last_char(s, ':') {
        Some(ci) => {
            let v = s.skip(ci + 1);
            let w = if v.len() > 0 && v[0] == 'v' { v.drop_first() } else { v };
            match parse_unsigned(w, usize::MAX as nat) {
                Some(i) => Ok(SegModel::Move(strip_move_number_spec(s.take(ci)), Some(i as usize))),
                None => Err("invalid variation index in: "@ + s),
            }
        },
        None => Ok(SegModel::Move(strip_move_number_spec(s), None)),
    }
}

/// The segment a trimmed part of a path gives: none for an empty part, a
/// selector, "@varN", or a move; the message where it is malformed.
pub open spec fn segment_spec(q: Seq<char>) -> Option<Result<SegModel, Seq<char>>> {
    if q.len() == 0 {
        None
    } else if q == "**"@ {
        Some(Ok(SegModel::AllDescendants))
    } else if q == "*"@ {
        Some(Ok(SegModel::DirectChildren))
    } else if q == "@end"@ {
        Some(Ok(SegModel::End))
    } else if q == "@root"@ {
        Some(Ok(SegModel::Root))
    } else if q.len() >= 4 && q.take(4) == "@var"@ {
        match parse_unsigned(trim(q.skip(4)), usize::MAX as nat) {
            Some(i) => Some(Ok(SegModel::Variation(i as usize))),
            None => Some(Err("invalid variation index: "@ + q)),
        }
    } else {
        Some(move_segment_spec(q))
    }
}

/// The segments of the parts of `t` separated by "/", from the part that
/// starts at `p`, after those in `acc`.
pub open spec fn parse_parts(t: Seq<char>, p: int, acc: Seq<SegModel>) -> Result<Seq<SegModel>, Seq<char>>
    decreases t.len() - p,
{
    if p < 0 || p > t.len() {
        Ok(acc)
    } else {
        let e = next_char(t, p, '/');
        let acc2 = match segment_spec(trim(t.subrange(p, e))) {
            Some(Ok(seg)) => Ok(acc.push(seg)),
            Some(Err(m)) => Err(m),
            None => Ok(acc),
        };
        match acc2 {
            Err(m) => Err(m),
            Ok(a) => if p <= e < t.len() {
                parse_parts(t, e + 1, a)
            } else {
                Ok(a)
            },
        }
    }
}

/// A path string parsed: its segments, or the message of why it is malformed.
pub open spec fn parse_path_spec(s: Seq<char>) -> Result<Seq<SegModel>, Seq<char>> {
    let t = trim(s);
    if t.len() == 0 {
        Err("empty path"@)
    } else if t == "@root"@ {
        Ok(seq![SegModel::Root])
    } else {
        parse_parts(t, 0, Seq::empty())
    }
}

pub proof fn lemma_next_char(s: Seq<char>, p: int, c: char)
    requires
        0 <= p <= s.len(),
    ensures
        p <= next_char(s, p, c) <= s.len(),
    decreases s.len() - p,
{
    if p < s.len() && s[p] != c {
        lemma_next_char(s, p + 1, c);
    }
}

fn is_word(v: &[char], w: &str) -> (b: bool)
    ensures
        b == (v@ == w@),
{
    chars_eq(v, &str_chars(w))
}

fn last_colon(v: &[char]) -> (r: Option<usize>)
    ensures
        match r {
            Some(i) => last_char(v@, ':') == Some(i as int) && i < v@.len(),
            None => last_char(v@, ':') is None,
        },
{
    let mut k = v.len();
    assert(v@.take(k as int) =~= v@);
    while k > 0
        invariant
            k <= v@.len(),
            last_char(v@, ':') == last_char(v@.take(k as int), ':'),
        decreases k,
    {
        assert(v@.take(k as int).last() == v@[k - 1]);
        assert(v@.take(k as int).drop_last() =~= v@.take(k - 1));
        if v[k - 1] == ':' {
            return Some(k - 1);
        }
        k = k - 1;
    }
    None
}

/// Strip a move number prefix such as "1." or "1..." from a move.
pub fn strip_move_number(s: &str) -> (r: String)
    ensures
        r@ == strip_move_number_spec(s@),
{
    normalize(s)
}

/// Whether two moves are the same once their move numbers are stripped.
pub fn moves_match(san1: &str, san2: &str) -> (r: bool)
    ensures
        r == (strip_move_number_spec(san1@) == strip_move_number_spec(san2@)),
{
    crate::tree::san::moves_match(san1, san2)
}

fn index_error(prefix: &str, part: &[char]) -> (e: Error)
    ensures
        e matches Error::InvalidPath(m) && m@ == prefix@ + part@,
{
    let mut m = String::new();
    push_str(&mut m, prefix);
    push_chars(&mut m, part);
    Error::InvalidPath(m)
}

/// Parse a move segment like "e4", "1.e4", "e4:1" or "Nf3:v2".
pub fn parse_move_segment(s: &[char]) -> (r: Result<PathSegment, Error>)
    ensures
        match move_segment_spec(s@) {
            Ok(seg) => r matches Ok(p) && p@ == seg,
            Err(m) => r matches Err(Error::InvalidPath(x)) && x@ == m,
        },
{
    let n = s.len();
    match last_colon(s) {
        Some(ci) => {
            let start = if ci + 1 < n && s[ci + 1] == 'v' {
                ci + 2
            } else {
                ci + 1
            };
            assert(s@.skip(start as int) == (if s@.skip(ci + 1).len() > 0 && s@.skip(ci + 1)[0] == 'v' {
                s@.skip(ci + 1).drop_first()
            } else {
                s@.skip(ci + 1)
            }));
            match parse_unsigned_at(s, start, usize::MAX as u64) {
                Some(i) => {
                    let head = string_of(&sub_chars(s, 0, ci));
                    assert(s@.subrange(0, ci as int) =~= s@.take(ci as int));
                    Ok(PathSegment::Move { san: normalize(head.as_str()), variation_index: Some(i as usize) })
                },
                None => Err(index_error("invalid variation index in: ", s)),
            }
        },
        None => {
            let whole = string_of(s);
            Ok(PathSegment::Move { san: normalize(whole.as_str()), variation_index: None })
        },
    }
}

fn segment_of(q: &[char]) -> (r: Option<Result<PathSegment, Error>>)
    ensures
        match segment_spec(q@) {
            None => r is None,
            Some(Ok(seg)) => r matches Some(Ok(p)) && p@ == seg,
            Some(Err(m)) => r matches Some(Err(Error::InvalidPath(x))) && x@ == m,
        },
{
    if q.len() == 0 {
        return None;
    }
    if is_word(q, "**") {
        return Some(Ok(PathSegment::AllDescendants));
    }
    if is_word(q, "*") {
        return Some(Ok(PathSegment::DirectChildren));
    }
    if is_word(q, "@end") {
        return Some(Ok(PathSegment::End));
    }
    if is_word(q, "@root") {
        return Some(Ok(PathSegment::Root));
    }
    if q.len() >= 4 && is_word(&sub_chars(q, 0, 4), "@var") {
        assert(q@.subrange(0, 4) =~= q@.take(4));
        let rest = trim_chars(&sub_chars(q, 4, q.len()));
        assert(q@.subrange(4, q@.len() as int) =~= q@.skip(4));
        assert(rest@.skip(0) =~= rest@);
        return match parse_unsigned_at(&rest, 0, usize::MAX as u64) {
            Some(i) => Some(Ok(PathSegment::Variation(i as usize))),
            None => Some(Err(index_error("invalid variation index: ", q))),
        };
    }
    proof {
        if q@.len() >= 4 {
            assert(q@.subrange(0, 4) =~= q@.take(4));
        }
    }
    Some(parse_move_segment(q))
}

impl NodePath {
    /// Parse a path string like "e4/e5/Nf3" or "e4/c5:1".
    pub fn parse(s: &str) -> (r: Result<NodePath, Error>)
        ensures
            match parse_path_spec(s@) {
                Ok(segs) => r matches Ok(p) && segs_model(p.segments@) == segs,
                Err(m) => r matches Err(Error::InvalidPath(x)) && x@ == m,
            },
    {
        let t = trim_chars(&str_chars(s));
        if t.len() == 0 {
            return Err(Error::InvalidPath("empty path".to_owned()));
        }
        if is_word(&t, "@root") {
            let segments = vec![PathSegment::Root];
            assert(segs_model(segments@) =~= seq![SegModel::Root]);
            return Ok(NodePath { segments });
        }
        let mut segments: Vec<PathSegment> = Vec::new();
        let mut p: usize = 0;
        assert(segs_model(segments@) =~= Seq::<SegModel>::empty());
        loop
            invariant
                p <= t@.len(),
                parse_path_spec(s@) == parse_parts(t@, p as int, segs_model(segments@)),
            decreases t@.len() - p,
        {
            proof {
                lemma_next_char(t@, p as int, '/');
            }
            let mut e = p;
            while e < t.len() && t[e] != '/'
                invariant
                    p <= e <= t@.len(),
                    next_char(t@, p as int, '/') == next_char(t@, e as int, '/'),
                decreases t@.len() - e,
            {
                e = e + 1;
            }
            let part = trim_chars(&sub_chars(&t, p, e));
            match segment_of(&part) {
                Some(Ok(seg)) => {
                    let ghost before = segs_model(segments@);
                    segments.push(seg);
                    assert(segs_model(segments@) =~= before.push(segments@.last()@));
                },
                Some(Err(err)) => {
                    return Err(err);
                },
                None => {},
            }
            if e < t.len() {
                p = e + 1;
            } else {
                return Ok(NodePath { segments });
            }
        }
    }
}

// ---------------------------------------------------------------------------
// Resolution
// ---------------------------------------------------------------------------

/// The last node of the main line from `n`.
pub open spec fn main_line_end(n: NodeModel) -> NodeModel
    decreases n,
{
    if n.children.len() == 0 {
        n
    } else {
        main_line_end(n.children[0])
    }
}

/// Where one segment leads from `cur` when a single node is wanted.
pub open spec fn resolve_step(cur: NodeModel, seg: SegModel) -> Option<NodeModel> {
    match seg {
        SegModel::Move(san, Some(i)) => if i < cur.children.len() && strip_move_number_spec(
            cur.children[i as int].san,
        ) == strip_move_number_spec(san) {
            Some(cur.children[i as int])
        } else {
            None
        },
        SegModel::Move(san, None) => match child_index(cur, san) {
            Some(k) => Some(cur.children[k as int]),
            None => None,
        },
        SegModel::End => Some(main_line_end(cur)),
        SegModel::Variation(i) => if i < cur.children.len() {
            Some(cur.children[i as int])
        } else {
            None
        },
        _ => Some(cur),
    }
}

/// The node the segments from index `i` lead to from `cur`, if any;
/// "@root" goes back to `start`.
pub open spec fn resolve_spec(start: NodeModel, cur: NodeModel, segs: Seq<SegModel>, i: int) -> Option<NodeModel>
    decreases segs.len() - i,
{
    if i < 0 || i >= segs.len() {
        Some(cur)
    } else if segs[i] is Root {
        resolve_spec(start, start, segs, i + 1)
    } else {
        match resolve_step(cur, segs[i]) {
            Some(c) => resolve_spec(start, c, segs, i + 1),
            None => None,
        }
    }
}

/// `n` zeros: the child indices of a walk down the main line.
pub open spec fn zeros(n: nat) -> Seq<usize> {
    Seq::new(n, |j: int| 0usize)
}

/// The child indices that one segment follows from `cur` when a single
/// node is wanted (none for the selectors that stay where they are).
pub open spec fn step_indices(cur: NodeModel, seg: SegModel) -> Option<Seq<usize>> {
    match seg {
        SegModel::Move(san, Some(i)) => if i < cur.children.len() && strip_move_number_spec(
            cur.children[i as int].san,
        ) == strip_move_number_spec(san) {
            Some(seq![i])
        } else {
            None
        },
        SegModel::Move(san, None) => match child_index(cur, san) {
            Some(k) => Some(seq![k as usize]),
            None => None,
        },
        SegModel::End => Some(zeros(main_line_len(cur))),
        SegModel::Variation(i) => if i < cur.children.len() {
            Some(seq![i])
        } else {
            None
        },
        _ => Some(Seq::empty()),
    }
}

/// The child indices, from `start`, of the node the segments from index
/// `i` lead to from `cur`, `acc` being the indices of `cur`; "@root" goes
/// back to `start`.
pub open spec fn resolve_indices_spec(
    start: NodeModel,
    cur: NodeModel,
    segs: Seq<SegModel>,
    i: int,
    acc: Seq<usize>,
) -> Option<Seq<usize>>
    decreases segs.len() - i,
{
    if i < 0 || i >= segs.len() {
        Some(acc)
    } else if segs[i] is Root {
        resolve_indices_spec(start, start, segs, i + 1, Seq::empty())
    } else {
        match step_indices(cur, segs[i]) {
            Some(q) => resolve_indices_spec(start, at_path(cur, q), segs, i + 1, acc + q),
            None => None,
        }
    }
}

/// Walking down the main line ends at its last node.
proof fn lemma_zeros_end(n: NodeModel)
    ensures
        valid_path(n, zeros(main_line_len(n))),
        at_path(n, zeros(main_line_len(n))) == main_line_end(n),
    decreases n,
{
    let z = zeros(main_line_len(n));
    if n.children.len() > 0 {
        lemma_zeros_end(n.children[0]);
        assert(z.drop_first() =~= zeros(main_line_len(n.children[0])));
        assert(z[0] == 0);
    } else {
        assert(z =~= Seq::<usize>::empty());
    }
}

/// The indices of one step lead to the node of that step.
proof fn lemma_step_indices(cur: NodeModel, seg: SegModel)
    requires
        cur.children.len() <= usize::MAX,
    ensures
        step_indices(cur, seg) is Some <==> resolve_step(cur, seg) is Some,
        step_indices(cur, seg) matches Some(q) ==> valid_path(cur, q) && at_path(cur, q) == resolve_step(
            cur,
            seg,
        )->0,
{
    reveal_with_fuel(valid_path, 2);
    reveal_with_fuel(at_path, 2);
    match seg {
        SegModel::End => {
            lemma_zeros_end(cur);
        },
        SegModel::Move(san, None) => {
            if let Some(k) = child_index(cur, san) {
                lemma_first_with_san_bound(cur.children, normalize_spec(san));
                assert(seq![k as usize].drop_first() =~= Seq::<usize>::empty());
            }
        },
        SegModel::Move(san, Some(i)) => {
            assert(seq![i].drop_first() =~= Seq::<usize>::empty());
        },
        SegModel::Variation(i) => {
            assert(seq![i].drop_first() =~= Seq::<usize>::empty());
        },
        _ => {},
    }
}

/// `n` and its descendants: `n`, then the subtrees of its children from
/// the last child to the first, each in the same order.
pub open spec fn rdfs(n: NodeModel) -> Seq<NodeModel>
    decreases n,
{
    seq![n] + rdfs_forest(n.children)
}

pub open spec fn rdfs_forest(s: Seq<NodeModel>) -> Seq<NodeModel>
    decreases s,
{
    if s.len() == 0 {
        Seq::empty()
    } else {
        rdfs(s[s.len() - 1]) + rdfs_forest(s.subrange(0, s.len() - 1))
    }
}

/// The nodes one segment gives from one node, when all are wanted.
pub open spec fn seg_nodes(n: NodeModel, seg: SegModel) -> Seq<NodeModel> {
    match seg {
        SegModel::AllDescendants => rdfs(n),
        SegModel::DirectChildren => n.children,
        _ => match resolve_step(n, seg) {
            Some(c) => seq![c],
            None => Seq::empty(),
        },
    }
}

/// The nodes one segment gives from each node of `cur`, in order.
pub open spec fn seg_nodes_all(cur: Seq<NodeModel>, seg: SegModel) -> Seq<NodeModel>
    decreases cur.len(),
{
    if cur.len() == 0 {
        Seq::empty()
    } else {
        seg_nodes_all(cur.drop_last(), seg) + seg_nodes(cur.last(), seg)
    }
}

/// The nodes the segments from index `i` lead to from the nodes `cur`;
/// "@root" goes back to `start`; the walk stops where no node is left.
pub open spec fn resolve_all_spec(start: NodeModel, segs: Seq<SegModel>, i: int, cur: Seq<NodeModel>) -> Seq<NodeModel>
    decreases segs.len() - i,
{
    if i < 0 || i >= segs.len() {
        cur
    } else {
        let next = if segs[i] is Root {
            seq![start]
        } else {
            seg_nodes_all(cur, segs[i])
        };
        if next.len() == 0 {
            next
        } else {
            resolve_all_spec(start, segs, i + 1, next)
        }
    }
}

pub open spec fn nodes_model(v: Seq<&GameNode>) -> Seq<NodeModel> {
    v.map_values(|n: &GameNode| n@)
}

proof fn lemma_nodes_push(v: Seq<&GameNode>, n: &GameNode)
    ensures
        nodes_model(v.push(n)) == nodes_model(v).push(n@),
{
    assert(nodes_model(v.push(n)) =~= nodes_model(v).push(n@));
}

fn main_line_end_exec(n: &GameNode) -> (r: &GameNode)
    ensures
        r@ == main_line_end(n@),
{
    let mut cur = n;
    while cur.children.len() > 0
        invariant
            main_line_end(n@) == main_line_end(cur@),
        decreases main_line_end_len(cur@),
    {
        cur = &cur.children[0];
    }
    cur
}

spec fn main_line_end_len(n: NodeModel) -> nat
    decreases n,
{
    if n.children.len() == 0 {
        0
    } else {
        1 + main_line_end_len(n.children[0])
    }
}

fn step_exec<'a>(cur: &'a GameNode, seg: &PathSegment) -> (r: Option<&'a GameNode>)
    ensures
        match resolve_step(cur@, seg@) {
            Some(c) => r matches Some(x) && x@ == c,
            None => r is None,
        },
{
    match seg {
        PathSegment::Move { san, variation_index } => match variation_index {
            Some(idx) => {
                if *idx < cur.children.len() && moves_match(cur.children[*idx].san.as_str(), san.as_str()) {
                    Some(&cur.children[*idx])
                } else {
                    None
                }
            },
            None => cur.find_child(san.as_str()),
        },
        PathSegment::End => Some(main_line_end_exec(cur)),
        PathSegment::Variation(idx) => {
            if *idx < cur.children.len() {
                Some(&cur.children[*idx])
            } else {
                None
            }
        },
        _ => Some(cur),
    }
}

fn push_rdfs<'a>(n: &'a GameNode, out: &mut Vec<&'a GameNode>)
    ensures
        nodes_model(final(out)@) == nodes_model(old(out)@) + rdfs(n@),
    decreases n,
{
    proof {
        lemma_nodes_push(out@, n);
    }
    out.push(n);
    let ghost ch = n@.children;
    let ghost base = nodes_model(old(out)@);
    let mut k = n.children.len();
    assert(ch.take(k as int) =~= ch);
    while k > 0
        invariant
            k <= ch.len(),
            ch == n@.children,
            ch.len() == n.children@.len(),
            nodes_model(out@) + rdfs_forest(ch.take(k as int)) == base + rdfs(n@),
        decreases k,
    {
        let ghost before = nodes_model(out@);
        assert(ch.take(k as int).subrange(0, k - 1) =~= ch.take(k - 1));
        assert(ch.take(k as int)[k - 1] == ch[k - 1]);
        push_rdfs(&n.children[k - 1], out);
        assert(before + (rdfs(ch[k - 1]) + rdfs_forest(ch.take(k - 1))) =~= (before + rdfs(ch[k - 1]))
            + rdfs_forest(ch.take(k - 1)));
        k = k - 1;
    }
    assert(ch.take(0) =~= Seq::<NodeModel>::empty());
    assert(nodes_model(out@) + Seq::<NodeModel>::empty() =~= nodes_model(out@));
}

fn push_seg_nodes<'a>(n: &'a GameNode, seg: &PathSegment, out: &mut Vec<&'a GameNode>)
    ensures
        nodes_model(final(out)@) == nodes_model(old(out)@) + seg_nodes(n@, seg@),
{
    match seg {
        PathSegment::AllDescendants => push_rdfs(n, out),
        PathSegment::DirectChildren => {
            let ghost base = nodes_model(out@);
            let mut i: usize = 0;
            while i < n.children.len()
                invariant
                    i <= n.children@.len(),
                    nodes_model(out@) == base + n@.children.take(i as int),
                decreases n.children@.len() - i,
            {
                proof {
                    lemma_nodes_push(out@, &n.children@[i as int]);
                }
                out.push(&n.children[i]);
                assert(n@.children.take(i + 1) =~= n@.children.take(i as int).push(n@.children[i as int]));
                assert(base + n@.children.take(i + 1) =~= (base + n@.children.take(i as int)).push(n@.children[i as int]));
                i = i + 1;
            }
            assert(n@.children.take(i as int) =~= n@.children);
        },
        _ => {
            match step_exec(n, seg) {
                Some(c) => {
                    proof {
                        lemma_nodes_push(out@, c);
                    }
                    out.push(c);
                    assert(nodes_model(old(out)@).push(c@) =~= nodes_model(old(out)@) + seq![c@]);
                },
                None => {
                    assert(nodes_model(out@) + Seq::<NodeModel>::empty() =~= nodes_model(out@));
                },
            }
        },
    }
}

impl NodePath {
    /// The node of the tree this path leads to, if any.
    pub fn resolve<'a>(&self, tree: &'a GameTree) -> (r: Option<&'a GameNode>)
        ensures
            match resolve_spec(tree.root@, tree.root@, segs_model(self.segments@), 0) {
                Some(n) => r matches Some(x) && x@ == n,
                None => r is None,
            },
    {
        self.resolve_from(&tree.root)
    }

    /// The node this path leads to from `start`, if any.  "@root" goes back
    /// to `start`; "*" and "**" stay where they are.
    pub fn resolve_from<'a>(&self, start: &'a GameNode) -> (r: Option<&'a GameNode>)
        ensures
            match resolve_spec(start@, start@, segs_model(self.segments@), 0) {
                Some(n) => r matches Some(x) && x@ == n,
                None => r is None,
            },
    {
        let ghost segs = segs_model(self.segments@);
        let mut current = start;
        let mut i: usize = 0;
        while i < self.segments.len()
            invariant
                i <= self.segments@.len(),
                segs == segs_model(self.segments@),
                resolve_spec(start@, start@, segs, 0) == resolve_spec(start@, current@, segs, i as int),
            decreases self.segments@.len() - i,
        {
            assert(segs[i as int] == self.segments@[i as int]@);
            if let PathSegment::Root = &self.segments[i] {
                current = start;
            } else {
                match step_exec(current, &self.segments[i]) {
                    Some(c) => {
                        current = c;
                    },
                    None => {
                        return None;
                    },
                }
            }
            i = i + 1;
        }
        Some(current)
    }

    /// The child indices, from `start`, of the node this path leads to
    /// (that of `resolve_from`), if any.
    pub fn resolve_indices(&self, start: &GameNode) -> (r: Option<Vec<usize>>)
        ensures
            r is Some <==> resolve_spec(start@, start@, segs_model(self.segments@), 0) is Some,
            r matches Some(p) ==> valid_path(start@, p@) && at_path(start@, p@) == resolve_spec(
                start@,
                start@,
                segs_model(self.segments@),
                0,
            )->0,
            r matches Some(p) ==> resolve_indices_spec(start@, start@, segs_model(self.segments@), 0, Seq::empty())
                == Some(p@),
            r is None ==> resolve_indices_spec(start@, start@, segs_model(self.segments@), 0, Seq::empty()) is None,
    {
        let ghost segs = segs_model(self.segments@);
        let mut current = start;
        let mut p: Vec<usize> = Vec::new();
        let mut i: usize = 0;
        while i < self.segments.len()
            invariant
                i <= self.segments@.len(),
                segs == segs_model(self.segments@),
                valid_path(start@, p@),
                at_path(start@, p@) == current@,
                resolve_spec(start@, start@, segs, 0) == resolve_spec(start@, current@, segs, i as int),
                resolve_indices_spec(start@, start@, segs, 0, Seq::empty()) == resolve_indices_spec(
                    start@,
                    current@,
                    segs,
                    i as int,
                    p@,
                ),
            decreases self.segments@.len() - i,
        {
            let seg = &self.segments[i];
            assert(segs[i as int] == seg@);
            let ghost cur0 = current@;
            let ghost p0 = p@;
            assert(cur0.children.len() == current.children.len());
            proof {
                lemma_step_indices(cur0, seg@);
            }
            match seg {
                PathSegment::Move { san, variation_index } => {
                    let k = match variation_index {
                        Some(idx) => {
                            if *idx < current.children.len() && moves_match(
                                current.children[*idx].san.as_str(),
                                san.as_str(),
                            ) {
                                Some(*idx)
                            } else {
                                None
                            }
                        },
                        None => current.find_child_index(san.as_str()),
                    };
                    match k {
                        Some(k) => {
                            proof {
                                lemma_first_with_san_bound(cur0.children, normalize_spec(san@));
                                lemma_path_push(start@, p0, k);
                            }
                            p.push(k);
                            current = &current.children[k];
                            assert(p0 + seq![k] =~= p@);
                        },
                        None => {
                            return None;
                        },
                    }
                },
                PathSegment::Variation(idx) => {
                    if *idx < current.children.len() {
                        proof {
                            lemma_path_push(start@, p0, *idx);
                        }
                        p.push(*idx);
                        current = &current.children[*idx];
                        assert(p0 + seq![*idx] =~= p@);
                    } else {
                        return None;
                    }
                },
                PathSegment::End => {
                    while current.children.len() > 0
                        invariant
                            valid_path(start@, p@),
                            at_path(start@, p@) == current@,
                            main_line_end(cur0) == main_line_end(current@),
                            p0 + zeros(main_line_len(cur0)) == p@ + zeros(main_line_len(current@)),
                        decreases main_line_len(current@),
                    {
                        proof {
                            lemma_path_push(start@, p@, 0);
                        }
                        let ghost before = p@;
                        p.push(0);
                        assert(zeros(main_line_len(current@)) =~= seq![0usize] + zeros(
                            main_line_len(current@.children[0]),
                        ));
                        assert(before + zeros(main_line_len(current@)) =~= p@ + zeros(
                            main_line_len(current@.children[0]),
                        ));
                        current = &current.children[0];
                    }
                    assert(p@ + zeros(main_line_len(current@)) =~= p@);
                },
                PathSegment::Root => {
                    p = Vec::new();
                    current = start;
                    assert(p@ =~= Seq::<usize>::empty());
                },
                _ => {
                    assert(p0 + Seq::<usize>::empty() =~= p0);
                },
            }
            i = i + 1;
        }
        Some(p)
    }

    /// All nodes of the tree this path leads to.
    pub fn resolve_all<'a>(&self, tree: &'a GameTree) -> (r: Vec<&'a GameNode>)
        ensures
            nodes_model(r@) == resolve_all_spec(tree.root@, segs_model(self.segments@), 0, seq![tree.root@]),
    {
        self.resolve_all_from(&tree.root)
    }

    /// All nodes this path leads to from `start`: a move or index keeps the
    /// matching child of each node, "@end" the end of each main line, "*"
    /// all children, "**" each node with all its descendants, "@root" goes
    /// back to `start`.  Stops as soon as no node is left.
    pub fn resolve_all_from<'a>(&self, start: &'a GameNode) -> (r: Vec<&'a GameNode>)
        ensures
            nodes_model(r@) == resolve_all_spec(start@, segs_model(self.segments@), 0, seq![start@]),
    {
        let ghost segs = segs_model(self.segments@);
        let mut current: Vec<&'a GameNode> = vec![start];
        assert(nodes_model(current@) =~= seq![start@]);
        let mut i: usize = 0;
        while i < self.segments.len()
            invariant
                i <= self.segments@.len(),
                segs == segs_model(self.segments@),
                resolve_all_spec(start@, segs, 0, seq![start@]) == resolve_all_spec(
                    start@,
                    segs,
                    i as int,
                    nodes_model(current@),
                ),
            decreases self.segments@.len() - i,
        {
            let seg = &self.segments[i];
            assert(segs[i as int] == seg@);
            let next: Vec<&'a GameNode> = match seg {
                PathSegment::Root => {
                    let v = vec![start];
                    assert(nodes_model(v@) =~= seq![start@]);
                    v
                },
                _ => {
                    let mut out: Vec<&'a GameNode> = Vec::new();
                    let mut k: usize = 0;
                    let ghost cm = nodes_model(current@);
                    assert(nodes_model(out@) =~= seg_nodes_all(cm.take(0), seg@));
                    while k < current.len()
                        invariant
                            k <= current@.len(),
                            cm == nodes_model(current@),
                            nodes_model(out@) == seg_nodes_all(cm.take(k as int), seg@),
                        decreases current@.len() - k,
                    {
                        push_seg_nodes(current[k], seg, &mut out);
                        assert(cm.take(k + 1).drop_last() =~= cm.take(k as int));
                        assert(cm.take(k + 1).last() == current@[k as int]@);
                        k = k + 1;
                    }
                    assert(cm.take(k as int) =~= cm);
                    out
                },
            };
            current = next;
            if current.len() == 0 {
                return current;
            }
            i = i + 1;
        }
        current
    }
}

/// Every node of a subtree appears once in its depth-first walk.
proof fn lemma_rdfs_len(n: NodeModel)
    ensures
        rdfs(n).len() == node_count(n),
    decreases n, 1nat,
{
    lemma_rdfs_forest_len(n.children);
}

proof fn lemma_rdfs_forest_len(s: Seq<NodeModel>)
    ensures
        rdfs_forest(s).len() == forest_count(s),
    decreases s, 0nat,
{
    if s.len() > 0 {
        lemma_rdfs_len(s[s.len() - 1]);
        lemma_rdfs_forest_len(s.subrange(0, s.len() - 1));
    }
}

/// "**" from a node gives the nodes of its subtree, the node included,
/// as many as the subtree counts.
pub proof fn law_all_descendants(n: NodeModel)
    ensures
        resolve_all_spec(n, seq![SegModel::AllDescendants], 0, seq![n]) == rdfs(n),
        rdfs(n).len() == node_count(n),
{
    let segs = seq![SegModel::AllDescendants];
    assert(seg_nodes_all(seq![n], SegModel::AllDescendants) =~= rdfs(n)) by {
        assert(seq![n].drop_last() =~= Seq::<NodeModel>::empty());
        assert(seg_nodes_all(Seq::<NodeModel>::empty(), SegModel::AllDescendants) =~= Seq::<NodeModel>::empty());
    }
    lemma_rdfs_len(n);
    assert(resolve_all_spec(n, segs, 1, rdfs(n)) == rdfs(n));
}

/// "*" from a node gives its children, in order.
pub proof fn law_direct_children(n: NodeModel)
    ensures
        resolve_all_spec(n, seq![SegModel::DirectChildren], 0, seq![n]) == n.children,
{
    let segs = seq![SegModel::DirectChildren];
    assert(seg_nodes_all(seq![n], SegModel::DirectChildren) =~= n.children) by {
        assert(seq![n].drop_last() =~= Seq::<NodeModel>::empty());
        assert(seg_nodes_all(Seq::<NodeModel>::empty(), SegModel::DirectChildren) =~= Seq::<NodeModel>::empty());
    }
    assert(resolve_all_spec(n, segs, 1, n.children) == n.children);
}

proof fn lemma_main_line_last(n: NodeModel)
    ensures
        main_line_nodes(n).len() > 0,
        main_line_nodes(n).last() == main_line_end(n),
    decreases n,
{
    if n.children.len() > 0 {
        lemma_main_line_last(n.children[0]);
    }
}

/// "@end" from a node gives the last node of its main line: the last node
/// the main-line walk from it gives.
pub proof fn law_end_selector(n: NodeModel)
    ensures
        resolve_spec(n, n, seq![SegModel::End], 0) == Some(main_line_end(n)),
        main_line_nodes(n).last() == main_line_end(n),
{
    lemma_main_line_last(n);
    assert(resolve_spec(n, main_line_end(n), seq![SegModel::End], 1) == Some(main_line_end(n)));
}

/// "@root" anywhere in a path goes back to the start: what the path gives
/// is what the part after its last "@root" gives from the start.
pub proof fn law_root_selector(start: NodeModel, cur: NodeModel, segs: Seq<SegModel>, i: int)
    requires
        0 <= i < segs.len(),
        segs[i] is Root,
    ensures
        resolve_spec(start, cur, segs, i) == resolve_spec(start, start, segs.skip(i + 1), 0),
{
    lemma_resolve_offset(start, start, segs, i + 1);
}

proof fn lemma_resolve_offset(start: NodeModel, cur: NodeModel, t: Seq<SegModel>, k: int)
    requires
        0 <= k <= t.len(),
    ensures
        resolve_spec(start, cur, t, k) == resolve_spec(start, cur, t.skip(k), 0),
    decreases t.len() - k,
{
    if k < t.len() {
        let u = t.skip(k);
        assert(u[0] == t[k]);
        lemma_resolve_offset(start, start, t, k + 1);
        if let Some(c) = resolve_step(cur, t[k]) {
            lemma_resolve_offset(start, c, t, k + 1);
        }
        assert(t.skip(k + 1) =~= u.skip(1));
        lemma_resolve_offset(start, start, u, 1);
        if let Some(c) = resolve_step(cur, t[k]) {
            lemma_resolve_offset(start, c, u, 1);
        }
    }
}

// ---------------------------------------------------------------------------
// Walks and plain paths
// ---------------------------------------------------------------------------

proof fn lemma_rdfs_multiset(n: NodeModel)
    ensures
        rdfs(n).to_multiset() == preorder(n).to_multiset(),
    decreases n, 1nat,
{
    broadcast use vstd::seq_lib::lemma_multiset_commutative;

    lemma_rdfs_forest_multiset(n.children);
    assert(rdfs(n).to_multiset() =~= seq![n].to_multiset().add(rdfs_forest(n.children).to_multiset()));
    assert(preorder(n).to_multiset() =~= seq![n].to_multiset().add(pre_forest(n.children).to_multiset()));
}

proof fn lemma_rdfs_forest_multiset(s: Seq<NodeModel>)
    ensures
        rdfs_forest(s).to_multiset() == pre_forest(s).to_multiset(),
    decreases s, 0nat,
{
    broadcast use vstd::seq_lib::lemma_multiset_commutative;

    if s.len() == 0 {
        assert(rdfs_forest(s) =~= Seq::<NodeModel>::empty());
        assert(pre_forest(s) =~= Seq::<NodeModel>::empty());
    } else {
        let init = s.subrange(0, s.len() - 1);
        let last = s[s.len() - 1];
        lemma_rdfs_multiset(last);
        lemma_rdfs_forest_multiset(init);
        assert(rdfs_forest(s).to_multiset() =~= rdfs(last).to_multiset().add(rdfs_forest(init).to_multiset()));
        assert(pre_forest(s).to_multiset() =~= pre_forest(init).to_multiset().add(preorder(last).to_multiset()));
    }
}

/// "**" from a node gives every node of its subtree exactly as often as
/// the pre-order walk does (each node once, the node itself first), only
/// in another order.
pub proof fn law_all_descendants_each_once(n: NodeModel)
    ensures
        resolve_all_spec(n, seq![SegModel::AllDescendants], 0, seq![n]).to_multiset() == preorder(
            n,
        ).to_multiset(),
        resolve_all_spec(n, seq![SegModel::AllDescendants], 0, seq![n])[0] == n,
{
    law_all_descendants(n);
    lemma_rdfs_multiset(n);
}

/// Segments that each name a move, with no index: the moves they name.
pub open spec fn plain_moves(segs: Seq<SegModel>, sans: Seq<Seq<char>>) -> bool {
    &&& segs.len() == sans.len()
    &&& forall|k: int| 0 <= k < segs.len() ==> #[trigger] segs[k] == SegModel::Move(sans[k], None)
}

proof fn lemma_resolve_plain(start: NodeModel, cur: NodeModel, segs: Seq<SegModel>, sans: Seq<Seq<char>>, i: int)
    requires
        plain_moves(segs, sans),
        0 <= i <= segs.len(),
    ensures
        resolve_spec(start, cur, segs, i) == path_lookup(cur, sans.skip(i)),
    decreases segs.len() - i,
{
    if i < segs.len() {
        assert(sans.skip(i)[0] == sans[i]);
        assert(sans.skip(i).drop_first() =~= sans.skip(i + 1));
        match child_index(cur, sans[i]) {
            Some(k) => lemma_resolve_plain(start, cur.children[k as int], segs, sans, i + 1),
            None => {},
        }
    } else {
        assert(sans.skip(i) =~= Seq::<Seq<char>>::empty());
    }
}

/// A part of a path that names a move plainly: not empty, no colon, not a
/// selector or "@..." form, and without whitespace at its ends.
pub open spec fn plain_part(q: Seq<char>) -> bool {
    &&& q.len() > 0
    &&& !is_ws(q[0]) && !is_ws(q.last())
    &&& q[0] != '@'
    &&& q != "*"@
    &&& q != "**"@
    &&& forall|i: int| 0 <= i < q.len() ==> #[trigger] q[i] != ':'
}

/// The segments that plain parts give: each its move without its number.
pub open spec fn plain_segs(parts: Seq<Seq<char>>) -> Seq<SegModel> {
    Seq::new(parts.len(), |k: int| SegModel::Move(normalize_spec(parts[k]), None))
}

proof fn lemma_no_colon(q: Seq<char>)
    requires
        forall|i: int| 0 <= i < q.len() ==> #[trigger] q[i] != ':',
    ensures
        last_char(q, ':') is None,
    decreases q.len(),
{
    if q.len() > 0 {
        assert forall|i: int| 0 <= i < q.drop_last().len() implies #[trigger] q.drop_last()[i] != ':' by {
            assert(q.drop_last()[i] == q[i]);
        }
        lemma_no_colon(q.drop_last());
    }
}

proof fn lemma_lookup_normalized(n: NodeModel, parts: Seq<Seq<char>>)
    ensures
        path_lookup(n, parts.map_values(|q: Seq<char>| normalize_spec(q))) == path_lookup(n, parts),
    decreases parts.len(),
{
    let m = parts.map_values(|q: Seq<char>| normalize_spec(q));
    if parts.len() > 0 {
        crate::tree::san::law_normalize_idempotent(parts[0]);
        assert(m[0] == normalize_spec(parts[0]));
        assert(child_index(n, m[0]) == child_index(n, parts[0]));
        assert(m.drop_first() =~= parts.drop_first().map_values(|q: Seq<char>| normalize_spec(q)));
        match child_index(n, parts[0]) {
            Some(i) => lemma_lookup_normalized(n.children[i as int], parts.drop_first()),
            None => {},
        }
    }
}

/// A plain part is read as the segment of its move, without its number.
proof fn lemma_plain_segment(q: Seq<char>)
    requires
        plain_part(q),
    ensures
        segment_spec(q) == Some(Ok::<SegModel, Seq<char>>(SegModel::Move(normalize_spec(q), None))),
{
    lemma_no_colon(q);
    reveal_strlit("**");
    reveal_strlit("*");
    reveal_strlit("@end");
    reveal_strlit("@root");
    reveal_strlit("@var");
    assert(q != "@end"@) by {
        if q == "@end"@ {
            assert(q[0] == '@');
        }
    }
    assert(q != "@root"@) by {
        if q == "@root"@ {
            assert(q[0] == '@');
        }
    }
    assert(!(q.len() >= 4 && q.take(4) == "@var"@)) by {
        if q.len() >= 4 && q.take(4) == "@var"@ {
            assert(q.take(4)[0] == q[0]);
        }
    }
}

/// Parts joined by "/".
pub open spec fn joined(parts: Seq<Seq<char>>) -> Seq<char>
    decreases parts.len(),
{
    if parts.len() <= 1 {
        if parts.len() == 1 { parts[0] } else { Seq::empty() }
    } else {
        parts[0] + seq!['/'] + joined(parts.drop_first())
    }
}

proof fn lemma_next_char_skip(t: Seq<char>, p: int, q: int)
    requires
        0 <= p <= q <= t.len(),
        forall|k: int| p <= k < q ==> #[trigger] t[k] != '/',
    ensures
        next_char(t, p, '/') == next_char(t, q, '/'),
    decreases q - p,
{
    if p < q {
        lemma_next_char_skip(t, p + 1, q);
    }
}

proof fn lemma_parse_joined(t: Seq<char>, p: int, parts: Seq<Seq<char>>, acc: Seq<SegModel>)
    requires
        0 <= p,
        parts.len() > 0,
        forall|k: int| 0 <= k < parts.len() ==> plain_part(#[trigger] parts[k]),
        forall|k: int, i: int| 0 <= k < parts.len() && 0 <= i < parts[k].len() ==> #[trigger] parts[k][i] != '/',
        p + joined(parts).len() == t.len(),
        t.subrange(p, t.len() as int) == joined(parts),
    ensures
        parse_parts(t, p, acc) == Ok::<Seq<SegModel>, Seq<char>>(acc + plain_segs(parts)),
    decreases parts.len(),
{
    let q = parts[0];
    let l = q.len() as int;
    let jn = joined(parts);
    assert(plain_part(q));
    assert forall|i: int| 0 <= i < l implies #[trigger] jn[i] == q[i] by {
        if parts.len() > 1 {
            assert(jn == q + seq!['/'] + joined(parts.drop_first()));
        }
    }
    assert forall|k: int| p <= k < p + l implies #[trigger] t[k] != '/' by {
        assert(t[k] == t.subrange(p, t.len() as int)[k - p]);
        assert(q[k - p] != '/');
    }
    lemma_next_char_skip(t, p, p + l);
    assert(t.subrange(p, p + l) =~= q) by {
        assert forall|i: int| 0 <= i < l implies t.subrange(p, p + l)[i] == q[i] by {
            assert(t[p + i] == t.subrange(p, t.len() as int)[i]);
        }
    }
    lemma_trim_noop(q);
    lemma_plain_segment(q);
    let seg = SegModel::Move(normalize_spec(q), None);
    assert(plain_segs(parts) =~= seq![seg] + plain_segs(parts.drop_first()));
    if parts.len() == 1 {
        assert(jn == q);
        assert(next_char(t, p + l, '/') == t.len());
        assert(acc.push(seg) =~= acc + plain_segs(parts));
    } else {
        let rest = parts.drop_first();
        assert(jn == q + seq!['/'] + joined(rest));
        assert(t[p + l] == jn[l]);
        assert(next_char(t, p + l, '/') == p + l);
        assert forall|k: int| 0 <= k < rest.len() implies plain_part(#[trigger] rest[k]) by {
            assert(rest[k] == parts[k + 1]);
        }
        assert forall|k: int, i: int| 0 <= k < rest.len() && 0 <= i < rest[k].len() implies #[trigger] rest[k][i] != '/' by {
            assert(rest[k] == parts[k + 1]);
        }
        assert(t.subrange(p + l + 1, t.len() as int) =~= joined(rest)) by {
            assert(t.subrange(p + l + 1, t.len() as int) =~= jn.subrange(l + 1, jn.len() as int));
        }
        lemma_parse_joined(t, p + l + 1, rest, acc.push(seg));
        assert(acc.push(seg) + plain_segs(rest) =~= acc + plain_segs(parts));
    }
}

/// Plain parts joined by "/" parse as the segments of their moves, which
/// resolve from any node as looking the moves up one after the other does
/// (`find_path`): the same node, or none.
pub proof fn law_plain_path_string(n: NodeModel, parts: Seq<Seq<char>>)
    requires
        parts.len() > 0,
        forall|k: int| 0 <= k < parts.len() ==> plain_part(#[trigger] parts[k]),
        forall|k: int, i: int| 0 <= k < parts.len() && 0 <= i < parts[k].len() ==> #[trigger] parts[k][i] != '/',
    ensures
        parse_path_spec(joined(parts)) == Ok::<Seq<SegModel>, Seq<char>>(plain_segs(parts)),
        resolve_spec(n, n, plain_segs(parts), 0) == path_lookup(n, parts),
{
    let t = joined(parts);
    let q = parts[0];
    assert(plain_part(q));
    let last = parts[parts.len() - 1];
    assert(plain_part(last));
    lemma_joined_ends(parts);
    lemma_trim_noop(t);
    assert(t != "@root"@) by {
        reveal_strlit("@root");
        if t == "@root"@ {
            assert(t[0] == '@');
        }
    }
    assert(t.subrange(0, t.len() as int) =~= t);
    lemma_parse_joined(t, 0, parts, Seq::empty());
    assert(Seq::<SegModel>::empty() + plain_segs(parts) =~= plain_segs(parts));
    law_plain_path_is_find_path(n, parts);
}

proof fn lemma_joined_ends(parts: Seq<Seq<char>>)
    requires
        parts.len() > 0,
        forall|k: int| 0 <= k < parts.len() ==> plain_part(#[trigger] parts[k]),
    ensures
        joined(parts).len() > 0,
        joined(parts)[0] == parts[0][0],
        joined(parts).last() == parts[parts.len() - 1].last(),
    decreases parts.len(),
{
    assert(plain_part(parts[0]));
    if parts.len() > 1 {
        let rest = parts.drop_first();
        assert forall|k: int| 0 <= k < rest.len() implies plain_part(#[trigger] rest[k]) by {
            assert(rest[k] == parts[k + 1]);
        }
        lemma_joined_ends(rest);
        assert(rest[rest.len() - 1] == parts[parts.len() - 1]);
    }
}

/// A path of plain moves resolves from any node as looking those moves up
/// one after the other does (`find_path`): each plain part is read as the
/// segment of its move, and those segments lead to the node that the moves
/// lead to, or to none where they lead to none.
pub proof fn law_plain_path_is_find_path(n: NodeModel, parts: Seq<Seq<char>>)
    requires
        forall|k: int| 0 <= k < parts.len() ==> plain_part(#[trigger] parts[k]),
    ensures
        forall|k: int| 0 <= k < parts.len() ==> segment_spec(#[trigger] parts[k]) == Some(
            Ok::<SegModel, Seq<char>>(plain_segs(parts)[k]),
        ),
        resolve_spec(n, n, plain_segs(parts), 0) == path_lookup(n, parts),
{
    let segs = plain_segs(parts);
    let sans = parts.map_values(|q: Seq<char>| normalize_spec(q));
    assert forall|k: int| 0 <= k < parts.len() implies segment_spec(#[trigger] parts[k]) == Some(
        Ok::<SegModel, Seq<char>>(segs[k]),
    ) by {
        lemma_plain_segment(parts[k]);
    }
    assert(plain_moves(segs, sans));
    lemma_resolve_plain(n, n, segs, sans, 0);
    assert(sans.skip(0) =~= sans);
    lemma_lookup_normalized(n, parts);
}

// ---------------------------------------------------------------------------
// When a path is malformed
// ---------------------------------------------------------------------------

/// The parts of `t` separated by "/", from the part that starts at `p`.
pub open spec fn path_parts(t: Seq<char>, p: int) -> Seq<Seq<char>>
    decreases t.len() - p,
{
    if p < 0 || p > t.len() {
        Seq::empty()
    } else {
        let e = next_char(t, p, '/');
        seq![t.subrange(p, e)] + if p <= e < t.len() {
            path_parts(t, e + 1)
        } else {
            Seq::empty()
        }
    }
}

/// Whether `q` starts with "@var".
pub open spec fn var_form(q: Seq<char>) -> bool {
    q.len() >= 4 && q.take(4) == "@var"@
}

/// The index text after the last colon of `q` at `ci`, less one leading "v".
pub open spec fn index_text(q: Seq<char>, ci: int) -> Seq<char> {
    let v = q.skip(ci + 1);
    if v.len() > 0 && v[0] == 'v' {
        v.drop_first()
    } else {
        v
    }
}

/// A trimmed part of a path that is malformed: not a selector, and either
/// "@var" followed by no number, or a move whose text after its last colon
/// (one leading "v" removed) is no number.
pub open spec fn bad_part(q: Seq<char>) -> bool {
    &&& q.len() > 0
    &&& q != "**"@ && q != "*"@ && q != "@end"@ && q != "@root"@
    &&& if var_form(q) {
        parse_unsigned(trim(q.skip(4)), usize::MAX as nat) is None
    } else {
        last_char(q, ':') matches Some(ci) && parse_unsigned(index_text(q, ci), usize::MAX as nat) is None
    }
}

proof fn lemma_bad_part(q: Seq<char>)
    ensures
        (segment_spec(q) matches Some(Err(_))) <==> bad_part(q),
{
}

proof fn lemma_parse_parts_err(t: Seq<char>, p: int, acc: Seq<SegModel>)
    requires
        0 <= p <= t.len(),
    ensures
        (parse_parts(t, p, acc) is Err) <==> exists|k: int|
            0 <= k < path_parts(t, p).len() && bad_part(trim(#[trigger] path_parts(t, p)[k])),
    decreases t.len() - p,
{
    let e = next_char(t, p, '/');
    lemma_next_char(t, p, '/');
    let q = trim(t.subrange(p, e));
    lemma_bad_part(q);
    let ps = path_parts(t, p);
    assert(ps[0] == t.subrange(p, e));
    let acc2 = match segment_spec(q) {
        Some(Ok(seg)) => Ok(acc.push(seg)),
        Some(Err(m)) => Err(m),
        None => Ok::<Seq<SegModel>, Seq<char>>(acc),
    };
    if e < t.len() {
        let rest = path_parts(t, e + 1);
        assert(ps == seq![t.subrange(p, e)] + rest);
        match acc2 {
            Ok(a) => {
                lemma_parse_parts_err(t, e + 1, a);
                if parse_parts(t, p, acc) is Err {
                    let k = choose|k: int| 0 <= k < rest.len() && bad_part(trim(#[trigger] rest[k]));
                    assert(ps[k + 1] == rest[k]);
                }
                if exists|k: int| 0 <= k < ps.len() && bad_part(trim(#[trigger] ps[k])) {
                    let k = choose|k: int| 0 <= k < ps.len() && bad_part(trim(#[trigger] ps[k]));
                    assert(k != 0);
                    assert(ps[k] == rest[k - 1]);
                }
            },
            Err(_) => {
                assert(bad_part(trim(ps[0])));
            },
        }
    } else {
        assert(ps =~= seq![t.subrange(p, e)]);
        if acc2 is Err {
            assert(bad_part(trim(ps[0])));
        }
    }
}

/// Parsing a path fails exactly where it is empty once trimmed, or one of
/// its "/"-separated parts, trimmed, is malformed: "@var" followed by no
/// number, or a move whose text after its last colon (one leading "v"
/// removed) is no number.
pub proof fn law_path_parse_fails(s: Seq<char>)
    ensures
        (parse_path_spec(s) is Err) <==> (trim(s).len() == 0 || exists|k: int|
            0 <= k < path_parts(trim(s), 0).len() && bad_part(trim(#[trigger] path_parts(trim(s), 0)[k]))),
{
    let t = trim(s);
    if t.len() > 0 {
        lemma_parse_parts_err(t, 0, Seq::empty());
        if t == "@root"@ {
            reveal_strlit("@root");
            reveal_strlit("@var");
            let ps = path_parts(t, 0);
            lemma_next_char(t, 0, '/');
            assert(next_char(t, 0, '/') == 5) by {
                assert(t.len() == 5);
                assert(t[0] == '@' && t[1] == 'r' && t[2] == 'o' && t[3] == 'o' && t[4] == 't');
                assert(next_char(t, 5, '/') == 5);
                assert(next_char(t, 4, '/') == 5);
                assert(next_char(t, 3, '/') == 5);
                assert(next_char(t, 2, '/') == 5);
                assert(next_char(t, 1, '/') == 5);
            }
            assert(t.subrange(0, 5) =~= t);
            assert(ps =~= seq![t]);
            assert(trim(t) == t) by {
                assert(t =~= "@root"@);
            }
            assert(!bad_part(trim(ps[0])));
        }
    }
}

} // verus!
