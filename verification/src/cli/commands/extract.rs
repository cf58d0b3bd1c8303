//! `pgnq extract`: the subtree at a path, optionally with the moves that
//! lead to it.

use vstd::prelude::*;
use crate::cli::{format_spec, CliOutputFormat, InputSource};
use crate::error::Error;
use crate::serializer::options::{OutputFormat, OutputOptions};
use crate::tree::game::{GameTree, Headers};
use crate::tree::model::{at_path, child_index, empty_node, group_node_model, lemma_path_push, lemma_replace_at_path, lemma_replace_keeps_paths, main_line_len, replace_at, valid_path, with_child, GameNode, NodeModel};
use crate::tree::path::{main_line_end, resolve_indices_spec, resolve_spec, resolve_step, segs_model, NodePath, PathSegment, SegModel};

verus! {

broadcast use {vstd::string::group_string_axioms, group_node_model};

/// Arguments of `pgnq extract`.
pub struct ExtractArgs {
    /// Input PGN file ("-" for standard input).
    pub input: InputSource,
    /// Path to the subtree (e.g. "e4/e5/Nf3").
    pub path: String,
    /// Output file (default: standard output).
    pub output: Option<String>,
    /// Output format.
    pub format: CliOutputFormat,
    /// Include the moves leading to the extracted subtree.
    pub with_prefix: bool,
    /// Include the headers of the input game.
    pub with_headers: bool,
    /// Game number to select from a file of several games (1-indexed).
    pub game: Option<usize>,
}

/// A node without its children.
pub open spec fn copy_of(n: NodeModel) -> NodeModel {
    NodeModel {
        san: n.san,
        move_number: n.move_number,
        is_black: n.is_black,
        comment: n.comment,
        nags: n.nags,
        children: Seq::empty(),
    }
}

/// `out` with `x` added as the last child of the node at `p`.
pub open spec fn push_at(out: NodeModel, p: Seq<usize>, x: NodeModel) -> NodeModel {
    replace_at(out, p, with_child(at_path(out, p), x))
}

/// Where the prefix builder stands: the path of the current node in the
/// source tree, the tree built so far, and the path of the current node in it.
pub struct PrefixState {
    pub src: Seq<usize>,
    pub out: NodeModel,
    pub at: Seq<usize>,
}

/// Taking child `c` of the current source node: the target is copied with
/// its whole subtree (and the builder stays); another node is copied alone
/// and becomes the current node.
pub open spec fn take_child(root: NodeModel, st: PrefixState, c: int, target: Seq<usize>) -> PrefixState {
    let child = at_path(root, st.src).children[c];
    if st.src.push(c as usize) == target {
        PrefixState { out: push_at(st.out, st.at, child), ..st }
    } else {
        PrefixState {
            src: st.src.push(c as usize),
            out: push_at(st.out, st.at, copy_of(child)),
            at: st.at.push(at_path(st.out, st.at).children.len() as usize),
        }
    }
}

/// Following the main line from the current node, `fuel` steps at most,
/// stopping after the target.
pub open spec fn follow_main(root: NodeModel, st: PrefixState, target: Seq<usize>, fuel: nat) -> PrefixState
    decreases fuel,
{
    if fuel == 0 || at_path(root, st.src).children.len() == 0 {
        st
    } else if st.src.push(0) == target {
        take_child(root, st, 0, target)
    } else {
        follow_main(root, take_child(root, st, 0, target), target, (fuel - 1) as nat)
    }
}

/// One segment: a move or index takes that child where there is one;
/// "@end" follows the main line; the others do nothing.
pub open spec fn prefix_step(root: NodeModel, st: PrefixState, seg: SegModel, target: Seq<usize>) -> PrefixState {
    let n = at_path(root, st.src);
    match seg {
        SegModel::Move(_, Some(i)) => if i < n.children.len() {
            take_child(root, st, i as int, target)
        } else {
            st
        },
        SegModel::Variation(i) => if i < n.children.len() {
            take_child(root, st, i as int, target)
        } else {
            st
        },
        SegModel::Move(san, None) => match child_index(n, san) {
            Some(c) => take_child(root, st, c as int, target),
            None => st,
        },
        SegModel::End => follow_main(root, st, target, main_line_len(n)),
        _ => st,
    }
}

pub open spec fn prefix_run(root: NodeModel, segs: Seq<SegModel>, i: int, st: PrefixState, target: Seq<usize>) -> PrefixState
    decreases segs.len() - i,
{
    if i < 0 || i >= segs.len() {
        st
    } else {
        prefix_run(root, segs, i + 1, prefix_step(root, st, segs[i], target), target)
    }
}

/// The tree of the moves leading to the target (the node at index path
/// `target`), each without its other children, with the target's whole
/// subtree at the end.
pub open spec fn prefix_tree_spec(root: NodeModel, segs: Seq<SegModel>, target: Seq<usize>) -> NodeModel {
    prefix_run(root, segs, 0, PrefixState { src: Seq::empty(), out: empty_node(), at: Seq::empty() }, target).out
}

pub open spec fn state_ok(root: NodeModel, st: PrefixState) -> bool {
    valid_path(root, st.src) && valid_path(st.out, st.at)
}

proof fn lemma_take_child_ok(root: NodeModel, st: PrefixState, c: int, target: Seq<usize>)
    requires
        state_ok(root, st),
        0 <= c < at_path(root, st.src).children.len(),
        c <= usize::MAX,
        at_path(st.out, st.at).children.len() < usize::MAX,
    ensures
        state_ok(root, take_child(root, st, c, target)),
        take_child(root, st, c, target).src != st.src ==> at_path(root, take_child(root, st, c, target).src)
            == at_path(root, st.src).children[c],
{
    lemma_path_push(root, st.src, c as usize);
    let parent = at_path(st.out, st.at);
    let child = at_path(root, st.src).children[c];
    let x = if st.src.push(c as usize) == target { child } else { copy_of(child) };
    let v = with_child(parent, x);
    lemma_replace_at_path(st.out, st.at, v);
    let o2 = replace_at(st.out, st.at, v);
    lemma_path_push(o2, st.at, parent.children.len() as usize);
}

/// Taking a child on the way to the target puts in the tree being built a
/// move equal to that child in move, number, side, comment and NAGs, with
/// no children yet, and makes it the current move; taking the target puts
/// the target with its whole subtree, and the builder stays where it is.
pub proof fn law_take_child_copies(root: NodeModel, st: PrefixState, c: int, target: Seq<usize>)
    requires
        state_ok(root, st),
        0 <= c < at_path(root, st.src).children.len(),
        c <= usize::MAX,
        at_path(st.out, st.at).children.len() < usize::MAX,
    ensures
        ({
            let st2 = take_child(root, st, c, target);
            let child = at_path(root, st.src).children[c];
            if st.src.push(c as usize) == target {
                &&& st2.src == st.src && st2.at == st.at
                &&& at_path(st2.out, st2.at).children.last() == child
            } else {
                let x = at_path(st2.out, st2.at);
                &&& st2.src == st.src.push(c as usize)
                &&& at_path(root, st2.src) == child
                &&& x.san == child.san
                &&& x.move_number == child.move_number
                &&& x.is_black == child.is_black
                &&& x.comment == child.comment
                &&& x.nags == child.nags
                &&& x.children.len() == 0
            }
        }),
{
    lemma_take_child_ok(root, st, c, target);
    let parent = at_path(st.out, st.at);
    let child = at_path(root, st.src).children[c];
    let x = if st.src.push(c as usize) == target { child } else { copy_of(child) };
    let v = with_child(parent, x);
    lemma_replace_at_path(st.out, st.at, v);
    let o2 = replace_at(st.out, st.at, v);
    lemma_path_push(o2, st.at, parent.children.len() as usize);
}

fn same_path(src: &Vec<usize>, c: usize, target: &[usize]) -> (b: bool)
    ensures
        b == (src@.push(c) == target@),
{
    if target.len() == 0 || src.len() != target.len() - 1 {
        assert(src@.push(c).len() != target@.len());
        return false;
    }
    let mut i: usize = 0;
    while i < src.len()
        invariant
            i <= src@.len(),
            src@.len() + 1 == target@.len(),
            forall|j: int| 0 <= j < i ==> src@[j] == target@[j],
        decreases src@.len() - i,
    {
        if src[i] != target[i] {
            assert(src@.push(c)[i as int] != target@[i as int]);
            return false;
        }
        i = i + 1;
    }
    if c != target[src.len()] {
        assert(src@.push(c)[src@.len() as int] != target@[src@.len() as int]);
        return false;
    }
    assert(src@.push(c) =~= target@);
    true
}

fn copy_node(n: &GameNode) -> (r: GameNode)
    ensures
        r@ == copy_of(n@),
{
    let mut c = GameNode::new(n.san.as_str());
    c.move_number = n.move_number;
    c.is_black = n.is_black;
    c.comment = n.comment.clone();
    c.nags = n.nags.clone();
    assert(c@.children =~= Seq::<NodeModel>::empty());
    c
}

/// Takes child `c` of `current`; returns whether the builder moved to it.
fn take_exec(
    root: &GameNode,
    current: &GameNode,
    c: usize,
    target: &[usize],
    src: &mut Vec<usize>,
    out: &mut GameNode,
    at: &mut Vec<usize>,
) -> (moved: bool)
    requires
        state_ok(root@, (PrefixState { src: old(src)@, out: old(out)@, at: old(at)@ })),
        current@ == at_path(root@, old(src)@),
        c < current@.children.len(),
    ensures
        (PrefixState { src: final(src)@, out: final(out)@, at: final(at)@ }) == take_child(
            root@,
            (PrefixState { src: old(src)@, out: old(out)@, at: old(at)@ }),
            c as int,
            target@,
        ),
        state_ok(root@, (PrefixState { src: final(src)@, out: final(out)@, at: final(at)@ })),
        moved == !(old(src)@.push(c) == target@),
        moved ==> at_path(root@, final(src)@) == current@.children[c as int],
        !moved ==> final(src)@ == old(src)@,
{
    let ghost st = PrefixState { src: src@, out: out@, at: at@ };
    let child = &current.children[c];
    let moved = !same_path(src, c, target);
    let t = out.navigate_path_mut(at.as_slice());
    if moved {
        t.children.push(copy_node(child));
    } else {
        t.children.push(child.deep_clone());
    }
    let idx = t.children.len() - 1;
    proof {
        lemma_take_child_ok(root@, st, c as int, target@);
    }
    if moved {
        at.push(idx);
        src.push(c);
    }
    moved
}

/// Build the tree of the moves that lead to the target node (given by its
/// child indices from the root), following the path's segments.
pub fn build_prefix_tree(root: &GameNode, path: &NodePath, target: &[usize]) -> (r: Result<GameNode, Error>)
    ensures
        r matches Ok(n) && n@ == prefix_tree_spec(root@, segs_model(path.segments@), target@),
{
    let ghost segs = segs_model(path.segments@);
    let mut new_root = GameNode::root();
    let mut src: Vec<usize> = Vec::new();
    let mut at: Vec<usize> = Vec::new();
    let mut current: &GameNode = root;
    let mut i: usize = 0;
    while i < path.segments.len()
        invariant
            i <= path.segments@.len(),
            segs == segs_model(path.segments@),
            state_ok(root@, PrefixState { src: src@, out: new_root@, at: at@ }),
            current@ == at_path(root@, src@),
            prefix_tree_spec(root@, segs, target@) == prefix_run(
                root@,
                segs,
                i as int,
                PrefixState { src: src@, out: new_root@, at: at@ },
                target@,
            ).out,
        decreases path.segments@.len() - i,
    {
        let seg = &path.segments[i];
        assert(segs[i as int] == seg@);
        let ghost st = PrefixState { src: src@, out: new_root@, at: at@ };
        match seg {
            PathSegment::Move { san, variation_index } => {
                let c = match variation_index {
                    Some(idx) => if *idx < current.children.len() { Some(*idx) } else { None },
                    None => current.find_child_index(san.as_str()),
                };
                if let Some(c) = c {
                    proof {
                        crate::tree::model::lemma_first_with_san_bound(
                            current@.children,
                            crate::tree::san::normalize_spec(san@),
                        );
                    }
                    if take_exec(root, current, c, target, &mut src, &mut new_root, &mut at) {
                        current = &current.children[c];
                    }
                }
            },
            PathSegment::Variation(idx) => {
                if *idx < current.children.len() {
                    let c = *idx;
                    if take_exec(root, current, c, target, &mut src, &mut new_root, &mut at) {
                        current = &current.children[c];
                    }
                }
            },
            PathSegment::End => {
                loop
                    invariant_except_break
                        follow_main(root@, st, target@, main_line_len(at_path(root@, st.src))) == follow_main(
                            root@,
                            PrefixState { src: src@, out: new_root@, at: at@ },
                            target@,
                            main_line_len(current@),
                        ),
                    invariant
                        state_ok(root@, PrefixState { src: src@, out: new_root@, at: at@ }),
                        current@ == at_path(root@, src@),
                    ensures
                        state_ok(root@, PrefixState { src: src@, out: new_root@, at: at@ }),
                        current@ == at_path(root@, src@),
                        follow_main(root@, st, target@, main_line_len(at_path(root@, st.src))) == (PrefixState {
                            src: src@,
                            out: new_root@,
                            at: at@,
                        }),
                    decreases main_line_len(current@),
                {
                    if current.children.len() == 0 {
                        break;
                    }
                    if take_exec(root, current, 0, target, &mut src, &mut new_root, &mut at) {
                        current = &current.children[0];
                    } else {
                        break;
                    }
                }
            },
            _ => {},
        }
        i = i + 1;
    }
    Ok(new_root)
}

/// The game that `pgnq extract` writes: the subtree at the path (after
/// the moves that lead to it, each without its other children, when
/// `with_prefix`), with the game's result, and its tag pairs when
/// `with_headers`; "path not found" where the path leads nowhere.
pub fn extract_game(tree: &GameTree, path: &NodePath, path_text: &str, with_prefix: bool, with_headers: bool) -> (r:
    Result<GameTree, Error>)
    ensures
        match resolve_indices_spec(tree.root@, tree.root@, segs_model(path.segments@), 0, Seq::empty()) {
            None => r matches Err(Error::PathNotFound(p)) && p@ == path_text@,
            Some(ix) => r matches Ok(g) && g.root@ == (if with_prefix {
                prefix_tree_spec(tree.root@, segs_model(path.segments@), ix)
            } else {
                at_path(tree.root@, ix)
            }) && g.result == tree.result && g.headers@ == (if with_headers {
                tree.headers@
            } else {
                Seq::empty()
            }),
        },
{
    match path.resolve_indices(&tree.root) {
        None => Err(Error::PathNotFound(path_text.to_owned())),
        Some(ix) => {
            let root = if with_prefix {
                match build_prefix_tree(&tree.root, path, ix.as_slice()) {
                    Ok(n) => n,
                    Err(e) => {
                        return Err(e);
                    },
                }
            } else {
                tree.root.node_at(ix.as_slice()).deep_clone()
            };
            let headers = if with_headers {
                tree.headers.copy()
            } else {
                Headers::new()
            };
            assert(with_headers || headers@ =~= Seq::empty());
            Ok(GameTree { headers, root, result: tree.result })
        },
    }
}

/// The output options of an extracted subtree.
pub fn extract_options(args: &ExtractArgs) -> (o: OutputOptions)
    ensures
        o.format == format_spec(args.format),
        o.headers == args.with_headers,
        o.comments && o.variations && o.nags && o.result,
        !o.strip_clocks && !o.strip_evals && !o.ascii && !o.show_comments && !o.show_nags,
        o.line_width == 80 && o.indent == 2 && o.max_depth == 0,
{
    let mut o = OutputOptions::default();
    o.format = OutputFormat::from(args.format);
    o.headers = args.with_headers;
    o
}

} // verus!
