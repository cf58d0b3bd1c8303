//! `pgnq tree`: the game tree drawn, or as a JSON document.

use vstd::prelude::*;
use crate::cli::InputSource;
use crate::nag::{nag_text, Nag};
use crate::serializer::options::{OutputFormat, OutputOptions};
use crate::error::Error;
use crate::tree::game::{GameResult, GameTree, Headers};
use crate::tree::model::{group_node_model, GameNode, NodeModel};
use crate::tree::path::{parse_path_spec, resolve_spec, segs_model, NodePath};

verus! {

broadcast use {vstd::string::group_string_axioms, group_node_model};

/// Arguments of `pgnq tree`.
pub struct TreeArgs {
    /// Input PGN file ("-" for standard input).
    pub input: InputSource,
    /// Output file (default: standard output).
    pub output: Option<String>,
    /// Maximum depth to display.
    pub depth: usize,
    /// Start from this path instead of the root.
    pub from_path: Option<String>,
    /// Show comments (truncated).
    pub show_comments: bool,
    /// Show NAGs.
    pub show_nags: bool,
    /// Use ASCII characters instead of box-drawing characters.
    pub ascii: bool,
    /// Output as JSON.
    pub json: bool,
    /// Game number to select from a file of several games (1-indexed).
    pub game: Option<usize>,
}

/// A node of the JSON document of a tree. The node without a move is
/// written `{"root": true, "children": [...]}`; a move is written with its
/// SAN, its number and side where it has a number, its comment and NAGs
/// where it has any, and its children where it has any within the depth.
pub struct JsonNode {
    /// The move; none for the node without a move.
    pub san: Option<String>,
    /// The move number and whether it is Black's move.
    pub number: Option<(u16, bool)>,
    pub comment: Option<String>,
    pub nags: Option<Vec<String>>,
    pub children: Vec<JsonNode>,
}

/// A JSON node as plain values.
pub struct JsonModel {
    pub san: Option<Seq<char>>,
    pub number: Option<(u16, bool)>,
    pub comment: Option<Seq<char>>,
    pub nags: Option<Seq<Seq<char>>>,
    pub children: Seq<JsonModel>,
}

/// The view of an optional text.
pub open spec fn opt_text(o: Option<String>) -> Option<Seq<char>> {
    match o {
        Some(c) => Some(c@),
        None => None,
    }
}

impl View for JsonNode {
    type V = JsonModel;

    open spec fn view(&self) -> JsonModel
        decreases self,
    {
        JsonModel {
            san: opt_text(self.san),
            number: self.number,
            comment: opt_text(self.comment),
            nags: match self.nags {
                Some(v) => Some(v@.map_values(|s: String| s@)),
                None => None,
            },
            children: Seq::new(
                self.children@.len(),
                |i: int|
                    if 0 <= i < self.children@.len() {
                        self.children@[i].view()
                    } else {
                        arbitrary()
                    },
            ),
        }
    }
}

/// The models of a sequence of JSON nodes.
pub open spec fn json_models(s: Seq<JsonNode>) -> Seq<JsonModel> {
    Seq::new(s.len(), |i: int| s[i]@)
}

/// The model of a JSON node is made of its fields' views and its children's
/// models.
pub proof fn lemma_json_view(n: JsonNode)
    ensures
        n@ == (JsonModel {
            san: opt_text(n.san),
            number: n.number,
            comment: opt_text(n.comment),
            nags: match n.nags {
                Some(v) => Some(v@.map_values(|s: String| s@)),
                None => None,
            },
            children: json_models(n.children@),
        }),
{
    reveal_with_fuel(<JsonNode as View>::view, 2);
    let x = n@.children;
    assert(x.len() == n.children@.len());
    assert forall|i: int| 0 <= i < x.len() implies x[i] == json_models(n.children@)[i] by {
        assert(x[i] == n.children@[i]@);
    }
    assert(x =~= json_models(n.children@));
}

/// The JSON document of the subtree of `n`: a node without a move lists all
/// its children at the same depth; a move lists its children only below
/// the maximum depth.
pub open spec fn json_spec(n: NodeModel, max: int, cur: int) -> JsonModel
    decreases n, 1nat,
{
    if n.san.len() == 0 {
        JsonModel { san: None, number: None, comment: None, nags: None, children: json_forest(n.children, max, cur) }
    } else {
        JsonModel {
            san: Some(n.san),
            number: match n.move_number {
                Some(k) => Some((k, n.is_black)),
                None => None,
            },
            comment: if n.comment.len() > 0 { Some(n.comment) } else { None },
            nags: if n.nags.len() > 0 { Some(n.nags.map_values(|g: Nag| nag_text(g.0))) } else { None },
            children: if cur < max { json_forest(n.children, max, cur + 1) } else { Seq::empty() },
        }
    }
}

pub open spec fn json_forest(s: Seq<NodeModel>, max: int, cur: int) -> Seq<JsonModel>
    decreases s, 0nat,
{
    if s.len() == 0 {
        Seq::empty()
    } else {
        json_forest(s.subrange(0, s.len() - 1), max, cur).push(json_spec(s[s.len() - 1], max, cur))
    }
}

proof fn lemma_json_push(v: Seq<JsonNode>, x: JsonNode)
    ensures
        json_models(v.push(x)) == json_models(v).push(x@),
{
    assert(json_models(v.push(x)) =~= json_models(v).push(x@));
}

fn json_children(node: &GameNode, max_depth: usize, depth: usize) -> (r: Vec<JsonNode>)
    ensures
        json_models(r@) == json_forest(
            node@.children,
            max_depth as int,
            depth as int,
        ),
    decreases node, 0nat,
{
    let ghost ch = node@.children;
    let mut out: Vec<JsonNode> = Vec::new();
    let mut i: usize = 0;
    assert(ch.take(0) =~= Seq::<NodeModel>::empty());
    assert(json_models(out@) =~= Seq::<JsonModel>::empty());
    while i < node.children.len()
        invariant
            i <= ch.len(),
            ch == node@.children,
            ch.len() == node.children@.len(),
            json_models(out@) == json_forest(
                ch.take(i as int),
                max_depth as int,
                depth as int,
            ),
        decreases ch.len() - i,
    {
        let j = node_to_json(&node.children[i], max_depth, depth);
        proof {
            lemma_json_push(out@, j);
        }
        out.push(j);
        assert(ch.take(i + 1).subrange(0, i as int) =~= ch.take(i as int));
        assert(ch.take(i + 1)[i as int] == ch[i as int]);
        i = i + 1;
    }
    assert(ch.take(i as int) =~= ch);
    out
}

/// The JSON document of the subtree of a node.
pub fn node_to_json(node: &GameNode, max_depth: usize, current_depth: usize) -> (r: JsonNode)
    ensures
        r@ == json_spec(node@, max_depth as int, current_depth as int),
    decreases node, 1nat,
{
    if node.san.as_str().is_empty() {
        let children = json_children(node, max_depth, current_depth);
        let r = JsonNode { san: None, number: None, comment: None, nags: None, children };
        proof {
            lemma_json_view(r);
        }
        r
    } else {
        let number = match node.move_number {
            Some(k) => Some((k, node.is_black)),
            None => None,
        };
        let comment = if node.comment.as_str().is_empty() {
            None
        } else {
            Some(node.comment.clone())
        };
        let nags = if node.nags.len() == 0 {
            None
        } else {
            let mut v: Vec<String> = Vec::new();
            let mut i: usize = 0;
            while i < node.nags.len()
                invariant
                    i <= node.nags@.len(),
                    v@.map_values(|s: String| s@) == node@.nags.take(i as int).map_values(|g: Nag| nag_text(g.0)),
                decreases node.nags@.len() - i,
            {
                let t = node.nags[i].to_string();
                let ghost prev = v@.map_values(|s: String| s@);
                v.push(t);
                assert(v@.map_values(|s: String| s@) =~= prev.push(t@));
                assert(node@.nags[i as int] == node.nags@[i as int]);
                assert(node@.nags.take(i + 1).map_values(|g: Nag| nag_text(g.0)) =~= node@.nags.take(
                    i as int,
                ).map_values(|g: Nag| nag_text(g.0)).push(nag_text(node@.nags[i as int].0)));
                assert(v@.map_values(|s: String| s@) =~= node@.nags.take(i + 1).map_values(|g: Nag| nag_text(g.0)));
                i = i + 1;
            }
            assert(node@.nags.take(i as int) =~= node@.nags);
            Some(v)
        };
        let children = if current_depth < max_depth {
            json_children(node, max_depth, current_depth + 1)
        } else {
            Vec::new()
        };
        let san = node.san.clone();
        assert(san@ == node@.san);
        let r = JsonNode { san: Some(san), number, comment, nags, children };
        proof {
            lemma_json_view(r);
            let m = json_spec(node@, max_depth as int, current_depth as int);
            assert(r@.san == m.san);
            assert(r@.number == m.number);
            assert(r@.comment == m.comment);
            assert(r@.nags == m.nags);
            assert(r@.children == m.children);
        }
        r
    }
}

/// The game that `pgnq tree` draws: the whole game, or, from a path, a game
/// without tag pairs whose root is the node the path leads to; "path not
/// found" where it leads nowhere.
pub fn display_tree(tree: &GameTree, from_path: &Option<String>) -> (r: Result<GameTree, Error>)
    ensures
        from_path is None ==> (r matches Ok(g) && g.root@ == tree.root@ && g.headers@ == tree.headers@
            && g.result == tree.result),
        from_path matches Some(p) ==> match parse_path_spec(p@) {
            Err(m) => r matches Err(Error::InvalidPath(x)) && x@ == m,
            Ok(segs) => match resolve_spec(tree.root@, tree.root@, segs, 0) {
                None => r matches Err(Error::PathNotFound(x)) && x@ == p@,
                Some(n) => r matches Ok(g) && g.root@ == n && g.headers@.len() == 0 && g.result
                    == GameResult::Ongoing,
            },
        },
{
    match from_path {
        None => Ok(tree.copy()),
        Some(p) => {
            let path = match NodePath::parse(p.as_str()) {
                Ok(path) => path,
                Err(e) => {
                    return Err(e);
                },
            };
            match path.resolve(tree) {
                None => Err(Error::PathNotFound(p.clone())),
                Some(node) => {
                    let mut g = GameTree::new();
                    g.root = node.deep_clone();
                    Ok(g)
                },
            }
        },
    }
}

/// The tree-view options of `pgnq tree`.
pub fn tree_options(args: &TreeArgs) -> (o: OutputOptions)
    ensures
        o.format == OutputFormat::Tree,
        o.max_depth == args.depth,
        o.ascii == args.ascii && o.show_comments == args.show_comments && o.show_nags == args.show_nags,
        o.headers && o.comments && o.variations && o.nags && o.result,
        !o.strip_clocks && !o.strip_evals,
        o.line_width == 80 && o.indent == 2,
{
    let mut o = OutputOptions::default();
    o.format = OutputFormat::Tree;
    o.max_depth = args.depth;
    o.ascii = args.ascii;
    o.show_comments = args.show_comments;
    o.show_nags = args.show_nags;
    o
}

} // verus!
