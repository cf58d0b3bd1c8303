//! `pgnq split`: subtrees of a game written to files.

use vstd::prelude::*;
use crate::cli::{format_spec, CliOutputFormat, InputSource};
use crate::error::Error;
use crate::serializer::options::{OutputFormat, OutputOptions};
use crate::tree::game::GameTree;
use crate::tree::model::{at_path, lemma_at_path_count, node_count, NodeModel};
use crate::tree::path::{last_char, parse_path_spec, resolve_indices_spec, NodePath};
use crate::text::{push_str, str_chars, string_of, sub_chars};

verus! {

broadcast use vstd::string::group_string_axioms;

/// Arguments of `pgnq split`.
pub struct SplitArgs {
    /// Input PGN file ("-" for standard input).
    pub input: InputSource,
    /// Split specifications "path:name".
    pub splits: Vec<String>,
    /// Output directory.
    pub output_dir: String,
    /// Output format.
    pub format: CliOutputFormat,
    /// Include the moves before each split point.
    pub include_prefix: bool,
    /// Show what would be created without writing files.
    pub dry_run: bool,
    /// Game number to select from a file of several games (1-indexed).
    pub game: Option<usize>,
}

/// A split specification "path:name" divided at its last colon; the
/// message where there is no colon or the name is empty.
pub open spec fn split_spec_result(s: Seq<char>) -> Result<(Seq<char>, Seq<char>), Seq<char>> {
    match last_char(s, ':') {
        Some(i) => if i + 1 < s.len() {
            Ok((s.take(i), s.skip(i + 1)))
        } else {
            Err("Empty name in split spec: "@ + s)
        },
        None => Err("Invalid split spec (missing ':name'): "@ + s),
    }
}

/// Parse a split specification "path:name".
pub fn parse_split_spec(spec: &str) -> (r: Result<(String, String), Error>)
    ensures
        match split_spec_result(spec@) {
            Ok(pn) => r matches Ok(x) && x.0@ == pn.0 && x.1@ == pn.1,
            Err(m) => r matches Err(Error::Other(x)) && x@ == m,
        },
{
    let v = str_chars(spec);
    let n = v.len();
    let mut k = n;
    assert(v@.take(k as int) =~= v@);
    while k > 0
        invariant
            k <= n,
            n == v@.len(),
            v@ == spec@,
            last_char(spec@, ':') == last_char(v@.take(k as int), ':'),
        decreases k,
    {
        assert(v@.take(k as int).last() == v@[k - 1]);
        assert(v@.take(k as int).drop_last() =~= v@.take(k - 1));
        if v[k - 1] == ':' {
            let i = k - 1;
            if i + 1 < n {
                let path = string_of(&sub_chars(&v, 0, i));
                let name = string_of(&sub_chars(&v, i + 1, n));
                assert(v@.subrange(0, i as int) =~= v@.take(i as int));
                assert(v@.subrange(i + 1, n as int) =~= v@.skip(i + 1));
                return Ok((path, name));
            } else {
                let mut m = String::new();
                push_str(&mut m, "Empty name in split spec: ");
                push_str(&mut m, spec);
                return Err(Error::Other(m));
            }
        }
        k = k - 1;
    }
    let mut m = String::new();
    push_str(&mut m, "Invalid split spec (missing ':name'): ");
    push_str(&mut m, spec);
    Err(Error::Other(m))
}

/// At least one split specification is given.
pub fn require_splits(splits: &Vec<String>) -> (r: Result<(), Error>)
    ensures
        splits@.len() > 0 ==> r is Ok,
        splits@.len() == 0 ==> (r matches Err(Error::Other(m)) && m@
            == "No split specifications provided. Use -s 'path:name'"@),
{
    if splits.len() == 0 {
        Err(Error::Other("No split specifications provided. Use -s 'path:name'".to_owned()))
    } else {
        Ok(())
    }
}

/// What one split specification gives.
pub enum SplitPart {
    /// The file to write: its name, the game in it (the subtree at the path
    /// with the game's tag pairs and result), and the number of nodes of
    /// that subtree.
    Found { file_name: String, game: GameTree, node_count: usize },
    /// The path leads nowhere: the name and the path.
    NotFound { name: String, path: String },
}

/// The part of a game that one specification "path:name" asks for: errors
/// for a malformed specification or path; otherwise the file "name.pgn"
/// with the subtree at the path, or the report that the path leads nowhere.
pub fn split_part(tree: &GameTree, spec: &str) -> (r: Result<SplitPart, Error>)
    requires
        node_count(tree.root@) <= usize::MAX,
    ensures
        match split_spec_result(spec@) {
            Err(m) => r matches Err(Error::Other(x)) && x@ == m,
            Ok(pn) => match parse_path_spec(pn.0) {
                Err(m) => r matches Err(Error::InvalidPath(x)) && x@ == m,
                Ok(segs) => match resolve_indices_spec(tree.root@, tree.root@, segs, 0, Seq::empty()) {
                    None => r matches Ok(SplitPart::NotFound { name, path }) && name@ == pn.1 && path@ == pn.0,
                    Some(ix) => r matches Ok(SplitPart::Found { file_name, game, node_count: c }) && file_name@
                        == pn.1 + ".pgn"@ && game.root@ == at_path(tree.root@, ix) && game.headers@
                        == tree.headers@ && game.result == tree.result && c == node_count(
                        at_path(tree.root@, ix),
                    ),
                },
            },
        },
{
    let (path_text, name) = match parse_split_spec(spec) {
        Ok(pn) => pn,
        Err(e) => {
            return Err(e);
        },
    };
    let path = match NodePath::parse(path_text.as_str()) {
        Ok(p) => p,
        Err(e) => {
            return Err(e);
        },
    };
    match path.resolve_indices(&tree.root) {
        None => Ok(SplitPart::NotFound { name, path: path_text }),
        Some(ix) => {
            let node = tree.root.node_at(ix.as_slice());
            proof {
                lemma_at_path_count(tree.root@, ix@);
            }
            let count = node.count_nodes();
            let mut file_name = name;
            push_str(&mut file_name, ".pgn");
            let game = GameTree { headers: tree.headers.copy(), root: node.deep_clone(), result: tree.result };
            Ok(SplitPart::Found { file_name, game, node_count: count })
        },
    }
}

/// The output options of each split file: the defaults in the chosen format.
pub fn split_options(args: &SplitArgs) -> (o: OutputOptions)
    ensures
        o.format == format_spec(args.format),
        o.headers && o.comments && o.variations && o.nags && o.result,
        !o.strip_clocks && !o.strip_evals && !o.ascii && !o.show_comments && !o.show_nags,
        o.line_width == 80 && o.indent == 2 && o.max_depth == 0,
{
    let mut o = OutputOptions::default();
    o.format = OutputFormat::from(args.format);
    o
}

} // verus!
