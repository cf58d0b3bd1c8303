//! Tree view: the game tree drawn with box-drawing (or ASCII) characters.

use vstd::prelude::*;
use crate::parser::lexer::{lemma_utf8_bytes_prefix, lemma_utf8_bytes_split, utf8_bytes, utf8_width};
use crate::serializer::options::OutputOptions;
use crate::serializer::standard::{nags_text, push_nags};
use crate::text::{dec, push_char, push_chars, push_dec, push_str, str_chars, string_of, sub_chars, trim, trim_chars};
use crate::tree::game::GameTree;
use crate::tree::model::{group_node_model, lemma_depth_bound, move_text_spec, node_count, GameNode, NodeModel};

verus! {

broadcast use {vstd::string::group_string_axioms, group_node_model};

/// The characters a tree is drawn with.
pub struct TreeChars {
    pub branch: &'static str,
    pub last_branch: &'static str,
    pub vertical: &'static str,
    pub space: &'static str,
}

impl TreeChars {
    /// Box-drawing characters.
    pub fn unicode() -> (c: TreeChars)
        ensures
            c.branch@ == "├── "@ && c.last_branch@ == "└── "@ && c.vertical@ == "│   "@ && c.space@
                == "    "@,
    {
        TreeChars { branch: "├── ", last_branch: "└── ", vertical: "│   ", space: "    " }
    }

    /// ASCII characters.
    pub fn ascii() -> (c: TreeChars)
        ensures
            c.branch@ == "|-- "@ && c.last_branch@ == "`-- "@ && c.vertical@ == "|   "@ && c.space@
                == "    "@,
    {
        TreeChars { branch: "|-- ", last_branch: "`-- ", vertical: "|   ", space: "    " }
    }
}

// ---------------------------------------------------------------------------
// Truncating comments
// ---------------------------------------------------------------------------

/// Whether the first `k` characters of `t` take exactly `m` bytes for some `k`.
pub open spec fn has_cut(t: Seq<char>, m: int) -> bool {
    exists|k: int| 0 <= k <= t.len() && #[trigger] utf8_bytes(t.take(k)) == m
}

/// The number of characters of `t` that take `m` bytes.
pub open spec fn cut_at(t: Seq<char>, m: int) -> int {
    choose|k: int| 0 <= k <= t.len() && #[trigger] utf8_bytes(t.take(k)) == m
}

/// A comment can be truncated to `max` bytes: it is short enough, or
/// `max - 3` bytes end on a character boundary.
pub open spec fn truncate_ok(c: Seq<char>, max: int) -> bool {
    utf8_bytes(trim(c)) <= max || (max >= 3 && has_cut(trim(c), max - 3))
}

/// A comment trimmed, and, where it takes more than `max` bytes, cut to
/// `max - 3` bytes and followed by "...".
pub open spec fn truncate_spec(c: Seq<char>, max: int) -> Seq<char> {
    let t = trim(c);
    if utf8_bytes(t) <= max {
        t
    } else {
        t.take(cut_at(t, max - 3)) + "..."@
    }
}

pub(crate) proof fn lemma_utf8_nonempty(s: Seq<char>)
    requires
        s.len() > 0,
    ensures
        utf8_bytes(s) >= s.len(),
    decreases s.len(),
{
    if s.len() > 1 {
        lemma_utf8_nonempty(s.drop_last());
    }
}

proof fn lemma_utf8_take_increasing(t: Seq<char>, i: int, j: int)
    requires
        0 <= i < j <= t.len(),
    ensures
        utf8_bytes(t.take(i)) < utf8_bytes(t.take(j)),
{
    lemma_utf8_bytes_split(t, i, j);
    lemma_utf8_nonempty(t.subrange(i, j));
}

proof fn lemma_take_step(t: Seq<char>, i: int)
    requires
        0 <= i < t.len(),
    ensures
        utf8_bytes(t.take(i + 1)) == utf8_bytes(t.take(i)) + utf8_width(t[i]),
{
    assert(t.take(i + 1).drop_last() =~= t.take(i));
}

fn width_of(c: char) -> (n: usize)
    ensures
        n == utf8_width(c),
{
    let v = c as u32;
    if v < 0x80 {
        1
    } else if v < 0x800 {
        2
    } else if v < 0x10000 {
        3
    } else {
        4
    }
}

/// Truncate a comment to at most `max_len` bytes, marking a cut with "...".
pub fn truncate_comment(comment: &str, max_len: usize) -> (r: String)
    requires
        truncate_ok(comment@, max_len as int),
    ensures
        r@ == truncate_spec(comment@, max_len as int),
{
    let t = trim_chars(&str_chars(comment));
    let n = t.len();
    let mut acc: usize = 0;
    let mut i: usize = 0;
    let mut long = false;
    assert(t@.take(n as int) =~= t@);
    while i < n
        invariant_except_break
            i <= n,
            n == t@.len(),
            t@.take(n as int) == t@,
            acc == utf8_bytes(t@.take(i as int)),
            acc <= max_len,
            !long,
        ensures
            n == t@.len(),
            !long ==> utf8_bytes(t@) <= max_len,
            long ==> i < n && utf8_bytes(t@.take(i + 1)) > max_len,
        decreases n - i,
    {
        proof {
            lemma_take_step(t@, i as int);
        }
        let w = width_of(t[i]);
        if w > max_len - acc {
            long = true;
            assert(utf8_bytes(t@.take(i + 1)) > max_len);
            break;
        }
        acc = acc + w;
        i = i + 1;
        proof {
            if i == n {
                assert(t@.take(n as int) =~= t@);
            }
        }
    }
    if !long {
        return string_of(&t);
    }
    proof {
        lemma_utf8_bytes_split(t@, (i + 1) as int, n as int);
        assert(t@.take(n as int) =~= t@);
        assert(utf8_bytes(trim(comment@)) > max_len);
        let k = cut_at(t@, max_len - 3);
        assert(0 <= k <= t@.len() && utf8_bytes(t@.take(k)) == max_len - 3);
    }
    let ghost k = cut_at(t@, max_len - 3);
    let mut j: usize = 0;
    let mut b: usize = 0;
    while b < max_len - 3
        invariant
            j <= n,
            n == t@.len(),
            max_len >= 3,
            0 <= k <= n,
            utf8_bytes(t@.take(k)) == max_len - 3,
            b == utf8_bytes(t@.take(j as int)),
            j <= k,
        decreases n - j,
    {
        proof {
            assert(j < k);
            lemma_take_step(t@, j as int);
            if j + 1 < k {
                lemma_utf8_take_increasing(t@, j + 1, k);
            }
        }
        b = b + width_of(t[j]);
        j = j + 1;
    }
    proof {
        if j < k {
            lemma_utf8_take_increasing(t@, j as int, k);
        }
    }
    assert(j == k);
    let mut s = string_of(&sub_chars(&t, 0, j));
    assert(t@.subrange(0, j as int) =~= t@.take(j as int));
    push_str(&mut s, "...");
    s
}

// ---------------------------------------------------------------------------
// The view
// ---------------------------------------------------------------------------

/// The line of a node: its branch, its move, its NAGs and truncated comment
/// where shown, and how many variations it has.
pub open spec fn tv_line(n: NodeModel, o: OutputOptions, ch: CharsModel, prefix: Seq<char>, is_last: bool) -> Seq<char> {
    prefix + (if is_last { ch.1 } else { ch.0 }) + move_text_spec(n) + (if o.show_nags
        && n.nags.len() > 0 {
        nags_text(n.nags)
    } else {
        Seq::empty()
    }) + (if o.show_comments && n.comment.len() > 0 {
        " {"@ + truncate_spec(n.comment, 40) + seq!['}']
    } else {
        Seq::empty()
    }) + (if n.children.len() > 1 {
        " (+"@ + dec((n.children.len() - 1) as nat) + " var)"@
    } else {
        Seq::empty()
    }) + seq!['\n']
}

/// The view of the subtree of `n`: its line, then its children's views
/// under a longer prefix; past the depth limit, "..." for a node with children.
pub open spec fn tv_node(n: NodeModel, o: OutputOptions, ch: CharsModel, prefix: Seq<char>, is_last: bool, depth: int) -> Seq<char>
    decreases n,
{
    if o.max_depth > 0 && depth > o.max_depth {
        if n.children.len() > 0 {
            prefix + (if is_last { ch.1 } else { ch.0 }) + "...\n"@
        } else {
            Seq::empty()
        }
    } else {
        tv_line(n, o, ch, prefix, is_last) + tv_forest(
            n.children,
            n.children.len() as int,
            o,
            ch,
            prefix + (if is_last { ch.3 } else { ch.2 }),
            depth + 1,
        )
    }
}

/// The views of the nodes of `s`, the first `s.len()` of `total` siblings.
pub open spec fn tv_forest(s: Seq<NodeModel>, total: int, o: OutputOptions, ch: CharsModel, prefix: Seq<char>, depth: int) -> Seq<char>
    decreases s,
{
    if s.len() == 0 {
        Seq::empty()
    } else {
        tv_forest(s.subrange(0, s.len() - 1), total, o, ch, prefix, depth) + tv_node(
            s[s.len() - 1],
            o,
            ch,
            prefix,
            s.len() == total,
            depth,
        )
    }
}

/// Every comment the view shows can be truncated.
pub open spec fn tv_ok(n: NodeModel, o: OutputOptions, depth: int) -> bool
    decreases n,
{
    if o.max_depth > 0 && depth > o.max_depth {
        true
    } else {
        (o.show_comments && n.comment.len() > 0 ==> truncate_ok(n.comment, 40)) && tv_ok_forest(
            n.children,
            o,
            depth + 1,
        )
    }
}

pub open spec fn tv_ok_forest(s: Seq<NodeModel>, o: OutputOptions, depth: int) -> bool
    decreases s,
{
    s.len() == 0 || (tv_ok_forest(s.subrange(0, s.len() - 1), o, depth) && tv_ok(s[s.len() - 1], o, depth))
}

/// The drawing characters as text: branch, last branch, vertical line, space.
pub type CharsModel = (Seq<char>, Seq<char>, Seq<char>, Seq<char>);

pub open spec fn chars_model(c: TreeChars) -> CharsModel {
    (c.branch@, c.last_branch@, c.vertical@, c.space@)
}

/// The drawing characters the options ask for.
pub open spec fn chars_for(o: OutputOptions) -> CharsModel {
    if o.ascii {
        ("|-- "@, "`-- "@, "|   "@, "    "@)
    } else {
        ("├── "@, "└── "@, "│   "@, "    "@)
    }
}

/// The tree view of a game: the views of the root's children.
pub open spec fn tree_view_text(t: &GameTree, o: OutputOptions, ch: CharsModel) -> Seq<char> {
    tv_forest(t.root@.children, t.root@.children.len() as int, o, ch, Seq::empty(), 1)
}

proof fn lemma_tv_ok_child(s: Seq<NodeModel>, o: OutputOptions, depth: int, i: int)
    requires
        tv_ok_forest(s, o, depth),
        0 <= i < s.len(),
    ensures
        tv_ok(s[i], o, depth),
    decreases s.len(),
{
    if i < s.len() - 1 {
        lemma_tv_ok_child(s.subrange(0, s.len() - 1), o, depth, i);
    }
}

#[verifier::spinoff_prover]
#[verifier::rlimit(100)]
fn tv_line_exec(node: &GameNode, options: &OutputOptions, chars: &TreeChars, prefix: &str, is_last: bool, output: &mut String)
    requires
        options.show_comments && node@.comment.len() > 0 ==> truncate_ok(node@.comment, 40),
    ensures
        final(output)@ == old(output)@ + tv_line(node@, *options, chars_model(*chars), prefix@, is_last),
{
    let ghost base = output@;
    push_str(output, prefix);
    push_str(output, if is_last { chars.last_branch } else { chars.branch });
    let mt = node.move_text();
    push_str(output, mt.as_str());
    let ghost a = output@;
    if options.show_nags && node.nags.len() > 0 {
        push_nags(output, &node.nags);
    }
    let ghost b = output@;
    assert(b =~= a + if options.show_nags && node@.nags.len() > 0 { nags_text(node@.nags) } else {
        Seq::<char>::empty()
    });
    if options.show_comments && !node.comment.as_str().is_empty() {
        let comment = truncate_comment(node.comment.as_str(), 40);
        push_str(output, " {");
        push_str(output, comment.as_str());
        push_char(output, '}');
    }
    let ghost c = output@;
    assert(c =~= b + if options.show_comments && node@.comment.len() > 0 {
        " {"@ + truncate_spec(node@.comment, 40) + seq!['}']
    } else {
        Seq::<char>::empty()
    });
    if node.children.len() > 1 {
        push_str(output, " (+");
        push_dec(output, (node.children.len() - 1) as u64);
        push_str(output, " var)");
    }
    let ghost d = output@;
    assert(d =~= c + if node@.children.len() > 1 {
        " (+"@ + dec((node@.children.len() - 1) as nat) + " var)"@
    } else {
        Seq::<char>::empty()
    });
    push_char(output, '\n');
    assert(output@ =~= base + tv_line(node@, *options, chars_model(*chars), prefix@, is_last));
}

/// Write the view of a node and its subtree.
pub fn serialize_tree_node(
    node: &GameNode,
    options: &OutputOptions,
    chars: &TreeChars,
    prefix: &str,
    is_last: bool,
    depth: usize,
    output: &mut String,
)
    requires
        depth + crate::tree::model::depth(node@) < usize::MAX,
        tv_ok(node@, *options, depth as int),
    ensures
        final(output)@ == old(output)@ + tv_node(node@, *options, chars_model(*chars), prefix@, is_last, depth as int),
    decreases node,
{
    let ghost base = output@;
    if options.max_depth > 0 && depth > options.max_depth {
        if node.children.len() > 0 {
            push_str(output, prefix);
            push_str(output, if is_last { chars.last_branch } else { chars.branch });
            push_str(output, "...\n");
        }
        assert(output@ =~= base + tv_node(node@, *options, chars_model(*chars), prefix@, is_last, depth as int));
        return;
    }
    tv_line_exec(node, options, chars, prefix, is_last, output);
    let ghost after_line = output@;
    let mut child_prefix = String::new();
    push_str(&mut child_prefix, prefix);
    push_str(&mut child_prefix, if is_last { chars.space } else { chars.vertical });
    let ghost cp = child_prefix@;
    let ghost ch = node@.children;
    let n = node.children.len();
    let mut i: usize = 0;
    assert(ch.take(0) =~= Seq::<NodeModel>::empty());
    while i < n
        invariant
            i <= n,
            n == ch.len(),
            ch == node@.children,
            ch.len() == node.children@.len(),
            child_prefix@ == cp,
            depth + crate::tree::model::depth(node@) < usize::MAX,
            tv_ok_forest(ch, *options, depth + 1),
            output@ == after_line + tv_forest(ch.take(i as int), n as int, *options, chars_model(*chars), cp, depth + 1),
        decreases n - i,
    {
        proof {
            crate::tree::iter::lemma_child_depth_pub(node@, i as int);
            lemma_tv_ok_child(ch, *options, depth + 1, i as int);
        }
        let child_is_last = i == n - 1;
        serialize_tree_node(
            &node.children[i],
            options,
            chars,
            child_prefix.as_str(),
            child_is_last,
            depth + 1,
            output,
        );
        assert(ch.take(i + 1).subrange(0, i as int) =~= ch.take(i as int));
        assert(ch.take(i + 1)[i as int] == ch[i as int]);
        assert(output@ =~= after_line + tv_forest(ch.take(i + 1), n as int, *options, chars_model(*chars), cp, depth + 1));
        i = i + 1;
    }
    assert(ch.take(n as int) =~= ch);
}

/// Draw a game tree.
pub fn to_tree_view(tree: &GameTree, options: &OutputOptions) -> (r: String)
    requires
        node_count(tree.root@) <= usize::MAX,
        tv_ok_forest(tree.root@.children, *options, 1),
    ensures
        r@ == tree_view_text(tree, *options, chars_for(*options)),
{
    proof {
        lemma_depth_bound(tree.root@);
    }
    let chars = if options.ascii { TreeChars::ascii() } else { TreeChars::unicode() };
    let mut output = String::new();
    let ghost ch = tree.root@.children;
    let n = tree.root.children.len();
    let mut i: usize = 0;
    assert(ch.take(0) =~= Seq::<NodeModel>::empty());
    while i < n
        invariant
            i <= n,
            n == ch.len(),
            ch == tree.root@.children,
            ch.len() == tree.root.children@.len(),
            crate::tree::model::depth(tree.root@) < usize::MAX,
            tv_ok_forest(ch, *options, 1),
            output@ == tv_forest(ch.take(i as int), n as int, *options, chars_model(chars), Seq::empty(), 1),
            chars_model(chars) == chars_for(*options),
        decreases n - i,
    {
        proof {
            crate::tree::iter::lemma_child_depth_pub(tree.root@, i as int);
            lemma_tv_ok_child(ch, *options, 1, i as int);
        }
        let is_last = i == n - 1;
        serialize_tree_node(&tree.root.children[i], options, &chars, "", is_last, 1, &mut output);
        proof {
            reveal_strlit("");
            assert(""@ =~= Seq::<char>::empty());
        }
        assert(ch.take(i + 1).subrange(0, i as int) =~= ch.take(i as int));
        assert(ch.take(i + 1)[i as int] == ch[i as int]);
        assert(output@ =~= tv_forest(ch.take(i + 1), n as int, *options, chars_model(chars), Seq::empty(), 1));
        i = i + 1;
    }
    assert(ch.take(n as int) =~= ch);
    output
}

/// Whether a comment can be truncated to `max_len` bytes (see
/// `truncate_comment`): it is short enough, or `max_len - 3` bytes of it
/// end on a character boundary.
pub fn comment_fits(comment: &str, max_len: usize) -> (b: bool)
    ensures
        b == truncate_ok(comment@, max_len as int),
{
    let t = trim_chars(&str_chars(comment));
    let n = t.len();
    let mut acc: usize = 0;
    let mut i: usize = 0;
    let mut over = false;
    assert(t@.take(n as int) =~= t@);
    while i < n
        invariant_except_break
            i <= n,
            n == t@.len(),
            t@.take(n as int) == t@,
            acc == utf8_bytes(t@.take(i as int)),
            acc <= max_len,
            !over,
        ensures
            n == t@.len(),
            !over ==> utf8_bytes(t@) <= max_len,
            over ==> utf8_bytes(t@) > max_len,
        decreases n - i,
    {
        proof {
            lemma_take_step(t@, i as int);
        }
        let w = width_of(t[i]);
        if w > max_len - acc {
            over = true;
            proof {
                lemma_utf8_bytes_prefix(t@, i + 1, n as int);
                assert(t@.take(n as int) =~= t@);
            }
            break;
        }
        acc = acc + w;
        i = i + 1;
        proof {
            if i == n {
                assert(t@.take(n as int) =~= t@);
            }
        }
    }
    if !over {
        return true;
    }
    if max_len < 3 {
        return false;
    }
    let m = max_len - 3;
    let mut j: usize = 0;
    let mut b: usize = 0;
    while j < n && b < m
        invariant
            j <= n,
            n == t@.len(),
            m == max_len - 3,
            b == utf8_bytes(t@.take(j as int)),
            b <= m + 4,
            j > 0 ==> utf8_bytes(t@.take(j - 1)) < m,
        decreases n - j,
    {
        proof {
            lemma_take_step(t@, j as int);
        }
        b = b + width_of(t[j]);
        j = j + 1;
    }
    if b == m {
        assert(utf8_bytes(t@.take(j as int)) == m);
        return true;
    }
    assert forall|k: int| 0 <= k <= t@.len() implies #[trigger] utf8_bytes(t@.take(k)) != m by {
        if k <= j {
            if k < j {
                lemma_utf8_bytes_prefix(t@, k, j - 1);
            }
        } else {
            lemma_utf8_bytes_prefix(t@, j as int, k);
        }
    }
    false
}

/// Whether a node's view can be drawn: each comment shown fits its
/// truncation (see `tv_ok`).
pub fn node_view_fits(node: &GameNode, options: &OutputOptions, depth: usize) -> (b: bool)
    requires
        depth + crate::tree::model::depth(node@) < usize::MAX,
    ensures
        b == tv_ok(node@, *options, depth as int),
    decreases node,
{
    if options.max_depth > 0 && depth > options.max_depth {
        return true;
    }
    if options.show_comments && !node.comment.as_str().is_empty() && !comment_fits(node.comment.as_str(), 40) {
        return false;
    }
    let ghost ch = node@.children;
    let mut i: usize = 0;
    assert(ch.take(0) =~= Seq::<NodeModel>::empty());
    while i < node.children.len()
        invariant
            i <= ch.len(),
            ch == node@.children,
            ch.len() == node.children@.len(),
            depth + crate::tree::model::depth(node@) < usize::MAX,
            tv_ok_forest(ch.take(i as int), *options, depth + 1),
        decreases ch.len() - i,
    {
        proof {
            crate::tree::iter::lemma_child_depth_pub(node@, i as int);
        }
        assert(ch.take(i + 1).subrange(0, i as int) =~= ch.take(i as int));
        assert(ch.take(i + 1)[i as int] == ch[i as int]);
        if !node_view_fits(&node.children[i], options, depth + 1) {
            proof {
                if tv_ok_forest(ch, *options, depth + 1) {
                    lemma_tv_ok_prefix(ch, *options, depth + 1, i + 1);
                }
            }
            return false;
        }
        i = i + 1;
    }
    assert(ch.take(i as int) =~= ch);
    true
}

/// A prefix of a drawable forest is drawable.
proof fn lemma_tv_ok_prefix(s: Seq<NodeModel>, o: OutputOptions, depth: int, k: int)
    requires
        0 <= k <= s.len(),
        tv_ok_forest(s, o, depth),
    ensures
        tv_ok_forest(s.take(k), o, depth),
    decreases s.len() - k,
{
    if k < s.len() {
        assert(s.subrange(0, s.len() - 1) =~= s.take(s.len() - 1));
        lemma_tv_ok_prefix(s.take(s.len() - 1), o, depth, k);
        assert(s.take(s.len() - 1).take(k) =~= s.take(k));
    } else {
        assert(s.take(k) =~= s);
    }
}

/// Whether a game's tree view can be drawn with these options (see
/// `to_tree_view`).
pub fn tree_view_fits(tree: &GameTree, options: &OutputOptions) -> (b: bool)
    requires
        node_count(tree.root@) <= usize::MAX,
    ensures
        b == tv_ok_forest(tree.root@.children, *options, 1),
{
    proof {
        lemma_depth_bound(tree.root@);
    }
    let ghost ch = tree.root@.children;
    let mut i: usize = 0;
    assert(ch.take(0) =~= Seq::<NodeModel>::empty());
    while i < tree.root.children.len()
        invariant
            i <= ch.len(),
            ch == tree.root@.children,
            ch.len() == tree.root.children@.len(),
            crate::tree::model::depth(tree.root@) < usize::MAX,
            tv_ok_forest(ch.take(i as int), *options, 1),
        decreases ch.len() - i,
    {
        proof {
            crate::tree::iter::lemma_child_depth_pub(tree.root@, i as int);
        }
        assert(ch.take(i + 1).subrange(0, i as int) =~= ch.take(i as int));
        assert(ch.take(i + 1)[i as int] == ch[i as int]);
        if !node_view_fits(&tree.root.children[i], options, 1) {
            proof {
                if tv_ok_forest(ch, *options, 1) {
                    lemma_tv_ok_prefix(ch, *options, 1, i + 1);
                }
            }
            return false;
        }
        i = i + 1;
    }
    assert(ch.take(i as int) =~= ch);
    true
}

} // verus!
