//! `pgnq stats`: statistics of a game tree.

use vstd::prelude::*;
use crate::cli::commands::info::info_line;
use crate::cli::InputSource;
use crate::nag::{nag_text, Nag};
use crate::text::{dec, push_char, push_dec, push_str, str_chars, chars_eq};
use crate::tree::game::{line_count, GameTree};
use crate::tree::iter::{law_preorder_visits_every_node, preorder};
use crate::tree::model::{comment_count, depth, forest_count, group_node_model, lemma_forest_count_step, lemma_forest_monotone, lemma_forest_take_all, main_line_len, node_count, GameNode, NodeModel};
use crate::tree::path::nodes_model;

verus! {

broadcast use {vstd::string::group_string_axioms, group_node_model};

/// Arguments of `pgnq stats`.
pub struct StatsArgs {
    /// Input PGN file ("-" for standard input).
    pub input: InputSource,
    /// Output file (default: standard output).
    pub output: Option<String>,
    /// Output as JSON.
    pub json: bool,
    /// Show move frequency statistics.
    pub move_stats: bool,
    /// Show comment statistics.
    pub comment_stats: bool,
    /// Game number to select from a file of several games (1-indexed).
    pub game: Option<usize>,
}

// ---------------------------------------------------------------------------
// Variations
// ---------------------------------------------------------------------------

/// The number of variations in the subtree of `n`: at each node, its
/// children but the first.
pub open spec fn variation_total(n: NodeModel) -> nat
    decreases n,
{
    (if n.children.len() > 1 { (n.children.len() - 1) as nat } else { 0nat }) + variation_forest(n.children)
}

pub open spec fn variation_forest(s: Seq<NodeModel>) -> nat
    decreases s,
{
    if s.len() == 0 {
        0
    } else {
        variation_forest(s.subrange(0, s.len() - 1)) + variation_total(s[s.len() - 1])
    }
}

proof fn lemma_variation_bound(n: NodeModel)
    ensures
        variation_total(n) < node_count(n),
    decreases n,
{
    lemma_variation_forest_bound(n.children);
}

proof fn lemma_variation_forest_bound(s: Seq<NodeModel>)
    ensures
        variation_forest(s) + s.len() <= forest_count(s),
    decreases s,
{
    if s.len() > 0 {
        lemma_variation_forest_bound(s.subrange(0, s.len() - 1));
        lemma_variation_bound(s[s.len() - 1]);
    }
}

/// Count the variations of the subtree of a node.
pub fn variation_count(node: &GameNode) -> (r: usize)
    requires
        node_count(node@) <= usize::MAX,
    ensures
        r == variation_total(node@),
    decreases node,
{
    proof {
        lemma_variation_bound(node@);
    }
    let n = node.children.len();
    let mut total: usize = if n > 1 { n - 1 } else { 0 };
    let ghost s = node@.children;
    let mut i: usize = 0;
    while i < n
        invariant
            i <= n,
            n == s.len(),
            s == node@.children,
            s.len() == node.children@.len(),
            node_count(node@) <= usize::MAX,
            variation_total(node@) < node_count(node@),
            total == (if n > 1 { (n - 1) as nat } else { 0nat }) + variation_forest(s.take(i as int)),
        decreases n - i,
    {
        proof {
            lemma_forest_count_step(s, i as int);
            lemma_forest_monotone(s, i + 1);
            lemma_forest_take_all(s);
            assert(s.take(i + 1).subrange(0, i as int) =~= s.take(i as int));
            assert(s.take(i + 1)[i as int] == s[i as int]);
            lemma_variation_prefix(s, i + 1);
        }
        let c = variation_count(&node.children[i]);
        total = total + c;
        i = i + 1;
    }
    assert(s.take(i as int) =~= s);
    total
}

proof fn lemma_variation_prefix(s: Seq<NodeModel>, k: int)
    requires
        0 <= k <= s.len(),
    ensures
        variation_forest(s.take(k)) <= variation_forest(s),
    decreases s.len() - k,
{
    if k < s.len() {
        lemma_variation_prefix(s, k + 1);
        assert(s.take(k + 1).subrange(0, k) =~= s.take(k));
    } else {
        assert(s.take(k) =~= s);
    }
}

// ---------------------------------------------------------------------------
// NAG counts
// ---------------------------------------------------------------------------

/// The NAGs of the nodes `s`, in order, as text.
pub open spec fn nag_list(s: Seq<NodeModel>) -> Seq<Seq<char>>
    decreases s.len(),
{
    if s.len() == 0 {
        Seq::empty()
    } else {
        nag_list(s.drop_last()) + s.last().nags.map_values(|g: Nag| nag_text(g.0))
    }
}

/// How often `x` occurs in `l`.
pub open spec fn occurrences(l: Seq<Seq<char>>, x: Seq<char>) -> nat
    decreases l.len(),
{
    if l.len() == 0 {
        0
    } else {
        occurrences(l.drop_last(), x) + if l.last() == x { 1nat } else { 0nat }
    }
}

/// The distinct texts of `l`, in the order they are first seen.
pub open spec fn distinct_texts(l: Seq<Seq<char>>) -> Seq<Seq<char>>
    decreases l.len(),
{
    if l.len() == 0 {
        Seq::empty()
    } else {
        let d = distinct_texts(l.drop_last());
        if d.contains(l.last()) {
            d
        } else {
            d.push(l.last())
        }
    }
}

/// Each distinct text of `l` with how often it occurs, in first-seen order.
pub open spec fn tally(l: Seq<Seq<char>>) -> Seq<(Seq<char>, nat)> {
    distinct_texts(l).map_values(|k: Seq<char>| (k, occurrences(l, k)))
}

/// `x` placed in `sorted` after every entry that occurs at least as often.
pub open spec fn insert_desc(sorted: Seq<(Seq<char>, nat)>, x: (Seq<char>, nat)) -> Seq<(Seq<char>, nat)>
    decreases sorted.len(),
{
    if sorted.len() == 0 {
        seq![x]
    } else if sorted.last().1 >= x.1 {
        sorted.push(x)
    } else {
        insert_desc(sorted.drop_last(), x).push(sorted.last())
    }
}

/// The entries by decreasing count, entries with equal counts in their order.
pub open spec fn sort_desc(l: Seq<(Seq<char>, nat)>) -> Seq<(Seq<char>, nat)>
    decreases l.len(),
{
    if l.len() == 0 {
        Seq::empty()
    } else {
        insert_desc(sort_desc(l.drop_last()), l.last())
    }
}

pub open spec fn tally_model(v: Seq<(String, usize)>) -> Seq<(Seq<char>, nat)> {
    v.map_values(|e: (String, usize)| (e.0@, e.1 as nat))
}

proof fn lemma_occurrences_bound(l: Seq<Seq<char>>, x: Seq<char>)
    ensures
        occurrences(l, x) <= l.len(),
    decreases l.len(),
{
    if l.len() > 0 {
        lemma_occurrences_bound(l.drop_last(), x);
    }
}

/// The NAG texts of a list of nodes, in order.
fn nag_texts(nodes: &Vec<&GameNode>) -> (r: Vec<String>)
    ensures
        r@.map_values(|s: String| s@) == nag_list(nodes_model(nodes@)),
{
    let ghost s = nodes_model(nodes@);
    let mut out: Vec<String> = Vec::new();
    let mut i: usize = 0;
    while i < nodes.len()
        invariant
            i <= nodes@.len(),
            s == nodes_model(nodes@),
            out@.map_values(|s: String| s@) == nag_list(s.take(i as int)),
        decreases nodes@.len() - i,
    {
        assert(s.take(i + 1).drop_last() =~= s.take(i as int));
        assert(s.take(i + 1).last() == nodes@[i as int]@);
        let node = nodes[i];
        let ghost base = out@.map_values(|s: String| s@);
        let mut k: usize = 0;
        while k < node.nags.len()
            invariant
                k <= node.nags@.len(),
                out@.map_values(|s: String| s@) == base + node@.nags.take(k as int).map_values(|g: Nag| nag_text(g.0)),
            decreases node.nags@.len() - k,
        {
            let t = node.nags[k].to_string();
            let ghost prev = out@.map_values(|s: String| s@);
            out.push(t);
            assert(out@.map_values(|s: String| s@) =~= prev.push(t@));
            assert(node@.nags[k as int] == node.nags@[k as int]);
            assert(node@.nags.take(k + 1).map_values(|g: Nag| nag_text(g.0)) =~= node@.nags.take(k as int).map_values(
                |g: Nag| nag_text(g.0),
            ).push(nag_text(node@.nags[k as int].0)));
            assert(out@.map_values(|s: String| s@) =~= base + node@.nags.take(k + 1).map_values(
                |g: Nag| nag_text(g.0),
            ));
            k = k + 1;
        }
        assert(node@.nags.take(k as int) =~= node@.nags);
        i = i + 1;
    }
    assert(s.take(i as int) =~= s);
    out
}

/// Each distinct text with how often it occurs, in first-seen order.
fn tally_texts(l: &Vec<String>) -> (r: Vec<(String, usize)>)
    ensures
        tally_model(r@) == tally(l@.map_values(|s: String| s@)),
{
    let ghost m = l@.map_values(|s: String| s@);
    let mut keys: Vec<String> = Vec::new();
    let mut counts: Vec<usize> = Vec::new();
    let mut i: usize = 0;
    while i < l.len()
        invariant
            i <= l@.len(),
            m == l@.map_values(|s: String| s@),
            keys@.map_values(|s: String| s@) == distinct_texts(m.take(i as int)),
            counts@.len() == keys@.len(),
            forall|j: int| 0 <= j < counts@.len() ==> #[trigger] counts@[j] == occurrences(m.take(i as int), keys@[j]@),
            forall|j: int| 0 <= j < counts@.len() ==> #[trigger] counts@[j] <= i,
        decreases l@.len() - i,
    {
        let x = str_chars(l[i].as_str());
        let ghost km = keys@.map_values(|s: String| s@);
        let ghost p = m.take(i as int);
        let ghost p2 = m.take(i + 1);
        assert(p2.drop_last() =~= p);
        assert(p2.last() == l@[i as int]@);
        let mut j: usize = 0;
        let mut found: Option<usize> = None;
        while j < keys.len()
            invariant
                j <= keys@.len(),
                km == keys@.map_values(|s: String| s@),
                x@ == l@[i as int]@,
                found matches Some(f) ==> f < keys@.len() && km[f as int] == x@,
                found is None ==> forall|t: int| 0 <= t < j ==> km[t] != x@,
            decreases keys@.len() - j,
        {
            if found.is_none() && chars_eq(&str_chars(keys[j].as_str()), &x) {
                found = Some(j);
            }
            j = j + 1;
        }
        proof {
            lemma_occurrences_bound(p, l@[i as int]@);
            lemma_distinct(p);
        }
        match found {
            Some(f) => {
                assert(km.contains(x@));
                let c = counts[f] + 1;
                counts.set(f, c);
                assert forall|t: int| 0 <= t < counts@.len() implies #[trigger] counts@[t] == occurrences(p2, keys@[t]@) by {
                    if t != f {
                        assert(km[t] != km[f as int]);
                    }
                }
            },
            None => {
                assert(!km.contains(x@));
                keys.push(l[i].clone());
                counts.push(1);
                assert(keys@.map_values(|s: String| s@) =~= km.push(x@));
                assert forall|t: int| 0 <= t < counts@.len() implies #[trigger] counts@[t] == occurrences(p2, keys@[t]@) by {
                    if t < km.len() {
                        assert(km[t] != x@);
                    } else {
                        lemma_occurrences_absent(p, x@);
                    }
                }
            },
        }
        i = i + 1;
    }
    assert(m.take(i as int) =~= m);
    let mut r: Vec<(String, usize)> = Vec::new();
    let mut j: usize = 0;
    while j < keys.len()
        invariant
            j <= keys@.len(),
            counts@.len() == keys@.len(),
            m == l@.map_values(|s: String| s@),
            keys@.map_values(|s: String| s@) == distinct_texts(m),
            forall|t: int| 0 <= t < counts@.len() ==> #[trigger] counts@[t] == occurrences(m, keys@[t]@),
            tally_model(r@) == tally(m).take(j as int),
        decreases keys@.len() - j,
    {
        let k = keys[j].clone();
        proof {
            assert(keys@.map_values(|s: String| s@)[j as int] == keys@[j as int]@);
            assert(tally(m)[j as int] == (distinct_texts(m)[j as int], occurrences(m, distinct_texts(m)[j as int])));
        }
        let ghost before = tally_model(r@);
        r.push((k, counts[j]));
        assert(tally_model(r@) =~= before.push(tally(m)[j as int]));
        assert(tally_model(r@) =~= tally(m).take(j + 1));
        j = j + 1;
    }
    assert(tally(m).take(j as int) =~= tally(m));
    r
}

proof fn lemma_distinct(l: Seq<Seq<char>>)
    ensures
        forall|a: int, b: int| 0 <= a < b < distinct_texts(l).len() ==> #[trigger] distinct_texts(l)[a] != #[trigger] distinct_texts(l)[b],
        forall|x: Seq<char>| occurrences(l, x) > 0 ==> #[trigger] distinct_texts(l).contains(x),
    decreases l.len(),
{
    if l.len() > 0 {
        lemma_distinct(l.drop_last());
        let d = distinct_texts(l.drop_last());
        assert forall|x: Seq<char>| occurrences(l, x) > 0 implies #[trigger] distinct_texts(l).contains(x) by {
            if occurrences(l.drop_last(), x) > 0 {
                assert(d.contains(x));
                let k = choose|k: int| 0 <= k < d.len() && d[k] == x;
                assert(distinct_texts(l)[k] == x);
            } else {
                assert(l.last() == x);
                if !d.contains(x) {
                    assert(distinct_texts(l)[d.len() as int] == x);
                }
            }
        }
    }
}

proof fn lemma_occurrences_absent(l: Seq<Seq<char>>, x: Seq<char>)
    requires
        !distinct_texts(l).contains(x),
    ensures
        occurrences(l, x) == 0,
{
    lemma_distinct(l);
}

proof fn lemma_insert_desc(sorted: Seq<(Seq<char>, nat)>, x: (Seq<char>, nat), p: int)
    requires
        0 <= p <= sorted.len(),
        forall|j: int| p <= j < sorted.len() ==> #[trigger] sorted[j].1 < x.1,
        p == 0 || sorted[p - 1].1 >= x.1,
    ensures
        insert_desc(sorted, x) == sorted.insert(p, x),
    decreases sorted.len() - p,
{
    if sorted.len() == 0 {
        assert(sorted.insert(p, x) =~= seq![x]);
    } else if p == sorted.len() {
        assert(sorted.insert(p, x) =~= sorted.push(x));
    } else {
        let d = sorted.drop_last();
        lemma_insert_desc(d, x, p);
        assert(sorted.insert(p, x) =~= d.insert(p, x).push(sorted.last()));
    }
}

/// The entries by decreasing count (a stable sort).
fn sort_by_count(entries: Vec<(String, usize)>) -> (r: Vec<(String, usize)>)
    ensures
        tally_model(r@) == sort_desc(tally_model(entries@)),
{
    let ghost e = tally_model(entries@);
    let mut sorted: Vec<(String, usize)> = Vec::new();
    let mut i: usize = 0;
    let n = entries.len();
    let mut rest = entries;
    assert(sort_desc(e.take(0)) =~= Seq::<(Seq<char>, nat)>::empty());
    assert(tally_model(sorted@) =~= Seq::<(Seq<char>, nat)>::empty());
    while i < n
        invariant
            i <= n,
            n == rest@.len(),
            e == tally_model(rest@),
            tally_model(sorted@) == sort_desc(e.take(i as int)),
        decreases n - i,
    {
        let x = (rest[i].0.clone(), rest[i].1);
        let ghost xm = (x.0@, x.1 as nat);
        assert(xm == e[i as int]);
        let ghost sm = tally_model(sorted@);
        let mut p = sorted.len();
        while p > 0 && sorted[p - 1].1 < x.1
            invariant
                p <= sorted@.len(),
                sm == tally_model(sorted@),
                xm.1 == x.1,
                forall|j: int| p <= j < sm.len() ==> #[trigger] sm[j].1 < xm.1,
            decreases p,
        {
            assert(sm[p - 1].1 == sorted@[p - 1].1);
            p = p - 1;
        }
        proof {
            lemma_insert_desc(sm, xm, p as int);
            assert(e.take(i + 1).drop_last() =~= e.take(i as int));
            assert(e.take(i + 1).last() == xm);
        }
        sorted.insert(p, x);
        assert(tally_model(sorted@) =~= sm.insert(p as int, xm));
        i = i + 1;
    }
    assert(e.take(i as int) =~= e);
    sorted
}

/// The NAGs of a game with how often each occurs, by decreasing count
/// (first-seen order, depth first, among equal counts).
pub fn nag_distribution(tree: &GameTree) -> (r: Vec<(String, usize)>)
    requires
        node_count(tree.root@) <= usize::MAX,
    ensures
        tally_model(r@) == sort_desc(tally(nag_list(preorder(tree.root@)))),
{
    let nodes = tree.root.iter_dfs();
    let texts = nag_texts(&nodes);
    let t = tally_texts(&texts);
    sort_by_count(t)
}

// ---------------------------------------------------------------------------
// The report
// ---------------------------------------------------------------------------

/// The lines of the NAG distribution.
pub open spec fn nag_lines(l: Seq<(Seq<char>, nat)>) -> Seq<char>
    decreases l.len(),
{
    if l.len() == 0 {
        Seq::empty()
    } else {
        nag_lines(l.drop_last()) + info_line(l.last().0, dec(l.last().1))
    }
}

/// The statistics text of a game, given its NAG distribution.
pub open spec fn stats_text_spec(t: &GameTree, dist: Seq<(Seq<char>, nat)>) -> Seq<char> {
    "Statistics:\n"@ + info_line("Total nodes"@, dec((node_count(t.root@) - 1) as nat)) + info_line(
        "Leaf nodes (lines)"@,
        dec(line_count(t)),
    ) + info_line("Commented nodes"@, dec(comment_count(t.root@))) + info_line("Max depth"@, dec(depth(t.root@)))
        + info_line("Main line length"@, dec(main_line_len(t.root@))) + info_line(
        "Variations"@,
        dec(variation_total(t.root@)),
    ) + if dist.len() > 0 {
        seq!['\n'] + "NAG distribution:\n"@ + nag_lines(dist.take(if dist.len() < 10 { dist.len() as int } else { 10 }))
    } else {
        Seq::empty()
    }
}

fn push_stat(out: &mut String, k: &str, v: usize)
    ensures
        final(out)@ == old(out)@ + info_line(k@, dec(v as nat)),
{
    push_str(out, "  ");
    push_str(out, k);
    push_str(out, ": ");
    push_dec(out, v as u64);
    push_char(out, '\n');
    assert(final(out)@ =~= old(out)@ + info_line(k@, dec(v as nat)));
}

/// The statistics text of a game: counts of nodes, lines, comments,
/// depth, main line and variations, and the ten most frequent NAGs.
pub fn stats_text(tree: &GameTree) -> (r: String)
    requires
        node_count(tree.root@) <= usize::MAX,
    ensures
        r@ == stats_text_spec(tree, sort_desc(tally(nag_list(preorder(tree.root@))))),
{
    let dist = nag_distribution(tree);
    let ghost d = tally_model(dist@);
    let mut out = String::new();
    push_str(&mut out, "Statistics:\n");
    push_stat(&mut out, "Total nodes", tree.count_nodes());
    push_stat(&mut out, "Leaf nodes (lines)", tree.count_lines());
    push_stat(&mut out, "Commented nodes", tree.count_comments());
    push_stat(&mut out, "Max depth", tree.max_depth());
    push_stat(&mut out, "Main line length", tree.main_line_length());
    push_stat(&mut out, "Variations", variation_count(&tree.root));
    let ghost mid = out@;
    if dist.len() > 0 {
        push_char(&mut out, '\n');
        push_str(&mut out, "NAG distribution:\n");
        let ghost head = out@;
        let limit = if dist.len() < 10 { dist.len() } else { 10 };
        let mut i: usize = 0;
        while i < limit
            invariant
                i <= limit,
                limit <= dist@.len(),
                d == tally_model(dist@),
                out@ == head + nag_lines(d.take(i as int)),
            decreases limit - i,
        {
            push_str(&mut out, "  ");
            push_str(&mut out, dist[i].0.as_str());
            push_str(&mut out, ": ");
            push_dec(&mut out, dist[i].1 as u64);
            push_char(&mut out, '\n');
            assert(d.take(i + 1).drop_last() =~= d.take(i as int));
            assert(d.take(i + 1).last() == (dist@[i as int].0@, dist@[i as int].1 as nat));
            assert(out@ =~= head + nag_lines(d.take(i + 1)));
            i = i + 1;
        }
        assert(d.take(limit as int) =~= d.take(if d.len() < 10 { d.len() as int } else { 10 }));
    }
    assert(out@ =~= stats_text_spec(tree, d));
    out
}

} // verus!
