//! GameTree - a complete chess game with its tag pairs and result.

use vstd::prelude::*;
use crate::text::{string_eq_str, trim_chars, str_chars};
use crate::tree::model::{
    comment_count, depth, empty_node, group_node_model, leaf_count, main_line_len, node_count, path_indices,
    path_lookup, replace_at, GameNode,
};

verus! {

broadcast use {vstd::string::group_string_axioms, group_node_model};

/// Result of a chess game.
#[derive(Debug, Clone, Copy, PartialEq, Eq, Structural)]
pub enum GameResult {
    WhiteWins,
    BlackWins,
    Draw,
    Ongoing,
}

/// The PGN text of a result.
pub open spec fn result_text(r: GameResult) -> Seq<char> {
    match r {
        GameResult::WhiteWins => seq!['1', '-', '0'],
        GameResult::BlackWins => seq!['0', '-', '1'],
        GameResult::Draw => seq!['1', '/', '2', '-', '1', '/', '2'],
        GameResult::Ongoing => seq!['*'],
    }
}

/// The result that a text names, ignoring surrounding whitespace.
pub open spec fn parse_result(s: Seq<char>) -> Option<GameResult> {
    let t = crate::text::trim(s);
    if t == result_text(GameResult::WhiteWins) {
        Some(GameResult::WhiteWins)
    } else if t == result_text(GameResult::BlackWins) {
        Some(GameResult::BlackWins)
    } else if t == result_text(GameResult::Draw) {
        Some(GameResult::Draw)
    } else if t == result_text(GameResult::Ongoing) {
        Some(GameResult::Ongoing)
    } else {
        None
    }
}

impl GameResult {
    /// The PGN text of the result.
    pub fn as_str(&self) -> (s: &'static str)
        ensures
            s@ == result_text(*self),
    {
        proof {
            reveal_strlit("1-0");
            reveal_strlit("0-1");
            reveal_strlit("1/2-1/2");
            reveal_strlit("*");
        }
        match self {
            GameResult::WhiteWins => "1-0",
            GameResult::BlackWins => "0-1",
            GameResult::Draw => "1/2-1/2",
            GameResult::Ongoing => "*",
        }
    }

    /// The PGN text of the result, as an owned string.
    pub fn to_string(&self) -> (s: String)
        ensures
            s@ == result_text(*self),
    {
        self.as_str().to_owned()
    }

    /// Parse a result from its PGN text, ignoring surrounding whitespace.
    pub fn parse(s: &str) -> (r: Option<GameResult>)
        ensures
            r == parse_result(s@),
    {
        let t = trim_chars(&str_chars(s));
        let w = ['1', '-', '0'];
        let b = ['0', '-', '1'];
        let d = ['1', '/', '2', '-', '1', '/', '2'];
        let o = ['*'];
        assert(w@ =~= result_text(GameResult::WhiteWins));
        assert(b@ =~= result_text(GameResult::BlackWins));
        assert(d@ =~= result_text(GameResult::Draw));
        assert(o@ =~= result_text(GameResult::Ongoing));
        if crate::text::chars_eq(&t, &w) {
            Some(GameResult::WhiteWins)
        } else if crate::text::chars_eq(&t, &b) {
            Some(GameResult::BlackWins)
        } else if crate::text::chars_eq(&t, &d) {
            Some(GameResult::Draw)
        } else if crate::text::chars_eq(&t, &o) {
            Some(GameResult::Ongoing)
        } else {
            None
        }
    }
}

impl Default for GameResult {
    fn default() -> (r: GameResult)
        ensures
            r == GameResult::Ongoing,
    {
        GameResult::Ongoing
    }
}

/// Text of a result: its PGN form.

// ---------------------------------------------------------------------------
// Tag pairs
// ---------------------------------------------------------------------------

/// The value that the entry with key `k` holds, where there is one.
pub open spec fn lookup(entries: Seq<(Seq<char>, Seq<char>)>, k: Seq<char>) -> Option<Seq<char>>
    decreases entries.len(),
{
    if entries.len() == 0 {
        None
    } else if entries[0].0 == k {
        Some(entries[0].1)
    } else {
        lookup(entries.drop_first(), k)
    }
}

/// No key occurs twice.
pub open spec fn distinct_keys(entries: Seq<(Seq<char>, Seq<char>)>) -> bool {
    forall|i: int, j: int| 0 <= i < j < entries.len() ==> #[trigger] entries[i].0 != #[trigger] entries[j].0
}

/// The entries as pairs of character sequences.
pub open spec fn entry_models(v: Seq<(String, String)>) -> Seq<(Seq<char>, Seq<char>)> {
    Seq::new(v.len(), |i: int| (v[i].0@, v[i].1@))
}

/// The tag pairs after setting key `k` to `v`: an existing key keeps its
/// place and takes the new value, a new key goes last.
pub open spec fn header_insert(h: Seq<(Seq<char>, Seq<char>)>, k: Seq<char>, v: Seq<char>) -> Seq<(Seq<char>, Seq<char>)> {
    match lookup(h, k) {
        Some(_) => h.update(choose|i: int| 0 <= i < h.len() && h[i].0 == k, (k, v)),
        None => h.push((k, v)),
    }
}

/// PGN tag pairs (Event, Site, Date, ...), each key at most once, kept in
/// the order in which keys were first set.
#[derive(Debug)]
pub struct Headers {
    entries: Vec<(String, String)>,
}

impl View for Headers {
    type V = Seq<(Seq<char>, Seq<char>)>;

    closed spec fn view(&self) -> Seq<(Seq<char>, Seq<char>)> {
        entry_models(self.entries@)
    }
}

proof fn lemma_lookup_index(e: Seq<(Seq<char>, Seq<char>)>, k: Seq<char>, i: int)
    requires
        distinct_keys(e),
        0 <= i < e.len(),
        e[i].0 == k,
    ensures
        lookup(e, k) == Some(e[i].1),
    decreases e.len(),
{
    if i > 0 {
        assert(e[0].0 != e[i].0);
        assert(e.drop_first()[i - 1] == e[i]);
        assert forall|a: int, b: int| 0 <= a < b < e.drop_first().len() implies
            #[trigger] e.drop_first()[a].0 != #[trigger] e.drop_first()[b].0 by {
            assert(e.drop_first()[a] == e[a + 1]);
            assert(e.drop_first()[b] == e[b + 1]);
        }
        lemma_lookup_index(e.drop_first(), k, i - 1);
    }
}

proof fn lemma_lookup_absent(e: Seq<(Seq<char>, Seq<char>)>, k: Seq<char>)
    requires
        forall|i: int| 0 <= i < e.len() ==> #[trigger] e[i].0 != k,
    ensures
        lookup(e, k) is None,
    decreases e.len(),
{
    if e.len() > 0 {
        assert forall|i: int| 0 <= i < e.drop_first().len() implies #[trigger] e.drop_first()[i].0
            != k by {
            assert(e.drop_first()[i] == e[i + 1]);
        }
        lemma_lookup_absent(e.drop_first(), k);
    }
}

/// What a lookup gives: the value of the one entry with that key, if any.
pub proof fn lemma_lookup(e: Seq<(Seq<char>, Seq<char>)>, k: Seq<char>)
    requires
        distinct_keys(e),
    ensures
        lookup(e, k) is None <==> (forall|i: int| 0 <= i < e.len() ==> #[trigger] e[i].0 != k),
        forall|i: int| 0 <= i < e.len() && #[trigger] e[i].0 == k ==> lookup(e, k) == Some(e[i].1),
{
    assert forall|i: int| 0 <= i < e.len() && #[trigger] e[i].0 == k implies lookup(e, k) == Some(
        e[i].1,
    ) by {
        lemma_lookup_index(e, k, i);
    }
    if forall|i: int| 0 <= i < e.len() ==> #[trigger] e[i].0 != k {
        lemma_lookup_absent(e, k);
    }
}

impl Headers {
    #[verifier::type_invariant]
    closed spec fn inv(self) -> bool {
        distinct_keys(entry_models(self.entries@))
    }

    /// No tag pairs.
    pub fn new() -> (h: Headers)
        ensures
            h@.len() == 0,
    {
        Headers { entries: Vec::new() }
    }

    /// Number of tag pairs.
    pub fn len(&self) -> (n: usize)
        ensures
            n == self@.len(),
    {
        self.entries.len()
    }

    /// Whether there are no tag pairs.
    pub fn is_empty(&self) -> (b: bool)
        ensures
            b == (self@.len() == 0),
    {
        self.entries.len() == 0
    }

    /// The tag pairs, in the order in which their keys were first set.
    pub fn entries(&self) -> (r: &[(String, String)])
        ensures
            entry_models(r@) == self@,
            distinct_keys(self@),
    {
        proof {
            use_type_invariant(self);
        }
        self.entries.as_slice()
    }

    fn position(&self, key: &str) -> (r: Option<usize>)
        ensures
            r matches Some(i) ==> i < self@.len() && self@[i as int].0 == key@,
            r is None ==> forall|i: int| 0 <= i < self@.len() ==> #[trigger] self@[i].0 != key@,
    {
        let mut i: usize = 0;
        while i < self.entries.len()
            invariant
                i <= self.entries@.len(),
                self@ == entry_models(self.entries@),
                forall|j: int| 0 <= j < i ==> #[trigger] self@[j].0 != key@,
            decreases self.entries@.len() - i,
        {
            if string_eq_str(&self.entries[i].0, key) {
                return Some(i);
            }
            i = i + 1;
        }
        None
    }

    /// The value of a key.
    pub fn get(&self, key: &str) -> (r: Option<&String>)
        ensures
            r is Some <==> lookup(self@, key@) is Some,
            r matches Some(v) ==> v@ == lookup(self@, key@)->0,
    {
        proof {
            use_type_invariant(self);
            lemma_lookup(self@, key@);
        }
        match self.position(key) {
            Some(i) => Some(&self.entries[i].1),
            None => None,
        }
    }

    /// Set the value of a key: an existing key keeps its place and takes
    /// the new value, a new key goes last.
    pub fn insert(&mut self, key: String, value: String)
        ensures
            final(self)@ == header_insert(old(self)@, key@, value@),
    {
        proof {
            use_type_invariant(&*self);
            lemma_lookup(self@, key@);
        }
        let ghost old_e = self@;
        match self.position(key.as_str()) {
            Some(i) => {
                proof {
                    let c = choose|j: int| 0 <= j < old_e.len() && old_e[j].0 == key@;
                    assert(old_e[c].0 == old_e[i as int].0);
                    assert(c == i);
                }
                let mut entries: Vec<(String, String)> = Vec::new();
                std::mem::swap(&mut entries, &mut self.entries);
                entries.set(i, (key, value));
                assert(entry_models(entries@) =~= old_e.update(i as int, (key@, value@)));
                self.entries = entries;
            },
            None => {
                let mut entries: Vec<(String, String)> = Vec::new();
                std::mem::swap(&mut entries, &mut self.entries);
                entries.push((key, value));
                assert(entry_models(entries@) =~= old_e.push((key@, value@)));
                self.entries = entries;
            },
        }
    }

    /// A copy of the tag pairs.
    pub fn copy(&self) -> (h: Headers)
        ensures
            h@ == self@,
    {
        proof {
            use_type_invariant(self);
        }
        let mut entries: Vec<(String, String)> = Vec::new();
        let mut i: usize = 0;
        while i < self.entries.len()
            invariant
                i <= self.entries@.len(),
                self@ == entry_models(self.entries@),
                distinct_keys(self@),
                entries@.len() == i,
                forall|j: int| 0 <= j < i ==> (#[trigger] entries@[j]).0@ == self@[j].0 && entries@[j].1@ == self@[j].1,
            decreases self.entries@.len() - i,
        {
            let k = self.entries[i].0.clone();
            let v = self.entries[i].1.clone();
            assert(self@[i as int] == (self.entries@[i as int].0@, self.entries@[i as int].1@));
            entries.push((k, v));
            i = i + 1;
        }
        assert(entry_models(entries@) =~= self@);
        Headers { entries }
    }
}

/// Setting a key and reading it back gives the value set; reading any other
/// key gives what it gave before.
pub proof fn law_header_read_after_write(
    before: Seq<(Seq<char>, Seq<char>)>,
    key: Seq<char>,
    value: Seq<char>,
    other: Seq<char>,
)
    requires
        distinct_keys(before),
    ensures
        lookup(header_insert(before, key, value), key) == Some(value),
        other != key ==> lookup(header_insert(before, key, value), other) == lookup(before, other),
        distinct_keys(header_insert(before, key, value)),
{
    let after = header_insert(before, key, value);
    lemma_lookup(before, key);
    lemma_lookup(before, other);
    let n = before.len() as int;
    // The position that now holds the key.
    let c = if lookup(before, key) is Some {
        choose|i: int| 0 <= i < before.len() && before[i].0 == key
    } else {
        n
    };
    assert(0 <= c <= n);
    assert(after.len() == (if c < n { n } else { n + 1 }));
    assert(after[c] == (key, value));
    assert forall|i: int| 0 <= i < after.len() && i != c implies #[trigger] after[i] == before[i] by {
    }
    assert(distinct_keys(after)) by {
        assert forall|i: int, j: int| 0 <= i < j < after.len() implies #[trigger] after[i].0
            != #[trigger] after[j].0 by {
            if i != c && j != c {
                assert(after[i] == before[i]);
                assert(after[j] == before[j]);
            } else if i == c {
                assert(after[j] == before[j]);
                if c < n {
                    assert(before[c].0 == key);
                }
            } else {
                assert(after[i] == before[i]);
                if c < n {
                    assert(before[c].0 == key);
                }
            }
        }
    }
    lemma_lookup(after, key);
    lemma_lookup(after, other);
    assert(after[c].0 == key);
    if other != key {
        if lookup(before, other) is Some {
            let w = choose|i: int| 0 <= i < before.len() && before[i].0 == other;
            assert(0 <= w < before.len() && before[w].0 == other);
            assert(w != c);
            assert(after[w] == before[w]);
        } else {
            assert forall|i: int| 0 <= i < after.len() implies #[trigger] after[i].0 != other by {
                if i != c {
                    assert(after[i] == before[i]);
                }
            }
        }
    }
}

// ---------------------------------------------------------------------------
// The game tree
// ---------------------------------------------------------------------------

/// A complete game tree with metadata.
#[derive(Debug)]
pub struct GameTree {
    /// PGN tag pairs (Event, Site, Date, etc.).
    pub headers: Headers,
    /// Root node of the game tree (empty move, children are first moves).
    pub root: GameNode,
    /// Game result.
    pub result: GameResult,
}

/// The Seven Tag Roster required by the PGN standard.
#[derive(Debug)]
pub struct SevenTagRoster {
    pub event: String,
    pub site: String,
    pub date: String,
    pub round: String,
    pub white: String,
    pub black: String,
    pub result: String,
}

/// The value of a tag, or the default where it is not set.
pub open spec fn header_or(h: Seq<(Seq<char>, Seq<char>)>, k: Seq<char>, d: Seq<char>) -> Seq<char> {
    match lookup(h, k) {
        Some(v) => v,
        None => d,
    }
}

/// Number of lines of a tree: its leaves, or none for a tree without moves.
pub open spec fn line_count(t: &GameTree) -> nat {
    if t.root@.children.len() == 0 {
        0
    } else {
        leaf_count(t.root@)
    }
}

impl GameTree {
    /// A new empty game tree.
    pub fn new() -> (t: GameTree)
        ensures
            t.headers@.len() == 0,
            t.root@ == empty_node(),
            t.root@.san.len() == 0,
            t.root@.move_number is None,
            !t.root@.is_black,
            t.root@.children.len() == 0,
            t.root@.comment.len() == 0,
            t.root@.nags.len() == 0,
            t.result == GameResult::Ongoing,
    {
        GameTree { headers: Headers::new(), root: GameNode::root(), result: GameResult::Ongoing }
    }

    /// Navigate from the root following a path of moves.
    pub fn find_path(&self, path: &[&str]) -> (r: Option<&GameNode>)
        ensures
            r is Some <==> path_lookup(self.root@, path@.map_values(|s: &str| s@)) is Some,
            r matches Some(c) ==> c@ == path_lookup(self.root@, path@.map_values(|s: &str| s@))->0,
    {
        self.root.find_path(path)
    }

    /// Navigate from the root following a path of moves (mutable).
    pub fn find_path_mut(&mut self, path: &[&str]) -> (r: Option<&mut GameNode>)
        ensures
            r is Some <==> path_lookup(old(self).root@, path@.map_values(|s: &str| s@)) is Some,
            r is None ==> final(self).root == old(self).root,
            r matches Some(c) ==> c@ == path_lookup(old(self).root@, path@.map_values(|s: &str| s@))->0,
            r is Some ==> final(self).root@ == replace_at(
                old(self).root@,
                path_indices(old(self).root@, path@.map_values(|s: &str| s@))->0,
                final(r.unwrap())@,
            ),
            final(self).headers == old(self).headers,
            final(self).result == old(self).result,
    {
        self.root.find_path_mut(path)
    }

    /// Number of moves in the tree (the root is not counted).
    pub fn count_nodes(&self) -> (r: usize)
        requires
            node_count(self.root@) <= usize::MAX,
        ensures
            r == node_count(self.root@) - 1,
    {
        self.root.count_nodes() - 1
    }

    /// Number of distinct lines (leaves); none for a tree without moves.
    pub fn count_lines(&self) -> (r: usize)
        requires
            node_count(self.root@) <= usize::MAX,
        ensures
            r == line_count(self),
    {
        if self.root.children.len() == 0 {
            0
        } else {
            self.root.count_leaves()
        }
    }

    /// Number of nodes with comments.
    pub fn count_comments(&self) -> (r: usize)
        requires
            node_count(self.root@) <= usize::MAX,
        ensures
            r == comment_count(self.root@),
    {
        self.root.count_comments()
    }

    /// Maximum depth of the tree.
    pub fn max_depth(&self) -> (r: usize)
        requires
            node_count(self.root@) <= usize::MAX,
        ensures
            r == depth(self.root@),
    {
        if self.root.children.len() == 0 {
            0
        } else {
            self.root.max_depth()
        }
    }

    /// Length of the main line.
    pub fn main_line_length(&self) -> (r: usize)
        requires
            node_count(self.root@) <= usize::MAX,
        ensures
            r == main_line_len(self.root@),
    {
        self.root.main_line_length()
    }

    /// The value of a tag.
    pub fn header(&self, key: &str) -> (r: Option<&str>)
        ensures
            r is Some <==> lookup(self.headers@, key@) is Some,
            r matches Some(v) ==> v@ == lookup(self.headers@, key@)->0,
    {
        match self.headers.get(key) {
            Some(v) => Some(v.as_str()),
            None => None,
        }
    }

    /// Set the value of a tag.
    pub fn set_header(&mut self, key: &str, value: &str)
        ensures
            final(self).headers@ == (match lookup(old(self).headers@, key@) {
                Some(_) => old(self).headers@.update(
                    choose|i: int| 0 <= i < old(self).headers@.len() && old(self).headers@[i].0 == key@,
                    (key@, value@),
                ),
                None => old(self).headers@.push((key@, value@)),
            }),
            final(self).root == old(self).root,
            final(self).result == old(self).result,
    {
        self.headers.insert(key.to_owned(), value.to_owned());
    }

    /// The Seven Tag Roster, with "?" (and "????.??.??" for the date) where a tag is not set.
    pub fn seven_tag_roster(&self) -> (s: SevenTagRoster)
        ensures
            s.event@ == header_or(self.headers@, "Event"@, "?"@),
            s.site@ == header_or(self.headers@, "Site"@, "?"@),
            s.date@ == header_or(self.headers@, "Date"@, "????.??.??"@),
            s.round@ == header_or(self.headers@, "Round"@, "?"@),
            s.white@ == header_or(self.headers@, "White"@, "?"@),
            s.black@ == header_or(self.headers@, "Black"@, "?"@),
            s.result@ == result_text(self.result),
    {
        SevenTagRoster {
            event: self.header_or("Event", "?"),
            site: self.header_or("Site", "?"),
            date: self.header_or("Date", "????.??.??"),
            round: self.header_or("Round", "?"),
            white: self.header_or("White", "?"),
            black: self.header_or("Black", "?"),
            result: self.result.to_string(),
        }
    }

    fn header_or(&self, key: &str, default: &str) -> (s: String)
        ensures
            s@ == header_or(self.headers@, key@, default@),
    {
        match self.header(key) {
            Some(v) => v.to_owned(),
            None => default.to_owned(),
        }
    }

    /// A copy of the whole game.
    pub fn copy(&self) -> (t: GameTree)
        ensures
            t.headers@ == self.headers@,
            t.root@ == self.root@,
            t.result == self.result,
    {
        GameTree { headers: self.headers.copy(), root: self.root.deep_clone(), result: self.result }
    }
}

impl Default for GameTree {
    fn default() -> (t: GameTree)
        ensures
            t.headers@.len() == 0,
            t.root@.children.len() == 0,
            t.result == GameResult::Ongoing,
    {
        GameTree::new()
    }
}

impl Clone for GameTree {
    fn clone(&self) -> (t: GameTree)
        ensures
            t.headers@ == self.headers@,
            t.root@ == self.root@,
            t.result == self.result,
    {
        self.copy()
    }
}

/// A result written as text reads back as the same result.
pub proof fn law_result_roundtrip(r: GameResult)
    ensures
        parse_result(result_text(r)) == Some(r),
{
    let t = result_text(r);
    crate::text::lemma_trim_noop(t);
}

} // verus!
