//! The configuration: which keys come first, and whether arrays are sorted.

use vstd::prelude::*;
use crate::order::{before, SortKey, SortKeyView};
use crate::text::{lex_lt, same_text};

verus! {

/// The settings of a run. `Keys` is the form in which the important keys are
/// held: a list as they were configured, or their ranks.
#[derive(Debug, Clone)]
pub struct GenericConfig<Keys> {
    /// Important keys of standard tables, the most important first.
    pub keys: Keys,
    /// Important keys of inline tables, the most important first.
    pub inline_keys: Keys,
    /// Whether arrays are sorted: strings first, in lexicographic order, then
    /// the other values in the order they had.
    pub sort_arrays: bool,
    /// Patterns of paths that a scan of a directory leaves out.
    pub excludes: Vec<String>,
}

/// The settings as they are configured.
pub type Config = GenericConfig<Vec<String>>;

/// The settings with the important keys ranked.
pub type ProcessedConfig = GenericConfig<Ranks>;

/// The name of the file that holds the configuration.
pub const CONFIG_FILE: &'static str = "toml-maid.toml";

/// The ranks of the important keys: a key's rank is the place of its last
/// occurrence in the configured list, counted from zero.
#[derive(Debug, Clone)]
pub struct Ranks {
    pub keys: Vec<String>,
}

/// The keys of a list, each as a sequence of characters.
pub open spec fn texts(keys: Seq<String>) -> Seq<Seq<char>> {
    Seq::new(keys.len(), |i: int| keys[i]@)
}

/// The ranks that a list of keys gives: each key is entered with its place in
/// turn, a later entry replacing an earlier one.
pub open spec fn rank_map(keys: Seq<Seq<char>>) -> Map<Seq<char>, nat>
    decreases keys.len(),
{
    if keys.len() == 0 {
        Map::empty()
    } else {
        rank_map(keys.drop_last()).insert(keys.last(), (keys.len() - 1) as nat)
    }
}

/// The rank of `key`, if it has one.
pub open spec fn rank_of(ranks: Map<Seq<char>, nat>, key: Seq<char>) -> Option<nat> {
    if ranks.dom().contains(key) {
        Some(ranks[key])
    } else {
        None
    }
}

/// The order of keys: ranked keys by rank, then the others by their text.
pub open spec fn key_before(ranks: Map<Seq<char>, nat>, a: Seq<char>, b: Seq<char>) -> bool {
    match (rank_of(ranks, a), rank_of(ranks, b)) {
        (Some(x), Some(y)) => x < y,
        (Some(_), None) => true,
        (None, Some(_)) => false,
        (None, None) => lex_lt(a, b),
    }
}

/// The sort key of a table key.
pub open spec fn rank_key(ranks: Map<Seq<char>, nat>, key: Seq<char>) -> SortKeyView {
    match rank_of(ranks, key) {
        Some(r) => SortKeyView { group: 0, rank: r, name: Seq::empty() },
        None => SortKeyView { group: 1, rank: 0, name: key },
    }
}

/// Sort keys order table keys as `key_before` does.
pub proof fn lemma_rank_key_order(ranks: Map<Seq<char>, nat>, a: Seq<char>, b: Seq<char>)
    ensures
        before(rank_key(ranks, a), rank_key(ranks, b)) == key_before(ranks, a, b),
{
    crate::text::lemma_lex_irreflexive(Seq::<char>::empty());
}

/// A key has a rank exactly if it is in the list, and its rank is the place
/// of its last occurrence.
pub proof fn lemma_rank_map(keys: Seq<Seq<char>>, k: Seq<char>)
    ensures
        rank_map(keys).dom().contains(k) <==> keys.contains(k),
        keys.contains(k) ==> {
            let r = rank_map(keys)[k];
            &&& r < keys.len()
            &&& keys[r as int] == k
            &&& forall|j: int| r < j < keys.len() ==> keys[j] != k
        },
    decreases keys.len(),
{
    if keys.len() > 0 {
        let rest = keys.drop_last();
        lemma_rank_map(rest, k);
        if keys.last() == k {
            assert(keys[keys.len() - 1] == k);
        } else {
            if rest.contains(k) {
                let i = choose|i: int| 0 <= i < rest.len() && rest[i] == k;
                assert(keys[i] == k);
                let r = rank_map(rest)[k];
                assert(keys[r as int] == rest[r as int]);
                assert forall|j: int| r < j < keys.len() implies keys[j] != k by {
                    if j < rest.len() {
                        assert(keys[j] == rest[j]);
                    }
                }
            }
            if keys.contains(k) {
                let i = choose|i: int| 0 <= i < keys.len() && keys[i] == k;
                assert(rest[i] == k);
            }
        }
    }
}

/// The order of keys is a strict total order, whatever list of important
/// keys it comes from.
pub proof fn law_key_order(keys: Seq<Seq<char>>, a: Seq<char>, b: Seq<char>, c: Seq<char>)
    ensures
        !key_before(rank_map(keys), a, a),
        key_before(rank_map(keys), a, b) && key_before(rank_map(keys), b, c) ==> key_before(
            rank_map(keys),
            a,
            c,
        ),
        a != b ==> key_before(rank_map(keys), a, b) || key_before(rank_map(keys), b, a),
{
    lemma_rank_map(keys, a);
    lemma_rank_map(keys, b);
    lemma_rank_map(keys, c);
    crate::text::lemma_lex_irreflexive(a);
    crate::text::lemma_lex_total(a, b);
    if lex_lt(a, b) && lex_lt(b, c) {
        crate::text::lemma_lex_transitive(a, b, c);
    }
}

impl View for Ranks {
    type V = Map<Seq<char>, nat>;

    open spec fn view(&self) -> Map<Seq<char>, nat> {
        rank_map(texts(self.keys@))
    }
}

impl Ranks {
    /// The rank of `key`, if it has one.
    pub fn get(&self, key: &str) -> (r: Option<usize>)
        ensures
            r matches Some(n) ==> rank_of(self@, key@) == Some(n as nat),
            r is None ==> rank_of(self@, key@) is None,
    {
        let mut i: usize = self.keys.len();
        while i > 0
            invariant
                i <= self.keys.len(),
                forall|j: int| i <= j < self.keys.len() ==> self.keys@[j]@ != key@,
            decreases i,
        {
            i -= 1;
            if same_text(self.keys[i].as_str(), key) {
                proof {
                    let t = texts(self.keys@);
                    assert(t[i as int] == key@);
                    lemma_rank_map(t, key@);
                    let r = rank_map(t)[key@];
                    if r < i {
                        assert(t[i as int] != key@);
                    }
                    if r > i {
                        assert(t[r as int] == self.keys@[r as int]@);
                    }
                }
                return Some(i);
            }
        }
        proof {
            let t = texts(self.keys@);
            lemma_rank_map(t, key@);
            if t.contains(key@) {
                let j = choose|j: int| 0 <= j < t.len() && t[j] == key@;
                assert(self.keys@[j]@ == key@);
            }
        }
        None
    }

    /// Whether the key `a` comes before the key `b`: an important key before
    /// one that is not, two important keys by their rank, two others by
    /// their text.
    pub fn before(&self, a: &str, b: &str) -> (r: bool)
        ensures
            r == key_before(self@, a@, b@),
    {
        match (self.get(a), self.get(b)) {
            (Some(x), Some(y)) => x < y,
            (Some(_), None) => true,
            (None, Some(_)) => false,
            (None, None) => crate::text::text_lt(a, b),
        }
    }

    /// The sort key of the table key `key`.
    pub fn sort_key(&self, key: &str) -> (r: SortKey)
        ensures
            r@ == rank_key(self@, key@),
    {
        match self.get(key) {
            Some(n) => SortKey { group: 0, rank: n, name: String::new() },
            None => SortKey { group: 1, rank: 0, name: String::from_str(key) },
        }
    }
}

/// What the formatter reads of the settings.
pub struct Rules {
    pub keys: Map<Seq<char>, nat>,
    pub inline_keys: Map<Seq<char>, nat>,
    pub sort_arrays: bool,
}

impl View for GenericConfig<Ranks> {
    type V = Rules;

    open spec fn view(&self) -> Rules {
        Rules { keys: self.keys@, inline_keys: self.inline_keys@, sort_arrays: self.sort_arrays }
    }
}

impl Default for GenericConfig<Vec<String>> {
    /// No important keys, arrays left as they are, nothing left out.
    fn default() -> (r: Self)
        ensures
            r.keys@.len() == 0,
            r.inline_keys@.len() == 0,
            !r.sort_arrays,
            r.excludes@.len() == 0,
    {
        GenericConfig {
            keys: Vec::new(),
            inline_keys: Vec::new(),
            sort_arrays: false,
            excludes: Vec::new(),
        }
    }
}

impl Default for Ranks {
    /// No key is important.
    fn default() -> (r: Self)
        ensures
            r.keys@.len() == 0,
    {
        Ranks { keys: Vec::new() }
    }
}

impl Default for GenericConfig<Ranks> {
    /// No important keys, arrays left as they are, nothing left out.
    fn default() -> (r: Self)
        ensures
            r.keys.keys@.len() == 0,
            r.inline_keys.keys@.len() == 0,
            !r.sort_arrays,
            r.excludes@.len() == 0,
    {
        GenericConfig {
            keys: Ranks { keys: Vec::new() },
            inline_keys: Ranks { keys: Vec::new() },
            sort_arrays: false,
            excludes: Vec::new(),
        }
    }
}

impl From<GenericConfig<Vec<String>>> for GenericConfig<Ranks> {
    /// Ranks the important keys.
    fn from(x: GenericConfig<Vec<String>>) -> (r: Self) {
        GenericConfig {
            keys: Ranks { keys: x.keys },
            inline_keys: Ranks { keys: x.inline_keys },
            sort_arrays: x.sort_arrays,
            excludes: x.excludes,
        }
    }
}

impl vstd::std_specs::convert::FromSpecImpl<GenericConfig<Vec<String>>> for GenericConfig<Ranks> {
    open spec fn obeys_from_spec() -> bool {
        true
    }

    open spec fn from_spec(x: GenericConfig<Vec<String>>) -> Self {
        GenericConfig {
            keys: Ranks { keys: x.keys },
            inline_keys: Ranks { keys: x.inline_keys },
            sort_arrays: x.sort_arrays,
            excludes: x.excludes,
        }
    }
}

} // verus!
