//! Sort keys and the stable sort.
//!
//! Entries are never compared directly. Each gets a sort key, and the sort
//! computes the order in which the positions of a list of keys are visited.

use vstd::prelude::*;
use crate::text::{lemma_lex_irreflexive, lemma_lex_total, lemma_lex_transitive, lex_lt, text_lt};

verus! {

/// What an entry is sorted by: first the group, then the rank, then the name.
#[derive(Clone, Debug, PartialEq, Eq)]
pub struct SortKey {
    pub group: u8,
    pub rank: usize,
    pub name: String,
}

/// A sort key as contracts speak of it.
pub struct SortKeyView {
    pub group: nat,
    pub rank: nat,
    pub name: Seq<char>,
}

impl View for SortKey {
    type V = SortKeyView;

    open spec fn view(&self) -> SortKeyView {
        SortKeyView { group: self.group as nat, rank: self.rank as nat, name: self.name@ }
    }
}

/// `a` sorts strictly before `b`.
pub open spec fn before(a: SortKeyView, b: SortKeyView) -> bool {
    ||| a.group < b.group
    ||| a.group == b.group && a.rank < b.rank
    ||| a.group == b.group && a.rank == b.rank && lex_lt(a.name, b.name)
}

impl SortKey {
    /// Whether `self` sorts strictly before `other`.
    pub fn precedes(&self, other: &SortKey) -> (r: bool)
        ensures
            r == before(self@, other@),
    {
        if self.group != other.group {
            self.group < other.group
        } else if self.rank != other.rank {
            self.rank < other.rank
        } else {
            text_lt(self.name.as_str(), other.name.as_str())
        }
    }
}

/// The views of a list of sort keys.
pub open spec fn key_views(keys: Seq<SortKey>) -> Seq<SortKeyView> {
    Seq::new(keys.len(), |i: int| keys[i]@)
}

/// A list of positions as mathematical integers.
pub open spec fn positions(ord: Seq<usize>) -> Seq<int> {
    Seq::new(ord.len(), |i: int| ord[i] as int)
}

/// Where position `x` goes into `ord`: behind the last position whose key
/// does not sort after the key of `x`.
pub open spec fn slot(keys: Seq<SortKeyView>, ord: Seq<int>, x: int) -> int
    decreases ord.len(),
{
    if ord.len() > 0 && before(keys[x], keys[ord.last()]) {
        slot(keys, ord.drop_last(), x)
    } else {
        ord.len() as int
    }
}

/// The order in which a stable sort visits the first `n` positions of `keys`.
pub open spec fn order_of_first(keys: Seq<SortKeyView>, n: nat) -> Seq<int>
    decreases n,
{
    if n == 0 {
        Seq::empty()
    } else {
        let ord = order_of_first(keys, (n - 1) as nat);
        ord.insert(slot(keys, ord, n - 1), n - 1)
    }
}

/// The order in which a stable sort visits the positions of `keys`: position
/// `stable_order(keys)[i]` comes out as number `i`.
pub open spec fn stable_order(keys: Seq<SortKeyView>) -> Seq<int> {
    order_of_first(keys, keys.len())
}

/// The positions `0..n`, each in its own place.
pub open spec fn identity_order(n: nat) -> Seq<int> {
    Seq::new(n, |i: int| i)
}

/// `s` taken in the order `ord`.
pub open spec fn arrange<T>(s: Seq<T>, ord: Seq<int>) -> Seq<T> {
    Seq::new(ord.len(), |i: int| s[ord[i]])
}

/// `ord` holds each of the positions `0..n` once.
pub open spec fn is_arrangement(ord: Seq<int>, n: nat) -> bool {
    &&& ord.len() == n
    &&& forall|i: int| 0 <= i < ord.len() ==> 0 <= #[trigger] ord[i] < n
    &&& forall|i: int, j: int| 0 <= i < j < ord.len() ==> #[trigger] ord[i] != #[trigger] ord[j]
}

/// No key of `keys` sorts before one that stands earlier.
pub open spec fn is_sorted(keys: Seq<SortKeyView>) -> bool {
    forall|i: int, j: int| 0 <= i < j < keys.len() ==> !before(#[trigger] keys[j], #[trigger] keys[i])
}

/// Keys of which none sorts before the other keep the order of their positions.
pub open spec fn keeps_ties(keys: Seq<SortKeyView>, ord: Seq<int>) -> bool {
    forall|i: int, j: int|
        0 <= i < j < ord.len() && !before(keys[#[trigger] ord[i]], keys[#[trigger] ord[j]])
            ==> ord[i] < ord[j]
}

/// `before` is a strict total order.
pub proof fn lemma_before_order(a: SortKeyView, b: SortKeyView, c: SortKeyView)
    ensures
        !before(a, a),
        before(a, b) && before(b, c) ==> before(a, c),
        before(a, b) || before(b, a) || a == b,
        !before(a, b) && !before(b, c) ==> !before(a, c),
{
    lemma_lex_irreflexive(a.name);
    lemma_lex_irreflexive(b.name);
    lemma_lex_total(a.name, b.name);
    lemma_lex_total(b.name, c.name);
    if lex_lt(a.name, b.name) && lex_lt(b.name, c.name) {
        lemma_lex_transitive(a.name, b.name, c.name);
    }
    if lex_lt(b.name, a.name) && lex_lt(a.name, c.name) {
        lemma_lex_transitive(b.name, a.name, c.name);
    }
    if lex_lt(a.name, c.name) && lex_lt(c.name, b.name) {
        lemma_lex_transitive(a.name, c.name, b.name);
    }
}

/// What `slot` returns: every position from it on sorts after `x`, the one
/// before it does not.
pub proof fn lemma_slot(keys: Seq<SortKeyView>, ord: Seq<int>, x: int)
    ensures
        0 <= slot(keys, ord, x) <= ord.len(),
        forall|t: int| slot(keys, ord, x) <= t < ord.len() ==> before(keys[x], keys[#[trigger] ord[t]]),
        slot(keys, ord, x) > 0 ==> !before(keys[x], keys[ord[slot(keys, ord, x) - 1]]),
    decreases ord.len(),
{
    if ord.len() > 0 && before(keys[x], keys[ord.last()]) {
        let rest = ord.drop_last();
        lemma_slot(keys, rest, x);
        assert forall|t: int| slot(keys, ord, x) <= t < ord.len() implies before(
            keys[x],
            keys[#[trigger] ord[t]],
        ) by {
            if t < rest.len() {
                assert(ord[t] == rest[t]);
            }
        }
        if slot(keys, ord, x) > 0 {
            assert(ord[slot(keys, ord, x) - 1] == rest[slot(keys, rest, x) - 1]);
        }
    }
}

/// Any `j` with the two properties of `lemma_slot` is the slot.
pub proof fn lemma_slot_is(keys: Seq<SortKeyView>, ord: Seq<int>, x: int, j: int)
    requires
        0 <= j <= ord.len(),
        forall|t: int| j <= t < ord.len() ==> before(keys[x], keys[#[trigger] ord[t]]),
        j > 0 ==> !before(keys[x], keys[ord[j - 1]]),
    ensures
        slot(keys, ord, x) == j,
    decreases ord.len(),
{
    if j < ord.len() {
        let rest = ord.drop_last();
        assert(before(keys[x], keys[ord[ord.len() - 1]]));
        assert forall|t: int| j <= t < rest.len() implies before(keys[x], keys[#[trigger] rest[t]]) by {
            assert(rest[t] == ord[t]);
        }
        if j > 0 {
            assert(rest[j - 1] == ord[j - 1]);
        }
        lemma_slot_is(keys, rest, x, j);
    }
}

/// The order of the first `n` positions holds each of them once, leaves no
/// key before an earlier one, and keeps ties in place.
pub proof fn lemma_order_of_first(keys: Seq<SortKeyView>, n: nat)
    requires
        n <= keys.len(),
    ensures
        is_arrangement(order_of_first(keys, n), n),
        is_sorted(arrange(keys, order_of_first(keys, n))),
        keeps_ties(keys, order_of_first(keys, n)),
    decreases n,
{
    if n > 0 {
        let x = n - 1;
        let ord = order_of_first(keys, x as nat);
        lemma_order_of_first(keys, x as nat);
        lemma_slot(keys, ord, x);
        let j = slot(keys, ord, x);
        let new = ord.insert(j, x);
        assert(new == order_of_first(keys, n));
        // where the places of `new` come from
        assert forall|i: int| 0 <= i < new.len() implies (if i < j {
            new[i] == ord[i]
        } else if i == j {
            new[i] == x
        } else {
            new[i] == ord[i - 1]
        }) by {}
        assert(is_arrangement(new, n));
        let old_keys = arrange(keys, ord);
        let new_keys = arrange(keys, new);
        assert forall|a: int, b: int| 0 <= a < b < new_keys.len() implies !before(
            #[trigger] new_keys[b],
            #[trigger] new_keys[a],
        ) by {
            if b == j {
                // an earlier one against x
                assert(new[a] == ord[a]);
                if a < j - 1 {
                    assert(!before(old_keys[j - 1], old_keys[a]));
                }
                lemma_before_order(keys[x], keys[ord[j - 1]], keys[ord[a]]);
            } else if a == j {
                assert(new[b] == ord[b - 1]);
                lemma_before_order(keys[x], keys[ord[b - 1]], keys[x]);
            } else {
                let a0 = if a < j { a } else { a - 1 };
                let b0 = if b < j { b } else { b - 1 };
                assert(!before(old_keys[b0], old_keys[a0]));
            }
        }
        assert forall|a: int, b: int|
            0 <= a < b < new.len() && !before(keys[#[trigger] new[a]], keys[#[trigger] new[b]])
            implies new[a] < new[b] by {
            if b == j {
                assert(new[a] == ord[a]);
            } else if a == j {
                assert(new[b] == ord[b - 1]);
            } else {
                let a0 = if a < j { a } else { a - 1 };
                let b0 = if b < j { b } else { b - 1 };
                assert(new[a] == ord[a0] && new[b] == ord[b0]);
            }
        }
    }
}

/// A stable sort is a rearrangement that leaves the keys in order and keeps
/// ties in place.
pub proof fn lemma_stable_order(keys: Seq<SortKeyView>)
    ensures
        is_arrangement(stable_order(keys), keys.len()),
        is_sorted(arrange(keys, stable_order(keys))),
        keeps_ties(keys, stable_order(keys)),
{
    lemma_order_of_first(keys, keys.len());
}

/// Keys that are in order already are visited from first to last.
pub proof fn lemma_order_of_sorted(keys: Seq<SortKeyView>, n: nat)
    requires
        n <= keys.len(),
        is_sorted(keys),
    ensures
        order_of_first(keys, n) == identity_order(n),
    decreases n,
{
    if n > 0 {
        let x = n - 1;
        lemma_order_of_sorted(keys, x as nat);
        let ord = identity_order(x as nat);
        if x > 0 {
            assert(ord[x - 1] == x - 1);
            assert(!before(keys[x], keys[x - 1]));
        }
        lemma_slot_is(keys, ord, x, x);
        assert(ord.insert(x, x) =~= identity_order(n));
    }
}

/// Sorting what is sorted changes nothing.
pub proof fn lemma_stable_order_of_sorted(keys: Seq<SortKeyView>)
    requires
        is_sorted(keys),
    ensures
        stable_order(keys) == identity_order(keys.len()),
{
    lemma_order_of_sorted(keys, keys.len());
}

/// The order in which a stable sort visits `keys`.
pub fn sort_order(keys: &Vec<SortKey>) -> (ord: Vec<usize>)
    ensures
        positions(ord@) == stable_order(key_views(keys@)),
        ord.len() == keys.len(),
        forall|i: int| 0 <= i < ord.len() ==> #[trigger] ord[i] < keys.len(),
{
    let ghost kv = key_views(keys@);
    let mut ord: Vec<usize> = Vec::new();
    let mut n: usize = 0;
    proof {
        assert(positions(ord@) =~= order_of_first(kv, 0));
    }
    while n < keys.len()
        invariant
            n <= keys.len(),
            kv == key_views(keys@),
            positions(ord@) == order_of_first(kv, n as nat),
        decreases keys.len() - n,
    {
        proof {
            lemma_order_of_first(kv, n as nat);
        }
        let ghost before_insert = positions(ord@);
        assert(forall|i: int| 0 <= i < ord.len() ==> 0 <= #[trigger] before_insert[i] < n);
        let mut j: usize = ord.len();
        let mut found = false;
        while j > 0 && !found
            invariant
                j <= ord.len(),
                n < keys.len(),
                kv == key_views(keys@),
                before_insert == positions(ord@),
                forall|i: int| 0 <= i < ord.len() ==> 0 <= #[trigger] before_insert[i] < n,
                forall|t: int|
                    j <= t < ord.len() ==> before(kv[n as int], kv[#[trigger] before_insert[t]]),
                found ==> j > 0 && !before(kv[n as int], kv[before_insert[j - 1]]),
            decreases j - (if found { 1int } else { 0int }),
        {
            let p = ord[j - 1];
            assert(before_insert[j - 1] == p);
            if keys[n].precedes(&keys[p]) {
                j -= 1;
            } else {
                found = true;
            }
        }
        proof {
            lemma_slot_is(kv, before_insert, n as int, j as int);
        }
        ord.insert(j, n);
        proof {
            assert(positions(ord@) =~= before_insert.insert(j as int, n as int));
        }
        n += 1;
    }
    proof {
        lemma_order_of_first(kv, n as nat);
        assert forall|i: int| 0 <= i < ord.len() implies #[trigger] ord[i] < keys.len() by {
            assert(positions(ord@)[i] == ord[i]);
        }
    }
    ord
}

} // verus!
