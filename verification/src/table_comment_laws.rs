//! Laws of the comments of tables and documents.
//!
//! In a table the formatter keeps the text behind every entry, and the text
//! before the key of every entry but one: the entry that comes out first in
//! a section gets the text that opened the section, and what it had before
//! its own key is dropped. A table in which such an entry has no comment
//! there, and whose values keep theirs, has after formatting the comments
//! that it had before, each as often.

use vstd::multiset::Multiset;
use vstd::prelude::*;
use crate::comment_laws::{
    decor_is_kept, decor_notes, keeps_comments, lemma_space_is_blank, lemma_total_sorted,
    lemma_value_notes, note, side_notes, total, value_notes,
};
use crate::config::Rules;
use crate::decor_laws::{lemma_classes_within, lemma_plain_of_trimmed_end};
use crate::driver::formatted_document;
use crate::model::{DocumentView, ItemView, TableEntryView, TableView};
use crate::order::{arrange, lemma_stable_order, stable_order};
use crate::table::{
    formatted_item, formatted_table, gives_prefix, is_boundary, section_end, section_keys,
    section_start, table_element, table_source,
};
use crate::table_laws::{lemma_section_of, lemma_source};
use crate::text::CharClass;

verus! {

/// The comments of what stands under a key. An array of tables is never
/// looked into, and counts for nothing.
pub open spec fn item_notes(item: ItemView) -> Multiset<Seq<char>>
    decreases item, 0nat,
{
    match item {
        ItemView::Value(v) => value_notes(v),
        ItemView::Table(t) => table_notes(t),
        _ => Multiset::empty(),
    }
}

/// The comments of entry `i` of a table: those around its key and those of
/// its item.
pub open spec fn entry_notes(t: TableView, i: int) -> Multiset<Seq<char>>
    decreases t, 0nat,
{
    if 0 <= i < t.entries.len() {
        decor_notes(t.entries[i].decor).add(item_notes(t.entries[i].item))
    } else {
        Multiset::empty()
    }
}

/// The comments of each entry of a table.
pub open spec fn all_entries(t: TableView) -> Seq<Multiset<Seq<char>>>
    decreases t, 1nat,
{
    Seq::new(t.entries.len(), |i: int| entry_notes(t, i))
}

/// The comments of a table.
pub open spec fn table_notes(t: TableView) -> Multiset<Seq<char>>
    decreases t, 2nat,
{
    decor_notes(t.decor).add(total(all_entries(t)))
}

/// The comments of a document.
pub open spec fn document_notes(d: DocumentView) -> Multiset<Seq<char>> {
    table_notes(d.root).add(side_notes(Some(d.trailing)))
}

/// Whether the formatter keeps every comment of an item.
pub open spec fn item_keeps_comments(rules: Rules, item: ItemView) -> bool
    decreases item, 0nat,
{
    match item {
        ItemView::Value(v) => keeps_comments(v) && decor_is_kept(v),
        ItemView::Table(t) => table_keeps_comments(rules, t),
        _ => true,
    }
}

/// Whether the entry that comes out first in the section of `k` loses no
/// comment to the text that opened the section.
pub open spec fn opening_fits(rules: Rules, entries: Seq<TableEntryView>, k: int) -> bool {
    let first = table_source(rules, entries, k);
    gives_prefix(entries, k) ==> first == k || note(entries[first].decor.prefix).len() == 0
}

/// Whether the formatter keeps every comment of a table: its items keep
/// theirs, and where a section has a text that opened it, the entry that
/// comes out first is the one that opened it, or has no comment before its
/// key.
pub open spec fn table_keeps_comments(rules: Rules, t: TableView) -> bool
    decreases t, 1nat,
{
    &&& forall|i: int|
        0 <= i < t.entries.len() ==> item_keeps_comments(rules, (#[trigger] t.entries[i]).item)
    &&& forall|k: int| 0 <= k < t.entries.len() ==> #[trigger] opening_fits(rules, t.entries, k)
}

/// What of the comments of entry `i` goes where the entry goes: all but a
/// text that opens a section.
pub open spec fn moving(t: TableView, i: int) -> Multiset<Seq<char>> {
    let e = t.entries[i];
    (if gives_prefix(t.entries, i) {
        Multiset::empty()
    } else {
        side_notes(e.decor.prefix)
    }).add(side_notes(e.decor.suffix)).add(item_notes(e.item))
}

/// What of the comments of entry `i` stays at its place: a text that opens a
/// section.
pub open spec fn staying(t: TableView, i: int) -> Multiset<Seq<char>> {
    if gives_prefix(t.entries, i) {
        side_notes(t.entries[i].decor.prefix)
    } else {
        Multiset::empty()
    }
}

/// The moving comments of each entry.
pub open spec fn moving_parts(t: TableView) -> Seq<Multiset<Seq<char>>> {
    Seq::new(t.entries.len(), |i: int| moving(t, i))
}

/// The staying comments of each place.
pub open spec fn staying_parts(t: TableView) -> Seq<Multiset<Seq<char>>> {
    Seq::new(t.entries.len(), |i: int| staying(t, i))
}

/// The moving comments, each where its entry comes out.
pub open spec fn moved_parts(rules: Rules, t: TableView) -> Seq<Multiset<Seq<char>>> {
    Seq::new(t.entries.len(), |k: int| moving(t, table_source(rules, t.entries, k)))
}

/// The comments of two lists of parts that are joined.
pub proof fn lemma_total_joined(a: Seq<Multiset<Seq<char>>>, b: Seq<Multiset<Seq<char>>>)
    ensures
        total(a + b) == total(a).add(total(b)),
    decreases b.len(),
{
    if b.len() == 0 {
        assert(a + b =~= a);
        assert(total(a).add(total(b)) =~= total(a));
    } else {
        lemma_total_joined(a, b.drop_last());
        assert((a + b).drop_last() =~= a + b.drop_last());
        assert((a + b).last() == b.last());
        assert(total(a).add(total(b.drop_last())).add(b.last()) =~= total(a).add(
            total(b.drop_last()).add(b.last()),
        ));
    }
}

/// The comments of parts that are each made of two.
pub proof fn lemma_total_of_pairs(
    a: Seq<Multiset<Seq<char>>>,
    b: Seq<Multiset<Seq<char>>>,
    c: Seq<Multiset<Seq<char>>>,
)
    requires
        a.len() == c.len(),
        b.len() == c.len(),
        forall|i: int| 0 <= i < c.len() ==> #[trigger] c[i] == a[i].add(b[i]),
    ensures
        total(c) == total(a).add(total(b)),
    decreases c.len(),
{
    if c.len() == 0 {
        assert(total(a).add(total(b)) =~= Multiset::empty());
    } else {
        lemma_total_of_pairs(a.drop_last(), b.drop_last(), c.drop_last());
        let x = total(a.drop_last());
        let y = total(b.drop_last());
        assert(c.last() == a.last().add(b.last()));
        assert(x.add(y).add(a.last().add(b.last())) =~= x.add(a.last()).add(y.add(b.last())));
    }
}

/// Sorting within the sections neither adds nor drops a comment: up to the
/// end of a section the moved parts hold what the parts held.
proof fn lemma_total_by_sections(rules: Rules, t: TableView, m: int)
    requires
        0 <= m <= t.entries.len(),
        m == 0 || m == t.entries.len() || is_boundary(t.entries, m),
    ensures
        total(moved_parts(rules, t).take(m)) == total(moving_parts(t).take(m)),
    decreases m,
{
    let entries = t.entries;
    let moved = moved_parts(rules, t);
    let parts = moving_parts(t);
    if m == 0 {
        assert(moved.take(0) =~= parts.take(0));
    } else {
        let start = section_start(entries, m - 1);
        lemma_section_of(entries, m - 1);
        assert(section_end(entries, m - 1) == m);
        lemma_total_by_sections(rules, t, start);
        let keys = section_keys(rules, entries, start, m);
        let ord = stable_order(keys);
        lemma_stable_order(keys);
        let here = parts.subrange(start, m);
        assert forall|j: int| 0 <= j < m - start implies moved.subrange(start, m)[j] == arrange(
            here,
            ord,
        )[j] by {
            assert(section_start(entries, start + j) == start);
            assert(section_end(entries, start + j) == m);
            assert(table_source(rules, entries, start + j) == start + ord[j]);
            assert(0 <= ord[j] < m - start);
        }
        assert(moved.subrange(start, m) =~= arrange(here, ord));
        lemma_total_sorted(here, keys, here.len());
        assert(here.take(here.len() as int) =~= here);
        assert(moved.take(m) =~= moved.take(start) + moved.subrange(start, m));
        assert(parts.take(m) =~= parts.take(start) + here);
        lemma_total_joined(moved.take(start), moved.subrange(start, m));
        lemma_total_joined(parts.take(start), here);
    }
}

/// The formatted item holds the comments that the item held.
pub proof fn lemma_item_notes(rules: Rules, item: ItemView)
    requires
        item_keeps_comments(rules, item),
    ensures
        item_notes(formatted_item(rules, item)) == item_notes(item),
    decreases item, 0nat,
{
    match item {
        ItemView::Value(v) => {
            lemma_value_notes(rules, v, false);
        },
        ItemView::Table(t) => {
            lemma_table_notes(rules, t);
        },
        _ => {},
    }
}

/// Entry number `k` of the formatted table holds what moved with its entry
/// and what stays at place `k`.
proof fn lemma_entry_notes(rules: Rules, t: TableView, k: int)
    requires
        table_keeps_comments(rules, t),
        0 <= k < t.entries.len(),
    ensures
        0 <= table_source(rules, t.entries, k) < t.entries.len(),
        entry_notes(formatted_table(rules, t), k) == moving(t, table_source(rules, t.entries, k)).add(
            staying(t, k),
        ),
        entry_notes(t, k) == moving(t, k).add(staying(t, k)),
    decreases t, 0nat,
{
    let entries = t.entries;
    let i = table_source(rules, entries, k);
    let start = section_start(entries, k);
    lemma_source(rules, entries, k);
    lemma_section_of(entries, k);
    lemma_space_is_blank();
    lemma_classes_within();
    let out = formatted_table(rules, t).entries[k];
    assert(out == table_element(rules, t, k));
    // the item
    assert(item_keeps_comments(rules, entries[i].item));
    lemma_item_notes(rules, entries[i].item);
    // behind the entry
    let own = entries[i].decor;
    if own.suffix is Some {
        lemma_plain_of_trimmed_end(own.suffix->0, CharClass::Newline);
    }
    assert(side_notes(out.decor.suffix) == side_notes(own.suffix));
    // before the key
    assert(opening_fits(rules, entries, k));
    if k == start && gives_prefix(entries, start) {
        if i != k {
            assert(!gives_prefix(entries, i));
        }
    } else {
        assert(!gives_prefix(entries, k));
    }
    let before = if gives_prefix(entries, i) {
        Multiset::empty()
    } else {
        side_notes(own.prefix)
    };
    assert(side_notes(out.decor.prefix) =~= before.add(staying(t, k)));
    assert(decor_notes(out.decor).add(item_notes(out.item)) =~= moving(t, i).add(staying(t, k)));
    let e = entries[k];
    assert(decor_notes(e.decor).add(item_notes(e.item)) =~= moving(t, k).add(staying(t, k)));
}

/// The formatted table holds the comments that the table held.
pub proof fn lemma_table_notes(rules: Rules, t: TableView)
    requires
        table_keeps_comments(rules, t),
    ensures
        table_notes(formatted_table(rules, t)) == table_notes(t),
    decreases t, 1nat,
{
    let n = t.entries.len();
    let u = formatted_table(rules, t);
    let moved = moved_parts(rules, t);
    let parts = moving_parts(t);
    let fixed = staying_parts(t);
    assert forall|k: int| 0 <= k < n implies #[trigger] all_entries(u)[k] == moved[k].add(
        fixed[k],
    ) by {
        lemma_entry_notes(rules, t, k);
    }
    assert forall|k: int| 0 <= k < n implies #[trigger] all_entries(t)[k] == parts[k].add(
        fixed[k],
    ) by {
        lemma_entry_notes(rules, t, k);
    }
    lemma_total_of_pairs(moved, fixed, all_entries(u));
    lemma_total_of_pairs(parts, fixed, all_entries(t));
    lemma_total_by_sections(rules, t, n as int);
    assert(moved.take(n as int) =~= moved);
    assert(parts.take(n as int) =~= parts);
    lemma_classes_within();
    assert(decor_notes(u.decor) == decor_notes(t.decor));
}

/// Formatting neither adds, nor drops, nor repeats a comment of a table in
/// which no comment stands where the formatter replaces the text.
pub proof fn law_table_comments_kept(rules: Rules, t: TableView)
    requires
        table_keeps_comments(rules, t),
    ensures
        table_notes(formatted_table(rules, t)) == table_notes(t),
{
    lemma_table_notes(rules, t);
}

/// Formatting neither adds, nor drops, nor repeats a comment of a document
/// in which no comment stands where the formatter replaces the text.
pub proof fn law_document_comments_kept(rules: Rules, d: DocumentView)
    requires
        table_keeps_comments(rules, d.root),
    ensures
        document_notes(formatted_document(rules, d)) == document_notes(d),
{
    lemma_table_notes(rules, d.root);
}

} // verus!
