//! Laws of the formatting of tables: sections are kept, each section comes
//! out sorted, no entry is lost, and a formatted table is left as it is when
//! it is formatted again.

use vstd::prelude::*;
use crate::config::{key_before, lemma_rank_key_order, rank_key, Rules};
use crate::driver::formatted_document;
use crate::model::{DocumentView, ItemView, TableEntryView, TableView};
use crate::order::{
    arrange, is_arrangement, lemma_stable_order, lemma_stable_order_of_sorted, stable_order,
};
use crate::table::{
    formatted_item, formatted_table, gives_prefix, is_boundary, key_decor, lemma_next_boundary,
    lemma_section, next_boundary, section_end, section_keys, section_start, table_element,
    table_source,
};
use crate::text::{lemma_trim_end_props, starts_with, trim_end, CharClass};
use crate::valid::{item_ok, table_ok};
use crate::value_laws::lemma_value_settles;

verus! {

/// No two entries have the same key.
pub open spec fn keys_distinct(entries: Seq<TableEntryView>) -> bool {
    forall|i: int, j: int|
        0 <= i < j < entries.len() ==> (#[trigger] entries[i]).key != (#[trigger] entries[j]).key
}

/// Where a section starts there is the first entry or a boundary, and none
/// between it and the entry.
pub proof fn lemma_section_start(entries: Seq<TableEntryView>, k: int)
    requires
        0 <= k,
    ensures
        0 <= section_start(entries, k) <= k,
        section_start(entries, k) == 0 || is_boundary(entries, section_start(entries, k)),
        forall|j: int| section_start(entries, k) < j <= k ==> !is_boundary(entries, j),
    decreases k,
{
    if k > 0 && !is_boundary(entries, k) {
        lemma_section_start(entries, k - 1);
    }
}

/// The section of entry `k`: it holds `k`, has no boundary inside, ends at a
/// boundary or at the end of the table, and is the section of each of its
/// entries.
pub proof fn lemma_section_of(entries: Seq<TableEntryView>, k: int)
    requires
        0 <= k < entries.len(),
    ensures
        ({
            let start = section_start(entries, k);
            let end = section_end(entries, k);
            &&& 0 <= start <= k < end <= entries.len()
            &&& (start == 0 || is_boundary(entries, start))
            &&& (end == entries.len() || is_boundary(entries, end))
            &&& forall|j: int| start < j < end ==> !is_boundary(entries, j)
            &&& forall|j: int| start <= j < end ==> #[trigger] section_start(entries, j) == start
            &&& forall|j: int| start <= j < end ==> #[trigger] section_end(entries, j) == end
        }),
{
    let start = section_start(entries, k);
    let end = section_end(entries, k);
    lemma_section_start(entries, k);
    lemma_next_boundary(entries, k + 1);
    lemma_section(entries, start, k);
    assert forall|j: int| start <= j < end implies #[trigger] section_start(entries, j)
        == start by {
        lemma_section(entries, start, j);
    }
    assert forall|j: int| start <= j < end implies #[trigger] section_end(entries, j) == end by {
        lemma_section(entries, start, j);
    }
}

/// The entry that comes out as number `k` stood in the section of number `k`.
pub proof fn lemma_source(rules: Rules, entries: Seq<TableEntryView>, k: int)
    requires
        0 <= k < entries.len(),
    ensures
        section_start(entries, k) <= table_source(rules, entries, k) < section_end(entries, k),
        section_start(entries, table_source(rules, entries, k)) == section_start(entries, k),
        section_end(entries, table_source(rules, entries, k)) == section_end(entries, k),
{
    let start = section_start(entries, k);
    let end = section_end(entries, k);
    lemma_section_of(entries, k);
    lemma_stable_order(section_keys(rules, entries, start, end));
    let i = table_source(rules, entries, k);
    assert(start <= i < end);
    assert(section_start(entries, i) == start);
}

/// Tables with the same boundaries have the same sections.
pub proof fn lemma_same_sections(a: Seq<TableEntryView>, b: Seq<TableEntryView>, k: int)
    requires
        a.len() == b.len(),
        forall|j: int| is_boundary(a, j) == is_boundary(b, j),
        0 <= k,
    ensures
        section_start(a, k) == section_start(b, k),
        next_boundary(a, k) == next_boundary(b, k),
{
    lemma_same_starts(a, b, k);
    lemma_same_ends(a, b, k);
}

proof fn lemma_same_starts(a: Seq<TableEntryView>, b: Seq<TableEntryView>, k: int)
    requires
        a.len() == b.len(),
        forall|j: int| is_boundary(a, j) == is_boundary(b, j),
    ensures
        section_start(a, k) == section_start(b, k),
    decreases k,
{
    if k > 0 && !is_boundary(a, k) {
        lemma_same_starts(a, b, k - 1);
    }
}

proof fn lemma_same_ends(a: Seq<TableEntryView>, b: Seq<TableEntryView>, k: int)
    requires
        a.len() == b.len(),
        forall|j: int| is_boundary(a, j) == is_boundary(b, j),
    ensures
        next_boundary(a, k) == next_boundary(b, k),
    decreases a.len() - k,
{
    if k < a.len() && !is_boundary(a, k) {
        lemma_same_ends(a, b, k + 1);
    }
}

/// What the formatting makes of an item: it stays valid and is left as it is
/// when it is formatted again.
pub proof fn lemma_item_settles(rules: Rules, item: ItemView)
    requires
        item_ok(item),
    ensures
        item_ok(formatted_item(rules, item)),
        formatted_item(rules, formatted_item(rules, item)) == formatted_item(rules, item),
    decreases item, 0nat,
{
    match item {
        ItemView::Absent => {},
        ItemView::Value(v) => {
            lemma_value_settles(rules, v, false);
        },
        ItemView::Table(t) => {
            lemma_table_settles(rules, t);
        },
        ItemView::ArrayOfTables(_) => {},
    }
}

/// Whether a text before a key starts a section, were the key not the first.
pub open spec fn opens_section(prefix: Option<Seq<char>>) -> bool {
    prefix is Some && starts_with(prefix->0, '\n')
}

/// What the formatting makes of one entry of a table.
proof fn lemma_table_element(rules: Rules, t: TableView, k: int)
    requires
        table_ok(t),
        0 <= k < t.entries.len(),
    ensures
        ({
            let i = table_source(rules, t.entries, k);
            let x = table_element(rules, t, k);
            &&& 0 <= i < t.entries.len()
            &&& x.key == t.entries[i].key
            &&& item_ok(x.item)
            &&& formatted_item(rules, x.item) == x.item
            &&& k > 0 ==> opens_section(x.decor.prefix) == is_boundary(t.entries, k)
            &&& x.decor.suffix is Some ==> trim_end(x.decor.suffix->0, CharClass::Newline)
                == x.decor.suffix->0
        }),
    decreases t, 0nat,
{
    let entries = t.entries;
    let i = table_source(rules, entries, k);
    lemma_source(rules, entries, k);
    lemma_section_of(entries, k);
    assert(item_ok(entries[i].item));
    lemma_item_settles(rules, entries[i].item);
    let own = entries[i].decor;
    if own.suffix is Some {
        lemma_trim_end_props(own.suffix->0, CharClass::Newline);
    }
    if k > 0 {
        lemma_prefix_kind(rules, t, k);
        assert(formatted_table(rules, t).entries[k] == table_element(rules, t, k));
    }
}

/// The formatted table is valid, and is left as it is when it is formatted
/// again.
pub proof fn lemma_table_settles(rules: Rules, t: TableView)
    requires
        table_ok(t),
    ensures
        table_ok(formatted_table(rules, t)),
        formatted_table(rules, formatted_table(rules, t)) == formatted_table(rules, t),
    decreases t, 1nat,
{
    let n = t.entries.len();
    let entries = t.entries;
    let u = formatted_table(rules, t);
    let out = u.entries;
    assert forall|k: int| 0 <= k < n implies {
        let i = table_source(rules, entries, k);
        let x = #[trigger] out[k];
        &&& 0 <= i < n
        &&& x.key == entries[i].key
        &&& item_ok(x.item)
        &&& formatted_item(rules, x.item) == x.item
        &&& k > 0 ==> opens_section(x.decor.prefix) == is_boundary(entries, k)
        &&& x.decor.suffix is Some ==> trim_end(x.decor.suffix->0, CharClass::Newline)
            == x.decor.suffix->0
    } by {
        lemma_table_element(rules, t, k);
    }
    assert forall|j: int| is_boundary(out, j) == is_boundary(entries, j) by {
        if 0 < j < n {
            assert(opens_section(out[j].decor.prefix) == is_boundary(entries, j));
        }
    }
    let w = formatted_table(rules, u);
    assert forall|k: int| 0 <= k < n implies w.entries[k] == out[k] by {
        let start = section_start(entries, k);
        let end = section_end(entries, k);
        lemma_section_of(entries, k);
        lemma_same_sections(out, entries, k);
        lemma_same_sections(out, entries, k + 1);
        // the section comes out sorted, so it is not sorted again
        let keys = section_keys(rules, entries, start, end);
        let ord = stable_order(keys);
        lemma_stable_order(keys);
        assert forall|j: int| 0 <= j < end - start implies section_keys(
            rules,
            out,
            start,
            end,
        )[j] == arrange(keys, ord)[j] by {
            assert(section_start(entries, start + j) == start);
            assert(section_end(entries, start + j) == end);
            assert(table_source(rules, entries, start + j) == start + ord[j]);
            assert(out[start + j].key == entries[start + ord[j]].key);
        }
        assert(section_keys(rules, out, start, end) =~= arrange(keys, ord));
        lemma_stable_order_of_sorted(section_keys(rules, out, start, end));
        assert(table_source(rules, out, k) == k);
        assert(w.entries[k] == table_element(rules, u, k));
        // the decoration of the key
        let x = out[k];
        assert(key_decor(out, k, k).prefix == x.decor.prefix) by {
            if k > start {
                assert(!is_boundary(out, k));
            }
        }
        assert(key_decor(out, k, k).suffix == x.decor.suffix);
    }
    assert(w.entries =~= out);
}

/// Formatting twice gives what formatting once gives: a formatted table is
/// left as it is.
pub proof fn law_table_formatted_once(rules: Rules, t: TableView)
    requires
        table_ok(t),
    ensures
        formatted_table(rules, formatted_table(rules, t)) == formatted_table(rules, t),
{
    lemma_table_settles(rules, t);
}

/// Formatting twice gives what formatting once gives: a formatted document
/// is left as it is.
pub proof fn law_document_formatted_once(rules: Rules, d: DocumentView)
    requires
        table_ok(d.root),
    ensures
        formatted_document(rules, formatted_document(rules, d)) == formatted_document(rules, d),
{
    lemma_table_settles(rules, d.root);
}

/// Sorting never moves an entry across an empty line: the formatted table has
/// its sections where the table had them, and the entry that comes out as
/// number `k` stood in the section of number `k`.
pub proof fn law_sections_kept(rules: Rules, t: TableView, k: int)
    requires
        0 <= k < t.entries.len(),
    ensures
        ({
            let out = formatted_table(rules, t).entries;
            let i = table_source(rules, t.entries, k);
            &&& out.len() == t.entries.len()
            &&& section_start(out, k) == section_start(t.entries, k)
            &&& section_end(out, k) == section_end(t.entries, k)
            &&& 0 <= i < t.entries.len()
            &&& out[k].key == t.entries[i].key
            &&& section_start(t.entries, i) == section_start(t.entries, k)
            &&& section_end(t.entries, i) == section_end(t.entries, k)
        }),
{
    let entries = t.entries;
    let out = formatted_table(rules, t).entries;
    assert forall|j: int| is_boundary(out, j) == is_boundary(entries, j) by {
        if 0 < j < entries.len() {
            lemma_prefix_kind(rules, t, j);
        }
    }
    lemma_same_sections(out, entries, k);
    lemma_same_sections(out, entries, k + 1);
    lemma_source(rules, entries, k);
    lemma_section_of(entries, k);
}

/// An entry of the formatted table starts a section exactly where an entry of
/// the table did.
proof fn lemma_prefix_kind(rules: Rules, t: TableView, k: int)
    requires
        0 < k < t.entries.len(),
    ensures
        is_boundary(formatted_table(rules, t).entries, k) == is_boundary(t.entries, k),
{
    let entries = t.entries;
    let i = table_source(rules, entries, k);
    lemma_source(rules, entries, k);
    lemma_section_of(entries, k);
    let start = section_start(entries, k);
    let x = formatted_table(rules, t).entries[k];
    assert(x == table_element(rules, t, k));
    if k == start {
        assert(is_boundary(entries, k));
        assert(gives_prefix(entries, start));
    } else {
        assert(!is_boundary(entries, k));
        if gives_prefix(entries, i) {
            assert(!starts_with(Seq::<char>::empty(), '\n'));
        } else if i > 0 {
            assert(!is_boundary(entries, i));
        }
    }
}

/// Every entry comes out once: the positions from which the entries of the
/// formatted table are taken are all the positions of the table.
pub proof fn law_no_entry_lost(rules: Rules, t: TableView)
    ensures
        is_arrangement(
            Seq::new(t.entries.len(), |k: int| table_source(rules, t.entries, k)),
            t.entries.len(),
        ),
{
    let entries = t.entries;
    let n = entries.len();
    let src = Seq::new(n, |k: int| table_source(rules, entries, k));
    assert forall|k: int| 0 <= k < src.len() implies 0 <= #[trigger] src[k] < n by {
        lemma_source(rules, entries, k);
        lemma_section_of(entries, k);
    }
    assert forall|a: int, b: int| 0 <= a < b < src.len() implies #[trigger] src[a]
        != #[trigger] src[b] by {
        lemma_source(rules, entries, a);
        lemma_source(rules, entries, b);
        lemma_section_of(entries, a);
        lemma_section_of(entries, b);
        let start = section_start(entries, a);
        let end = section_end(entries, a);
        if section_start(entries, b) == start {
            lemma_stable_order(section_keys(rules, entries, start, end));
            let ord = stable_order(section_keys(rules, entries, start, end));
            assert(ord[a - start] != ord[b - start]);
        }
    }
}

/// Keys that differ from each other in the table do so in the formatted
/// table.
pub proof fn law_keys_stay_distinct(rules: Rules, t: TableView)
    requires
        keys_distinct(t.entries),
    ensures
        keys_distinct(formatted_table(rules, t).entries),
{
    let entries = t.entries;
    let out = formatted_table(rules, t).entries;
    law_no_entry_lost(rules, t);
    let src = Seq::new(entries.len(), |k: int| table_source(rules, entries, k));
    assert forall|a: int, b: int| 0 <= a < b < out.len() implies (#[trigger] out[a]).key != (
    #[trigger] out[b]).key by {
        assert(src[a] != src[b]);
        assert(0 <= src[a] < entries.len());
        assert(0 <= src[b] < entries.len());
        assert(out[a] == table_element(rules, t, a));
        assert(out[b] == table_element(rules, t, b));
        let i = src[a];
        let j = src[b];
        if i < j {
            assert(entries[i].key != entries[j].key);
        } else {
            assert(entries[j].key != entries[i].key);
        }
    }
}

/// Within a section the keys come out in order: the important keys first, by
/// their rank, then the others by their text.
pub proof fn law_section_sorted(rules: Rules, t: TableView, a: int, b: int)
    requires
        0 <= a < b < t.entries.len(),
        section_start(t.entries, a) == section_start(t.entries, b),
    ensures
        !key_before(
            rules.keys,
            formatted_table(rules, t).entries[b].key,
            formatted_table(rules, t).entries[a].key,
        ),
{
    let entries = t.entries;
    let out = formatted_table(rules, t).entries;
    lemma_section_of(entries, a);
    lemma_section_of(entries, b);
    lemma_source(rules, entries, a);
    lemma_source(rules, entries, b);
    let start = section_start(entries, a);
    let end = section_end(entries, a);
    assert(section_end(entries, b) == end) by {
        assert(section_start(entries, b) == start);
        lemma_section(entries, start, b);
        lemma_section(entries, start, a);
    }
    let keys = section_keys(rules, entries, start, end);
    let ord = stable_order(keys);
    lemma_stable_order(keys);
    let sorted = arrange(keys, ord);
    assert(!crate::order::before(sorted[b - start], sorted[a - start]));
    assert(out[a] == table_element(rules, t, a));
    assert(out[b] == table_element(rules, t, b));
    assert(sorted[a - start] == rank_key(rules.keys, out[a].key));
    assert(sorted[b - start] == rank_key(rules.keys, out[b].key));
    lemma_rank_key_order(rules.keys, out[b].key, out[a].key);
}

} // verus!
