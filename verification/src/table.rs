//! Formatting of tables, section by section.
//!
//! An entry whose key is preceded by an empty line starts a new section.
//! Entries are sorted within their section and never leave it; the text that
//! opened a section stays at its start.

use vstd::prelude::*;
use crate::config::{rank_key, GenericConfig, Ranks, Rules};
use crate::model::{
    text_or_empty, text_view, Decor, DecorView, Item, ItemView, Table, TableEntry, TableEntryView,
    TableView,
};
use crate::order::{key_views, positions, sort_order, stable_order, SortKey, SortKeyView};
use crate::table_laws::lemma_table_settles;
use crate::text::{begins_with, starts_with, trim_end, trimmed_end, CharClass};
use crate::valid::table_ok;
use crate::value::formatted_value;

verus! {

/// Whether entry `i` starts a new section: it is not the first entry, and the
/// text before its key starts with a line break.
pub open spec fn is_boundary(entries: Seq<TableEntryView>, i: int) -> bool {
    &&& 0 < i < entries.len()
    &&& entries[i].decor.prefix is Some
    &&& starts_with(entries[i].decor.prefix->0, '\n')
}

/// The first boundary at or after `i`, or the number of entries if there is
/// none.
pub open spec fn next_boundary(entries: Seq<TableEntryView>, i: int) -> int
    decreases entries.len() - i,
{
    if i >= entries.len() {
        entries.len() as int
    } else if is_boundary(entries, i) {
        i
    } else {
        next_boundary(entries, i + 1)
    }
}

/// Where the section of entry `k` starts.
pub open spec fn section_start(entries: Seq<TableEntryView>, k: int) -> int
    decreases k,
{
    if k <= 0 {
        0
    } else if is_boundary(entries, k) {
        k
    } else {
        section_start(entries, k - 1)
    }
}

/// Where the section of entry `k` ends: at the first entry of the next one.
pub open spec fn section_end(entries: Seq<TableEntryView>, k: int) -> int {
    next_boundary(entries, k + 1)
}

/// Whether the text before the key of entry `i` is taken from it, to stand at
/// the start of its section: the first entry gives what it has, an entry that
/// starts a section its text with the line break.
pub open spec fn gives_prefix(entries: Seq<TableEntryView>, i: int) -> bool {
    if i == 0 {
        entries[0].decor.prefix is Some && entries[0].decor.prefix->0.len() > 0
    } else {
        is_boundary(entries, i)
    }
}

/// The text that opens the section that starts at `start`, if there is any.
pub open spec fn section_prefix(entries: Seq<TableEntryView>, start: int) -> Option<Seq<char>> {
    if gives_prefix(entries, start) {
        entries[start].decor.prefix
    } else {
        None
    }
}

/// The sort keys of the entries `start..end`.
pub open spec fn section_keys(rules: Rules, entries: Seq<TableEntryView>, start: int, end: int) -> Seq<
    SortKeyView,
> {
    Seq::new((end - start) as nat, |j: int| rank_key(rules.keys, entries[start + j].key))
}

/// The position of the entry that comes out as number `k`: the entries of
/// each section are sorted among themselves.
pub open spec fn table_source(rules: Rules, entries: Seq<TableEntryView>, k: int) -> int {
    let start = section_start(entries, k);
    let end = section_end(entries, k);
    start + stable_order(section_keys(rules, entries, start, end))[k - start]
}

/// The decoration of the key that comes out as number `k`, taken from
/// position `i`: the first of a section gets the text that opened the
/// section, if there is any; an entry that gave its text away has none left;
/// any other keeps its own. Line breaks at the end of the text behind the
/// entry are dropped.
pub open spec fn key_decor(entries: Seq<TableEntryView>, k: int, i: int) -> DecorView {
    let start = section_start(entries, k);
    let own = entries[i].decor;
    DecorView {
        prefix: if k == start && section_prefix(entries, start) is Some {
            section_prefix(entries, start)
        } else if gives_prefix(entries, i) {
            Some(Seq::empty())
        } else {
            own.prefix
        },
        suffix: match own.suffix {
            Some(s) => Some(trim_end(s, CharClass::Newline)),
            None => None,
        },
    }
}

/// The formatted item: a value or a table formatted, an array of tables as it
/// was.
pub open spec fn formatted_item(rules: Rules, item: ItemView) -> ItemView
    decreases item, 0nat,
{
    match item {
        ItemView::Absent => ItemView::Absent,
        ItemView::Value(v) => ItemView::Value(formatted_value(rules, v, false)),
        ItemView::Table(t) => ItemView::Table(formatted_table(rules, t)),
        ItemView::ArrayOfTables(a) => ItemView::ArrayOfTables(a),
    }
}

/// Entry number `k` of the formatted table.
pub open spec fn table_element(rules: Rules, t: TableView, k: int) -> TableEntryView
    decreases t, 0nat,
{
    let i = table_source(rules, t.entries, k);
    if 0 <= i < t.entries.len() {
        TableEntryView {
            key: t.entries[i].key,
            decor: key_decor(t.entries, k, i),
            item: formatted_item(rules, t.entries[i].item),
        }
    } else {
        arbitrary()
    }
}

/// The formatted table: its own decoration kept, its entries sorted section
/// by section, each with the decoration of `key_decor` and its item
/// formatted. It is marked implicit.
pub open spec fn formatted_table(rules: Rules, t: TableView) -> TableView
    decreases t, 1nat,
{
    TableView {
        entries: Seq::new(t.entries.len(), |k: int| table_element(rules, t, k)),
        decor: DecorView {
            prefix: Some(text_or_empty(t.decor.prefix)),
            suffix: Some(text_or_empty(t.decor.suffix)),
        },
        implicit: true,
    }
}

/// Between `from` and the next boundary there is no boundary.
pub proof fn lemma_next_boundary(entries: Seq<TableEntryView>, from: int)
    requires
        0 <= from <= entries.len(),
    ensures
        from <= next_boundary(entries, from) <= entries.len(),
        forall|i: int| from <= i < next_boundary(entries, from) ==> !is_boundary(entries, i),
        next_boundary(entries, from) < entries.len() ==> is_boundary(
            entries,
            next_boundary(entries, from),
        ),
    decreases entries.len() - from,
{
    if from < entries.len() && !is_boundary(entries, from) {
        lemma_next_boundary(entries, from + 1);
    }
}

/// Every entry between the start of a section and the next boundary belongs
/// to that section.
pub proof fn lemma_section(entries: Seq<TableEntryView>, start: int, j: int)
    requires
        0 <= start <= j < entries.len(),
        start == 0 || is_boundary(entries, start),
        forall|i: int| start < i <= j ==> !is_boundary(entries, i),
    ensures
        section_start(entries, j) == start,
        section_end(entries, j) == section_end(entries, start),
    decreases j - start,
{
    if j > start {
        lemma_section(entries, start, j - 1);
    }
}

/// Whether entry `i` of the table starts a new section.
pub fn entry_is_boundary(table: &Table, i: usize) -> (r: bool)
    ensures
        r == is_boundary(table@.entries, i as int),
{
    if i == 0 || i >= table.entries.len() {
        return false;
    }
    assert(table@.entries[i as int] == table.entries[i as int]@);
    match &table.entries[i].decor.prefix {
        Some(p) => begins_with(p.as_str(), '\n'),
        None => false,
    }
}

/// Whether the text before the key of entry `i` is taken from it, to stand at
/// the start of its section.
fn entry_gives_prefix(table: &Table, i: usize) -> (r: bool)
    requires
        i < table.entries.len(),
    ensures
        r == gives_prefix(table@.entries, i as int),
{
    assert(table@.entries[i as int] == table.entries[i as int]@);
    if i == 0 {
        match &table.entries[0].decor.prefix {
            Some(p) => !p.as_str().is_empty(),
            None => false,
        }
    } else {
        entry_is_boundary(table, i)
    }
}

/// A copy of one side of a decoration.
fn copy_side(side: &Option<String>) -> (r: Option<String>)
    ensures
        text_view(r) == text_view(*side),
{
    match side {
        Some(t) => Some(t.clone()),
        None => None,
    }
}

/// The decoration of the key that comes out as number `k`, taken from
/// position `i`, in the section that starts at `start`.
fn entry_decor(table: &Table, start: usize, k: usize, i: usize) -> (r: Decor)
    requires
        start <= k < table.entries.len(),
        i < table.entries.len(),
        start == section_start(table@.entries, k as int),
    ensures
        r@ == key_decor(table@.entries, k as int, i as int),
{
    assert(table@.entries[i as int] == table.entries[i as int]@);
    assert(table@.entries[start as int] == table.entries[start as int]@);
    let own = &table.entries[i].decor;
    let prefix = if k == start && entry_gives_prefix(table, start) {
        copy_side(&table.entries[start].decor.prefix)
    } else if entry_gives_prefix(table, i) {
        Some(String::new())
    } else {
        copy_side(&own.prefix)
    };
    let suffix = match &own.suffix {
        Some(s) => Some(trimmed_end(s.as_str(), CharClass::Newline)),
        None => None,
    };
    Decor { prefix, suffix }
}

impl GenericConfig<Ranks> {
    /// Where the section that starts at `start` ends.
    fn end_of_section(&self, table: &Table, start: usize) -> (end: usize)
        requires
            start < table.entries.len(),
        ensures
            start < end <= table.entries.len(),
            end == section_end(table@.entries, start as int),
    {
        let mut end: usize = start + 1;
        while end < table.entries.len() && !entry_is_boundary(table, end)
            invariant
                start < end <= table.entries.len(),
                next_boundary(table@.entries, end as int) == section_end(
                    table@.entries,
                    start as int,
                ),
            decreases table.entries.len() - end,
        {
            end += 1;
        }
        end
    }

    /// The order in which the entries `start..end` come out, counted from
    /// `start`.
    fn order_of_section(&self, table: &Table, start: usize, end: usize) -> (ord: Vec<usize>)
        requires
            start <= end <= table.entries.len(),
        ensures
            positions(ord@) == stable_order(
                section_keys(self@, table@.entries, start as int, end as int),
            ),
            ord.len() == end - start,
            forall|i: int| 0 <= i < ord.len() ==> #[trigger] ord[i] < end - start,
    {
        let mut keys: Vec<SortKey> = Vec::new();
        let mut i: usize = start;
        while i < end
            invariant
                start <= i <= end <= table.entries.len(),
                keys.len() == i - start,
                forall|j: int|
                    0 <= j < i - start ==> (#[trigger] keys[j])@ == rank_key(
                        self@.keys,
                        table@.entries[start + j].key,
                    ),
            decreases end - i,
        {
            assert(table@.entries[i as int] == table.entries[i as int]@);
            keys.push(self.keys.sort_key(table.entries[i].key.as_str()));
            i += 1;
        }
        assert(key_views(keys@) =~= section_keys(self@, table@.entries, start as int, end as int));
        sort_order(&keys)
    }

    /// Formats what stands under a key.
    pub fn format_item(&self, item: &Item) -> (r: Item)
        ensures
            r@ == formatted_item(self@, item@),
        decreases item,
    {
        match item {
            Item::Absent => Item::Absent,
            Item::Value(v) => Item::Value(self.format_value(v, false)),
            Item::Table(t) => Item::Table(self.format_table(t)),
            Item::ArrayOfTables(a) => Item::ArrayOfTables(a.clone()),
        }
    }

    /// Formats a table. An empty line before a key starts a new section;
    /// entries are sorted within their section only. The text that opened a
    /// section stays at its start; the text behind an entry stays with it.
    pub fn format_table(&self, table: &Table) -> (r: Table)
        ensures
            r@ == formatted_table(self@, table@),
            table_ok(table@) ==> table_ok(r@),
        decreases table,
    {
        proof {
            if table_ok(table@) {
                lemma_table_settles(self@, table@);
            }
        }
        let n = table.entries.len();
        let mut out: Vec<TableEntry> = Vec::new();
        let mut start: usize = 0;
        while start < n
            invariant
                start <= n,
                n == table.entries.len(),
                out.len() == start,
                start == 0 || start == n || is_boundary(table@.entries, start as int),
                forall|j: int|
                    0 <= j < start ==> (#[trigger] out[j])@ == table_element(self@, table@, j),
            decreases n - start,
        {
            let end = self.end_of_section(table, start);
            let ord = self.order_of_section(table, start, end);
            proof {
                lemma_next_boundary(table@.entries, start + 1);
            }
            let mut k: usize = start;
            while k < end
                invariant
                    start <= k <= end <= n,
                    n == table.entries.len(),
                    out.len() == k,
                    start == 0 || is_boundary(table@.entries, start as int),
                    end == section_end(table@.entries, start as int),
                    forall|i: int| start < i < end ==> !is_boundary(table@.entries, i),
                    positions(ord@) == stable_order(
                        section_keys(self@, table@.entries, start as int, end as int),
                    ),
                    ord.len() == end - start,
                    forall|i: int| 0 <= i < ord.len() ==> #[trigger] ord[i] < end - start,
                    forall|j: int|
                        0 <= j < k ==> (#[trigger] out[j])@ == table_element(self@, table@, j),
                decreases end - k,
            {
                let i = start + ord[k - start];
                proof {
                    lemma_section(table@.entries, start as int, k as int);
                    assert(positions(ord@)[k - start] == ord[k - start]);
                    assert(table_source(self@, table@.entries, k as int) == i);
                    assert(table@.entries[i as int] == table.entries[i as int]@);
                }
                let e = &table.entries[i];
                let decor = entry_decor(table, start, k, i);
                let item = self.format_item(&e.item);
                out.push(TableEntry { key: e.key.clone(), decor, item });
                k += 1;
            }
            start = end;
        }
        let decor = Decor::new(
            String::from_str(table.decor.prefix_text()),
            String::from_str(table.decor.suffix_text()),
        );
        let r = Table { entries: out, decor, implicit: true };
        proof {
            let want = formatted_table(self@, table@).entries;
            assert(r@.entries.len() == n);
            assert(want.len() == n);
            assert forall|j: int| 0 <= j < n implies r@.entries[j] == want[j] by {
                assert(r@.entries[j] == out[j]@);
                assert(out[j]@ == table_element(self@, table@, j));
                assert(want[j] == table_element(self@, table@, j));
            }
            assert(r@.entries =~= want);
        }
        r
    }
}

} // verus!
