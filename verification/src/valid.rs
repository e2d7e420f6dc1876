//! Validity of the document tree.
//!
//! A scalar holds its kind beside its written form. The two fit if a scalar
//! that is written as a plain literal string is a string with the text
//! between the apostrophes. A tree is valid if every scalar in it fits. What
//! a parser hands over is valid, and formatting keeps a tree valid.

use vstd::prelude::*;
use crate::model::{
    Array, InlineTable, Item, ItemView, Kind, KindView, Scalar, ScalarView, Table, TableView,
    Value, ValueView,
};
use crate::text::same_text;
use crate::value::{is_plain_literal, literal_content, plain_literal};

verus! {

/// A scalar is valid if its kind fits its written form: one written as a
/// plain literal string is a string with the text between the apostrophes.
pub open spec fn scalar_ok(s: ScalarView) -> bool {
    is_plain_literal(s.repr) ==> s.kind == KindView::Text(literal_content(s.repr))
}

/// A value is valid if every scalar in it is.
pub open spec fn value_ok(v: ValueView) -> bool
    decreases v,
{
    match v {
        ValueView::Scalar(s) => scalar_ok(s),
        ValueView::Array(a) => forall|i: int|
            0 <= i < a.values.len() ==> value_ok(#[trigger] a.values[i]),
        ValueView::InlineTable(t) => forall|i: int|
            0 <= i < t.entries.len() ==> value_ok((#[trigger] t.entries[i]).value),
    }
}

/// What stands under a key is valid if every scalar in it is. An array of
/// tables is never looked into.
pub open spec fn item_ok(item: ItemView) -> bool
    decreases item,
{
    match item {
        ItemView::Absent => true,
        ItemView::Value(v) => value_ok(v),
        ItemView::Table(t) => table_ok(t),
        ItemView::ArrayOfTables(_) => true,
    }
}

/// A table is valid if every scalar in it is.
pub open spec fn table_ok(t: TableView) -> bool
    decreases t,
{
    forall|i: int| 0 <= i < t.entries.len() ==> item_ok((#[trigger] t.entries[i]).item)
}

impl Scalar {
    /// Whether the scalar is valid.
    pub fn is_valid(&self) -> (r: bool)
        ensures
            r == scalar_ok(self@),
    {
        match plain_literal(self.repr.as_str()) {
            Some(content) => match &self.kind {
                Kind::Text(t) => same_text(t.as_str(), content.as_str()),
                _ => false,
            },
            None => true,
        }
    }
}

impl Value {
    /// Whether the value is valid.
    pub fn is_valid(&self) -> (r: bool)
        ensures
            r == value_ok(self@),
        decreases self,
    {
        match self {
            Value::Scalar(s) => s.is_valid(),
            Value::Array(a) => array_is_valid(a),
            Value::InlineTable(t) => inline_table_is_valid(t),
        }
    }
}

/// Whether every element of the array is valid.
fn array_is_valid(a: &Array) -> (r: bool)
    ensures
        r == value_ok(ValueView::Array(a@)),
    decreases a,
{
    let mut i: usize = 0;
    while i < a.values.len()
        invariant
            i <= a.values.len(),
            forall|j: int| 0 <= j < i ==> value_ok(#[trigger] a@.values[j]),
        decreases a.values.len() - i,
    {
        assert(a@.values[i as int] == a.values[i as int]@);
        if !a.values[i].is_valid() {
            return false;
        }
        i += 1;
    }
    true
}

/// Whether every value of the inline table is valid.
fn inline_table_is_valid(t: &InlineTable) -> (r: bool)
    ensures
        r == value_ok(ValueView::InlineTable(t@)),
    decreases t,
{
    let mut i: usize = 0;
    while i < t.entries.len()
        invariant
            i <= t.entries.len(),
            forall|j: int| 0 <= j < i ==> value_ok((#[trigger] t@.entries[j]).value),
        decreases t.entries.len() - i,
    {
        assert(t@.entries[i as int] == t.entries[i as int]@);
        if !t.entries[i].value.is_valid() {
            return false;
        }
        i += 1;
    }
    true
}

impl Item {
    /// Whether the item is valid.
    pub fn is_valid(&self) -> (r: bool)
        ensures
            r == item_ok(self@),
        decreases self,
    {
        match self {
            Item::Absent => true,
            Item::Value(v) => v.is_valid(),
            Item::Table(t) => t.is_valid(),
            Item::ArrayOfTables(_) => true,
        }
    }
}

impl Table {
    /// Whether the table is valid.
    pub fn is_valid(&self) -> (r: bool)
        ensures
            r == table_ok(self@),
        decreases self,
    {
        let mut i: usize = 0;
        while i < self.entries.len()
            invariant
                i <= self.entries.len(),
                forall|j: int| 0 <= j < i ==> item_ok((#[trigger] self@.entries[j]).item),
            decreases self.entries.len() - i,
        {
            assert(self@.entries[i as int] == self.entries[i as int]@);
            if !self.entries[i].item.is_valid() {
                return false;
            }
            i += 1;
        }
        true
    }
}

} // verus!
