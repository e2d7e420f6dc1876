//! The document tree: tables, items, values and their decorations.
//!
//! Every type has a view, a purely mathematical copy of itself in which text
//! is a sequence of characters and a list is a sequence. Contracts are stated
//! over views.

use vstd::prelude::*;

verus! {

/// The raw text around a key or a value: whitespace and comments, never content.
/// An absent side is rendered with the default spacing of its position.
#[derive(Clone, Debug, PartialEq, Eq)]
pub struct Decor {
    pub prefix: Option<String>,
    pub suffix: Option<String>,
}

/// The view of a `Decor`.
pub struct DecorView {
    pub prefix: Option<Seq<char>>,
    pub suffix: Option<Seq<char>>,
}

/// The characters of a text that may be absent.
pub open spec fn text_view(s: Option<String>) -> Option<Seq<char>> {
    match s {
        Some(t) => Some(t@),
        None => None,
    }
}

/// The characters of a borrowed text that may be absent.
pub open spec fn text_view_of(s: Option<&str>) -> Option<Seq<char>> {
    match s {
        Some(t) => Some(t@),
        None => None,
    }
}

impl View for Decor {
    type V = DecorView;

    open spec fn view(&self) -> DecorView {
        DecorView { prefix: text_view(self.prefix), suffix: text_view(self.suffix) }
    }
}

/// What a scalar is. A string is `Text`, and carries its decoded text.
#[derive(Clone, Debug, PartialEq, Eq)]
pub enum Kind {
    Text(String),
    Integer,
    Float,
    Boolean,
    Datetime,
}

/// The view of a `Kind`.
pub enum KindView {
    Text(Seq<char>),
    Integer,
    Float,
    Boolean,
    Datetime,
}

impl View for Kind {
    type V = KindView;

    open spec fn view(&self) -> KindView {
        match self {
            Kind::Text(s) => KindView::Text(s@),
            Kind::Integer => KindView::Integer,
            Kind::Float => KindView::Float,
            Kind::Boolean => KindView::Boolean,
            Kind::Datetime => KindView::Datetime,
        }
    }
}

/// A value that holds no other value, kept by its written form.
#[derive(Clone, Debug, PartialEq, Eq)]
pub struct Scalar {
    pub kind: Kind,
    /// The value as written in the document, without decoration.
    pub repr: String,
    pub decor: Decor,
}

/// The view of a `Scalar`.
pub struct ScalarView {
    pub kind: KindView,
    pub repr: Seq<char>,
    pub decor: DecorView,
}

impl View for Scalar {
    type V = ScalarView;

    open spec fn view(&self) -> ScalarView {
        ScalarView { kind: self.kind@, repr: self.repr@, decor: self.decor@ }
    }
}

/// A value: a scalar, an array or an inline table.
#[derive(Debug, PartialEq, Eq)]
pub enum Value {
    Scalar(Scalar),
    Array(Array),
    InlineTable(InlineTable),
}

/// An ordered list of values between square brackets.
#[derive(Debug, PartialEq, Eq)]
pub struct Array {
    pub values: Vec<Value>,
    /// The text between the last element and the closing bracket.
    pub trailing: String,
    pub trailing_comma: bool,
    pub decor: Decor,
}

/// A key of an inline table with its value.
#[derive(Debug, PartialEq, Eq)]
pub struct InlineEntry {
    pub key: String,
    /// The decoration of the key.
    pub decor: Decor,
    pub value: Value,
}

/// A table written on one line between braces.
#[derive(Debug, PartialEq, Eq)]
pub struct InlineTable {
    pub entries: Vec<InlineEntry>,
    pub decor: Decor,
}

/// The view of a `Value`.
pub enum ValueView {
    Scalar(ScalarView),
    Array(ArrayView),
    InlineTable(InlineTableView),
}

/// The view of an `Array`.
pub struct ArrayView {
    pub values: Seq<ValueView>,
    pub trailing: Seq<char>,
    pub trailing_comma: bool,
    pub decor: DecorView,
}

/// The view of an `InlineEntry`.
pub struct InlineEntryView {
    pub key: Seq<char>,
    pub decor: DecorView,
    pub value: ValueView,
}

/// The view of an `InlineTable`.
pub struct InlineTableView {
    pub entries: Seq<InlineEntryView>,
    pub decor: DecorView,
}

/// The view of a value, with the views of all that it holds.
pub open spec fn value_view(v: Value) -> ValueView
    decreases v,
{
    match v {
        Value::Scalar(s) => ValueView::Scalar(s@),
        Value::Array(a) => ValueView::Array(array_view(a)),
        Value::InlineTable(t) => ValueView::InlineTable(inline_table_view(t)),
    }
}

/// The views of a list of values.
pub open spec fn values_view(vs: Vec<Value>) -> Seq<ValueView>
    decreases vs,
{
    Seq::new(vs.len() as nat, |i: int| if 0 <= i < vs.len() { value_view(vs[i]) } else { arbitrary() })
}

/// The view of an array.
pub open spec fn array_view(a: Array) -> ArrayView
    decreases a,
{
    ArrayView {
        values: values_view(a.values),
        trailing: a.trailing@,
        trailing_comma: a.trailing_comma,
        decor: a.decor@,
    }
}

/// The view of an entry of an inline table.
pub open spec fn inline_entry_view(e: InlineEntry) -> InlineEntryView
    decreases e,
{
    InlineEntryView { key: e.key@, decor: e.decor@, value: value_view(e.value) }
}

/// The views of the entries of an inline table.
pub open spec fn inline_entries_view(es: Vec<InlineEntry>) -> Seq<InlineEntryView>
    decreases es,
{
    Seq::new(es.len() as nat, |i: int| if 0 <= i < es.len() { inline_entry_view(es[i]) } else { arbitrary() })
}

/// The view of an inline table.
pub open spec fn inline_table_view(t: InlineTable) -> InlineTableView
    decreases t,
{
    InlineTableView { entries: inline_entries_view(t.entries), decor: t.decor@ }
}

impl View for Value {
    type V = ValueView;

    open spec fn view(&self) -> ValueView {
        value_view(*self)
    }
}

impl View for Array {
    type V = ArrayView;

    open spec fn view(&self) -> ArrayView {
        array_view(*self)
    }
}

impl View for InlineEntry {
    type V = InlineEntryView;

    open spec fn view(&self) -> InlineEntryView {
        inline_entry_view(*self)
    }
}

impl View for InlineTable {
    type V = InlineTableView;

    open spec fn view(&self) -> InlineTableView {
        inline_table_view(*self)
    }
}

/// An array of tables, as the parser made it. The formatter hands it on as
/// it is and never looks inside.
#[verifier::external_type_specification]
#[verifier::external_body]
pub struct OpaqueArrayOfTables(toml_edit::ArrayOfTables);

/// `Clone::clone`, which `toml_edit` derives for `ArrayOfTables`: the copy
/// equals what was copied.
pub assume_specification[ <toml_edit::ArrayOfTables as Clone>::clone ](
    a: &toml_edit::ArrayOfTables,
) -> (r: toml_edit::ArrayOfTables)
    ensures
        r == *a,
;

/// What stands under a key of a table.
#[derive(Debug)]
pub enum Item {
    Absent,
    Value(Value),
    Table(Table),
    ArrayOfTables(toml_edit::ArrayOfTables),
}

/// A key of a table with what stands under it.
#[derive(Debug)]
pub struct TableEntry {
    pub key: String,
    /// The decoration of the key.
    pub decor: Decor,
    pub item: Item,
}

/// A table with a header of its own, or the root of a document.
#[derive(Debug)]
pub struct Table {
    pub entries: Vec<TableEntry>,
    pub decor: Decor,
    /// An implicit table gets no header when it holds nothing but tables.
    pub implicit: bool,
}

/// A whole document: its root table and the text after its last entry.
#[derive(Debug)]
pub struct Document {
    pub root: Table,
    pub trailing: String,
}

/// The view of an `Item`.
pub enum ItemView {
    Absent,
    Value(ValueView),
    Table(TableView),
    ArrayOfTables(toml_edit::ArrayOfTables),
}

/// The view of a `TableEntry`.
pub struct TableEntryView {
    pub key: Seq<char>,
    pub decor: DecorView,
    pub item: ItemView,
}

/// The view of a `Table`.
pub struct TableView {
    pub entries: Seq<TableEntryView>,
    pub decor: DecorView,
    pub implicit: bool,
}

/// The view of a `Document`.
pub struct DocumentView {
    pub root: TableView,
    pub trailing: Seq<char>,
}

/// The view of an item, with the views of all that it holds.
pub open spec fn item_view(item: Item) -> ItemView
    decreases item,
{
    match item {
        Item::Absent => ItemView::Absent,
        Item::Value(v) => ItemView::Value(v@),
        Item::Table(t) => ItemView::Table(table_view(t)),
        Item::ArrayOfTables(a) => ItemView::ArrayOfTables(a),
    }
}

/// The view of an entry of a table.
pub open spec fn table_entry_view(e: TableEntry) -> TableEntryView
    decreases e,
{
    TableEntryView { key: e.key@, decor: e.decor@, item: item_view(e.item) }
}

/// The views of the entries of a table.
pub open spec fn table_entries_view(es: Vec<TableEntry>) -> Seq<TableEntryView>
    decreases es,
{
    Seq::new(es.len() as nat, |i: int| if 0 <= i < es.len() { table_entry_view(es[i]) } else { arbitrary() })
}

/// The view of a table.
pub open spec fn table_view(t: Table) -> TableView
    decreases t,
{
    TableView { entries: table_entries_view(t.entries), decor: t.decor@, implicit: t.implicit }
}

impl View for Item {
    type V = ItemView;

    open spec fn view(&self) -> ItemView {
        item_view(*self)
    }
}

impl View for TableEntry {
    type V = TableEntryView;

    open spec fn view(&self) -> TableEntryView {
        table_entry_view(*self)
    }
}

impl View for Table {
    type V = TableView;

    open spec fn view(&self) -> TableView {
        table_view(*self)
    }
}

impl View for Document {
    type V = DocumentView;

    open spec fn view(&self) -> DocumentView {
        DocumentView { root: self.root@, trailing: self.trailing@ }
    }
}

/// The decoration of a value.
pub open spec fn decor_of(v: ValueView) -> DecorView {
    match v {
        ValueView::Scalar(s) => s.decor,
        ValueView::Array(a) => a.decor,
        ValueView::InlineTable(t) => t.decor,
    }
}

/// `v` with the decoration `d`.
pub open spec fn with_decor(v: ValueView, d: DecorView) -> ValueView {
    match v {
        ValueView::Scalar(s) => ValueView::Scalar(ScalarView { decor: d, ..s }),
        ValueView::Array(a) => ValueView::Array(ArrayView { decor: d, ..a }),
        ValueView::InlineTable(t) => ValueView::InlineTable(InlineTableView { decor: d, ..t }),
    }
}

/// The text of a side of a decoration; an absent side holds none.
pub open spec fn text_or_empty(side: Option<Seq<char>>) -> Seq<char> {
    match side {
        Some(t) => t,
        None => Seq::empty(),
    }
}

impl Decor {
    /// A decoration with both sides given.
    pub fn new(prefix: String, suffix: String) -> (r: Decor)
        ensures
            r@ == (DecorView { prefix: Some(prefix@), suffix: Some(suffix@) }),
    {
        Decor { prefix: Some(prefix), suffix: Some(suffix) }
    }

    /// The text before the key or value, empty where there is none.
    pub fn prefix_text(&self) -> (r: &str)
        ensures
            r@ == text_or_empty(self@.prefix),
    {
        match &self.prefix {
            Some(t) => t.as_str(),
            None => {
                proof {
                    reveal_strlit("");
                    assert(""@ =~= Seq::<char>::empty());
                }
                ""
            },
        }
    }

    /// The text after the key or value, empty where there is none.
    pub fn suffix_text(&self) -> (r: &str)
        ensures
            r@ == text_or_empty(self@.suffix),
    {
        match &self.suffix {
            Some(t) => t.as_str(),
            None => {
                proof {
                    reveal_strlit("");
                    assert(""@ =~= Seq::<char>::empty());
                }
                ""
            },
        }
    }
}

impl Value {
    /// The decoration of the value.
    pub fn decor(&self) -> (r: &Decor)
        ensures
            r@ == decor_of(self@),
    {
        match self {
            Value::Scalar(s) => &s.decor,
            Value::Array(a) => &a.decor,
            Value::InlineTable(t) => &t.decor,
        }
    }

    /// The value with another decoration.
    pub fn decorated(self, decor: Decor) -> (r: Value)
        ensures
            r@ == with_decor(self@, decor@),
    {
        match self {
            Value::Scalar(s) => Value::Scalar(Scalar { kind: s.kind, repr: s.repr, decor }),
            Value::Array(a) => Value::Array(
                Array {
                    values: a.values,
                    trailing: a.trailing,
                    trailing_comma: a.trailing_comma,
                    decor,
                },
            ),
            Value::InlineTable(t) => Value::InlineTable(InlineTable { entries: t.entries, decor }),
        }
    }
}

} // verus!
