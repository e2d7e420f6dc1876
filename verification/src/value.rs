//! Formatting of values: scalars, arrays and inline tables.
//!
//! For each formatter a spec function says what comes out: `formatted_value`,
//! `formatted_array`, `formatted_inline_table`. The executable functions are
//! proved to compute them.

use vstd::prelude::*;
use crate::config::{rank_key, GenericConfig, Ranks, Rules};
use crate::model::{
    decor_of, text_or_empty, with_decor, Array, ArrayView, Decor, DecorView, InlineEntry,
    InlineEntryView, InlineTable, InlineTableView, Kind, KindView, Scalar, ScalarView, Value,
    ValueView,
};
use crate::order::{
    identity_order, key_views, positions, sort_order, stable_order, SortKey, SortKeyView,
};
use crate::text::{
    begins_with, chars_of, has_char, starts_with, text_of, trim, trim_end, trimmed, trimmed_end,
    CharClass,
};
use crate::valid::value_ok;
use crate::value_laws::lemma_value_settles;

verus! {

/// The written form that the document library gives a string that has none
/// yet.
pub uninterp spec fn basic_string(content: Seq<char>) -> Seq<char>;

/// Renders a string through `toml_edit`: `Value::from` makes a string value
/// without a written form, and `Display` for `Value` writes such a value in
/// the form that `toml_edit` infers from its content. The result depends on
/// the content alone. `toml_edit` chooses a form between apostrophes only
/// for a content that holds a backslash; every other form starts with a
/// double quote.
#[verifier::external_body]
fn render_string(content: &str) -> (r: String)
    ensures
        r@ == basic_string(content@),
        !content@.contains('\\') ==> starts_with(r@, '"'),
{
    toml_edit::Value::from(content).to_string()
}

/// `s` behind one space, unless it starts a new line.
pub open spec fn lead(s: Seq<char>) -> Seq<char> {
    if starts_with(s, '\n') {
        s
    } else {
        seq![' '] + s
    }
}

/// The decoration of a formatted scalar. Before the value stand one space and
/// the text that stood there, without the white space at its ends. Behind
/// the value stands the text that stood there, without the white space at
/// its ends; behind the last value of a container there is one space before
/// it.
pub open spec fn scalar_decor(d: DecorView, last: bool) -> DecorView {
    let p = trim(text_or_empty(d.prefix), CharClass::Whitespace);
    let q = trim(text_or_empty(d.suffix), CharClass::Whitespace);
    DecorView { prefix: Some(seq![' '] + p), suffix: Some(if last { seq![' '] + q } else { q }) }
}

/// `s` with one tab behind every line break: the blanks that follow a line
/// break are dropped, and one tab is put in their place. `after_break` says
/// that `s` starts right behind a line break.
pub open spec fn indent(s: Seq<char>, after_break: bool) -> Seq<char>
    decreases s.len(),
{
    if s.len() == 0 {
        s
    } else if s[0] == '\n' {
        seq!['\n', '\t'] + indent(s.skip(1), true)
    } else if after_break && CharClass::Blank.has(s[0]) {
        indent(s.skip(1), true)
    } else {
        seq![s[0]] + indent(s.skip(1), false)
    }
}

/// `s` with one tab behind every line break.
pub open spec fn indented(s: Seq<char>) -> Seq<char> {
    indent(s, false)
}

/// The decoration of a formatted array, whatever it was.
pub open spec fn outer_decor(last: bool) -> DecorView {
    DecorView {
        prefix: Some(seq![' ']),
        suffix: Some(if last { seq![' '] } else { Seq::empty() }),
    }
}

/// A string between single apostrophes that can be written between double
/// quotes as it is: not the start of a multi-line literal, and without
/// backslash or double quote.
pub open spec fn is_plain_literal(repr: Seq<char>) -> bool {
    &&& starts_with(repr, '\'')
    &&& !(repr.len() >= 2 && repr[1] == '\'')
    &&& !repr.contains('\\')
    &&& !repr.contains('"')
}

/// What stands between the apostrophes of a plain literal.
pub open spec fn literal_content(repr: Seq<char>) -> Seq<char> {
    let s = repr.skip(1);
    if s.len() > 0 && s.last() == '\'' {
        s.drop_last()
    } else {
        s
    }
}

/// The formatted scalar, given the written form `rendered` of the content of
/// a plain literal. The literal is replaced only by a form between double
/// quotes; if `rendered` is none, the scalar stays as it is written.
pub open spec fn formatted_scalar_with(s: ScalarView, last: bool, rendered: Seq<char>) -> ScalarView {
    if is_plain_literal(s.repr) && starts_with(rendered, '"') {
        ScalarView {
            kind: KindView::Text(literal_content(s.repr)),
            repr: rendered,
            decor: scalar_decor(s.decor, last),
        }
    } else {
        ScalarView { kind: s.kind, repr: s.repr, decor: scalar_decor(s.decor, last) }
    }
}

/// A scalar that is written as a plain literal string, written as the basic
/// string that the document library writes for its content.
pub open spec fn requoted(s: ScalarView, last: bool) -> ScalarView {
    ScalarView {
        kind: KindView::Text(literal_content(s.repr)),
        repr: basic_string(literal_content(s.repr)),
        decor: scalar_decor(s.decor, last),
    }
}

/// The formatted scalar: the content as it was, a plain literal string turned
/// into the basic string that the document library writes for its content,
/// and the decoration of `scalar_decor`.
pub open spec fn formatted_scalar(s: ScalarView, last: bool) -> ScalarView {
    formatted_scalar_with(s, last, basic_string(literal_content(s.repr)))
}

/// Whether a decoration holds a line break.
pub open spec fn breaks_line(d: DecorView) -> bool {
    ||| (d.prefix is Some && d.prefix->0.contains('\n'))
    ||| (d.suffix is Some && d.suffix->0.contains('\n'))
}

/// An array is laid out over several lines if the text before its closing
/// bracket starts a new line, or if the decoration of an element holds a line
/// break.
pub open spec fn is_multiline(a: ArrayView) -> bool {
    ||| starts_with(a.trailing, '\n')
    ||| exists|i: int| 0 <= i < a.values.len() && breaks_line(decor_of(#[trigger] a.values[i]))
}

/// The decoration of an element of a multi-line array: the comments before it
/// kept, every line of them and the element on a line of its own behind one
/// tab, and a comment behind the element closed by a line break.
pub open spec fn element_decor(d: DecorView) -> DecorView {
    let p = trim_end(trim(text_or_empty(d.prefix), CharClass::Blank), CharClass::Newline);
    let s = trim(text_or_empty(d.suffix), CharClass::Padding);
    DecorView {
        prefix: Some(lead(indented(p.push('\n')))),
        suffix: Some(if s.len() > 0 { s.push('\n') } else { s }),
    }
}

/// The text before the closing bracket of a multi-line array: the comment
/// kept, and one line break at the end.
pub open spec fn closing(trailing: Seq<char>) -> Seq<char> {
    lead(trim_end(trim(trailing, CharClass::Blank), CharClass::Whitespace).push('\n'))
}

/// The sort key of an element of an array: strings first, by their content;
/// all other values after them, none before another.
pub open spec fn value_key(v: ValueView) -> SortKeyView {
    match v {
        ValueView::Scalar(ScalarView { kind: KindView::Text(c), .. }) => SortKeyView {
            group: 0,
            rank: 0,
            name: c,
        },
        _ => SortKeyView { group: 1, rank: 0, name: Seq::empty() },
    }
}

/// The sort keys of the elements of an array.
pub open spec fn value_keys(values: Seq<ValueView>) -> Seq<SortKeyView> {
    Seq::new(values.len(), |i: int| value_key(values[i]))
}

/// The order in which the elements of an array come out.
pub open spec fn array_order(rules: Rules, a: ArrayView) -> Seq<int> {
    if rules.sort_arrays {
        stable_order(value_keys(a.values))
    } else {
        identity_order(a.values.len())
    }
}

/// The sort keys of the entries of an inline table.
pub open spec fn inline_keys(rules: Rules, entries: Seq<InlineEntryView>) -> Seq<SortKeyView> {
    Seq::new(entries.len(), |i: int| rank_key(rules.inline_keys, entries[i].key))
}

/// The order in which the entries of an inline table come out.
pub open spec fn inline_order(rules: Rules, t: InlineTableView) -> Seq<int> {
    stable_order(inline_keys(rules, t.entries))
}

/// The decoration of every key of a formatted inline table.
pub open spec fn inline_key_decor() -> DecorView {
    DecorView { prefix: Some(seq![' ']), suffix: Some(seq![' ']) }
}

/// The formatted value. `last` says that the value is the last one of its
/// container.
pub open spec fn formatted_value(rules: Rules, v: ValueView, last: bool) -> ValueView
    decreases v, 0nat,
{
    match v {
        ValueView::Scalar(s) => ValueView::Scalar(formatted_scalar(s, last)),
        ValueView::Array(a) => ValueView::Array(formatted_array(rules, a, last)),
        ValueView::InlineTable(t) => ValueView::InlineTable(formatted_inline_table(rules, t, last)),
    }
}

/// Element number `k` of the formatted array.
pub open spec fn array_element(rules: Rules, a: ArrayView, k: int) -> ValueView
    decreases a, 0nat,
{
    let i = array_order(rules, a)[k];
    if 0 <= i < a.values.len() {
        let v = a.values[i];
        if is_multiline(a) {
            with_decor(formatted_value(rules, v, false), element_decor(decor_of(v)))
        } else {
            formatted_value(rules, v, k + 1 == a.values.len())
        }
    } else {
        arbitrary()
    }
}

/// The formatted array: the elements in the order of `array_order`, each
/// formatted; over several lines with a comma behind the last element, or on
/// one line without.
pub open spec fn formatted_array(rules: Rules, a: ArrayView, last: bool) -> ArrayView
    decreases a, 1nat,
{
    ArrayView {
        values: Seq::new(a.values.len(), |k: int| array_element(rules, a, k)),
        trailing: if is_multiline(a) {
            closing(a.trailing)
        } else {
            Seq::empty()
        },
        trailing_comma: is_multiline(a),
        decor: outer_decor(last),
    }
}

/// Entry number `k` of the formatted inline table.
pub open spec fn inline_element(rules: Rules, t: InlineTableView, k: int) -> InlineEntryView
    decreases t, 0nat,
{
    let i = inline_order(rules, t)[k];
    if 0 <= i < t.entries.len() {
        let e = t.entries[i];
        InlineEntryView {
            key: e.key,
            decor: inline_key_decor(),
            value: formatted_value(rules, e.value, k + 1 == t.entries.len()),
        }
    } else {
        arbitrary()
    }
}

/// The formatted inline table: the entries sorted by the ranks of the inline
/// keys, each key between two spaces, each value formatted.
pub open spec fn formatted_inline_table(rules: Rules, t: InlineTableView, last: bool) -> InlineTableView
    decreases t, 1nat,
{
    InlineTableView {
        entries: Seq::new(t.entries.len(), |k: int| inline_element(rules, t, k)),
        decor: DecorView { prefix: None, suffix: if last { Some(seq![' ']) } else { None } },
    }
}

/// One space.
fn space() -> (r: String)
    ensures
        r@ == seq![' '],
{
    let mut r = String::new();
    r.push(' ');
    assert(r@ =~= seq![' ']);
    r
}

/// `x` behind one space.
fn behind_space(x: &str) -> (r: String)
    ensures
        r@ == seq![' '] + x@,
{
    let mut r = space();
    r.append(x);
    r
}

/// `s` with one tab behind every line break.
fn indented_text(s: &str) -> (r: String)
    ensures
        r@ == indented(s@),
{
    let v = chars_of(s);
    let mut r = String::new();
    let mut after_break = false;
    let mut i: usize = 0;
    proof {
        assert(v@.skip(0) =~= v@);
        assert(r@ + indent(v@, false) =~= indent(v@, false));
    }
    while i < v.len()
        invariant
            i <= v.len(),
            v@ == s@,
            r@ + indent(v@.skip(i as int), after_break) == indented(s@),
        decreases v.len() - i,
    {
        let c = v[i];
        let ghost rest = v@.skip(i as int);
        let ghost before = r@;
        proof {
            assert(rest[0] == c);
            assert(rest.skip(1) =~= v@.skip(i + 1));
        }
        if c == '\n' {
            r.push('\n');
            r.push('\t');
            proof {
                assert(r@ + indent(v@.skip(i + 1), true) =~= before + indent(rest, after_break));
            }
            after_break = true;
        } else if after_break && (c == ' ' || c == '\t') {
            proof {
                assert(indent(rest, after_break) == indent(v@.skip(i + 1), true));
            }
        } else {
            r.push(c);
            proof {
                assert(r@ + indent(v@.skip(i + 1), false) =~= before + indent(rest, after_break));
            }
            after_break = false;
        }
        i += 1;
    }
    proof {
        assert(r@ + indent(v@.skip(i as int), after_break) =~= r@);
    }
    r
}

/// `s` behind one space, unless it starts a new line.
fn lead_text(s: String) -> (r: String)
    ensures
        r@ == lead(s@),
{
    if begins_with(s.as_str(), '\n') {
        s
    } else {
        let mut r = space();
        r.append(s.as_str());
        r
    }
}

/// The decoration of a formatted scalar.
fn scalar_decor_of(d: &Decor, last: bool) -> (r: Decor)
    ensures
        r@ == scalar_decor(d@, last),
{
    let p = trimmed(d.prefix_text(), CharClass::Whitespace);
    let q = trimmed(d.suffix_text(), CharClass::Whitespace);
    let behind = if last {
        behind_space(q.as_str())
    } else {
        q
    };
    Decor::new(behind_space(p.as_str()), behind)
}

/// The decoration of a formatted array.
fn outer_decor_of(last: bool) -> (r: Decor)
    ensures
        r@ == outer_decor(last),
{
    Decor::new(space(), if last { space() } else { String::new() })
}

/// The decoration of an element of a multi-line array.
fn element_decor_of(d: &Decor) -> (r: Decor)
    ensures
        r@ == element_decor(d@),
{
    let blank = trimmed(d.prefix_text(), CharClass::Blank);
    let mut p = trimmed_end(blank.as_str(), CharClass::Newline);
    p.push('\n');
    let mut s = trimmed(d.suffix_text(), CharClass::Padding);
    if !s.as_str().is_empty() {
        s.push('\n');
    }
    Decor::new(lead_text(indented_text(p.as_str())), s)
}

/// The text before the closing bracket of a multi-line array.
fn closing_of(trailing: &str) -> (r: String)
    ensures
        r@ == closing(trailing@),
{
    let blank = trimmed(trailing, CharClass::Blank);
    let mut t = trimmed_end(blank.as_str(), CharClass::Whitespace);
    t.push('\n');
    lead_text(t)
}

/// Whether a decoration holds a line break.
fn decor_breaks_line(d: &Decor) -> (r: bool)
    ensures
        r == breaks_line(d@),
{
    let in_prefix = match &d.prefix {
        Some(p) => has_char(p.as_str(), '\n'),
        None => false,
    };
    let in_suffix = match &d.suffix {
        Some(s) => has_char(s.as_str(), '\n'),
        None => false,
    };
    in_prefix || in_suffix
}

/// Whether the array is laid out over several lines.
pub fn array_is_multiline(array: &Array) -> (r: bool)
    ensures
        r == is_multiline(array@),
{
    if begins_with(array.trailing.as_str(), '\n') {
        return true;
    }
    let mut i: usize = 0;
    while i < array.values.len()
        invariant
            i <= array.values.len(),
            forall|j: int| 0 <= j < i ==> !breaks_line(decor_of(#[trigger] array@.values[j])),
        decreases array.values.len() - i,
    {
        if decor_breaks_line(array.values[i].decor()) {
            assert(breaks_line(decor_of(array@.values[i as int])));
            return true;
        }
        i += 1;
    }
    false
}

/// The content of a plain literal string, or nothing where `repr` is none.
pub fn plain_literal(repr: &str) -> (r: Option<String>)
    ensures
        is_plain_literal(repr@) ==> r is Some && r->0@ == literal_content(repr@),
        !is_plain_literal(repr@) ==> r is None,
{
    if !begins_with(repr, '\'') || has_char(repr, '\\') || has_char(repr, '"') {
        return None;
    }
    let v = chars_of(repr);
    if v.len() >= 2 && v[1] == '\'' {
        return None;
    }
    let hi = if v.len() > 1 && v[v.len() - 1] == '\'' {
        v.len() - 1
    } else {
        v.len()
    };
    proof {
        let s = repr@.skip(1);
        assert(s.len() == v.len() - 1);
        if s.len() > 0 {
            assert(s.last() == v@[v.len() - 1]);
        }
        assert(v@.subrange(1, hi as int) =~= literal_content(repr@));
    }
    Some(text_of(&v, 1, hi))
}

/// A copy of a kind.
fn copy_kind(k: &Kind) -> (r: Kind)
    ensures
        r@ == k@,
{
    match k {
        Kind::Text(s) => Kind::Text(s.clone()),
        Kind::Integer => Kind::Integer,
        Kind::Float => Kind::Float,
        Kind::Boolean => Kind::Boolean,
        Kind::Datetime => Kind::Datetime,
    }
}

/// Formats a scalar, given the written form `rendered` that the content of
/// a plain literal string takes. A plain literal is replaced by `rendered` if
/// that is a string between double quotes; otherwise, and for any other
/// scalar, the written form stays.
pub fn format_scalar_with(scalar: &Scalar, last: bool, rendered: String) -> (r: Scalar)
    ensures
        r@ == formatted_scalar_with(scalar@, last, rendered@),
{
    let decor = scalar_decor_of(&scalar.decor, last);
    let basic = begins_with(rendered.as_str(), '"');
    match plain_literal(scalar.repr.as_str()) {
        Some(content) if basic => Scalar { kind: Kind::Text(content), repr: rendered, decor },
        _ => Scalar { kind: copy_kind(&scalar.kind), repr: scalar.repr.clone(), decor },
    }
}

/// What stands between the apostrophes of a plain literal holds no
/// backslash.
pub proof fn lemma_literal_content(repr: Seq<char>)
    requires
        is_plain_literal(repr),
    ensures
        !literal_content(repr).contains('\\'),
{
    let c = literal_content(repr);
    if c.contains('\\') {
        let i = choose|i: int| 0 <= i < c.len() && c[i] == '\\';
        assert(repr[i + 1] == '\\');
    }
}

/// Formats a scalar: its content stays, a plain literal string becomes a
/// basic one with the same content, and its decoration is put in order.
pub fn format_scalar(scalar: &Scalar, last: bool) -> (r: Scalar)
    ensures
        r@ == formatted_scalar(scalar@, last),
        is_plain_literal(scalar@.repr) ==> r@ == requoted(scalar@, last) && starts_with(
            r@.repr,
            '"',
        ),
{
    let rendered = match plain_literal(scalar.repr.as_str()) {
        Some(content) => {
            proof {
                lemma_literal_content(scalar@.repr);
            }
            render_string(content.as_str())
        },
        None => String::new(),
    };
    format_scalar_with(scalar, last, rendered)
}

/// The sort key of an element of an array.
fn value_sort_key(v: &Value) -> (r: SortKey)
    ensures
        r@ == value_key(v@),
{
    match v {
        Value::Scalar(Scalar { kind: Kind::Text(c), .. }) => SortKey {
            group: 0,
            rank: 0,
            name: c.clone(),
        },
        _ => SortKey { group: 1, rank: 0, name: String::new() },
    }
}

/// The positions `0..n`, each in its own place.
fn identity(n: usize) -> (r: Vec<usize>)
    ensures
        positions(r@) == identity_order(n as nat),
        r.len() == n,
        forall|j: int| 0 <= j < n ==> r[j] == j,
{
    let mut r: Vec<usize> = Vec::new();
    let mut i: usize = 0;
    while i < n
        invariant
            i <= n,
            r.len() == i,
            forall|j: int| 0 <= j < i ==> r[j] == j,
        decreases n - i,
    {
        r.push(i);
        i += 1;
    }
    assert(positions(r@) =~= identity_order(n as nat));
    r
}

impl GenericConfig<Ranks> {
    /// The order in which the elements of the array come out.
    fn order_of_array(&self, array: &Array) -> (ord: Vec<usize>)
        ensures
            positions(ord@) == array_order(self@, array@),
            ord.len() == array.values.len(),
            forall|i: int| 0 <= i < ord.len() ==> #[trigger] ord[i] < array.values.len(),
    {
        if self.sort_arrays {
            let mut keys: Vec<SortKey> = Vec::new();
            let mut i: usize = 0;
            while i < array.values.len()
                invariant
                    i <= array.values.len(),
                    keys.len() == i,
                    forall|j: int| 0 <= j < i ==> keys[j]@ == value_key(array@.values[j]),
                decreases array.values.len() - i,
            {
                keys.push(value_sort_key(&array.values[i]));
                i += 1;
            }
            assert(key_views(keys@) =~= value_keys(array@.values));
            sort_order(&keys)
        } else {
            identity(array.values.len())
        }
    }

    /// The order in which the entries of the inline table come out.
    fn order_of_inline_table(&self, table: &InlineTable) -> (ord: Vec<usize>)
        ensures
            positions(ord@) == inline_order(self@, table@),
            ord.len() == table.entries.len(),
            forall|i: int| 0 <= i < ord.len() ==> #[trigger] ord[i] < table.entries.len(),
    {
        let mut keys: Vec<SortKey> = Vec::new();
        let mut i: usize = 0;
        while i < table.entries.len()
            invariant
                i <= table.entries.len(),
                keys.len() == i,
                forall|j: int|
                    0 <= j < i ==> keys[j]@ == rank_key(self@.inline_keys, table@.entries[j].key),
            decreases table.entries.len() - i,
        {
            keys.push(self.inline_keys.sort_key(table.entries[i].key.as_str()));
            i += 1;
        }
        assert(key_views(keys@) =~= inline_keys(self@, table@.entries));
        sort_order(&keys)
    }

    /// Formats a value. `last` says that it is the last value of its
    /// container.
    pub fn format_value(&self, value: &Value, last: bool) -> (r: Value)
        ensures
            r@ == formatted_value(self@, value@, last),
            value_ok(value@) ==> value_ok(r@),
            value@ matches ValueView::Scalar(s) ==> (is_plain_literal(s.repr) ==> r@
                == ValueView::Scalar(requoted(s, last))),
        decreases value,
    {
        proof {
            if value_ok(value@) {
                lemma_value_settles(self@, value@, last);
            }
        }
        match value {
            Value::Scalar(s) => Value::Scalar(format_scalar(s, last)),
            Value::Array(a) => Value::Array(self.format_array(a, last)),
            Value::InlineTable(t) => Value::InlineTable(self.format_inline_table(t, last)),
        }
    }

    /// Formats an array: sorts its elements if the settings say so, finds out
    /// whether it is laid out on one line or over several, and formats each
    /// element for that layout.
    pub fn format_array(&self, array: &Array, last: bool) -> (r: Array)
        ensures
            r@ == formatted_array(self@, array@, last),
        decreases array,
    {
        let n = array.values.len();
        let ord = self.order_of_array(array);
        let multiline = array_is_multiline(array);
        let mut values: Vec<Value> = Vec::new();
        let mut k: usize = 0;
        while k < n
            invariant
                k <= n,
                n == array.values.len(),
                ord.len() == n,
                positions(ord@) == array_order(self@, array@),
                forall|i: int| 0 <= i < ord.len() ==> #[trigger] ord[i] < n,
                multiline == is_multiline(array@),
                values.len() == k,
                forall|j: int| 0 <= j < k ==> (#[trigger] values[j])@ == array_element(self@, array@, j),
            decreases n - k,
        {
            let i = ord[k];
            assert(positions(ord@)[k as int] == i);
            let v = &array.values[i];
            assert(array@.values[i as int] == v@);
            let item = if multiline {
                let d = element_decor_of(v.decor());
                self.format_value(v, false).decorated(d)
            } else {
                self.format_value(v, k + 1 == n)
            };
            values.push(item);
            k += 1;
        }
        let trailing = if multiline {
            closing_of(array.trailing.as_str())
        } else {
            String::new()
        };
        let r = Array { values, trailing, trailing_comma: multiline, decor: outer_decor_of(last) };
        proof {
            let want = formatted_array(self@, array@, last).values;
            assert(r@.values.len() == n);
            assert(want.len() == n);
            assert forall|j: int| 0 <= j < n implies r@.values[j] == want[j] by {
                assert(r@.values[j] == values[j]@);
                assert(values[j]@ == array_element(self@, array@, j));
                assert(want[j] == array_element(self@, array@, j));
            }
            assert(r@.values =~= want);
        }
        r
    }

    /// Formats an inline table: sorts its entries by the ranks of the inline
    /// keys, puts each key between two spaces, and formats each value.
    pub fn format_inline_table(&self, table: &InlineTable, last: bool) -> (r: InlineTable)
        ensures
            r@ == formatted_inline_table(self@, table@, last),
        decreases table,
    {
        let n = table.entries.len();
        let ord = self.order_of_inline_table(table);
        let mut entries: Vec<InlineEntry> = Vec::new();
        let mut k: usize = 0;
        while k < n
            invariant
                k <= n,
                n == table.entries.len(),
                ord.len() == n,
                positions(ord@) == inline_order(self@, table@),
                forall|i: int| 0 <= i < ord.len() ==> #[trigger] ord[i] < n,
                entries.len() == k,
                forall|j: int| 0 <= j < k ==> (#[trigger] entries[j])@ == inline_element(self@, table@, j),
            decreases n - k,
        {
            let i = ord[k];
            assert(positions(ord@)[k as int] == i);
            let e = &table.entries[i];
            assert(table@.entries[i as int] == e@);
            let value = self.format_value(&e.value, k + 1 == n);
            entries.push(InlineEntry { key: e.key.clone(), decor: Decor::new(space(), space()), value });
            k += 1;
        }
        let decor = Decor { prefix: None, suffix: if last { Some(space()) } else { None } };
        let r = InlineTable { entries, decor };
        proof {
            let want = formatted_inline_table(self@, table@, last).entries;
            assert(r@.entries.len() == n);
            assert(want.len() == n);
            assert forall|j: int| 0 <= j < n implies r@.entries[j] == want[j] by {
                assert(r@.entries[j] == entries[j]@);
                assert(entries[j]@ == inline_element(self@, table@, j));
                assert(want[j] == inline_element(self@, table@, j));
            }
            assert(r@.entries =~= want);
        }
        r
    }
}

} // verus!
