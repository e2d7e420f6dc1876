//! Laws of the formatting of values: what is formatted stays valid, keeps its
//! place in the sort order, and is left as it is when it is formatted again.

use vstd::prelude::*;
use crate::config::Rules;
use crate::decor_laws::{
    lemma_closing_settles, lemma_element_decor_settles, lemma_scalar_decor_one_line,
    lemma_scalar_decor_settles,
};
use crate::model::{
    decor_of, with_decor, ArrayView, DecorView, InlineTableView, KindView, ScalarView, ValueView,
};
use crate::order::{
    arrange, before, identity_order, is_arrangement, is_sorted, lemma_stable_order,
    lemma_stable_order_of_sorted,
};
use crate::text::starts_with;
use crate::valid::{scalar_ok, value_ok};
use crate::value::{
    array_element, array_order, basic_string, breaks_line, element_decor, formatted_array,
    formatted_inline_table, formatted_scalar, formatted_value, inline_element, inline_keys,
    inline_order, is_multiline, is_plain_literal, literal_content, value_key, value_keys,
};

verus! {

/// The values of an array, taken in the order in which they come out, are
/// each of them once, and their sort keys are in order.
pub proof fn lemma_array_order(rules: Rules, a: ArrayView)
    ensures
        is_arrangement(array_order(rules, a), a.values.len()),
        rules.sort_arrays ==> is_sorted(arrange(value_keys(a.values), array_order(rules, a))),
{
    if rules.sort_arrays {
        lemma_stable_order(value_keys(a.values));
    }
}

/// The decoration of a value has no part in what its formatting makes of the
/// rest of it.
pub proof fn lemma_decor_ignored(rules: Rules, v: ValueView, d: DecorView, e: DecorView, last: bool)
    ensures
        with_decor(formatted_value(rules, with_decor(v, d), last), e) == with_decor(
            formatted_value(rules, v, last),
            e,
        ),
{
    match v {
        ValueView::Scalar(s) => {},
        ValueView::Array(a) => {
            let b = ArrayView { decor: d, ..a };
            assert(value_keys(b.values) == value_keys(a.values));
            assert(is_multiline(b) == is_multiline(a));
            assert forall|k: int| 0 <= k < a.values.len() implies array_element(rules, b, k)
                == array_element(rules, a, k) by {}
            assert(formatted_array(rules, b, last).values =~= formatted_array(
                rules,
                a,
                last,
            ).values);
        },
        ValueView::InlineTable(t) => {
            let u = InlineTableView { decor: d, ..t };
            assert forall|k: int| 0 <= k < t.entries.len() implies inline_element(rules, u, k)
                == inline_element(rules, t, k) by {}
            assert(formatted_inline_table(rules, u, last).entries =~= formatted_inline_table(
                rules,
                t,
                last,
            ).entries);
        },
    }
}

/// Another decoration leaves a value as valid as it was, and where it was in
/// the sort order.
pub proof fn lemma_with_decor(v: ValueView, d: DecorView)
    ensures
        value_ok(v) ==> value_ok(with_decor(v, d)),
        value_key(with_decor(v, d)) == value_key(v),
        decor_of(with_decor(v, d)) == d,
{
}

/// What the formatting makes of a scalar.
proof fn lemma_scalar_settles(s: ScalarView, last: bool)
    requires
        scalar_ok(s),
    ensures
        scalar_ok(formatted_scalar(s, last)),
        value_key(ValueView::Scalar(formatted_scalar(s, last))) == value_key(ValueView::Scalar(s)),
        !breaks_line(s.decor) ==> !breaks_line(formatted_scalar(s, last).decor),
        formatted_scalar(formatted_scalar(s, last), last) == formatted_scalar(s, last),
{
    let rendered = basic_string(literal_content(s.repr));
    lemma_scalar_decor_settles(s.decor, last);
    if !breaks_line(s.decor) {
        lemma_scalar_decor_one_line(s.decor, last);
    }
    if is_plain_literal(s.repr) && starts_with(rendered, '"') {
        assert(!is_plain_literal(rendered));
    }
}

/// The formatted value is valid, sorts where the value did, holds a line
/// break in its decoration only if the value did, and is left as it is when
/// it is formatted again.
pub proof fn lemma_value_settles(rules: Rules, v: ValueView, last: bool)
    requires
        value_ok(v),
    ensures
        value_ok(formatted_value(rules, v, last)),
        value_key(formatted_value(rules, v, last)) == value_key(v),
        !breaks_line(decor_of(v)) ==> !breaks_line(decor_of(formatted_value(rules, v, last))),
        formatted_value(rules, formatted_value(rules, v, last), last) == formatted_value(
            rules,
            v,
            last,
        ),
    decreases v, 0nat,
{
    match v {
        ValueView::Scalar(s) => {
            lemma_scalar_settles(s, last);
        },
        ValueView::Array(a) => {
            lemma_array_settles(rules, a, last);
            let d = decor_of(formatted_value(rules, v, last));
            assert(!d.prefix->0.contains('\n'));
            assert(!d.suffix->0.contains('\n'));
        },
        ValueView::InlineTable(t) => {
            lemma_inline_table_settles(rules, t, last);
            let d = decor_of(formatted_value(rules, v, last));
            if d.suffix is Some {
                assert(!d.suffix->0.contains('\n'));
            }
        },
    }
}

/// Formatting twice gives what formatting once gives: a formatted value is
/// left as it is.
pub proof fn law_value_formatted_once(rules: Rules, v: ValueView, last: bool)
    requires
        value_ok(v),
    ensures
        formatted_value(rules, formatted_value(rules, v, last), last) == formatted_value(
            rules,
            v,
            last,
        ),
{
    lemma_value_settles(rules, v, last);
}

/// What the formatting makes of one element of an array.
proof fn lemma_array_element(rules: Rules, a: ArrayView, k: int)
    requires
        value_ok(ValueView::Array(a)),
        0 <= k < a.values.len(),
    ensures
        ({
            let i = array_order(rules, a)[k];
            let x = array_element(rules, a, k);
            &&& 0 <= i < a.values.len()
            &&& value_ok(x)
            &&& value_key(x) == value_key(a.values[i])
            &&& is_multiline(a) ==> breaks_line(decor_of(x)) && with_decor(
                formatted_value(rules, x, false),
                element_decor(decor_of(x)),
            ) == x
            &&& !is_multiline(a) ==> !breaks_line(decor_of(x)) && formatted_value(
                rules,
                x,
                k + 1 == a.values.len(),
            ) == x
        }),
    decreases a, 0nat,
{
    lemma_array_order(rules, a);
    let i = array_order(rules, a)[k];
    let v = a.values[i];
    assert(value_ok(v));
    if is_multiline(a) {
        let f = formatted_value(rules, v, false);
        let e = element_decor(decor_of(v));
        lemma_value_settles(rules, v, false);
        lemma_with_decor(f, e);
        lemma_element_decor_settles(decor_of(v));
        lemma_decor_ignored(rules, f, e, e, false);
    } else {
        lemma_value_settles(rules, v, k + 1 == a.values.len());
        assert(!breaks_line(decor_of(v)));
    }
}

/// The formatted array is valid, and is left as it is when it is formatted
/// again.
pub proof fn lemma_array_settles(rules: Rules, a: ArrayView, last: bool)
    requires
        value_ok(ValueView::Array(a)),
    ensures
        value_ok(ValueView::Array(formatted_array(rules, a, last))),
        formatted_array(rules, formatted_array(rules, a, last), last) == formatted_array(
            rules,
            a,
            last,
        ),
    decreases a, 1nat,
{
    let n = a.values.len();
    let ord = array_order(rules, a);
    let b = formatted_array(rules, a, last);
    lemma_array_order(rules, a);
    assert forall|k: int| 0 <= k < n implies {
        let i = ord[k];
        let x = #[trigger] b.values[k];
        &&& 0 <= i < n
        &&& value_ok(x)
        &&& value_key(x) == value_key(a.values[i])
        &&& is_multiline(a) ==> breaks_line(decor_of(x)) && with_decor(
            formatted_value(rules, x, false),
            element_decor(decor_of(x)),
        ) == x
        &&& !is_multiline(a) ==> !breaks_line(decor_of(x)) && formatted_value(
            rules,
            x,
            k + 1 == n,
        ) == x
    } by {
        lemma_array_element(rules, a, k);
    }
    // the order of what came out
    assert(array_order(rules, b) == identity_order(n)) by {
        if rules.sort_arrays {
            assert(value_keys(b.values) =~= arrange(value_keys(a.values), ord));
            lemma_stable_order_of_sorted(value_keys(b.values));
        }
    }
    // its layout
    assert(is_multiline(b) == is_multiline(a)) by {
        lemma_closing_settles(a.trailing);
        if is_multiline(a) {
            if n > 0 {
                assert(breaks_line(decor_of(b.values[0])));
            }
        } else {
            assert(b.trailing.len() == 0);
        }
    }
    let c = formatted_array(rules, b, last);
    assert forall|k: int| 0 <= k < n implies c.values[k] == b.values[k] by {
        assert(array_order(rules, b)[k] == k);
        assert(c.values[k] == array_element(rules, b, k));
    }
    assert(c.values =~= b.values);
    lemma_closing_settles(a.trailing);
}

/// The text of a string, or nothing for any other value.
pub open spec fn string_of(v: ValueView) -> Option<Seq<char>> {
    match v {
        ValueView::Scalar(ScalarView { kind: KindView::Text(c), .. }) => Some(c),
        _ => None,
    }
}

/// No element of an array is lost or comes out twice: the formatted array
/// has as many elements, and they are taken from every position once.
pub proof fn law_array_rearranged(rules: Rules, a: ArrayView, last: bool)
    ensures
        formatted_array(rules, a, last).values.len() == a.values.len(),
        is_arrangement(array_order(rules, a), a.values.len()),
        !rules.sort_arrays ==> array_order(rules, a) == identity_order(a.values.len()),
{
    lemma_array_order(rules, a);
}

/// A sorted array has its strings first, in the lexicographic order of their
/// text, and behind them the other values in the order they had. Strings
/// with the same text keep their order too.
pub proof fn law_array_sorted(rules: Rules, a: ArrayView, x: int, y: int)
    requires
        rules.sort_arrays,
        0 <= x < y < a.values.len(),
    ensures
        ({
            let ord = array_order(rules, a);
            let p = string_of(a.values[ord[x]]);
            let q = string_of(a.values[ord[y]]);
            &&& 0 <= ord[x] < a.values.len()
            &&& 0 <= ord[y] < a.values.len()
            &&& q is Some ==> p is Some
            &&& p is Some && q is Some ==> !crate::text::lex_lt(q->0, p->0)
            &&& p is None && q is None ==> ord[x] < ord[y]
            &&& p == q ==> ord[x] < ord[y]
        }),
{
    let keys = value_keys(a.values);
    let ord = array_order(rules, a);
    lemma_stable_order(keys);
    let sorted = arrange(keys, ord);
    assert(!before(sorted[y], sorted[x]));
    assert(sorted[x] == value_key(a.values[ord[x]]));
    assert(sorted[y] == value_key(a.values[ord[y]]));
    crate::text::lemma_lex_irreflexive(sorted[x].name);
    if !before(keys[ord[x]], keys[ord[y]]) {
        assert(ord[x] < ord[y]);
    }
}

/// The keys of a formatted inline table are in order: the important keys
/// first, by their rank, then the others by their text; and no entry is lost.
pub proof fn law_inline_table_sorted(rules: Rules, t: InlineTableView, last: bool, x: int, y: int)
    requires
        0 <= x < y < t.entries.len(),
    ensures
        is_arrangement(inline_order(rules, t), t.entries.len()),
        formatted_inline_table(rules, t, last).entries.len() == t.entries.len(),
        !crate::config::key_before(
            rules.inline_keys,
            formatted_inline_table(rules, t, last).entries[y].key,
            formatted_inline_table(rules, t, last).entries[x].key,
        ),
{
    let keys = inline_keys(rules, t.entries);
    let ord = inline_order(rules, t);
    lemma_inline_order(rules, t);
    let u = formatted_inline_table(rules, t, last);
    let sorted = arrange(keys, ord);
    assert(!before(sorted[y], sorted[x]));
    assert(u.entries[x] == inline_element(rules, t, x));
    assert(u.entries[y] == inline_element(rules, t, y));
    crate::config::lemma_rank_key_order(rules.inline_keys, u.entries[y].key, u.entries[x].key);
}

/// What the order of an inline table is.
pub proof fn lemma_inline_order(rules: Rules, t: InlineTableView)
    ensures
        is_arrangement(inline_order(rules, t), t.entries.len()),
        is_sorted(arrange(inline_keys(rules, t.entries), inline_order(rules, t))),
{
    lemma_stable_order(inline_keys(rules, t.entries));
}

/// The formatted inline table is valid, and is left as it is when it is
/// formatted again.
pub proof fn lemma_inline_table_settles(rules: Rules, t: InlineTableView, last: bool)
    requires
        value_ok(ValueView::InlineTable(t)),
    ensures
        value_ok(ValueView::InlineTable(formatted_inline_table(rules, t, last))),
        formatted_inline_table(rules, formatted_inline_table(rules, t, last), last)
            == formatted_inline_table(rules, t, last),
    decreases t, 1nat,
{
    let n = t.entries.len();
    let ord = inline_order(rules, t);
    let u = formatted_inline_table(rules, t, last);
    lemma_inline_order(rules, t);
    assert forall|k: int| 0 <= k < n implies {
        let i = ord[k];
        let x = #[trigger] u.entries[k];
        &&& 0 <= i < n
        &&& x.key == t.entries[i].key
        &&& value_ok(x.value)
        &&& formatted_value(rules, x.value, k + 1 == n) == x.value
    } by {
        let i = ord[k];
        assert(u.entries[k] == inline_element(rules, t, k));
        assert(value_ok(t.entries[i].value));
        lemma_value_settles(rules, t.entries[i].value, k + 1 == n);
    }
    assert(inline_order(rules, u) == identity_order(n)) by {
        assert(inline_keys(rules, u.entries) =~= arrange(inline_keys(rules, t.entries), ord));
        lemma_stable_order_of_sorted(inline_keys(rules, u.entries));
    }
    let w = formatted_inline_table(rules, u, last);
    assert forall|k: int| 0 <= k < n implies w.entries[k] == u.entries[k] by {
        assert(inline_order(rules, u)[k] == k);
        assert(w.entries[k] == inline_element(rules, u, k));
    }
    assert(w.entries =~= u.entries);
}

} // verus!
