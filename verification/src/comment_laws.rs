//! Laws of the comments of values.
//!
//! A decoration holds white space and comments. Its note is what is left of
//! it without the white space at its ends, however its lines are indented:
//! the comments of that place. The
//! formatter keeps the notes of every decoration that it rewrites. A few
//! decorations it replaces whatever they hold: those of arrays and inline
//! tables where they stand as values of their own, those of the keys of an
//! inline table, and the text before the closing bracket of a one-line array.
//! A value in which these hold no comment has after formatting the comments
//! that it had before, each as often.

use vstd::multiset::Multiset;
use vstd::prelude::*;
use crate::config::Rules;
use crate::decor_laws::{
    law_closing_comments_kept, law_element_comments_kept, law_scalar_comments_kept,
    lemma_indent_of_blanks, plain,
};
use crate::model::{
    decor_of, text_or_empty, with_decor, ArrayView, DecorView, InlineTableView, ValueView,
};
use crate::order::{arrange, identity_order, lemma_slot, order_of_first, slot, SortKeyView};
use crate::text::{lemma_trim_padded, CharClass};
use crate::value::{
    array_element, array_order, element_decor, formatted_array, formatted_inline_table,
    formatted_value, inline_element, inline_key_decor, inline_keys, inline_order, is_multiline,
    outer_decor, value_keys,
};

verus! {

/// The note of one side of a decoration: its text without the white space at
/// its ends, each of its lines behind one tab.
pub open spec fn note(side: Option<Seq<char>>) -> Seq<char> {
    plain(text_or_empty(side))
}

/// The comments of one side of a decoration: its note, unless that is empty.
pub open spec fn side_notes(side: Option<Seq<char>>) -> Multiset<Seq<char>> {
    if note(side).len() == 0 {
        Multiset::empty()
    } else {
        Multiset::singleton(note(side))
    }
}

/// The comments of a decoration.
pub open spec fn decor_notes(d: DecorView) -> Multiset<Seq<char>> {
    side_notes(d.prefix).add(side_notes(d.suffix))
}

/// Whether a decoration holds no comment.
pub open spec fn is_blank(d: DecorView) -> bool {
    note(d.prefix).len() == 0 && note(d.suffix).len() == 0
}

/// All the comments of `parts` together.
pub open spec fn total(parts: Seq<Multiset<Seq<char>>>) -> Multiset<Seq<char>>
    decreases parts.len(),
{
    if parts.len() == 0 {
        Multiset::empty()
    } else {
        total(parts.drop_last()).add(parts.last())
    }
}

/// The comments of part `i` of an array or an inline table: of an element,
/// or of a key and its value.
pub open spec fn part_notes(v: ValueView, i: int) -> Multiset<Seq<char>>
    decreases v, 0nat,
{
    match v {
        ValueView::Scalar(_) => Multiset::empty(),
        ValueView::Array(a) => if 0 <= i < a.values.len() {
            value_notes(a.values[i])
        } else {
            Multiset::empty()
        },
        ValueView::InlineTable(t) => if 0 <= i < t.entries.len() {
            decor_notes(t.entries[i].decor).add(value_notes(t.entries[i].value))
        } else {
            Multiset::empty()
        },
    }
}

/// How many parts a value has.
pub open spec fn parts_of(v: ValueView) -> nat {
    match v {
        ValueView::Scalar(_) => 0,
        ValueView::Array(a) => a.values.len(),
        ValueView::InlineTable(t) => t.entries.len(),
    }
}

/// The comments of each part of a value.
pub open spec fn all_parts(v: ValueView) -> Seq<Multiset<Seq<char>>>
    decreases v, 1nat,
{
    Seq::new(parts_of(v), |i: int| part_notes(v, i))
}

/// The comments inside a value: all but those of its own decoration.
pub open spec fn inner_notes(v: ValueView) -> Multiset<Seq<char>>
    decreases v, 2nat,
{
    let parts = total(all_parts(v));
    match v {
        ValueView::Array(a) => side_notes(Some(a.trailing)).add(parts),
        _ => parts,
    }
}

/// The comments of a value.
pub open spec fn value_notes(v: ValueView) -> Multiset<Seq<char>>
    decreases v, 3nat,
{
    decor_notes(decor_of(v)).add(inner_notes(v))
}

/// Whether the formatter keeps the decoration of a value that stands in a
/// table, in an inline table or in a one-line array: it does for a scalar;
/// that of an array or an inline table it replaces, so it must hold no
/// comment.
pub open spec fn decor_is_kept(v: ValueView) -> bool {
    v is Scalar || is_blank(decor_of(v))
}

/// Whether the formatter keeps every comment inside a value: none stands in
/// a decoration that is replaced.
pub open spec fn keeps_comments(v: ValueView) -> bool
    decreases v,
{
    match v {
        ValueView::Scalar(_) => true,
        ValueView::Array(a) => {
            &&& is_multiline(a) || note(Some(a.trailing)).len() == 0
            &&& forall|i: int|
                0 <= i < a.values.len() ==> keeps_comments(#[trigger] a.values[i]) && (
                is_multiline(a) || decor_is_kept(a.values[i]))
        },
        ValueView::InlineTable(t) => forall|i: int|
            0 <= i < t.entries.len() ==> {
                &&& is_blank((#[trigger] t.entries[i]).decor)
                &&& keeps_comments(t.entries[i].value)
                &&& decor_is_kept(t.entries[i].value)
            },
    }
}

/// One more part adds its comments.
pub proof fn lemma_total_insert(parts: Seq<Multiset<Seq<char>>>, j: int, m: Multiset<Seq<char>>)
    requires
        0 <= j <= parts.len(),
    ensures
        total(parts.insert(j, m)) == total(parts).add(m),
    decreases parts.len() - j,
{
    let t = parts.insert(j, m);
    if j == parts.len() {
        assert(t.drop_last() =~= parts);
    } else {
        let rest = parts.drop_last();
        assert(t.drop_last() =~= rest.insert(j, m));
        assert(t.last() == parts.last());
        lemma_total_insert(rest, j, m);
        assert(total(rest).add(m).add(parts.last()) =~= total(rest).add(parts.last()).add(m));
    }
}

/// Sorting the first `n` parts neither adds nor drops a comment.
pub proof fn lemma_total_sorted(parts: Seq<Multiset<Seq<char>>>, keys: Seq<SortKeyView>, n: nat)
    requires
        n <= parts.len(),
    ensures
        total(arrange(parts, order_of_first(keys, n))) == total(parts.take(n as int)),
    decreases n,
{
    if n == 0 {
        assert(arrange(parts, order_of_first(keys, n)) =~= Seq::empty());
        assert(parts.take(0) =~= Seq::empty());
    } else {
        let x = n - 1;
        let ord = order_of_first(keys, x as nat);
        let j = slot(keys, ord, x);
        lemma_slot(keys, ord, x);
        lemma_total_sorted(parts, keys, x as nat);
        assert(arrange(parts, ord.insert(j, x)) =~= arrange(parts, ord).insert(j, parts[x]));
        lemma_total_insert(arrange(parts, ord), j, parts[x]);
        assert(parts.take(n as int).drop_last() =~= parts.take(x));
    }
}

/// The parts taken in the order in which they stand are the parts.
pub proof fn lemma_total_in_place(parts: Seq<Multiset<Seq<char>>>)
    ensures
        total(arrange(parts, identity_order(parts.len()))) == total(parts),
{
    assert(arrange(parts, identity_order(parts.len())) =~= parts);
}

/// White space holds no comment.
pub proof fn lemma_space_is_blank()
    ensures
        is_blank(outer_decor(true)),
        is_blank(outer_decor(false)),
        is_blank(inline_key_decor()),
        note(None).len() == 0,
        note(Some(Seq::<char>::empty())).len() == 0,
        note(Some(seq![' '])).len() == 0,
{
    let ws = CharClass::Whitespace;
    let e = Seq::<char>::empty();
    let s = seq![' '];
    assert(ws.has(' '));
    lemma_indent_of_blanks(s);
    lemma_indent_of_blanks(e);
    assert(s =~= s + e + e);
    assert(e =~= e + e + e);
    lemma_trim_padded(s, e, e, ws);
    lemma_trim_padded(e, e, e, ws);
}

/// Another decoration changes nothing inside a value.
pub proof fn lemma_inner_notes_of_decorated(v: ValueView, d: DecorView)
    ensures
        inner_notes(with_decor(v, d)) == inner_notes(v),
        decor_of(with_decor(v, d)) == d,
{
    let w = with_decor(v, d);
    let old_parts = all_parts(v);
    let new_parts = all_parts(w);
    match v {
        ValueView::Scalar(_) => {
            assert(new_parts =~= old_parts);
        },
        ValueView::Array(a) => {
            assert forall|i: int| 0 <= i < a.values.len() implies new_parts[i] == old_parts[i] by {
                assert(part_notes(w, i) == value_notes(a.values[i]));
                assert(part_notes(v, i) == value_notes(a.values[i]));
            }
            assert(new_parts =~= old_parts);
        },
        ValueView::InlineTable(t) => {
            assert forall|i: int| 0 <= i < t.entries.len() implies new_parts[i] == old_parts[i] by {
                assert(part_notes(w, i) == part_notes(v, i));
            }
            assert(new_parts =~= old_parts);
        },
    }
}

/// Decorations with the same notes hold the same comments.
proof fn lemma_same_notes(d: DecorView, e: DecorView)
    requires
        note(d.prefix) == note(e.prefix),
        note(d.suffix) == note(e.suffix),
    ensures
        decor_notes(d) == decor_notes(e),
        is_blank(d) == is_blank(e),
{
}

/// A decoration without a note holds no comment.
proof fn lemma_blank_notes(d: DecorView)
    requires
        is_blank(d),
    ensures
        decor_notes(d) =~= Multiset::empty(),
{
}

/// The formatted value holds inside the comments that the value held, and in
/// its decoration those of the decoration of the value.
pub proof fn lemma_value_notes(rules: Rules, v: ValueView, last: bool)
    requires
        keeps_comments(v),
    ensures
        inner_notes(formatted_value(rules, v, last)) == inner_notes(v),
        decor_is_kept(v) ==> decor_notes(decor_of(formatted_value(rules, v, last))) == decor_notes(
            decor_of(v),
        ),
    decreases v, 0nat,
{
    lemma_space_is_blank();
    match v {
        ValueView::Scalar(s) => {
            let f = formatted_value(rules, v, last);
            law_scalar_comments_kept(s.decor, last);
            lemma_same_notes(decor_of(f), s.decor);
            assert(all_parts(f) =~= all_parts(v));
        },
        ValueView::Array(a) => {
            lemma_array_notes(rules, a, last);
            if decor_is_kept(v) {
                lemma_blank_notes(a.decor);
                lemma_blank_notes(outer_decor(last));
            }
        },
        ValueView::InlineTable(t) => {
            lemma_inline_table_notes(rules, t, last);
            if decor_is_kept(v) {
                lemma_blank_notes(t.decor);
                let d = formatted_inline_table(rules, t, last).decor;
                assert(is_blank(d));
                lemma_blank_notes(d);
            }
        },
    }
}

/// Element number `k` of the formatted array holds the comments of the
/// element that it was made from.
proof fn lemma_array_part(rules: Rules, a: ArrayView, k: int)
    requires
        keeps_comments(ValueView::Array(a)),
        0 <= k < a.values.len(),
    ensures
        0 <= array_order(rules, a)[k] < a.values.len(),
        value_notes(array_element(rules, a, k)) == value_notes(
            a.values[array_order(rules, a)[k]],
        ),
    decreases a, 0nat,
{
    crate::value_laws::lemma_array_order(rules, a);
    let i = array_order(rules, a)[k];
    let x = a.values[i];
    assert(keeps_comments(x));
    if is_multiline(a) {
        let g = formatted_value(rules, x, false);
        let e = element_decor(decor_of(x));
        lemma_value_notes(rules, x, false);
        law_element_comments_kept(decor_of(x));
        lemma_same_notes(e, decor_of(x));
        lemma_inner_notes_of_decorated(g, e);
    } else {
        assert(decor_is_kept(x));
        lemma_value_notes(rules, x, k + 1 == a.values.len());
    }
}

/// The formatted array holds inside the comments that the array held.
proof fn lemma_array_notes(rules: Rules, a: ArrayView, last: bool)
    requires
        keeps_comments(ValueView::Array(a)),
    ensures
        inner_notes(ValueView::Array(formatted_array(rules, a, last))) == inner_notes(
            ValueView::Array(a),
        ),
    decreases a, 1nat,
{
    let n = a.values.len();
    let v = ValueView::Array(a);
    let b = formatted_array(rules, a, last);
    let f = ValueView::Array(b);
    let ord = array_order(rules, a);
    let before = all_parts(v);
    let after = all_parts(f);
    crate::value_laws::lemma_array_order(rules, a);
    assert(before.len() == n && after.len() == n && ord.len() == n);
    assert forall|k: int| 0 <= k < n implies after[k] == arrange(before, ord)[k] by {
        lemma_array_part(rules, a, k);
        assert(b.values[k] == array_element(rules, a, k));
        assert(part_notes(f, k) == value_notes(b.values[k]));
        assert(part_notes(v, ord[k]) == value_notes(a.values[ord[k]]));
    }
    assert(after =~= arrange(before, ord));
    lemma_parts_rearranged(before, rules.sort_arrays, value_keys(a.values));
    lemma_space_is_blank();
    law_closing_comments_kept(a.trailing);
    assert(side_notes(Some(b.trailing)) == side_notes(Some(a.trailing)));
}

/// Parts that are sorted, or left in their order, hold the same comments.
proof fn lemma_parts_rearranged(parts: Seq<Multiset<Seq<char>>>, sorted: bool, keys: Seq<SortKeyView>)
    ensures
        total(
            arrange(
                parts,
                if sorted {
                    order_of_first(keys, parts.len())
                } else {
                    identity_order(parts.len())
                },
            ),
        ) == total(parts),
{
    if sorted {
        lemma_total_sorted(parts, keys, parts.len());
        assert(parts.take(parts.len() as int) =~= parts);
    } else {
        lemma_total_in_place(parts);
    }
}

/// The formatted inline table holds inside the comments that the inline
/// table held.
proof fn lemma_inline_table_notes(rules: Rules, t: InlineTableView, last: bool)
    requires
        keeps_comments(ValueView::InlineTable(t)),
    ensures
        inner_notes(ValueView::InlineTable(formatted_inline_table(rules, t, last))) == inner_notes(
            ValueView::InlineTable(t),
        ),
    decreases t, 1nat,
{
    let n = t.entries.len();
    let v = ValueView::InlineTable(t);
    let u = formatted_inline_table(rules, t, last);
    let f = ValueView::InlineTable(u);
    let ord = inline_order(rules, t);
    let before = all_parts(v);
    let after = all_parts(f);
    crate::value_laws::lemma_inline_order(rules, t);
    lemma_space_is_blank();
    assert(before.len() == n && after.len() == n && ord.len() == n);
    assert forall|k: int| 0 <= k < n implies after[k] == arrange(before, ord)[k] by {
        let i = ord[k];
        let e = t.entries[i];
        assert(u.entries[k] == inline_element(rules, t, k));
        assert(is_blank(e.decor) && keeps_comments(e.value) && decor_is_kept(e.value));
        lemma_value_notes(rules, e.value, k + 1 == n);
        lemma_blank_notes(e.decor);
        lemma_blank_notes(inline_key_decor());
        assert(part_notes(f, k) == decor_notes(u.entries[k].decor).add(
            value_notes(u.entries[k].value),
        ));
        assert(part_notes(v, i) == decor_notes(e.decor).add(value_notes(e.value)));
    }
    assert(after =~= arrange(before, ord));
    lemma_parts_rearranged(before, true, inline_keys(rules, t.entries));
}

/// Formatting neither adds, nor drops, nor repeats a comment of a value in
/// which no comment stands where the formatter replaces the decoration.
pub proof fn law_value_comments_kept(rules: Rules, v: ValueView, last: bool)
    requires
        keeps_comments(v),
        decor_is_kept(v),
    ensures
        value_notes(formatted_value(rules, v, last)) == value_notes(v),
{
    lemma_value_notes(rules, v, last);
}

} // verus!
