//! Laws of the decorations that the formatter writes: each is left as it is
//! when it is formatted again, and each keeps the comments that it held.

use vstd::prelude::*;
use crate::model::{text_or_empty, DecorView};
use crate::text::{
    all_in, is_trimmed, lemma_leading_is, lemma_trailing, lemma_trailing_is, lemma_trim_end_props,
    lemma_trim_is_trimmed, lemma_trim_padded, lemma_trim_start_props, starts_with, trim,
    trim_end, trim_start, CharClass,
};
use crate::value::{breaks_line, closing, element_decor, indent, indented, lead, scalar_decor};

verus! {

/// Trimming adds no character.
pub proof fn lemma_trim_within(s: Seq<char>, class: CharClass, c: char)
    ensures
        trim_end(s, class).contains(c) ==> s.contains(c),
        trim(s, class).contains(c) ==> s.contains(c),
{
    lemma_trim_start_props(s, class);
    let t = trim_start(s, class);
    lemma_trim_end_props(t, class);
    lemma_trim_end_props(s, class);
    if trim_end(s, class).contains(c) {
        let e = trim_end(s, class);
        let i = choose|i: int| 0 <= i < e.len() && e[i] == c;
        assert(s[i] == c);
    }
    if trim(s, class).contains(c) {
        let e = trim(s, class);
        let i = choose|i: int| 0 <= i < e.len() && e[i] == c;
        assert(t[i] == c);
        assert(s[i + (s.len() - t.len())] == c);
    }
}

/// What is trimmed off a text belongs to the class: the text is what is left
/// of it between two texts of the class.
pub proof fn lemma_trim_parts(s: Seq<char>, class: CharClass) -> (sides: (Seq<char>, Seq<char>))
    ensures
        s == sides.0 + trim(s, class) + sides.1,
        all_in(sides.0, class),
        all_in(sides.1, class),
        is_trimmed(trim(s, class), class),
{
    let t = trim_start(s, class);
    let l = s.take(s.len() - t.len());
    let x = trim(s, class);
    let r = t.skip(x.len() as int);
    lemma_trim_start_props(s, class);
    lemma_trim_end_props(t, class);
    lemma_trim_is_trimmed(s, class);
    assert(s =~= l + x + r);
    (l, r)
}

/// What is trimmed off the end of a text belongs to the class.
pub proof fn lemma_trim_end_parts(s: Seq<char>, class: CharClass) -> (tail: Seq<char>)
    ensures
        s == trim_end(s, class) + tail,
        all_in(tail, class),
{
    lemma_trim_end_props(s, class);
    s.skip(trim_end(s, class).len() as int)
}

/// The decoration of a formatted scalar is the decoration it gets when it is
/// formatted again.
pub proof fn lemma_scalar_decor_settles(d: DecorView, last: bool)
    ensures
        scalar_decor(scalar_decor(d, last), last) == scalar_decor(d, last),
{
    let class = CharClass::Whitespace;
    let e = Seq::<char>::empty();
    let x = trim(text_or_empty(d.prefix), class);
    let y = trim(text_or_empty(d.suffix), class);
    lemma_trim_is_trimmed(text_or_empty(d.prefix), class);
    lemma_trim_is_trimmed(text_or_empty(d.suffix), class);
    assert(class.has(' '));
    assert(seq![' '] + x =~= seq![' '] + x + e);
    lemma_trim_padded(seq![' '], x, e, class);
    if last {
        assert(seq![' '] + y =~= seq![' '] + y + e);
        lemma_trim_padded(seq![' '], y, e, class);
    } else {
        assert(y =~= e + y + e);
        lemma_trim_padded(e, y, e, class);
    }
}

/// A scalar whose decoration holds no line break gets one without.
pub proof fn lemma_scalar_decor_one_line(d: DecorView, last: bool)
    requires
        !breaks_line(d),
    ensures
        !breaks_line(scalar_decor(d, last)),
{
    let class = CharClass::Whitespace;
    let r = scalar_decor(d, last);
    let x = trim(text_or_empty(d.prefix), class);
    let y = trim(text_or_empty(d.suffix), class);
    lemma_trim_within(text_or_empty(d.prefix), class, '\n');
    lemma_trim_within(text_or_empty(d.suffix), class, '\n');
    let p = r.prefix->0;
    if p.contains('\n') {
        let i = choose|i: int| 0 <= i < p.len() && p[i] == '\n';
        assert(x[i - 1] == '\n');
        assert(x.contains('\n'));
    }
    let q = r.suffix->0;
    if q.contains('\n') {
        let i = choose|i: int| 0 <= i < q.len() && q[i] == '\n';
        if last {
            assert(y[i - 1] == '\n');
        }
        assert(y.contains('\n'));
    }
    assert(!text_or_empty(d.prefix).contains('\n')) by {
        if d.prefix is None {
            assert(text_or_empty(d.prefix).len() == 0);
        }
    }
    assert(!text_or_empty(d.suffix).contains('\n')) by {
        if d.suffix is None {
            assert(text_or_empty(d.suffix).len() == 0);
        }
    }
}

/// What `lead` puts before a text is a space or nothing.
proof fn lemma_lead(core: Seq<char>)
    ensures
        lead(core) =~= (if starts_with(core, '\n') {
            Seq::<char>::empty()
        } else {
            seq![' ']
        }) + core,
{
}

/// Whether a text that follows `s` starts right behind a line break: `s` ends
/// with a line break and blanks, or is made of blanks and itself started so.
pub open spec fn after(s: Seq<char>, after_break: bool) -> bool
    decreases s.len(),
{
    if s.len() == 0 {
        after_break
    } else {
        after(s.skip(1), s[0] == '\n' || (after_break && CharClass::Blank.has(s[0])))
    }
}

/// Two texts in a row are indented one after the other.
pub proof fn lemma_indent_joined(s: Seq<char>, t: Seq<char>, f: bool)
    ensures
        indent(s + t, f) == indent(s, f) + indent(t, after(s, f)),
    decreases s.len(),
{
    if s.len() == 0 {
        assert(s + t =~= t);
        assert(indent(s, f) + indent(t, f) =~= indent(t, f));
    } else {
        let g = s[0] == '\n' || (f && CharClass::Blank.has(s[0]));
        assert((s + t)[0] == s[0]);
        assert((s + t).skip(1) =~= s.skip(1) + t);
        lemma_indent_joined(s.skip(1), t, g);
        let rest = indent(s.skip(1), g);
        let tail = indent(t, after(s, f));
        if s[0] == '\n' {
            assert(seq!['\n', '\t'] + (rest + tail) =~= (seq!['\n', '\t'] + rest) + tail);
        } else if f && CharClass::Blank.has(s[0]) {
        } else {
            assert(seq![s[0]] + (rest + tail) =~= (seq![s[0]] + rest) + tail);
        }
    }
}

/// A line break is indented to a line break and a tab.
pub proof fn lemma_indent_break(f: bool)
    ensures
        indent(seq!['\n'], f) == seq!['\n', '\t'],
        indent(seq!['\n', '\t'], f) == seq!['\n', '\t'],
{
    let e = Seq::<char>::empty();
    assert(seq!['\n'].skip(1) =~= e);
    assert(seq!['\n', '\t'] + indent(e, true) =~= seq!['\n', '\t']);
    let s = seq!['\n', '\t'];
    assert(s.skip(1) =~= seq!['\t']);
    assert(seq!['\t'].skip(1) =~= e);
    assert(indent(seq!['\t'], true) == indent(e, true));
}

/// White space is indented to white space.
pub proof fn lemma_indent_of_space(s: Seq<char>, f: bool)
    requires
        all_in(s, CharClass::Whitespace),
    ensures
        all_in(indent(s, f), CharClass::Whitespace),
    decreases s.len(),
{
    let ws = CharClass::Whitespace;
    if s.len() > 0 {
        let g = s[0] == '\n' || (f && CharClass::Blank.has(s[0]));
        let r = s.skip(1);
        assert forall|i: int| 0 <= i < r.len() implies ws.has(#[trigger] r[i]) by {
            assert(r[i] == s[i + 1]);
        }
        lemma_indent_of_space(r, g);
        let rest = indent(r, g);
        let out = indent(s, f);
        assert(ws.has('\n') && ws.has('\t') && ws.has(s[0]));
        assert forall|i: int| 0 <= i < out.len() implies ws.has(#[trigger] out[i]) by {
            if s[0] == '\n' {
                if i >= 2 {
                    assert(out[i] == rest[i - 2]);
                }
            } else if f && CharClass::Blank.has(s[0]) {
            } else {
                if i >= 1 {
                    assert(out[i] == rest[i - 1]);
                }
            }
        }
    }
}

/// Blanks that follow no line break stay as they are, and what follows them
/// follows no line break.
pub proof fn lemma_indent_of_blanks(s: Seq<char>)
    requires
        all_in(s, CharClass::Blank),
    ensures
        indent(s, false) == s,
        !after(s, false),
    decreases s.len(),
{
    if s.len() > 0 {
        let r = s.skip(1);
        assert(CharClass::Blank.has(s[0]));
        assert forall|i: int| 0 <= i < r.len() implies CharClass::Blank.has(#[trigger] r[i]) by {
            assert(r[i] == s[i + 1]);
        }
        lemma_indent_of_blanks(r);
        assert(seq![s[0]] + r =~= s);
    }
}

/// A text that starts with no blank is indented in the same way wherever it
/// stands, and keeps its first character.
pub proof fn lemma_indent_start(x: Seq<char>, f: bool)
    requires
        x.len() == 0 || !CharClass::Blank.has(x[0]),
    ensures
        indent(x, f) == indent(x, false),
        x.len() > 0 ==> indent(x, false).len() > 0 && indent(x, false)[0] == x[0],
{
}

/// What is indented does not end with a line break.
pub proof fn lemma_indent_end(s: Seq<char>, f: bool)
    ensures
        indent(s, f).len() > 0 ==> indent(s, f).last() != '\n',
    decreases s.len(),
{
    if s.len() > 0 {
        let g = s[0] == '\n' || (f && CharClass::Blank.has(s[0]));
        lemma_indent_end(s.skip(1), g);
        let rest = indent(s.skip(1), g);
        let out = indent(s, f);
        if s[0] == '\n' {
            if rest.len() > 0 {
                assert(out.last() == rest.last());
            } else {
                assert(out.last() == '\t');
            }
        } else if f && CharClass::Blank.has(s[0]) {
        } else {
            if rest.len() > 0 {
                assert(out.last() == rest.last());
            } else {
                assert(out.last() == s[0]);
            }
        }
    }
}

/// What is indented is left as it is when it is indented again.
pub proof fn lemma_indent_once(s: Seq<char>, f: bool)
    ensures
        indent(indent(s, f), f) == indent(s, f),
    decreases s.len(),
{
    if s.len() > 0 {
        let r = s.skip(1);
        let out = indent(s, f);
        if s[0] == '\n' {
            let rest = indent(r, true);
            lemma_indent_once(r, true);
            assert(out[0] == '\n');
            let behind = out.skip(1);
            assert(behind =~= seq!['\t'] + rest);
            assert(behind[0] == '\t');
            assert(behind.skip(1) =~= rest);
            assert(indent(behind, true) == indent(rest, true));
        } else if f && CharClass::Blank.has(s[0]) {
            lemma_indent_once(r, true);
        } else {
            let rest = indent(r, false);
            lemma_indent_once(r, false);
            assert(out[0] == s[0]);
            assert(out.skip(1) =~= rest);
        }
    }
}

/// The decoration of an element of a multi-line array holds a line break,
/// and is the decoration that the element gets when it is formatted again.
pub proof fn lemma_element_decor_settles(d: DecorView)
    ensures
        element_decor(element_decor(d)) == element_decor(d),
        breaks_line(element_decor(d)),
{
    let e = Seq::<char>::empty();
    // before the element
    let p0 = text_or_empty(d.prefix);
    let b = trim(p0, CharClass::Blank);
    let front = trim_end(b, CharClass::Newline);
    let x = indented(front);
    let core = indented(front.push('\n'));
    let big = lead(core);
    lemma_indent_break(after(front, false));
    lemma_indent_joined(front, seq!['\n'], false);
    assert(front.push('\n') =~= front + seq!['\n']);
    assert(core =~= x + seq!['\n', '\t']);
    let m = x.push('\n');
    lemma_trim_is_trimmed(p0, CharClass::Blank);
    lemma_trim_end_props(b, CharClass::Newline);
    if front.len() > 0 {
        assert(front[0] == b[0]);
        lemma_indent_start(front, false);
        assert(m[0] == x[0]);
    }
    lemma_indent_end(front, false);
    assert(m.last() == '\n');
    assert(is_trimmed(m, CharClass::Blank));
    let a = if starts_with(core, '\n') { e } else { seq![' '] };
    lemma_lead(core);
    assert(big =~= a + m + seq!['\t']);
    lemma_trim_padded(a, m, seq!['\t'], CharClass::Blank);
    if x.len() > 0 {
        assert(m[m.len() - 2] == x.last());
    }
    lemma_trailing_is(m, CharClass::Newline, 1);
    assert(trim_end(m, CharClass::Newline) =~= x);
    lemma_indent_once(front, false);
    lemma_indent_break(after(x, false));
    lemma_indent_joined(x, seq!['\n'], false);
    assert(x.push('\n') =~= x + seq!['\n']);
    assert(indented(x.push('\n')) == core);
    assert(big[(a.len() + x.len()) as int] == '\n');
    assert(big.contains('\n'));
    // behind the element
    let s0 = text_or_empty(d.suffix);
    let s1 = trim(s0, CharClass::Padding);
    let tail = if s1.len() > 0 { s1.push('\n') } else { s1 };
    lemma_trim_is_trimmed(s0, CharClass::Padding);
    let c = if s1.len() > 0 { seq!['\n'] } else { e };
    assert(tail =~= e + s1 + c);
    lemma_trim_padded(e, s1, c, CharClass::Padding);
}

/// The text before the closing bracket of a multi-line array is left as it is
/// when it is formatted again, and still starts a new line if it did.
pub proof fn lemma_closing_settles(t: Seq<char>)
    ensures
        closing(closing(t)) == closing(t),
        starts_with(t, '\n') ==> starts_with(closing(t), '\n'),
{
    let e = Seq::<char>::empty();
    let b = trim(t, CharClass::Blank);
    let t1 = trim_end(b, CharClass::Whitespace);
    let core = t1.push('\n');
    let big = lead(core);
    lemma_trim_is_trimmed(t, CharClass::Blank);
    lemma_trim_end_props(b, CharClass::Whitespace);
    if t1.len() > 0 {
        assert(t1[0] == b[0]);
        assert(core[0] == t1[0]);
        assert(core[core.len() - 2] == t1.last());
    }
    assert(core.last() == '\n');
    assert(is_trimmed(core, CharClass::Blank));
    let a = if starts_with(core, '\n') { e } else { seq![' '] };
    lemma_lead(core);
    assert(big =~= a + core + e);
    lemma_trim_padded(a, core, e, CharClass::Blank);
    assert(CharClass::Whitespace.has('\n'));
    lemma_trailing_is(core, CharClass::Whitespace, 1);
    assert(trim_end(core, CharClass::Whitespace) =~= t1);
    if starts_with(t, '\n') {
        lemma_leading_is(t, CharClass::Blank, 0);
        assert(trim_start(t, CharClass::Blank) =~= t);
        lemma_trailing(t, CharClass::Blank);
        assert(b.len() > 0);
        assert(b[0] == '\n');
    }
}

/// Every character of `inner` is one of `outer`.
pub open spec fn within(inner: CharClass, outer: CharClass) -> bool {
    forall|c: char| inner.has(c) ==> outer.has(c)
}

/// Spaces, tabs and line breaks are white space.
pub proof fn lemma_classes_within()
    ensures
        within(CharClass::Blank, CharClass::Whitespace),
        within(CharClass::Newline, CharClass::Whitespace),
        within(CharClass::Padding, CharClass::Whitespace),
        within(CharClass::Whitespace, CharClass::Whitespace),
{
    assert(CharClass::Whitespace.has(' '));
    assert(CharClass::Whitespace.has('\t'));
    assert(CharClass::Whitespace.has('\n'));
}

/// A text of a smaller class is one of the larger class.
pub proof fn lemma_all_in_wider(s: Seq<char>, inner: CharClass, outer: CharClass)
    requires
        all_in(s, inner),
        within(inner, outer),
    ensures
        all_in(s, outer),
{
}

/// Two texts of a class in a row are a text of the class.
pub proof fn lemma_all_in_joined(a: Seq<char>, b: Seq<char>, class: CharClass)
    requires
        all_in(a, class),
        all_in(b, class),
    ensures
        all_in(a + b, class),
{
    let s = a + b;
    assert forall|i: int| 0 <= i < s.len() implies class.has(#[trigger] s[i]) by {
        if i < a.len() {
            assert(s[i] == a[i]);
        } else {
            assert(s[i] == b[i - a.len()]);
        }
    }
}

/// Characters of the class around a text make no difference to what is left
/// when it is trimmed.
pub proof fn lemma_trim_ignores_padding(a: Seq<char>, s: Seq<char>, b: Seq<char>, class: CharClass)
    requires
        all_in(a, class),
        all_in(b, class),
    ensures
        trim(a + s + b, class) == trim(s, class),
{
    let sides = lemma_trim_parts(s, class);
    let x = trim(s, class);
    let left = a + sides.0;
    let right = sides.1 + b;
    lemma_all_in_joined(a, sides.0, class);
    lemma_all_in_joined(sides.1, b, class);
    assert(a + s + b =~= left + x + right);
    lemma_trim_padded(left, x, right, class);
}

/// The comments of a text: the text with one tab behind every line break,
/// and without the white space at its ends. Two texts with the same comments
/// differ in the white space at their ends and in how their lines are
/// indented, and in nothing else.
pub open spec fn plain(s: Seq<char>) -> Seq<char> {
    trim(indented(s), CharClass::Whitespace)
}

/// White space around a text makes no difference to its comments, if the
/// text starts with no blank or the white space before it is made of blanks.
pub proof fn lemma_plain_padded(l: Seq<char>, x: Seq<char>, r: Seq<char>)
    requires
        all_in(l, CharClass::Whitespace),
        all_in(r, CharClass::Whitespace),
        all_in(l, CharClass::Blank) || x.len() == 0 || !CharClass::Blank.has(x[0]),
    ensures
        plain(l + x + r) == plain(x),
{
    let ws = CharClass::Whitespace;
    let f = after(l, false);
    let g = after(x, f);
    lemma_indent_joined(l, x + r, false);
    lemma_indent_joined(x, r, f);
    assert(l + x + r =~= l + (x + r));
    if all_in(l, CharClass::Blank) {
        lemma_indent_of_blanks(l);
    } else {
        lemma_indent_start(x, f);
    }
    lemma_indent_of_space(l, false);
    lemma_indent_of_space(r, g);
    let mid = indent(x, false);
    assert(indented(l + x + r) =~= indent(l, false) + mid + indent(r, g));
    lemma_trim_ignores_padding(indent(l, false), mid, indent(r, g), ws);
}

/// What is left of a text when it is trimmed has the comments of the text.
pub proof fn lemma_plain_of_trimmed(s: Seq<char>, class: CharClass)
    requires
        within(class, CharClass::Whitespace),
        within(CharClass::Blank, class),
    ensures
        plain(trim(s, class)) == plain(s),
{
    let sides = lemma_trim_parts(s, class);
    let x = trim(s, class);
    lemma_all_in_wider(sides.0, class, CharClass::Whitespace);
    lemma_all_in_wider(sides.1, class, CharClass::Whitespace);
    if x.len() > 0 {
        assert(!class.has(x[0]));
    }
    lemma_plain_padded(sides.0, x, sides.1);
}

/// What is left of a text when its end is trimmed has the comments of the
/// text.
pub proof fn lemma_plain_of_trimmed_end(s: Seq<char>, class: CharClass)
    requires
        within(class, CharClass::Whitespace),
    ensures
        plain(trim_end(s, class)) == plain(s),
{
    let e = Seq::<char>::empty();
    let tail = lemma_trim_end_parts(s, class);
    lemma_all_in_wider(tail, class, CharClass::Whitespace);
    assert(s =~= e + trim_end(s, class) + tail);
    lemma_plain_padded(e, trim_end(s, class), tail);
}

/// The formatter changes the decoration of a scalar only in the white space
/// at its ends: what stands between, the comments, is kept.
pub proof fn law_scalar_comments_kept(d: DecorView, last: bool)
    ensures
        plain(text_or_empty(scalar_decor(d, last).prefix)) == plain(text_or_empty(d.prefix)),
        plain(text_or_empty(scalar_decor(d, last).suffix)) == plain(text_or_empty(d.suffix)),
{
    let ws = CharClass::Whitespace;
    let e = Seq::<char>::empty();
    let x = trim(text_or_empty(d.prefix), ws);
    let y = trim(text_or_empty(d.suffix), ws);
    lemma_classes_within();
    assert(ws.has(' '));
    lemma_plain_of_trimmed(text_or_empty(d.prefix), ws);
    lemma_plain_of_trimmed(text_or_empty(d.suffix), ws);
    assert(seq![' '] + x =~= seq![' '] + x + e);
    lemma_plain_padded(seq![' '], x, e);
    if last {
        assert(seq![' '] + y =~= seq![' '] + y + e);
        lemma_plain_padded(seq![' '], y, e);
    }
}

/// The formatter changes the decoration of an element of a multi-line array
/// only in the white space at its ends and in how its lines are indented.
pub proof fn law_element_comments_kept(d: DecorView)
    ensures
        plain(text_or_empty(element_decor(d).prefix)) == plain(text_or_empty(d.prefix)),
        plain(text_or_empty(element_decor(d).suffix)) == plain(text_or_empty(d.suffix)),
{
    let ws = CharClass::Whitespace;
    let e = Seq::<char>::empty();
    lemma_classes_within();
    assert(ws.has(' ') && ws.has('\n') && ws.has('\t'));
    // before the element
    let p0 = text_or_empty(d.prefix);
    let b = trim(p0, CharClass::Blank);
    let front = trim_end(b, CharClass::Newline);
    let x = indented(front);
    let core = indented(front.push('\n'));
    lemma_indent_break(after(front, false));
    lemma_indent_joined(front, seq!['\n'], false);
    assert(front.push('\n') =~= front + seq!['\n']);
    assert(core =~= x + seq!['\n', '\t']);
    let a = if starts_with(core, '\n') { e } else { seq![' '] };
    lemma_lead(core);
    assert(lead(core) =~= a + x + seq!['\n', '\t']);
    lemma_plain_padded(a, x, seq!['\n', '\t']);
    lemma_indent_once(front, false);
    assert(plain(x) == plain(front));
    lemma_plain_of_trimmed_end(b, CharClass::Newline);
    lemma_plain_of_trimmed(p0, CharClass::Blank);
    // behind the element
    let s0 = text_or_empty(d.suffix);
    let s1 = trim(s0, CharClass::Padding);
    let tail = if s1.len() > 0 { s1.push('\n') } else { s1 };
    let c = if s1.len() > 0 { seq!['\n'] } else { e };
    assert(tail =~= e + s1 + c);
    lemma_plain_padded(e, s1, c);
    lemma_plain_of_trimmed(s0, CharClass::Padding);
}

/// The formatter changes the text before the closing bracket of a multi-line
/// array only in the white space at its ends.
pub proof fn law_closing_comments_kept(t: Seq<char>)
    ensures
        plain(closing(t)) == plain(t),
{
    let ws = CharClass::Whitespace;
    let e = Seq::<char>::empty();
    lemma_classes_within();
    let b = trim(t, CharClass::Blank);
    let t1 = trim_end(b, ws);
    let core = t1.push('\n');
    let a = if starts_with(core, '\n') { e } else { seq![' '] };
    lemma_lead(core);
    assert(ws.has(' ') && ws.has('\n'));
    assert(lead(core) =~= a + t1 + seq!['\n']);
    lemma_plain_padded(a, t1, seq!['\n']);
    lemma_plain_of_trimmed_end(b, ws);
    lemma_plain_of_trimmed(t, CharClass::Blank);
}

} // verus!
