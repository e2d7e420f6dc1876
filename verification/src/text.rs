//! Text as sequences of characters: character classes, trimming, tests on the
//! first character, and the lexicographic order.

use vstd::prelude::*;

verus! {

/// The characters that have the Unicode property `White_Space`.
pub open spec fn is_whitespace(c: char) -> bool {
    let n = c as u32;
    ||| 0x09 <= n <= 0x0D
    ||| n == 0x20
    ||| n == 0x85
    ||| n == 0xA0
    ||| n == 0x1680
    ||| 0x2000 <= n <= 0x200A
    ||| n == 0x2028
    ||| n == 0x2029
    ||| n == 0x202F
    ||| n == 0x205F
    ||| n == 0x3000
}

/// A set of characters that can be trimmed off a text.
#[derive(Clone, Copy, Debug, PartialEq, Eq)]
pub enum CharClass {
    /// Every character with the property `White_Space`.
    Whitespace,
    /// Space and tab.
    Blank,
    /// The line feed.
    Newline,
    /// Space, tab and line feed.
    Padding,
}

impl CharClass {
    /// Whether `c` belongs to the class.
    pub open spec fn has(self, c: char) -> bool {
        match self {
            CharClass::Whitespace => is_whitespace(c),
            CharClass::Blank => c == ' ' || c == '\t',
            CharClass::Newline => c == '\n',
            CharClass::Padding => c == ' ' || c == '\t' || c == '\n',
        }
    }

    /// Whether `c` belongs to the class.
    pub fn contains(&self, c: char) -> (r: bool)
        ensures
            r == self.has(c),
    {
        match self {
            CharClass::Whitespace => {
                let n: u32 = c as u32;
                (0x09 <= n && n <= 0x0D) || n == 0x20 || n == 0x85 || n == 0xA0 || n == 0x1680
                    || (0x2000 <= n && n <= 0x200A) || n == 0x2028 || n == 0x2029 || n == 0x202F
                    || n == 0x205F || n == 0x3000
            },
            CharClass::Blank => c == ' ' || c == '\t',
            CharClass::Newline => c == '\n',
            CharClass::Padding => c == ' ' || c == '\t' || c == '\n',
        }
    }
}

/// How many characters at the start of `s` belong to `class`.
pub open spec fn leading(s: Seq<char>, class: CharClass) -> nat
    decreases s.len(),
{
    if s.len() > 0 && class.has(s[0]) {
        1 + leading(s.skip(1), class)
    } else {
        0
    }
}

/// How many characters at the end of `s` belong to `class`.
pub open spec fn trailing(s: Seq<char>, class: CharClass) -> nat
    decreases s.len(),
{
    if s.len() > 0 && class.has(s.last()) {
        1 + trailing(s.drop_last(), class)
    } else {
        0
    }
}

/// `s` without the characters of `class` at its start.
pub open spec fn trim_start(s: Seq<char>, class: CharClass) -> Seq<char> {
    s.skip(leading(s, class) as int)
}

/// `s` without the characters of `class` at its end.
pub open spec fn trim_end(s: Seq<char>, class: CharClass) -> Seq<char> {
    s.take(s.len() - trailing(s, class))
}

/// `s` without the characters of `class` at either end.
pub open spec fn trim(s: Seq<char>, class: CharClass) -> Seq<char> {
    trim_end(trim_start(s, class), class)
}

/// Whether the first character of `s` is `c`.
pub open spec fn starts_with(s: Seq<char>, c: char) -> bool {
    s.len() > 0 && s[0] == c
}

/// Neither end of `s` belongs to `class`.
pub open spec fn is_trimmed(s: Seq<char>, class: CharClass) -> bool {
    s.len() > 0 ==> !class.has(s[0]) && !class.has(s.last())
}

/// Every character of `s` belongs to `class`.
pub open spec fn all_in(s: Seq<char>, class: CharClass) -> bool {
    forall|i: int| 0 <= i < s.len() ==> class.has(#[trigger] s[i])
}

/// `a` comes strictly before `b` in the lexicographic order of code points.
pub open spec fn lex_lt(a: Seq<char>, b: Seq<char>) -> bool
    decreases a.len(),
{
    if b.len() == 0 {
        false
    } else if a.len() == 0 {
        true
    } else if a[0] != b[0] {
        (a[0] as int) < (b[0] as int)
    } else {
        lex_lt(a.skip(1), b.skip(1))
    }
}

/// `leading` is the length of the longest prefix made of the class.
pub proof fn lemma_leading(s: Seq<char>, class: CharClass)
    ensures
        leading(s, class) <= s.len(),
        forall|i: int| 0 <= i < leading(s, class) ==> class.has(#[trigger] s[i]),
        leading(s, class) < s.len() ==> !class.has(s[leading(s, class) as int]),
    decreases s.len(),
{
    if s.len() > 0 && class.has(s[0]) {
        let t = s.skip(1);
        lemma_leading(t, class);
        assert forall|i: int| 0 <= i < leading(s, class) implies class.has(#[trigger] s[i]) by {
            if i > 0 {
                assert(s[i] == t[i - 1]);
            }
        }
        if leading(s, class) < s.len() {
            assert(s[leading(s, class) as int] == t[leading(t, class) as int]);
        }
    }
}

/// Any `n` that bounds a prefix made of the class, and is followed by
/// something else or by the end, is `leading`.
pub proof fn lemma_leading_is(s: Seq<char>, class: CharClass, n: int)
    requires
        0 <= n <= s.len(),
        forall|i: int| 0 <= i < n ==> class.has(#[trigger] s[i]),
        n < s.len() ==> !class.has(s[n]),
    ensures
        leading(s, class) == n,
    decreases s.len(),
{
    if n > 0 {
        let t = s.skip(1);
        assert(class.has(s[0]));
        assert forall|i: int| 0 <= i < n - 1 implies class.has(#[trigger] t[i]) by {
            assert(t[i] == s[i + 1]);
        }
        if n - 1 < t.len() {
            assert(t[n - 1] == s[n]);
        }
        lemma_leading_is(t, class, n - 1);
    }
}

/// `trailing` is the length of the longest suffix made of the class.
pub proof fn lemma_trailing(s: Seq<char>, class: CharClass)
    ensures
        trailing(s, class) <= s.len(),
        forall|i: int| s.len() - trailing(s, class) <= i < s.len() ==> class.has(#[trigger] s[i]),
        trailing(s, class) < s.len() ==> !class.has(s[s.len() - trailing(s, class) - 1]),
    decreases s.len(),
{
    if s.len() > 0 && class.has(s.last()) {
        let t = s.drop_last();
        lemma_trailing(t, class);
        assert forall|i: int| s.len() - trailing(s, class) <= i < s.len() implies class.has(
            #[trigger] s[i],
        ) by {
            if i < s.len() - 1 {
                assert(s[i] == t[i]);
            }
        }
        if trailing(s, class) < s.len() {
            assert(s[s.len() - trailing(s, class) - 1] == t[t.len() - trailing(t, class) - 1]);
        }
    }
}

/// Any `n` that bounds a suffix made of the class, and is preceded by
/// something else or by the start, is `trailing`.
pub proof fn lemma_trailing_is(s: Seq<char>, class: CharClass, n: int)
    requires
        0 <= n <= s.len(),
        forall|i: int| s.len() - n <= i < s.len() ==> class.has(#[trigger] s[i]),
        n < s.len() ==> !class.has(s[s.len() - n - 1]),
    ensures
        trailing(s, class) == n,
    decreases s.len(),
{
    if n > 0 {
        let t = s.drop_last();
        assert(class.has(s[s.len() - 1]));
        assert forall|i: int| t.len() - (n - 1) <= i < t.len() implies class.has(
            #[trigger] t[i],
        ) by {
            assert(t[i] == s[i]);
        }
        if n - 1 < t.len() {
            assert(t[t.len() - (n - 1) - 1] == s[s.len() - n - 1]);
        }
        lemma_trailing_is(t, class, n - 1);
    }
}

/// A text with nothing to trim at its end is left alone by `trim_end`.
pub proof fn lemma_trim_end_fixed(s: Seq<char>, class: CharClass)
    requires
        s.len() > 0 ==> !class.has(s.last()),
    ensures
        trim_end(s, class) == s,
{
    lemma_trailing_is(s, class, 0);
    assert(s.take(s.len() as int) =~= s);
}

/// What `trim_end` returns has nothing to trim at its end, and starts as `s`
/// does.
pub proof fn lemma_trim_end_props(s: Seq<char>, class: CharClass)
    ensures
        trim_end(s, class).len() <= s.len(),
        trim_end(s, class) == s.take(trim_end(s, class).len() as int),
        trim_end(s, class).len() > 0 ==> !class.has(trim_end(s, class).last()),
        trim_end(trim_end(s, class), class) == trim_end(s, class),
        s =~= trim_end(s, class) + s.skip(trim_end(s, class).len() as int),
        all_in(s.skip(trim_end(s, class).len() as int), class),
{
    lemma_trailing(s, class);
    lemma_trim_end_fixed(trim_end(s, class), class);
}

/// What `trim_start` returns has nothing to trim at its start, and what it
/// left out belongs to the class.
pub proof fn lemma_trim_start_props(s: Seq<char>, class: CharClass)
    ensures
        trim_start(s, class).len() <= s.len(),
        trim_start(s, class).len() > 0 ==> !class.has(trim_start(s, class)[0]),
        s =~= s.take(leading(s, class) as int) + trim_start(s, class),
        all_in(s.take(leading(s, class) as int), class),
{
    lemma_leading(s, class);
}

/// What `trim` returns is trimmed.
pub proof fn lemma_trim_is_trimmed(s: Seq<char>, class: CharClass)
    ensures
        is_trimmed(trim(s, class), class),
        trim(s, class).len() <= s.len(),
{
    lemma_trim_start_props(s, class);
    lemma_trim_end_props(trim_start(s, class), class);
    let t = trim_start(s, class);
    if trim(s, class).len() > 0 {
        assert(trim(s, class)[0] == t[0]);
    }
}

/// Padding a trimmed text with characters of the class on both sides, and
/// trimming again, gives the text back.
pub proof fn lemma_trim_padded(a: Seq<char>, x: Seq<char>, b: Seq<char>, class: CharClass)
    requires
        all_in(a, class),
        all_in(b, class),
        is_trimmed(x, class),
    ensures
        trim(a + x + b, class) == x,
{
    let s = a + x + b;
    if x.len() == 0 {
        assert(all_in(s, class)) by {
            assert forall|i: int| 0 <= i < s.len() implies class.has(#[trigger] s[i]) by {
                if i < a.len() {
                    assert(s[i] == a[i]);
                } else {
                    assert(s[i] == b[i - a.len()]);
                }
            }
        }
        lemma_leading_is(s, class, s.len() as int);
        assert(trim_start(s, class) =~= Seq::<char>::empty());
        lemma_trailing_is(Seq::<char>::empty(), class, 0);
        assert(trim(s, class) =~= x);
    } else {
        assert forall|i: int| 0 <= i < a.len() implies class.has(#[trigger] s[i]) by {
            assert(s[i] == a[i]);
        }
        assert(s[a.len() as int] == x[0]);
        lemma_leading_is(s, class, a.len() as int);
        let t = trim_start(s, class);
        assert(t =~= x + b);
        assert forall|i: int| t.len() - b.len() <= i < t.len() implies class.has(
            #[trigger] t[i],
        ) by {
            assert(t[i] == b[i - x.len()]);
        }
        assert(t[t.len() - b.len() - 1] == x.last());
        lemma_trailing_is(t, class, b.len() as int);
        assert(trim(s, class) =~= x);
    }
}

/// No text comes before itself.
pub proof fn lemma_lex_irreflexive(a: Seq<char>)
    ensures
        !lex_lt(a, a),
    decreases a.len(),
{
    if a.len() > 0 {
        lemma_lex_irreflexive(a.skip(1));
    }
}

/// What comes before a text comes before all that the text comes before.
pub proof fn lemma_lex_transitive(a: Seq<char>, b: Seq<char>, c: Seq<char>)
    requires
        lex_lt(a, b),
        lex_lt(b, c),
    ensures
        lex_lt(a, c),
    decreases a.len(),
{
    if a.len() > 0 && b.len() > 0 && c.len() > 0 {
        if a[0] == b[0] && b[0] == c[0] {
            lemma_lex_transitive(a.skip(1), b.skip(1), c.skip(1));
        }
    }
}

/// Of two different texts one comes before the other.
pub proof fn lemma_lex_total(a: Seq<char>, b: Seq<char>)
    ensures
        lex_lt(a, b) || lex_lt(b, a) || a == b,
    decreases a.len(),
{
    if a.len() > 0 && b.len() > 0 {
        if a[0] == b[0] {
            lemma_lex_total(a.skip(1), b.skip(1));
            if a.skip(1) == b.skip(1) {
                assert(a =~= seq![a[0]] + a.skip(1));
                assert(b =~= seq![b[0]] + b.skip(1));
            }
        }
    } else if a.len() == 0 && b.len() == 0 {
        assert(a =~= b);
    }
}

/// The code of a character fits in 32 bits.
pub proof fn lemma_char_code(c: char)
    ensures
        (c as u32) as int == c as int,
{
}

/// `String::push` appends one character.
pub assume_specification[ std::string::String::push ](s: &mut std::string::String, c: char)
    ensures
        final(s)@ == old(s)@.push(c),
;

/// The characters of `s`, in order.
pub fn chars_of(s: &str) -> (v: Vec<char>)
    ensures
        v@ == s@,
{
    let mut v: Vec<char> = Vec::new();
    for c in it: s.chars()
        invariant
            it.seq() == s@,
            v@ == s@.take(it.index()),
    {
        assert(s@.take(it.index() + 1) =~= s@.take(it.index()).push(c));
        v.push(c);
    }
    assert(s@.take(s@.len() as int) =~= s@);
    v
}

/// The text made of `v[lo..hi]`.
pub fn text_of(v: &Vec<char>, lo: usize, hi: usize) -> (s: String)
    requires
        lo <= hi <= v.len(),
    ensures
        s@ == v@.subrange(lo as int, hi as int),
{
    let mut s = String::new();
    let mut i: usize = lo;
    while i < hi
        invariant
            lo <= i <= hi <= v.len(),
            s@ == v@.subrange(lo as int, i as int),
        decreases hi - i,
    {
        assert(v@.subrange(lo as int, i + 1) =~= v@.subrange(lo as int, i as int).push(v@[i as int]));
        s.push(v[i]);
        i += 1;
    }
    s
}

/// Whether the first character of `s` is `c`.
pub fn begins_with(s: &str, c: char) -> (r: bool)
    ensures
        r == starts_with(s@, c),
{
    !s.is_empty() && s.get_char(0) == c
}

/// Whether `c` occurs in `s`.
pub fn has_char(s: &str, c: char) -> (r: bool)
    ensures
        r == s@.contains(c),
{
    let v = chars_of(s);
    let mut i: usize = 0;
    while i < v.len()
        invariant
            i <= v.len(),
            v@ == s@,
            forall|j: int| 0 <= j < i ==> v@[j] != c,
        decreases v.len() - i,
    {
        if v[i] == c {
            return true;
        }
        i += 1;
    }
    false
}

/// `s` without the characters of `class` at its end.
pub fn trimmed_end(s: &str, class: CharClass) -> (r: String)
    ensures
        r@ == trim_end(s@, class),
{
    let v = chars_of(s);
    let hi = end_of(&v, 0, class);
    proof {
        assert(v@.skip(0) =~= v@);
        assert(v@.subrange(0, hi as int) =~= v@.take(hi as int));
    }
    text_of(&v, 0, hi)
}

/// `s` without the characters of `class` at either end.
pub fn trimmed(s: &str, class: CharClass) -> (r: String)
    ensures
        r@ == trim(s@, class),
{
    let v = chars_of(s);
    let mut lo: usize = 0;
    while lo < v.len() && class.contains(v[lo])
        invariant
            lo <= v.len(),
            forall|j: int| 0 <= j < lo ==> class.has(#[trigger] v@[j]),
        decreases v.len() - lo,
    {
        lo += 1;
    }
    proof {
        lemma_leading_is(v@, class, lo as int);
    }
    let hi = end_of(&v, lo, class);
    proof {
        let t = v@.skip(lo as int);
        assert(t.take(hi - lo) =~= v@.subrange(lo as int, hi as int));
    }
    text_of(&v, lo, hi)
}

/// Where `v[lo..]` ends once the characters of `class` at its end are left out.
fn end_of(v: &Vec<char>, lo: usize, class: CharClass) -> (hi: usize)
    requires
        lo <= v.len(),
    ensures
        lo <= hi <= v.len(),
        hi - lo == v@.skip(lo as int).len() - trailing(v@.skip(lo as int), class),
{
    let mut hi: usize = v.len();
    while hi > lo && class.contains(v[hi - 1])
        invariant
            lo <= hi <= v.len(),
            forall|j: int| hi <= j < v.len() ==> class.has(#[trigger] v@[j]),
        decreases hi,
    {
        hi -= 1;
    }
    proof {
        let t = v@.skip(lo as int);
        assert forall|i: int| t.len() - (v.len() - hi) <= i < t.len() implies class.has(
            #[trigger] t[i],
        ) by {
            assert(t[i] == v@[i + lo]);
        }
        if hi > lo {
            assert(t[hi - lo - 1] == v@[hi - 1]);
        }
        lemma_trailing_is(t, class, v.len() - hi);
    }
    hi
}

/// Whether `a` and `b` are the same text.
pub fn same_text(a: &str, b: &str) -> (r: bool)
    ensures
        r == (a@ == b@),
{
    let x = chars_of(a);
    let y = chars_of(b);
    if x.len() != y.len() {
        return false;
    }
    let mut i: usize = 0;
    while i < x.len()
        invariant
            i <= x.len(),
            x.len() == y.len(),
            x@ == a@,
            y@ == b@,
            forall|j: int| 0 <= j < i ==> x@[j] == y@[j],
        decreases x.len() - i,
    {
        if x[i] != y[i] {
            return false;
        }
        i += 1;
    }
    assert(x@ =~= y@);
    true
}

/// Whether `a` comes strictly before `b` in the lexicographic order.
pub fn text_lt(a: &str, b: &str) -> (r: bool)
    ensures
        r == lex_lt(a@, b@),
{
    let x = chars_of(a);
    let y = chars_of(b);
    let mut i: usize = 0;
    proof {
        assert(x@.skip(0) =~= x@);
        assert(y@.skip(0) =~= y@);
    }
    while i < x.len() && i < y.len()
        invariant
            i <= x.len(),
            i <= y.len(),
            x@ == a@,
            y@ == b@,
            lex_lt(a@, b@) == lex_lt(x@.skip(i as int), y@.skip(i as int)),
        decreases x.len() - i,
    {
        let p = x[i];
        let q = y[i];
        proof {
            let s = x@.skip(i as int);
            let t = y@.skip(i as int);
            assert(s[0] == p && t[0] == q);
            assert(s.skip(1) =~= x@.skip(i + 1));
            assert(t.skip(1) =~= y@.skip(i + 1));
        }
        if p != q {
            proof {
                lemma_char_code(p);
                lemma_char_code(q);
            }
            return (p as u32) < (q as u32);
        }
        i += 1;
    }
    i < y.len()
}

} // verus!
