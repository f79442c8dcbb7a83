//! Character classes of the stylesheet grammar, and the scanning primitives
//! that the parsers are built from.
use vstd::prelude::*;

verus! {

/// Whether `c` lies outside the ASCII range (code point above 127).
pub fn is_non_ascii(c: char) -> (r: bool)
    ensures
        r == (c as u32 > 127),
{
    c as u32 > 127
}

/// The classes of characters that the grammar distinguishes.
#[derive(Clone, Copy, PartialEq, Eq, Structural, Debug)]
pub enum CharClass {
    /// Blank between tokens: space, tab, line feed, carriage return.
    Space,
    /// Characters that `trim` removes: the Unicode `White_Space` property.
    White,
    /// Characters that may follow the first one of an identifier.
    Ident,
    /// Characters of a raw declaration value: all but `;`, `{`, `}` and `!`.
    Value,
    /// What separates declarations: blanks and `;`.
    Separator,
    /// Characters of a raw selector: all but `{`.
    Selector,
}

pub open spec fn is_space_char(c: char) -> bool {
    c == ' ' || c == '\t' || c == '\n' || c == '\r'
}

/// The Unicode `White_Space` property, as listed by the Unicode standard.
pub open spec fn is_white_space(c: char) -> bool {
    let u = c as u32;
    (0x09 <= u && u <= 0x0d) || u == 0x20 || u == 0x85 || u == 0xa0 || u == 0x1680 || (0x2000
        <= u && u <= 0x200a) || u == 0x2028 || u == 0x2029 || u == 0x202f || u == 0x205f || u
        == 0x3000
}

pub open spec fn is_ascii_letter(c: char) -> bool {
    let u = c as u32;
    (0x41 <= u && u <= 0x5a) || (0x61 <= u && u <= 0x7a)
}

pub open spec fn is_ascii_digit(c: char) -> bool {
    let u = c as u32;
    0x30 <= u && u <= 0x39
}

/// First character of an identifier: a letter, `_`, `-` or any non-ASCII character.
pub open spec fn is_ident_start(c: char) -> bool {
    is_ascii_letter(c) || c == '_' || c == '-' || c as u32 > 127
}

pub open spec fn in_class(c: char, k: CharClass) -> bool {
    match k {
        CharClass::Space => is_space_char(c),
        CharClass::White => is_white_space(c),
        CharClass::Ident => is_ident_start(c) || is_ascii_digit(c),
        CharClass::Value => c != ';' && c != '{' && c != '}' && c != '!',
        CharClass::Separator => is_space_char(c) || c == ';',
        CharClass::Selector => c != '{',
    }
}

/// Length of the longest prefix of `s` whose characters are all in class `k`.
pub open spec fn span(s: Seq<char>, k: CharClass) -> nat
    decreases s.len(),
{
    if s.len() > 0 && in_class(s[0], k) {
        1 + span(s.drop_first(), k)
    } else {
        0
    }
}

/// Length of the longest suffix of `s` whose characters are all in class `k`.
pub open spec fn span_end(s: Seq<char>, k: CharClass) -> nat
    decreases s.len(),
{
    if s.len() > 0 && in_class(s.last(), k) {
        1 + span_end(s.drop_last(), k)
    } else {
        0
    }
}

/// `s` without its longest prefix of class `k`.
pub open spec fn skip_class(s: Seq<char>, k: CharClass) -> Seq<char> {
    s.skip(span(s, k) as int)
}

/// `s` without leading and trailing white space.
pub open spec fn trim(s: Seq<char>) -> Seq<char> {
    let t = skip_class(s, CharClass::White);
    t.take(t.len() - span_end(t, CharClass::White))
}

/// Neither end of `s` is white space.
pub open spec fn is_trimmed(s: Seq<char>) -> bool {
    s.len() > 0 ==> !is_white_space(s[0]) && !is_white_space(s.last())
}

/// `span` is the length of a prefix of class `k` that cannot be extended.
pub proof fn lemma_span(s: Seq<char>, k: CharClass)
    ensures
        span(s, k) <= s.len(),
        forall|i: int| 0 <= i < span(s, k) ==> in_class(#[trigger] s[i], k),
        span(s, k) < s.len() ==> !in_class(s[span(s, k) as int], k),
    decreases s.len(),
{
    if s.len() > 0 && in_class(s[0], k) {
        lemma_span(s.drop_first(), k);
        assert forall|i: int| 0 <= i < span(s, k) implies in_class(#[trigger] s[i], k) by {
            if i > 0 {
                assert(s[i] == s.drop_first()[i - 1]);
            }
        }
    }
}

/// A prefix of class `k` that cannot be extended has length `span`.
pub proof fn lemma_span_unique(s: Seq<char>, k: CharClass, n: int)
    requires
        0 <= n <= s.len(),
        forall|i: int| 0 <= i < n ==> in_class(#[trigger] s[i], k),
        n < s.len() ==> !in_class(s[n], k),
    ensures
        span(s, k) == n,
    decreases n,
{
    if n > 0 {
        let t = s.drop_first();
        assert forall|i: int| 0 <= i < n - 1 implies in_class(#[trigger] t[i], k) by {
            assert(t[i] == s[i + 1]);
        }
        if n < s.len() {
            assert(t[n - 1] == s[n]);
        }
        lemma_span_unique(t, k, n - 1);
    }
}

/// `span_end` is the length of a suffix of class `k` that cannot be extended.
pub proof fn lemma_span_end(s: Seq<char>, k: CharClass)
    ensures
        span_end(s, k) <= s.len(),
        forall|i: int|
            s.len() - span_end(s, k) <= i < s.len() ==> in_class(#[trigger] s[i], k),
        span_end(s, k) < s.len() ==> !in_class(s[s.len() - span_end(s, k) - 1], k),
    decreases s.len(),
{
    if s.len() > 0 && in_class(s.last(), k) {
        lemma_span_end(s.drop_last(), k);
        assert forall|i: int| s.len() - span_end(s, k) <= i < s.len() implies in_class(
            #[trigger] s[i],
            k,
        ) by {
            if i < s.len() - 1 {
                assert(s[i] == s.drop_last()[i]);
            }
        }
    }
}

/// A suffix of class `k` that cannot be extended has length `span_end`.
pub proof fn lemma_span_end_unique(s: Seq<char>, k: CharClass, n: int)
    requires
        0 <= n <= s.len(),
        forall|i: int| s.len() - n <= i < s.len() ==> in_class(#[trigger] s[i], k),
        n < s.len() ==> !in_class(s[s.len() - n - 1], k),
    ensures
        span_end(s, k) == n,
    decreases n,
{
    if n > 0 {
        let t = s.drop_last();
        assert forall|i: int| t.len() - (n - 1) <= i < t.len() implies in_class(
            #[trigger] t[i],
            k,
        ) by {
            assert(t[i] == s[i]);
        }
        if n < s.len() {
            assert(t[t.len() - (n - 1) - 1] == s[s.len() - n - 1]);
        }
        lemma_span_end_unique(t, k, n - 1);
    }
}

/// Every character of `s` is in class `k`.
pub open spec fn all_in_class(s: Seq<char>, k: CharClass) -> bool {
    forall|i: int| 0 <= i < s.len() ==> in_class(#[trigger] s[i], k)
}

/// Where `a` is all of class `k` and `b` does not start with it, the span of
/// `a + b` is `a`.
pub proof fn lemma_span_concat(a: Seq<char>, b: Seq<char>, k: CharClass)
    requires
        all_in_class(a, k),
        b.len() > 0 ==> !in_class(b[0], k),
    ensures
        span(a + b, k) == a.len(),
        skip_class(a + b, k) == b,
{
    let s = a + b;
    assert forall|i: int| 0 <= i < a.len() implies in_class(#[trigger] s[i], k) by {
        assert(s[i] == a[i]);
    }
    if b.len() > 0 {
        assert(s[a.len() as int] == b[0]);
    }
    lemma_span_unique(s, k, a.len() as int);
    assert(s.skip(a.len() as int) =~= b);
}

/// What `trim` keeps is a stretch of `s` with no white space at either end.
pub proof fn lemma_trim(s: Seq<char>)
    ensures
        span(s, CharClass::White) + trim(s).len() <= s.len(),
        trim(s) == s.subrange(
            span(s, CharClass::White) as int,
            (span(s, CharClass::White) + trim(s).len()) as int,
        ),
        is_trimmed(trim(s)),
{
    let a = span(s, CharClass::White);
    lemma_span(s, CharClass::White);
    let t = skip_class(s, CharClass::White);
    lemma_span_end(t, CharClass::White);
    let e = span_end(t, CharClass::White);
    assert(trim(s) =~= s.subrange(a as int, s.len() - e));
    if trim(s).len() > 0 {
        assert(trim(s)[0] == s[a as int]);
        assert(trim(s).last() == t[t.len() - e - 1]);
    }
}

/// Trimming white space around a trimmed text gives the text back.
pub proof fn lemma_trim_padded(a: Seq<char>, v: Seq<char>, b: Seq<char>)
    requires
        all_in_class(a, CharClass::White),
        all_in_class(b, CharClass::White),
        is_trimmed(v),
    ensures
        trim(a + v + b) == v,
{
    let s = a + v + b;
    if v.len() == 0 {
        assert(s =~= (a + b) + Seq::<char>::empty());
        assert forall|i: int| 0 <= i < a.len() + b.len() implies in_class(
            #[trigger] (a + b)[i],
            CharClass::White,
        ) by {
            if i >= a.len() {
                assert((a + b)[i] == b[i - a.len()]);
            }
        }
        lemma_span_concat(a + b, Seq::<char>::empty(), CharClass::White);
        assert(skip_class(s, CharClass::White).len() == 0);
        assert(trim(s) =~= v);
    } else {
        assert(s =~= a + (v + b));
        assert((v + b)[0] == v[0]);
        lemma_span_concat(a, v + b, CharClass::White);
        let t = v + b;
        assert forall|i: int| t.len() - b.len() <= i < t.len() implies in_class(
            #[trigger] t[i],
            CharClass::White,
        ) by {
            assert(t[i] == b[i - v.len()]);
        }
        assert(t[t.len() - b.len() - 1] == v.last());
        lemma_span_end_unique(t, CharClass::White, b.len() as int);
        assert(t.take(t.len() - b.len()) =~= v);
    }
}

/// The texts of `parts`, with one space between each two.
pub open spec fn join(parts: Seq<Seq<char>>) -> Seq<char>
    decreases parts.len(),
{
    if parts.len() == 0 {
        Seq::empty()
    } else if parts.len() == 1 {
        parts[0]
    } else {
        join(parts.drop_last()) + seq![' '] + parts.last()
    }
}

/// `join` seen from the front: the first text, a space, and the rest joined.
pub proof fn lemma_join_front(parts: Seq<Seq<char>>)
    requires
        parts.len() >= 2,
    ensures
        join(parts) == parts[0] + seq![' '] + join(parts.drop_first()),
    decreases parts.len(),
{
    assert(parts.drop_last()[0] == parts[0]);
    assert(parts.drop_first().last() == parts.last());
    if parts.len() == 2 {
        assert(join(parts.drop_last()) == parts[0]);
        assert(join(parts.drop_first()) == parts[1]);
    } else {
        lemma_join_front(parts.drop_last());
        assert(parts.drop_last().drop_first() =~= parts.drop_first().drop_last());
        assert(join(parts) =~= parts[0] + seq![' '] + join(parts.drop_first()));
    }
}

pub fn char_in_class(c: char, k: CharClass) -> (r: bool)
    ensures
        r == in_class(c, k),
{
    match k {
        CharClass::Space => c == ' ' || c == '\t' || c == '\n' || c == '\r',
        CharClass::White => {
            let u = c as u32;
            (0x09 <= u && u <= 0x0d) || u == 0x20 || u == 0x85 || u == 0xa0 || u == 0x1680 || (
            0x2000 <= u && u <= 0x200a) || u == 0x2028 || u == 0x2029 || u == 0x202f || u
                == 0x205f || u == 0x3000
        },
        CharClass::Ident => {
            let u = c as u32;
            (0x41 <= u && u <= 0x5a) || (0x61 <= u && u <= 0x7a) || c == '_' || c == '-'
                || is_non_ascii(c) || (0x30 <= u && u <= 0x39)
        },
        CharClass::Value => c != ';' && c != '{' && c != '}' && c != '!',
        CharClass::Separator => c == ' ' || c == '\t' || c == '\n' || c == '\r' || c == ';',
        CharClass::Selector => c != '{',
    }
}

pub fn is_ident_start_char(c: char) -> (r: bool)
    ensures
        r == is_ident_start(c),
{
    let u = c as u32;
    (0x41 <= u && u <= 0x5a) || (0x61 <= u && u <= 0x7a) || c == '_' || c == '-' || is_non_ascii(
        c,
    )
}

/// Skips the characters of class `k` from `start` on, not beyond `limit`;
/// returns where they end.
pub fn scan(v: &Vec<char>, start: usize, limit: usize, k: CharClass) -> (end: usize)
    requires
        start <= limit <= v.len(),
    ensures
        start <= end <= limit,
        end == start + span(v@.subrange(start as int, limit as int), k),
        v@.subrange(end as int, limit as int) == skip_class(
            v@.subrange(start as int, limit as int),
            k,
        ),
{
    let mut end = start;
    while end < limit && char_in_class(v[end], k)
        invariant
            start <= end <= limit <= v.len(),
            forall|i: int| start <= i < end ==> in_class(#[trigger] v@[i], k),
        decreases limit - end,
    {
        end = end + 1;
    }
    proof {
        let s = v@.subrange(start as int, limit as int);
        assert forall|i: int| 0 <= i < end - start implies in_class(#[trigger] s[i], k) by {
            assert(s[i] == v@[start + i]);
        }
        if end < limit {
            assert(s[end - start] == v@[end as int]);
        }
        lemma_span_unique(s, k, end - start);
        assert(v@.subrange(end as int, limit as int) =~= s.skip(end - start));
    }
    end
}

/// Steps back from `end` over the characters of class `k`, not below `start`.
pub fn scan_back(v: &Vec<char>, start: usize, end: usize, k: CharClass) -> (r: usize)
    requires
        start <= end <= v.len(),
    ensures
        start <= r <= end,
        r == end - span_end(v@.subrange(start as int, end as int), k),
{
    let mut r = end;
    while r > start && char_in_class(v[r - 1], k)
        invariant
            start <= r <= end <= v.len(),
            forall|i: int| r <= i < end ==> in_class(#[trigger] v@[i], k),
        decreases r - start,
    {
        r = r - 1;
    }
    proof {
        let s = v@.subrange(start as int, end as int);
        assert forall|i: int| s.len() - (end - r) <= i < s.len() implies in_class(
            #[trigger] s[i],
            k,
        ) by {
            assert(s[i] == v@[start + i]);
        }
        if r > start {
            assert(s[s.len() - (end - r) - 1] == v@[r - 1]);
        }
        lemma_span_end_unique(s, k, end - r);
    }
    r
}

/// The start and end of the part of `v[start..end]` that `trim` keeps.
pub fn trim_range(v: &Vec<char>, start: usize, end: usize) -> (r: (usize, usize))
    requires
        start <= end <= v.len(),
    ensures
        start <= r.0 <= r.1 <= end,
        v@.subrange(r.0 as int, r.1 as int) == trim(v@.subrange(start as int, end as int)),
{
    let a = scan(v, start, end, CharClass::White);
    let b = scan_back(v, a, end, CharClass::White);
    assert(v@.subrange(a as int, b as int) =~= v@.subrange(a as int, end as int).take(
        b - a,
    ));
    (a, b)
}

/// Relies on `String::push`: the character is appended at the end.
pub assume_specification[ String::push ](s: &mut String, ch: char)
    ensures
        final(s)@ == old(s)@.push(ch),
;

/// The characters `v[start..end]` as a string.
pub fn text_of(v: &Vec<char>, start: usize, end: usize) -> (r: String)
    requires
        start <= end <= v.len(),
    ensures
        r@ == v@.subrange(start as int, end as int),
{
    let mut r = String::new();
    let mut i = start;
    while i < end
        invariant
            start <= i <= end <= v.len(),
            r@ == v@.subrange(start as int, i as int),
        decreases end - i,
    {
        r.push(v[i]);
        i = i + 1;
        assert(r@ =~= v@.subrange(start as int, i as int));
    }
    r
}

/// The characters of `s`, in order.
pub fn chars_of(s: &str) -> (v: Vec<char>)
    ensures
        v@ == s@,
{
    let mut v: Vec<char> = Vec::new();
    for c in it: s.chars()
        invariant
            it.seq() == s@,
            v@ == s@.take(it.index()),
    {
        v.push(c);
    }
    v
}

} // verus!
