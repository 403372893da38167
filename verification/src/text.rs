//! Text handling shared by the ledger, tree and reference formats: conversion
//! between `String` and character vectors, splitting on a separator, and
//! splitting into whitespace-separated fields.
use vstd::prelude::*;

verus! {

/// The characters that separate fields: the Unicode `White_Space` code points.
pub open spec fn is_whitespace(c: char) -> bool {
    let n = c as u32;
    (0x09 <= n <= 0x0d) || n == 0x20 || n == 0x85 || n == 0xa0 || n == 0x1680 || (0x2000 <= n
        <= 0x200a) || n == 0x2028 || n == 0x2029 || n == 0x202f || n == 0x205f || n == 0x3000
}

/// Whether a character separates fields.
pub fn char_is_whitespace(c: char) -> (r: bool)
    ensures
        r == is_whitespace(c),
{
    let n: u32 = c as u32;
    (0x09 <= n && n <= 0x0d) || n == 0x20 || n == 0x85 || n == 0xa0 || n == 0x1680 || (0x2000
        <= n && n <= 0x200a) || n == 0x2028 || n == 0x2029 || n == 0x202f || n == 0x205f || n
        == 0x3000
}

/// `String::push` appends exactly the given character.
pub assume_specification[ String::push ](s: &mut String, c: char)
    ensures
        final(s)@ == old(s)@.push(c),
;

/// The characters of a string, in order.
pub fn to_chars(s: &str) -> (v: Vec<char>)
    ensures
        v@ == s@,
{
    let mut v: Vec<char> = Vec::new();
    for c in it: s.chars()
        invariant
            v@ == it.seq().take(it.index() as int),
            it.seq() == s@,
    {
        v.push(c);
    }
    v
}

/// The string made of the given characters, in order.
pub fn from_chars(v: &Vec<char>) -> (s: String)
    ensures
        s@ == v@,
{
    let mut s = String::new();
    let mut i: usize = 0;
    while i < v.len()
        invariant
            i <= v.len(),
            s@ == v@.take(i as int),
        decreases v.len() - i,
    {
        s.push(v[i]);
        i = i + 1;
    }
    s
}

/// Whether two texts hold the same characters.
pub fn same_text(a: &str, b: &str) -> (r: bool)
    ensures
        r == (a@ == b@),
{
    let x = to_chars(a);
    let y = to_chars(b);
    if x.len() != y.len() {
        return false;
    }
    let mut i: usize = 0;
    while i < x.len()
        invariant
            i <= x.len(),
            x.len() == y.len(),
            x@ == a@,
            y@ == b@,
            forall|j: int| 0 <= j < i ==> x@[j] == y@[j],
        decreases x.len() - i,
    {
        if x[i] != y[i] {
            assert(a@[i as int] != b@[i as int]);
            return false;
        }
        i = i + 1;
    }
    assert(x@ =~= y@);
    true
}

/// The bytes of a text: its UTF-8 encoding.
pub open spec fn text_bytes(text: Seq<char>) -> Seq<u8> {
    vstd::utf8::encode_utf8(text)
}

/// The UTF-8 encoding of a text.
pub fn to_bytes(text: &str) -> (v: Vec<u8>)
    ensures
        v@ == text_bytes(text@),
{
    text.as_bytes_vec()
}

/// The views of a sequence of strings.
pub open spec fn views(v: Seq<String>) -> Seq<Seq<char>> {
    Seq::new(v.len(), |i: int| v[i]@)
}

/// What a text is split at: one given character, or any whitespace character.
#[derive(Clone, Copy, Debug)]
pub enum Separator {
    Char(char),
    Whitespace,
}

impl Separator {
    /// Whether `c` is a separator.
    pub open spec fn matches(self, c: char) -> bool {
        match self {
            Separator::Char(s) => c == s,
            Separator::Whitespace => is_whitespace(c),
        }
    }

    /// Whether `c` is a separator.
    pub fn test(&self, c: char) -> (r: bool)
        ensures
            r == self.matches(c),
    {
        match self {
            Separator::Char(s) => c == *s,
            Separator::Whitespace => char_is_whitespace(c),
        }
    }
}

/// No character of `s` is a separator.
pub open spec fn free_of(s: Seq<char>, sep: Separator) -> bool {
    forall|i: int| 0 <= i < s.len() ==> !sep.matches(#[trigger] s[i])
}

/// The segments of `s` from position `pos` on, where the segment in progress
/// began at `start`.
pub open spec fn split_from(s: Seq<char>, sep: Separator, pos: int, start: int) -> Seq<Seq<char>>
    decreases s.len() - pos,
{
    if pos >= s.len() {
        seq![s.subrange(start, s.len() as int)]
    } else if sep.matches(s[pos]) {
        seq![s.subrange(start, pos)] + split_from(s, sep, pos + 1, pos + 1)
    } else {
        split_from(s, sep, pos + 1, start)
    }
}

/// The segments between separators. A text with `n` separators has `n + 1`
/// segments, some of which may be empty.
pub open spec fn split(s: Seq<char>, sep: Separator) -> Seq<Seq<char>> {
    split_from(s, sep, 0, 0)
}

/// The non-empty members of `segments`, in order.
pub open spec fn drop_empty(segments: Seq<Seq<char>>) -> Seq<Seq<char>>
    decreases segments.len(),
{
    if segments.len() == 0 {
        Seq::empty()
    } else if segments.last().len() == 0 {
        drop_empty(segments.drop_last())
    } else {
        drop_empty(segments.drop_last()).push(segments.last())
    }
}

/// The whitespace-separated fields of a text: its maximal runs of
/// non-whitespace characters.
pub open spec fn fields(s: Seq<char>) -> Seq<Seq<char>> {
    drop_empty(split(s, Separator::Whitespace))
}

/// A text that is not empty and holds no whitespace: it survives as one field.
pub open spec fn is_token(s: Seq<char>) -> bool {
    s.len() > 0 && free_of(s, Separator::Whitespace)
}

proof fn lemma_split_from_shift(
    x: Seq<char>,
    y: Seq<char>,
    sep: Separator,
    pos: int,
    start: int,
)
    requires
        0 <= start <= pos <= y.len(),
    ensures
        split_from(x + y, sep, x.len() + pos, x.len() + start) == split_from(y, sep, pos, start),
    decreases y.len() - pos,
{
    let s = x + y;
    let n = x.len() as int;
    if pos >= y.len() {
        assert(s.subrange(n + start, s.len() as int) =~= y.subrange(start, y.len() as int));
    } else {
        assert(s[n + pos] == y[pos]);
        if sep.matches(y[pos]) {
            assert(s.subrange(n + start, n + pos) =~= y.subrange(start, pos));
            lemma_split_from_shift(x, y, sep, pos + 1, pos + 1);
        } else {
            lemma_split_from_shift(x, y, sep, pos + 1, start);
        }
    }
}

proof fn lemma_split_from_join(
    x: Seq<char>,
    c: char,
    y: Seq<char>,
    sep: Separator,
    pos: int,
    start: int,
)
    requires
        sep.matches(c),
        0 <= start <= pos <= x.len(),
    ensures
        split_from(x + seq![c] + y, sep, pos, start) == split_from(x, sep, pos, start) + split(
            y,
            sep,
        ),
    decreases x.len() - pos,
{
    let s = x + seq![c] + y;
    if pos >= x.len() {
        assert(s[pos] == c);
        assert(s.subrange(start, pos) =~= x.subrange(start, x.len() as int));
        lemma_split_from_shift(x + seq![c], y, sep, 0, 0);
    } else {
        assert(s[pos] == x[pos]);
        if sep.matches(x[pos]) {
            assert(s.subrange(start, pos) =~= x.subrange(start, pos));
            lemma_split_from_join(x, c, y, sep, pos + 1, pos + 1);
            assert(seq![s.subrange(start, pos)] + (split_from(x, sep, pos + 1, pos + 1) + split(
                y,
                sep,
            )) =~= (seq![x.subrange(start, pos)] + split_from(x, sep, pos + 1, pos + 1)) + split(
                y,
                sep,
            ));
        } else {
            lemma_split_from_join(x, c, y, sep, pos + 1, start);
        }
    }
}

/// Splitting distributes over a separator: the segments of `x`, then those of `y`.
pub proof fn lemma_split_join(x: Seq<char>, c: char, y: Seq<char>, sep: Separator)
    requires
        sep.matches(c),
    ensures
        split(x + seq![c] + y, sep) == split(x, sep) + split(y, sep),
{
    lemma_split_from_join(x, c, y, sep, 0, 0);
}

proof fn lemma_split_from_free(s: Seq<char>, sep: Separator, pos: int)
    requires
        free_of(s, sep),
        0 <= pos <= s.len(),
    ensures
        split_from(s, sep, pos, 0) == seq![s],
    decreases s.len() - pos,
{
    if pos >= s.len() {
        assert(s.subrange(0, s.len() as int) =~= s);
    } else {
        lemma_split_from_free(s, sep, pos + 1);
    }
}

/// A text without separators is its own single segment.
pub proof fn lemma_split_free(s: Seq<char>, sep: Separator)
    requires
        free_of(s, sep),
    ensures
        split(s, sep) == seq![s],
{
    lemma_split_from_free(s, sep, 0);
}

/// Every segment is free of separators, and there is at least one segment.
pub proof fn lemma_split_segments(s: Seq<char>, sep: Separator)
    ensures
        split(s, sep).len() >= 1,
        forall|i: int| 0 <= i < split(s, sep).len() ==> free_of(#[trigger] split(s, sep)[i], sep),
{
    lemma_split_from_segments(s, sep, 0, 0);
}

proof fn lemma_split_from_segments(s: Seq<char>, sep: Separator, pos: int, start: int)
    requires
        0 <= start <= pos <= s.len(),
        free_of(s.subrange(start, pos), sep),
    ensures
        split_from(s, sep, pos, start).len() >= 1,
        forall|i: int|
            0 <= i < split_from(s, sep, pos, start).len() ==> free_of(
                #[trigger] split_from(s, sep, pos, start)[i],
                sep,
            ),
    decreases s.len() - pos,
{
    if pos >= s.len() {
    } else if sep.matches(s[pos]) {
        assert(s.subrange(pos + 1, pos + 1) =~= Seq::<char>::empty());
        lemma_split_from_segments(s, sep, pos + 1, pos + 1);
    } else {
        assert forall|i: int| 0 <= i < pos + 1 - start implies !sep.matches(
            #[trigger] s.subrange(start, pos + 1)[i],
        ) by {
            if i < pos - start {
                assert(s.subrange(start, pos)[i] == s[start + i]);
            }
        }
        lemma_split_from_segments(s, sep, pos + 1, start);
    }
}

/// Dropping empty segments, one segment at a time.
pub proof fn lemma_drop_empty_push(segments: Seq<Seq<char>>, last: Seq<char>)
    ensures
        drop_empty(segments.push(last)) == if last.len() == 0 {
            drop_empty(segments)
        } else {
            drop_empty(segments).push(last)
        },
{
    assert(segments.push(last).drop_last() =~= segments);
}

/// Two tokens joined by one whitespace character are read back as two fields.
pub proof fn lemma_fields_pair(a: Seq<char>, c: char, b: Seq<char>)
    requires
        is_token(a),
        is_token(b),
        is_whitespace(c),
    ensures
        fields(a + seq![c] + b) == seq![a, b],
{
    let ws = Separator::Whitespace;
    let none = Seq::<Seq<char>>::empty();
    lemma_split_join(a, c, b, ws);
    lemma_split_free(a, ws);
    lemma_split_free(b, ws);
    assert(split(a + seq![c] + b, ws) =~= none.push(a).push(b));
    lemma_drop_empty_push(none, a);
    lemma_drop_empty_push(none.push(a), b);
    assert(none.push(a).push(b) =~= seq![a, b]);
}

/// An empty text has no fields.
pub proof fn lemma_fields_empty()
    ensures
        fields(Seq::<char>::empty()) == Seq::<Seq<char>>::empty(),
{
    let e = Seq::<char>::empty();
    let none = Seq::<Seq<char>>::empty();
    assert(split(e, Separator::Whitespace) =~= none.push(e)) by {
        assert(e.subrange(0, 0) =~= e);
    }
    lemma_drop_empty_push(none, e);
}

/// Every field is a token.
pub proof fn lemma_fields_are_tokens(s: Seq<char>)
    ensures
        forall|i: int| 0 <= i < fields(s).len() ==> is_token(#[trigger] fields(s)[i]),
{
    lemma_split_segments(s, Separator::Whitespace);
    lemma_drop_empty_keeps(split(s, Separator::Whitespace));
}

proof fn lemma_drop_empty_keeps(segments: Seq<Seq<char>>)
    requires
        forall|i: int|
            0 <= i < segments.len() ==> free_of(#[trigger] segments[i], Separator::Whitespace),
    ensures
        forall|i: int|
            0 <= i < drop_empty(segments).len() ==> is_token(#[trigger] drop_empty(segments)[i]),
    decreases segments.len(),
{
    if segments.len() > 0 {
        let init = segments.drop_last();
        let last = segments.last();
        assert forall|i: int| 0 <= i < init.len() implies free_of(
            #[trigger] init[i],
            Separator::Whitespace,
        ) by {
            assert(init[i] == segments[i]);
        }
        lemma_drop_empty_keeps(init);
        assert(free_of(segments[segments.len() - 1], Separator::Whitespace));
        assert forall|i: int| 0 <= i < drop_empty(segments).len() implies is_token(
            #[trigger] drop_empty(segments)[i],
        ) by {
            if last.len() != 0 && i == drop_empty(init).len() {
                assert(drop_empty(segments)[i] == last);
            } else {
                assert(drop_empty(segments)[i] == drop_empty(init)[i]);
            }
        }
    }
}

/// Splits a text at every separator.
pub fn split_text(text: &str, sep: Separator) -> (out: Vec<String>)
    ensures
        views(out@) == split(text@, sep),
{
    let chars = to_chars(text);
    let mut out: Vec<String> = Vec::new();
    let mut cur: Vec<char> = Vec::new();
    let ghost mut start: int = 0;
    let mut pos: usize = 0;
    while pos < chars.len()
        invariant
            chars@ == text@,
            0 <= start <= pos <= chars.len(),
            cur@ == chars@.subrange(start, pos as int),
            split(text@, sep) == views(out@) + split_from(text@, sep, pos as int, start),
        decreases chars.len() - pos,
    {
        let c = chars[pos];
        if sep.test(c) {
            let segment = from_chars(&cur);
            proof {
                assert(views(out@.push(segment)) =~= views(out@) + seq![segment@]);
                assert(views(out@) + (seq![segment@] + split_from(
                    text@,
                    sep,
                    pos + 1,
                    pos + 1,
                )) =~= (views(out@) + seq![segment@]) + split_from(text@, sep, pos + 1, pos + 1));
            }
            out.push(segment);
            cur = Vec::new();
            proof {
                start = pos + 1;
                assert(cur@ =~= chars@.subrange(start, pos + 1));
            }
        } else {
            cur.push(c);
            assert(cur@ =~= chars@.subrange(start, pos + 1));
        }
        pos = pos + 1;
    }
    let segment = from_chars(&cur);
    proof {
        assert(views(out@.push(segment)) =~= views(out@) + seq![segment@]);
    }
    out.push(segment);
    out
}

/// Splits a text into its whitespace-separated fields.
pub fn split_fields(text: &str) -> (out: Vec<String>)
    ensures
        views(out@) == fields(text@),
{
    let segments = split_text(text, Separator::Whitespace);
    let mut out: Vec<String> = Vec::new();
    let mut i: usize = 0;
    while i < segments.len()
        invariant
            i <= segments.len(),
            views(out@) == drop_empty(views(segments@).take(i as int)),
        decreases segments.len() - i,
    {
        proof {
            let all = views(segments@);
            assert(all.take(i + 1).drop_last() =~= all.take(i as int));
            assert(all.take(i + 1).last() == segments@[i as int]@);
        }
        if segments[i].as_str().unicode_len() > 0 {
            let field = segments[i].clone();
            proof {
                assert(views(out@.push(field)) =~= views(out@).push(field@));
            }
            out.push(field);
        }
        i = i + 1;
    }
    proof {
        assert(views(segments@).take(segments.len() as int) =~= views(segments@));
    }
    out
}

} // verus!
