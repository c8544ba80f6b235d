//! Byte offsets of scalars inside UTF-8 text.
use vstd::prelude::*;
use vstd::string::StringSliceAdditionalSpecFns;
use vstd::utf8::*;

verus! {

/// Number of bytes that one scalar occupies in UTF-8.
pub open spec fn scalar_width(c: char) -> int {
    let v = c as u32;
    if v < 0x80 {
        1
    } else if v < 0x800 {
        2
    } else if v < 0x10000 {
        3
    } else {
        4
    }
}

/// Byte offset at which the scalar with index `n` starts in the UTF-8
/// encoding of `s`; for `n == s.len()` this is the encoded length.
pub open spec fn byte_offset(s: Seq<char>, n: int) -> int
    decreases n,
{
    if n <= 0 {
        0
    } else {
        byte_offset(s, n - 1) + scalar_width(s[n - 1])
    }
}

/// The byte range `start..end` covers whole scalars of `s`.
pub open spec fn is_scalar_range(s: Seq<char>, start: int, end: int) -> bool {
    exists|a: int, b: int|
        #![trigger byte_offset(s, a), byte_offset(s, b)]
        0 <= a <= b <= s.len() && start == byte_offset(s, a) && end == byte_offset(s, b)
}

/// The scalars that the bytes `start..end` of the encoding of `s` encode.
pub open spec fn piece(s: Seq<char>, start: int, end: int) -> Seq<char> {
    decode_utf8(encode_utf8(s).subrange(start, end))
}

/// UTF-8 width of a scalar.
pub fn char_width(c: char) -> (w: usize)
    ensures
        w == scalar_width(c),
        1 <= w <= 4,
{
    let v: u32 = c as u32;
    if v < 0x80 {
        1
    } else if v < 0x800 {
        2
    } else if v < 0x10000 {
        3
    } else {
        4
    }
}

/// The width of a scalar is the length of its encoding.
pub proof fn lemma_scalar_width_encode(c: char)
    ensures
        encode_scalar(c as u32).len() == scalar_width(c),
{
    char_is_scalar(c);
}

/// Offsets grow with the index, by at least one byte per scalar.
pub proof fn lemma_byte_offset_monotone(s: Seq<char>, a: int, b: int)
    requires
        0 <= a <= b,
    ensures
        byte_offset(s, a) + (b - a) <= byte_offset(s, b),
        0 <= byte_offset(s, a),
    decreases b,
{
    if a < b {
        lemma_byte_offset_monotone(s, a, b - 1);
    } else if a > 0 {
        lemma_byte_offset_monotone(s, a - 1, a - 1);
        lemma_byte_offset_monotone(s, 0, a - 1);
    }
}

/// Offsets depend only on the scalars before the index.
pub proof fn lemma_byte_offset_prefix(s: Seq<char>, t: Seq<char>, n: int)
    requires
        0 <= n <= s.len(),
        n <= t.len(),
        s.subrange(0, n) == t.subrange(0, n),
    ensures
        byte_offset(s, n) == byte_offset(t, n),
    decreases n,
{
    if n > 0 {
        assert(s.subrange(0, n - 1) == s.subrange(0, n).subrange(0, n - 1));
        assert(t.subrange(0, n - 1) == t.subrange(0, n).subrange(0, n - 1));
        assert(s[n - 1] == s.subrange(0, n)[n - 1]);
        assert(t[n - 1] == t.subrange(0, n)[n - 1]);
        lemma_byte_offset_prefix(s, t, n - 1);
    }
}

/// An offset past index `a` is the offset of `a` plus an offset inside the tail.
pub proof fn lemma_byte_offset_tail(s: Seq<char>, a: int, j: int)
    requires
        0 <= a,
        0 <= j,
        a + j <= s.len(),
    ensures
        byte_offset(s, a + j) == byte_offset(s, a) + byte_offset(s.subrange(a, s.len() as int), j),
    decreases j,
{
    if j > 0 {
        lemma_byte_offset_tail(s, a, j - 1);
        assert(s.subrange(a, s.len() as int)[j - 1] == s[a + j - 1]);
    }
}

/// The encoding of two texts in a row is their encodings in a row.
pub proof fn lemma_encode_concat(a: Seq<char>, b: Seq<char>)
    ensures
        encode_utf8(a + b) == encode_utf8(a) + encode_utf8(b),
    decreases a.len(),
{
    if a.len() == 0 {
        assert(a + b == b);
        assert(encode_utf8(a) + encode_utf8(b) == encode_utf8(b));
    } else {
        assert((a + b).drop_first() == a.drop_first() + b);
        lemma_encode_concat(a.drop_first(), b);
        assert(encode_utf8(a + b) == encode_scalar(a[0] as u32) + (encode_utf8(a.drop_first())
            + encode_utf8(b)));
        assert(encode_utf8(a + b) == encode_utf8(a) + encode_utf8(b));
    }
}

/// The encoded length of a text is the offset of its end.
pub proof fn lemma_encoded_len(s: Seq<char>)
    ensures
        encode_utf8(s).len() == byte_offset(s, s.len() as int),
    decreases s.len(),
{
    if s.len() > 0 {
        let n = s.len() as int;
        lemma_encoded_len(s.drop_first());
        lemma_scalar_width_encode(s[0]);
        lemma_byte_offset_tail(s, 1, n - 1);
        assert(s.subrange(1, n) == s.drop_first());
        assert(byte_offset(s, 1) == byte_offset(s, 0) + scalar_width(s[0]));
    }
}

/// Every scalar start is a character boundary of the encoding.
pub proof fn lemma_offset_is_boundary(s: Seq<char>, a: int)
    requires
        0 <= a <= s.len(),
    ensures
        is_char_boundary(encode_utf8(s), byte_offset(s, a)),
    decreases a,
{
    let bytes = encode_utf8(s);
    encode_utf8_valid_utf8(s);
    if a > 0 {
        let n = s.len() as int;
        let rest = s.drop_first();
        encode_utf8_first_scalar(s);
        lemma_scalar_width_encode(s[0]);
        assert(pop_first_scalar(bytes) == encode_utf8(rest));
        lemma_byte_offset_tail(s, 1, a - 1);
        assert(s.subrange(1, n) == rest);
        assert(byte_offset(s, 1) == byte_offset(s, 0) + scalar_width(s[0]));
        lemma_offset_is_boundary(rest, a - 1);
        lemma_byte_offset_monotone(s, 1, a);
        lemma_byte_offset_monotone(s, a, n);
        lemma_encoded_len(s);
    }
}

/// The encoding of `s` cut at the offset of index `a` is the encoding of the
/// first `a` scalars followed by the encoding of the others.
pub proof fn lemma_encode_split(s: Seq<char>, a: int)
    requires
        0 <= a <= s.len(),
    ensures
        encode_utf8(s).subrange(0, byte_offset(s, a)) == encode_utf8(s.subrange(0, a)),
        encode_utf8(s).subrange(byte_offset(s, a), encode_utf8(s).len() as int) == encode_utf8(
            s.subrange(a, s.len() as int),
        ),
        0 <= byte_offset(s, a) <= encode_utf8(s).len(),
{
    let head = s.subrange(0, a);
    let tail = s.subrange(a, s.len() as int);
    assert(s == head + tail);
    lemma_encode_concat(head, tail);
    lemma_encoded_len(head);
    lemma_encoded_len(s);
    assert(head.subrange(0, a) == s.subrange(0, a));
    lemma_byte_offset_prefix(head, s, a);
    lemma_byte_offset_monotone(s, a, s.len() as int);
    lemma_byte_offset_monotone(s, 0, a);
    assert(encode_utf8(s).subrange(0, byte_offset(s, a)) == encode_utf8(head));
    assert(encode_utf8(s).subrange(byte_offset(s, a), encode_utf8(s).len() as int) == encode_utf8(
        tail,
    ));
}

/// Two texts with the same encoding are the same text.
pub proof fn lemma_encode_injective(s: Seq<char>, t: Seq<char>)
    requires
        encode_utf8(s) == encode_utf8(t),
    ensures
        s == t,
{
    encode_utf8_decode_utf8(s);
    encode_utf8_decode_utf8(t);
}

/// The bytes between the offsets of the scalars `a` and `b` encode the
/// scalars from `a` to `b`.
pub proof fn lemma_piece(s: Seq<char>, a: int, b: int)
    requires
        0 <= a <= b <= s.len(),
    ensures
        piece(s, byte_offset(s, a), byte_offset(s, b)) == s.subrange(a, b),
        encode_utf8(s).subrange(byte_offset(s, a), byte_offset(s, b)) == encode_utf8(
            s.subrange(a, b),
        ),
{
    let head = s.subrange(0, b);
    lemma_encode_split(s, b);
    assert(head.subrange(0, a) == s.subrange(0, a));
    lemma_byte_offset_prefix(head, s, a);
    lemma_encode_split(head, a);
    lemma_byte_offset_monotone(s, a, b);
    lemma_encoded_len(head);
    assert(head.subrange(0, b) == s.subrange(0, b));
    lemma_byte_offset_prefix(head, s, b);
    assert(head.subrange(a, head.len() as int) == s.subrange(a, b));
    assert(encode_utf8(s).subrange(byte_offset(s, a), byte_offset(s, b)) == encode_utf8(
        s,
    ).subrange(0, byte_offset(s, b)).subrange(byte_offset(s, a), byte_offset(s, b)));
    encode_utf8_decode_utf8(s.subrange(a, b));
}

/// The part of `text` between two byte offsets that lie at scalars.
pub fn slice_of<'a>(text: &'a str, start: usize, end: usize) -> (part: &'a str)
    requires
        is_scalar_range(text@, start as int, end as int),
    ensures
        part@ == piece(text@, start as int, end as int),
{
    let ghost s = text@;
    let ghost (a, b) = choose|a: int, b: int|
        #![trigger byte_offset(s, a), byte_offset(s, b)]
        0 <= a <= b <= s.len() && start == byte_offset(s, a) && end == byte_offset(s, b);
    proof {
        lemma_offset_is_boundary(s, b);
        lemma_encode_split(s, b);
    }
    let (head, _) = text.split_at(end);
    proof {
        lemma_encode_injective(head@, s.subrange(0, b));
        assert(head@.subrange(0, a) == s.subrange(0, a));
        lemma_byte_offset_prefix(head@, s, a);
        lemma_offset_is_boundary(head@, a);
        lemma_encode_split(head@, a);
    }
    let (_, part) = head.split_at(start);
    proof {
        lemma_encode_injective(part@, head@.subrange(a, head@.len() as int));
        assert(head@.subrange(a, head@.len() as int) == s.subrange(a, b));
        lemma_piece(s, a, b);
    }
    part
}

} // verus!
