//! Text as bytes: the order of strings, and taking them apart.
use vstd::prelude::*;
use vstd::utf8::{encode_scalar, encode_utf8, encode_utf8_decode_utf8};

verus! {

/// `a` comes before `b` in the order of their bytes, the first difference deciding.
pub open spec fn lex_lt(a: Seq<u8>, b: Seq<u8>) -> bool
    decreases a.len(),
{
    if b.len() == 0 {
        false
    } else if a.len() == 0 {
        true
    } else if a[0] == b[0] {
        lex_lt(a.drop_first(), b.drop_first())
    } else {
        a[0] < b[0]
    }
}

/// `s` comes before `t` in the order of their encodings.
pub open spec fn text_lt(s: Seq<char>, t: Seq<char>) -> bool {
    lex_lt(encode_utf8(s), encode_utf8(t))
}

/// Nothing comes before itself.
pub proof fn lemma_lex_irreflexive(a: Seq<u8>)
    ensures
        !lex_lt(a, a),
    decreases a.len(),
{
    if a.len() > 0 {
        lemma_lex_irreflexive(a.drop_first());
    }
}

/// Of two different runs of bytes one comes before the other.
pub proof fn lemma_lex_connected(a: Seq<u8>, b: Seq<u8>)
    requires
        a != b,
    ensures
        lex_lt(a, b) || lex_lt(b, a),
    decreases a.len(),
{
    if a.len() > 0 && b.len() > 0 && a[0] == b[0] {
        if a.drop_first() == b.drop_first() {
            assert(a =~= seq![a[0]] + a.drop_first());
            assert(b =~= seq![b[0]] + b.drop_first());
        }
        lemma_lex_connected(a.drop_first(), b.drop_first());
    } else if a.len() == 0 && b.len() == 0 {
        assert(a =~= b);
    }
}

/// The order is transitive.
pub proof fn lemma_lex_transitive(a: Seq<u8>, b: Seq<u8>, c: Seq<u8>)
    requires
        lex_lt(a, b),
        lex_lt(b, c),
    ensures
        lex_lt(a, c),
    decreases a.len(),
{
    if a.len() > 0 && b.len() > 0 && c.len() > 0 && a[0] == b[0] && b[0] == c[0] {
        lemma_lex_transitive(a.drop_first(), b.drop_first(), c.drop_first());
    }
}

/// Different texts have different encodings.
pub proof fn lemma_encoding_is_injective(s: Seq<char>, t: Seq<char>)
    requires
        encode_utf8(s) == encode_utf8(t),
    ensures
        s == t,
{
    encode_utf8_decode_utf8(s);
    encode_utf8_decode_utf8(t);
}

/// How two texts stand to each other.
#[derive(Clone, Copy, PartialEq, Eq, Structural)]
pub enum Side {
    /// The first comes before the second.
    Before,
    /// They are equal.
    Equal,
    /// The first comes after the second.
    After,
}

/// Compares two strings in the order of their bytes.
pub fn side(s: &str, t: &str) -> (r: Side)
    ensures
        match r {
            Side::Before => text_lt(s@, t@),
            Side::Equal => s@ == t@,
            Side::After => text_lt(t@, s@),
        },
{
    let a = s.as_bytes();
    let b = t.as_bytes();
    let mut i: usize = 0;
    assert(a@.skip(0) =~= a@);
    assert(b@.skip(0) =~= b@);
    while i < a.len() && i < b.len()
        invariant
            i <= a@.len(),
            i <= b@.len(),
            a@ == encode_utf8(s@),
            b@ == encode_utf8(t@),
            a@.take(i as int) == b@.take(i as int),
            lex_lt(a@.skip(i as int), b@.skip(i as int)) == lex_lt(a@, b@),
            lex_lt(b@.skip(i as int), a@.skip(i as int)) == lex_lt(b@, a@),
        decreases a@.len() - i,
    {
        if a[i] < b[i] {
            return Side::Before;
        }
        if b[i] < a[i] {
            return Side::After;
        }
        proof {
            assert(a@.skip(i as int).drop_first() =~= a@.skip(i + 1));
            assert(b@.skip(i as int).drop_first() =~= b@.skip(i + 1));
            assert(a@.take(i + 1) =~= a@.take(i as int).push(a@[i as int]));
            assert(b@.take(i + 1) =~= b@.take(i as int).push(b@[i as int]));
        }
        i += 1;
    }
    if i < b.len() {
        Side::Before
    } else if i < a.len() {
        Side::After
    } else {
        proof {
            assert(a@.take(i as int) =~= a@);
            assert(b@.take(i as int) =~= b@);
            lemma_encoding_is_injective(s@, t@);
        }
        Side::Equal
    }
}

/// Whether two strings are equal.
pub fn same_text(s: &str, t: &str) -> (r: bool)
    ensures
        r == (s@ == t@),
{
    proof {
        lemma_lex_irreflexive(encode_utf8(s@));
    }
    match side(s, t) {
        Side::Equal => true,
        _ => false,
    }
}

/// The number of bytes in the encoding of a character that begins with the byte `b`. A byte that
/// cannot begin a character counts for itself.
pub open spec fn codepoint_len(b: u8) -> int {
    if b >= 0xF0 {
        4
    } else if b >= 0xE0 {
        3
    } else if b >= 0xC0 {
        2
    } else {
        1
    }
}

/// The number of bytes in the encoding of a character that begins with the byte `b`.
pub fn utf8_codepoint_len(b: u8) -> (r: usize)
    ensures
        r == codepoint_len(b),
{
    if b >= 0xF0 {
        4
    } else if b >= 0xE0 {
        3
    } else if b >= 0xC0 {
        2
    } else {
        1
    }
}

/// The first byte of a character's encoding tells its length.
pub proof fn law_first_byte_tells_length(s: Seq<char>)
    requires
        s.len() > 0,
    ensures
        encode_utf8(s).len() > 0,
        codepoint_len(encode_utf8(s)[0]) == encode_scalar(s[0] as u32).len(),
{
    vstd::utf8::encode_utf8_first_scalar(s);
}

/// Splits a string after its first character.
pub fn split_first(s: &str) -> (r: (&str, &str))
    requires
        s@.len() > 0,
    ensures
        r.0@ == seq![s@[0]],
        r.1@ == s@.drop_first(),
{
    let bytes = s.as_bytes();
    proof {
        law_first_byte_tells_length(s@);
    }
    let n: usize = utf8_codepoint_len(bytes[0]);
    let ghost b = bytes@;
    let ghost first = encode_scalar(s@[0] as u32);
    let ghost rest = encode_utf8(s@.drop_first());
    proof {
        assert(b == first + rest);
        vstd::utf8::encode_utf8_first_scalar(s@);
        vstd::utf8::encode_utf8_valid_utf8(s@);
        vstd::utf8::encode_utf8_valid_utf8(s@.drop_first());
        assert(vstd::utf8::pop_first_scalar(b) =~= rest);
        vstd::utf8::is_char_boundary_start_end_of_seq(rest);
        assert(vstd::utf8::is_char_boundary(b, n as int));
    }
    let r = s.split_at(n);
    proof {
        let one = seq![s@[0]];
        assert(one.drop_first() =~= Seq::<char>::empty());
        assert(encode_utf8(one) =~= first + encode_utf8(Seq::<char>::empty()));
        assert(encode_utf8(one) =~= first);
        assert(b.subrange(0, n as int) =~= first);
        assert(b.subrange(n as int, b.len() as int) =~= rest);
        lemma_encoding_is_injective(r.0@, one);
        lemma_encoding_is_injective(r.1@, s@.drop_first());
    }
    r
}

/// The first byte in which two texts differ decides their order, and a text comes before every
/// longer text that begins with it.
pub proof fn law_first_difference_decides(
    common: Seq<u8>,
    x: u8,
    y: u8,
    rest: Seq<u8>,
    other: Seq<u8>,
)
    ensures
        x < y ==> lex_lt(common.push(x) + rest, common.push(y) + other),
        x > y ==> !lex_lt(common.push(x) + rest, common.push(y) + other),
        lex_lt(common, common.push(x) + rest),
        !lex_lt(common.push(x) + rest, common),
    decreases common.len(),
{
    let a = common.push(x) + rest;
    let b = common.push(y) + other;
    if common.len() > 0 {
        let less = common.drop_first();
        law_first_difference_decides(less, x, y, rest, other);
        assert(a.drop_first() =~= less.push(x) + rest);
        assert(b.drop_first() =~= less.push(y) + other);
        assert(a[0] == common[0] && b[0] == common[0]);
    } else {
        assert(a[0] == x && b[0] == y);
    }
}

/// The ones that a byte begins with say how many bytes belong to it: two, three or four, and one
/// byte where it begins with a zero or is no first byte.
pub proof fn law_leading_ones_tell_length(b: u8)
    ensures
        b >> 7 == 0 ==> codepoint_len(b) == 1,
        b >> 6 == 0b10 ==> codepoint_len(b) == 1,
        b >> 5 == 0b110 ==> codepoint_len(b) == 2,
        b >> 4 == 0b1110 ==> codepoint_len(b) == 3,
        b >> 4 == 0b1111 ==> codepoint_len(b) == 4,
{
    assert(b >> 7 == 0 ==> b < 0xC0) by (bit_vector);
    assert(b >> 6 == 0b10 ==> b < 0xC0) by (bit_vector);
    assert(b >> 5 == 0b110 ==> 0xC0 <= b < 0xE0) by (bit_vector);
    assert(b >> 4 == 0b1110 ==> 0xE0 <= b < 0xF0) by (bit_vector);
    assert(b >> 4 == 0b1111 ==> b >= 0xF0) by (bit_vector);
}

} // verus!
