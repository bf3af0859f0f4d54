//! Byte-level helpers for the bounded text field of a record.

use vstd::prelude::*;
use vstd::utf8::*;

use crate::codec::trim_zeros;

verus! {

broadcast use vstd::string::group_string_axioms;

/// Relies on `String::from_utf8`: it succeeds exactly on valid UTF-8 and the
/// resulting string holds the characters those bytes encode.
#[verifier::external_body]
pub(crate) fn string_from_utf8(bytes: Vec<u8>) -> (r: Option<String>)
    ensures
        r is Some <==> valid_utf8(bytes@),
        r matches Some(s) ==> s@ == decode_utf8(bytes@),
{
    String::from_utf8(bytes).ok()
}

/// The bytes of the UTF-8 encoding of a text.
pub open spec fn text_bytes(t: Seq<char>) -> Seq<u8> {
    encode_utf8(t)
}

/// Copies the UTF-8 bytes of a string into a vector.
pub fn bytes_of(s: &String) -> (r: Vec<u8>)
    ensures
        r@ == text_bytes(s@),
{
    let b = s.as_str().as_bytes();
    let mut r: Vec<u8> = Vec::new();
    let mut i: usize = 0;
    while i < b.len()
        invariant
            b@ == text_bytes(s@),
            i <= b@.len(),
            r@ == b@.subrange(0, i as int),
        decreases b@.len() - i,
    {
        r.push(b[i]);
        i = i + 1;
        assert(r@ =~= b@.subrange(0, i as int));
    }
    assert(r@ =~= b@);
    r
}

/// The characters named by a sequence of ASCII bytes.
pub open spec fn ascii_chars(b: Seq<u8>) -> Seq<char> {
    Seq::new(b.len(), |i: int| b[i] as char)
}

/// Builds a string out of ASCII bytes.
pub fn ascii_string(bytes: Vec<u8>) -> (r: String)
    requires
        forall|i: int| 0 <= i < bytes@.len() ==> bytes@[i] < 128,
    ensures
        r@ == ascii_chars(bytes@),
{
    let ghost c = ascii_chars(bytes@);
    proof {
        assert(is_ascii_chars(c));
        is_ascii_chars_encode_utf8(c);
        assert(encode_utf8(c) =~= bytes@);
        encode_utf8_valid_utf8(c);
        encode_utf8_decode_utf8(c);
    }
    match string_from_utf8(bytes) {
        Some(s) => s,
        None => String::new(),
    }
}

/// Width in bytes of the stored text of a record.
pub const TEXT_LEN: usize = 96;

/// `n` null characters.
pub open spec fn nulls(n: nat) -> Seq<char> {
    Seq::new(n, |i: int| '\0')
}

/// `n` zero bytes.
pub open spec fn zeros(n: nat) -> Seq<u8> {
    Seq::new(n, |i: int| 0u8)
}

/// A text followed by as many null characters as make its encoding
/// `TEXT_LEN` bytes long.
pub open spec fn padded(t: Seq<char>) -> Seq<char> {
    t + nulls((TEXT_LEN - text_bytes(t).len()) as nat)
}

pub proof fn lemma_encode_concat(a: Seq<char>, b: Seq<char>)
    ensures
        encode_utf8(a + b) == encode_utf8(a) + encode_utf8(b),
    decreases a.len(),
{
    if a.len() == 0 {
        assert(a + b =~= b);
        assert(encode_utf8(a) + encode_utf8(b) =~= encode_utf8(b));
    } else {
        assert((a + b).drop_first() =~= a.drop_first() + b);
        lemma_encode_concat(a.drop_first(), b);
        assert(encode_utf8(a + b) =~= encode_utf8(a) + encode_utf8(b));
    }
}

pub proof fn lemma_encode_nulls(n: nat)
    ensures
        encode_utf8(nulls(n)) == zeros(n),
{
    assert(is_ascii_chars(nulls(n)));
    is_ascii_chars_encode_utf8(nulls(n));
    assert(encode_utf8(nulls(n)) =~= zeros(n));
}

/// Pads a text with null characters up to `TEXT_LEN` bytes.
pub fn pad_text(t: &String) -> (r: String)
    requires
        text_bytes(t@).len() <= TEXT_LEN,
    ensures
        r@ == padded(t@),
        text_bytes(r@).len() == TEXT_LEN,
{
    let mut b = bytes_of(t);
    let n0 = b.len();
    while b.len() < TEXT_LEN
        invariant
            n0 == text_bytes(t@).len(),
            n0 <= b@.len() <= TEXT_LEN,
            b@ == text_bytes(t@) + zeros((b@.len() - n0) as nat),
        decreases TEXT_LEN - b@.len(),
    {
        b.push(0u8);
        assert(b@ =~= text_bytes(t@) + zeros((b@.len() - n0) as nat));
    }
    let ghost p = padded(t@);
    proof {
        lemma_encode_nulls((TEXT_LEN - n0) as nat);
        lemma_encode_concat(t@, nulls((TEXT_LEN - n0) as nat));
        assert(b@ == encode_utf8(p));
        encode_utf8_valid_utf8(p);
        encode_utf8_decode_utf8(p);
    }
    match string_from_utf8(b) {
        Some(s) => s,
        None => String::new(),
    }
}

/// `t` without its trailing null characters.
pub open spec fn trim_nulls(t: Seq<char>) -> Seq<char>
    decreases t.len(),
{
    if t.len() > 0 && t.last() == '\0' {
        trim_nulls(t.drop_last())
    } else {
        t
    }
}

/// Cutting the trailing zero bytes of an encoding cuts the trailing null
/// characters of the text: no other character ends in a zero byte.
pub proof fn lemma_trim_encode(t: Seq<char>)
    ensures
        trim_zeros(encode_utf8(t)) == encode_utf8(trim_nulls(t)),
    decreases t.len(),
{
    if t.len() > 0 {
        let c = t.last();
        let init = t.drop_last();
        lemma_encode_concat(init, seq![c]);
        assert(init + seq![c] =~= t);
        assert(seq![c].drop_first() =~= Seq::<char>::empty());
        let e = encode_utf8(seq![c]);
        assert(e == encode_scalar(c as u32) + encode_utf8(Seq::<char>::empty()));
        assert(e =~= encode_scalar(c as u32));
        let v = c as u32;
        char_is_scalar(c);
        if c == '\0' {
            assert(v == 0);
            assert(((0u32 & 0x7Fu32) as u8) == 0u8) by (bit_vector);
            assert(encode_utf8(t) =~= encode_utf8(init).push(0u8));
            assert(encode_utf8(t).drop_last() =~= encode_utf8(init));
            lemma_trim_encode(init);
        } else {
            assert(v != 0) by {
                char_u32_cast(c, v);
            }
            if has_width_1_encoding(v) {
                assert(0 < v <= 0x7F ==> ((v & 0x7Fu32) as u8) != 0u8) by (bit_vector);
            } else {
                let w = (v & 0x3Fu32) as u8;
                assert((0x80u8 | w) != 0u8) by (bit_vector);
            }
            assert(encode_utf8(t).last() != 0);
        }
    }
}

} // verus!
