//! Facts that tie a sequence of characters to its UTF-8 bytes.
//!
//! The text functions of this crate scan bytes and cut at byte offsets, while
//! their contracts speak of characters. The lemmas here carry a statement
//! about bytes over to the characters they encode.

use vstd::prelude::*;
use vstd::utf8::*;

verus! {

/// The byte ranges of the encoding: a value up to 0x7f is its own byte, and
/// the leading and continuation bytes of longer encodings are 0x80 or above.
proof fn lemma_encoded_byte_ranges(s: u32)
    by (bit_vector)
    ensures
        s <= 0x7f ==> leading_byte_width_1(s) == s,
        leading_byte_width_2(s) >= 0x80,
        leading_byte_width_3(s) >= 0x80,
        leading_byte_width_4(s) >= 0x80,
        last_continuation_byte(s) >= 0x80,
        second_last_continuation_byte(s) >= 0x80,
        third_last_continuation_byte(s) >= 0x80,
{
}

/// A character below 0x80 is encoded as the one byte of the same value; every
/// byte of any other character's encoding is 0x80 or above.
pub proof fn lemma_encode_scalar_bytes(c: char)
    ensures
        1 <= encode_scalar(c as u32).len() <= 4,
        c < '\u{80}' ==> encode_scalar(c as u32).len() == 1 && encode_scalar(c as u32)[0] as char
            == c,
        c >= '\u{80}' ==> forall|j: int|
            0 <= j < encode_scalar(c as u32).len() ==> #[trigger] encode_scalar(c as u32)[j]
                >= 0x80,
{
    lemma_encoded_byte_ranges(c as u32);
}

/// Encoding distributes over concatenation.
pub proof fn lemma_encode_concat(a: Seq<char>, b: Seq<char>)
    ensures
        encode_utf8(a + b) == encode_utf8(a) + encode_utf8(b),
    decreases a.len(),
{
    if a.len() == 0 {
        assert(a + b =~= b);
        assert(encode_utf8(a) + encode_utf8(b) =~= encode_utf8(b));
    } else {
        lemma_encode_concat(a.drop_first(), b);
        assert((a + b).drop_first() =~= a.drop_first() + b);
        assert(encode_utf8(a + b) =~= encode_utf8(a) + encode_utf8(b));
    }
}

/// A single character is encoded as its scalar value is.
pub proof fn lemma_encode_single(c: char)
    ensures
        encode_utf8(seq![c]) == encode_scalar(c as u32),
{
    let s = seq![c];
    assert(s.drop_first() =~= Seq::<char>::empty());
    assert(encode_utf8(s.drop_first()) =~= Seq::<u8>::empty());
    assert(encode_utf8(s) =~= encode_scalar(c as u32));
}

/// An encoding is at least as long as the text, so only the empty text has no bytes.
pub proof fn lemma_encode_len(chars: Seq<char>)
    ensures
        chars.len() <= encode_utf8(chars).len(),
    decreases chars.len(),
{
    if chars.len() > 0 {
        lemma_encode_scalar_bytes(chars[0]);
        lemma_encode_len(chars.drop_first());
    }
}

/// Two texts with the same bytes are the same text.
pub proof fn lemma_encode_injective(a: Seq<char>, b: Seq<char>)
    requires
        encode_utf8(a) == encode_utf8(b),
    ensures
        a == b,
{
    encode_utf8_decode_utf8(a);
    encode_utf8_decode_utf8(b);
}

/// Cutting the bytes of a text at a character boundary cuts the text in two.
pub proof fn lemma_split_at_boundary(whole: Seq<char>, head: Seq<char>, tail: Seq<char>, at: int)
    requires
        is_char_boundary(encode_utf8(whole), at),
        encode_utf8(head) == encode_utf8(whole).subrange(0, at),
        encode_utf8(tail) == encode_utf8(whole).subrange(at, encode_utf8(whole).len() as int),
    ensures
        whole == head + tail,
{
    let bytes = encode_utf8(whole);
    encode_utf8_valid_utf8(whole);
    decode_utf8_split(bytes, at);
    encode_utf8_decode_utf8(whole);
    encode_utf8_decode_utf8(head);
    encode_utf8_decode_utf8(tail);
}

/// A byte below 0x80 starts a character, and the next character starts right after it.
pub proof fn lemma_ascii_byte_boundaries(chars: Seq<char>, at: int)
    requires
        0 <= at < encode_utf8(chars).len(),
        encode_utf8(chars)[at] < 0x80,
    ensures
        is_char_boundary(encode_utf8(chars), at),
        is_char_boundary(
            encode_utf8(chars).subrange(at, encode_utf8(chars).len() as int),
            1,
        ),
{
    let bytes = encode_utf8(chars);
    encode_utf8_valid_utf8(chars);
    is_char_boundary_iff_not_is_continuation_byte(bytes, at);
    valid_utf8_split(bytes, at);
    let tail = bytes.subrange(at, bytes.len() as int);
    assert(tail[0] == bytes[at]);
    assert(valid_utf8(tail));
    assert(length_of_first_scalar(tail) == 1);
    assert(valid_utf8(pop_first_scalar(tail)));
    assert(is_char_boundary(pop_first_scalar(tail), 0));
    assert(is_char_boundary(tail, 1));
}

/// Where the first byte is below 0x80, it is the first character, encoded alone.
pub proof fn lemma_first_byte_ascii(chars: Seq<char>)
    requires
        encode_utf8(chars).len() > 0,
        encode_utf8(chars)[0] < 0x80,
    ensures
        chars.len() > 0,
        chars[0] == encode_utf8(chars)[0] as char,
        encode_utf8(chars.drop_first()) == encode_utf8(chars).subrange(
            1,
            encode_utf8(chars).len() as int,
        ),
{
    lemma_encode_scalar_bytes(chars[0]);
    let head = encode_scalar(chars[0] as u32);
    assert(encode_utf8(chars)[0] == head[0]);
    assert(encode_utf8(chars.drop_first()) =~= encode_utf8(chars).subrange(
        1,
        encode_utf8(chars).len() as int,
    ));
}

/// A character below 0x80 shows as the byte of the same value, at the offset
/// where the encoding of the characters before it ends.
pub proof fn lemma_ascii_char_byte(chars: Seq<char>, k: int)
    requires
        0 <= k < chars.len(),
        chars[k] < '\u{80}',
    ensures
        encode_utf8(chars.subrange(0, k)).len() < encode_utf8(chars).len(),
        encode_utf8(chars)[encode_utf8(chars.subrange(0, k)).len() as int] as char == chars[k],
{
    let before = chars.subrange(0, k);
    let from = chars.subrange(k, chars.len() as int);
    assert(chars =~= before + from);
    lemma_encode_concat(before, from);
    lemma_encode_scalar_bytes(from[0]);
    assert(encode_utf8(from)[0] == encode_scalar(from[0] as u32)[0]);
}

/// Where the last byte is below 0x80, it is the last character, encoded alone.
pub proof fn lemma_last_byte_ascii(chars: Seq<char>)
    requires
        encode_utf8(chars).len() > 0,
        encode_utf8(chars).last() < 0x80,
    ensures
        chars.len() > 0,
        chars.last() == encode_utf8(chars).last() as char,
        encode_utf8(chars.drop_last()) == encode_utf8(chars).drop_last(),
{
    let init = chars.drop_last();
    let end = seq![chars.last()];
    assert(chars =~= init + end);
    lemma_encode_concat(init, end);
    lemma_encode_single(chars.last());
    lemma_encode_scalar_bytes(chars.last());
    let tail = encode_scalar(chars.last() as u32);
    assert(encode_utf8(chars).last() == tail.last());
    assert(encode_utf8(init) =~= encode_utf8(chars).drop_last());
}

/// Where the last character is below 0x80, the last byte is that character.
pub proof fn lemma_last_char_ascii(chars: Seq<char>)
    requires
        chars.len() > 0,
        chars.last() < '\u{80}',
    ensures
        encode_utf8(chars).len() > 0,
        encode_utf8(chars).last() as char == chars.last(),
{
    let init = chars.drop_last();
    let end = seq![chars.last()];
    assert(chars =~= init + end);
    lemma_encode_concat(init, end);
    lemma_encode_single(chars.last());
    lemma_encode_scalar_bytes(chars.last());
}

/// A byte value below 0x80 that is missing from the bytes is missing from the text.
pub proof fn lemma_byte_absent(chars: Seq<char>, byte: u8)
    requires
        byte < 0x80,
        forall|j: int| 0 <= j < encode_utf8(chars).len() ==> encode_utf8(chars)[j] != byte,
    ensures
        forall|k: int| 0 <= k < chars.len() ==> chars[k] != byte as char,
{
    assert forall|k: int| 0 <= k < chars.len() implies chars[k] != byte as char by {
        if chars[k] == byte as char {
            lemma_ascii_char_byte(chars, k);
        }
    }
}

/// A prefix of valid bytes that is itself valid ends at a character boundary.
pub proof fn lemma_valid_prefix_boundary(bytes: Seq<u8>, len: int)
    requires
        valid_utf8(bytes),
        0 <= len <= bytes.len(),
        valid_utf8(bytes.subrange(0, len)),
    ensures
        is_char_boundary(bytes, len),
    decreases len,
{
    if len > 0 {
        let prefix = bytes.subrange(0, len);
        let first = length_of_first_scalar(bytes);
        assert(prefix[0] == bytes[0]);
        assert(length_of_first_scalar(prefix) == first);
        assert(first <= len);
        assert(pop_first_scalar(prefix) =~= pop_first_scalar(bytes).subrange(0, len - first));
        lemma_valid_prefix_boundary(pop_first_scalar(bytes), len - first);
    }
}

} // verus!
