//! Occurrences of one sequence inside another, and a search for them in bytes.

use crate::encoding::{lemma_encode_concat, lemma_encode_len, lemma_valid_prefix_boundary};
use vstd::prelude::*;
use vstd::string::*;
use vstd::utf8::*;

verus! {

/// `needle` stands in `hay` at position `at`, element for element.
pub open spec fn occurs_at<T>(hay: Seq<T>, needle: Seq<T>, at: int) -> bool {
    &&& 0 <= at
    &&& at + needle.len() <= hay.len()
    &&& hay.subrange(at, at + needle.len()) == needle
}

/// `needle` is a contiguous part of `hay`. The empty sequence is part of every sequence.
pub open spec fn contains<T>(hay: Seq<T>, needle: Seq<T>) -> bool {
    exists|at: int| occurs_at(hay, needle, at)
}

/// Compares `needle` with the bytes of `hay` that start at `at`.
pub fn bytes_occur_at(hay: &[u8], needle: &[u8], at: usize) -> (found: bool)
    requires
        at + needle@.len() <= hay@.len(),
    ensures
        found == occurs_at(hay@, needle@, at as int),
{
    let n: usize = hay.len();
    let m: usize = needle.len();
    let mut k: usize = 0;
    while k < m
        invariant
            n == hay@.len(),
            m == needle@.len(),
            at + m <= n,
            k <= m,
            forall|j: int| 0 <= j < k ==> hay@[at + j] == needle@[j],
        decreases m - k,
    {
        if hay[at + k] != needle[k] {
            proof {
                let part = hay@.subrange(at as int, at + m);
                assert(part[k as int] == hay@[at + k]);
            }
            return false;
        }
        k += 1;
    }
    proof {
        assert(hay@.subrange(at as int, at + m) =~= needle@);
    }
    true
}

/// Searches `hay` for `needle`, trying each starting position from the left.
pub fn bytes_contain(hay: &[u8], needle: &[u8]) -> (found: bool)
    ensures
        found == contains(hay@, needle@),
{
    let n: usize = hay.len();
    let m: usize = needle.len();
    if m > n {
        return false;
    }
    let last: usize = n - m;
    let mut at: usize = 0;
    loop
        invariant
            n == hay@.len(),
            m == needle@.len(),
            last == n - m,
            at <= last,
            forall|j: int| 0 <= j < at ==> !occurs_at(hay@, needle@, j),
        decreases last - at,
    {
        if bytes_occur_at(hay, needle, at) {
            return true;
        }
        if at == last {
            return false;
        }
        at += 1;
    }
}

/// An occurrence among the characters shows as an occurrence among the bytes.
proof fn lemma_occurrence_encodes(hay: Seq<char>, needle: Seq<char>, at: int)
    requires
        occurs_at(hay, needle, at),
    ensures
        occurs_at(
            encode_utf8(hay),
            encode_utf8(needle),
            encode_utf8(hay.subrange(0, at)).len() as int,
        ),
{
    let before = hay.subrange(0, at);
    let after = hay.subrange(at + needle.len(), hay.len() as int);
    assert(hay =~= before + needle + after);
    lemma_encode_concat(before + needle, after);
    lemma_encode_concat(before, needle);
    let start = encode_utf8(before).len() as int;
    assert(encode_utf8(hay).subrange(start, start + encode_utf8(needle).len()) =~= encode_utf8(
        needle,
    ));
}

/// An occurrence among the bytes is the encoding of an occurrence among the
/// characters: the bytes of a text cannot start or end inside a character of
/// another text.
proof fn lemma_occurrence_decodes(hay: Seq<char>, needle: Seq<char>, at: int)
    requires
        occurs_at(encode_utf8(hay), encode_utf8(needle), at),
    ensures
        contains(hay, needle),
{
    if needle.len() == 0 {
        assert(hay.subrange(0, 0) =~= needle);
        assert(occurs_at(hay, needle, 0));
    } else {
        let bytes = encode_utf8(hay);
        let wanted = encode_utf8(needle);
        let len = wanted.len() as int;
        encode_utf8_valid_utf8(hay);
        encode_utf8_valid_utf8(needle);
        lemma_encode_len(needle);
        assert(bytes.subrange(at, at + len)[0] == bytes[at]);
        assert(!is_continuation_byte(wanted[0]));
        is_char_boundary_iff_not_is_continuation_byte(bytes, at);
        valid_utf8_split(bytes, at);
        decode_utf8_split(bytes, at);
        let tail = bytes.subrange(at, bytes.len() as int);
        assert(tail.subrange(0, len) =~= wanted);
        lemma_valid_prefix_boundary(tail, len);
        decode_utf8_split(tail, len);
        encode_utf8_decode_utf8(hay);
        encode_utf8_decode_utf8(needle);
        let before = decode_utf8(bytes.subrange(0, at));
        let after = decode_utf8(tail.subrange(len, tail.len() as int));
        let start = before.len() as int;
        assert(hay =~= before + needle + after);
        assert(hay.subrange(start, start + needle.len()) =~= needle);
        assert(occurs_at(hay, needle, start));
    }
}

/// One text is part of another exactly when its bytes are part of the other's bytes.
pub proof fn lemma_contains_encoded(hay: Seq<char>, needle: Seq<char>)
    ensures
        contains(hay, needle) <==> contains(encode_utf8(hay), encode_utf8(needle)),
{
    if contains(hay, needle) {
        let at = choose|at: int| occurs_at(hay, needle, at);
        lemma_occurrence_encodes(hay, needle, at);
    }
    if contains(encode_utf8(hay), encode_utf8(needle)) {
        let at = choose|at: int| occurs_at(encode_utf8(hay), encode_utf8(needle), at);
        lemma_occurrence_decodes(hay, needle, at);
    }
}

/// Tells whether `needle` is a contiguous part of `hay`, character for character.
pub fn str_contains(hay: &str, needle: &str) -> (found: bool)
    ensures
        found == contains(hay@, needle@),
{
    proof {
        lemma_contains_encoded(hay@, needle@);
    }
    bytes_contain(hay.as_bytes(), needle.as_bytes())
}

} // verus!
