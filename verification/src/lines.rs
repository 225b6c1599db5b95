//! Splitting a text into lines.
//!
//! A line ends at a line feed, or at the end of the text. The line feed is not
//! part of the line, and neither is a carriage return that stands directly
//! before it. A text that ends with a line feed has no empty line after it.

use crate::encoding::{
    lemma_ascii_byte_boundaries, lemma_byte_absent, lemma_encode_injective, lemma_encode_len,
    lemma_first_byte_ascii, lemma_last_byte_ascii, lemma_last_char_ascii, lemma_split_at_boundary,
};
use vstd::prelude::*;
use vstd::string::*;
use vstd::utf8::*;

verus! {

/// The byte that ends a line.
pub const LINE_FEED: u8 = 0x0a;

/// The byte that may stand before a line feed as part of the line ending.
pub const CARRIAGE_RETURN: u8 = 0x0d;

/// The position of the first line feed in `text`, or the length of `text`
/// where it has none.
pub open spec fn first_newline(text: Seq<char>) -> nat
    decreases text.len(),
{
    if text.len() == 0 || text[0] == '\n' {
        0
    } else {
        1 + first_newline(text.drop_first())
    }
}

/// `line` without the carriage return at its end, if it has one.
pub open spec fn strip_cr(line: Seq<char>) -> Seq<char> {
    if line.len() > 0 && line.last() == '\r' {
        line.drop_last()
    } else {
        line
    }
}

/// The first line of a text that is not empty.
pub open spec fn first_line(text: Seq<char>) -> Seq<char> {
    let end = first_newline(text) as int;
    if end < text.len() {
        strip_cr(text.subrange(0, end))
    } else {
        text
    }
}

/// What follows the first line and its line ending.
pub open spec fn after_first_line(text: Seq<char>) -> Seq<char> {
    let end = first_newline(text) as int;
    if end < text.len() {
        text.subrange(end + 1, text.len() as int)
    } else {
        Seq::empty()
    }
}

/// The lines of `text`, in order.
pub open spec fn lines_of(text: Seq<char>) -> Seq<Seq<char>>
    decreases text.len(),
{
    if text.len() == 0 {
        Seq::empty()
    } else {
        seq![first_line(text)] + lines_of(after_first_line(text))
    }
}

/// `first_newline` is bounded by the length, no line feed stands before it,
/// and one stands at it unless it is the length.
pub proof fn lemma_first_newline(text: Seq<char>)
    ensures
        first_newline(text) <= text.len(),
        forall|j: int| 0 <= j < first_newline(text) ==> text[j] != '\n',
        first_newline(text) < text.len() ==> text[first_newline(text) as int] == '\n',
    decreases text.len(),
{
    if text.len() == 0 || text[0] == '\n' {
    } else {
        let rest = text.drop_first();
        lemma_first_newline(rest);
        assert forall|j: int| 0 <= j < first_newline(text) implies text[j] != '\n' by {
            if j > 0 {
                assert(text[j] == rest[j - 1]);
            }
        }
    }
}

/// The position that has a line feed (or is the end) with none before it is
/// the one that `first_newline` gives.
pub proof fn lemma_first_newline_is(text: Seq<char>, end: int)
    requires
        0 <= end <= text.len(),
        forall|j: int| 0 <= j < end ==> text[j] != '\n',
        end < text.len() ==> text[end] == '\n',
    ensures
        first_newline(text) == end,
{
    lemma_first_newline(text);
    let found = first_newline(text) as int;
    if found < end {
        assert(text[found] == '\n');
    } else if end < found {
        assert(text[end] == '\n');
    }
}

/// Drops a carriage return from the end of `line`.
fn trim_carriage_return<'a>(line: &'a str) -> (trimmed: &'a str)
    ensures
        trimmed@ == strip_cr(line@),
{
    let bytes = line.as_bytes();
    let n: usize = bytes.len();
    if n > 0 && bytes[n - 1] == CARRIAGE_RETURN {
        proof {
            encode_utf8_valid_utf8(line@);
            is_char_boundary_iff_not_is_continuation_byte(bytes@, n - 1);
            lemma_last_byte_ascii(line@);
        }
        let (kept, _) = line.split_at(n - 1);
        proof {
            assert(bytes@.subrange(0, n - 1) =~= bytes@.drop_last());
            lemma_encode_injective(kept@, line@.drop_last());
        }
        kept
    } else {
        proof {
            if line@.len() > 0 && line@.last() == '\r' {
                lemma_last_char_ascii(line@);
            }
        }
        line
    }
}

/// Takes the first line off `text`: the line, and what follows its line ending.
/// An empty text has no line.
pub fn next_line<'a>(text: &'a str) -> (step: Option<(&'a str, &'a str)>)
    ensures
        step is None <==> text@.len() == 0,
        step matches Some((line, rest)) ==> {
            &&& line@ == first_line(text@)
            &&& rest@ == after_first_line(text@)
            &&& rest@.len() < text@.len()
        },
{
    if text.is_empty() {
        return None;
    }
    let bytes = text.as_bytes();
    let n: usize = bytes.len();
    let mut at: usize = 0;
    while at < n && bytes[at] != LINE_FEED
        invariant
            n == bytes@.len(),
            at <= n,
            forall|j: int| 0 <= j < at ==> bytes@[j] != LINE_FEED,
        decreases n - at,
    {
        at += 1;
    }
    if at == n {
        proof {
            lemma_byte_absent(text@, LINE_FEED);
            lemma_first_newline_is(text@, text@.len() as int);
            encode_utf8_valid_utf8(text@);
            is_char_boundary_start_end_of_seq(bytes@);
        }
        let (_, rest) = text.split_at(n);
        proof {
            lemma_encode_len(rest@);
        }
        Some((text, rest))
    } else {
        proof {
            lemma_ascii_byte_boundaries(text@, at as int);
        }
        let (head, tail) = text.split_at(at);
        let (_, rest) = tail.split_at(1);
        proof {
            lemma_split_at_boundary(text@, head@, tail@, at as int);
            lemma_first_byte_ascii(tail@);
            lemma_encode_injective(rest@, tail@.drop_first());
            assert forall|j: int| 0 <= j < encode_utf8(head@).len() implies encode_utf8(head@)[j]
                != LINE_FEED by {
                assert(encode_utf8(head@)[j] == bytes@[j]);
            }
            lemma_byte_absent(head@, LINE_FEED);
            let end = head@.len() as int;
            assert(text@[end] == tail@[0]);
            assert forall|j: int| 0 <= j < end implies text@[j] != '\n' by {
                assert(text@[j] == head@[j]);
            }
            lemma_first_newline_is(text@, end);
            assert(text@.subrange(0, end) =~= head@);
            assert(text@.subrange(end + 1, text@.len() as int) =~= rest@);
        }
        let line = trim_carriage_return(head);
        Some((line, rest))
    }
}

/// Splits `text` into its lines.
pub fn split_lines<'a>(text: &'a str) -> (lines: Vec<&'a str>)
    ensures
        lines.deep_view() == lines_of(text@),
{
    let mut lines: Vec<&'a str> = Vec::new();
    let mut rest: &'a str = text;
    loop
        invariant
            lines_of(text@) == lines.deep_view() + lines_of(rest@),
        ensures
            lines.deep_view() == lines_of(text@),
        decreases rest@.len(),
    {
        match next_line(rest) {
            None => {
                break ;
            },
            Some((line, tail)) => {
                proof {
                    assert(lines.deep_view().push(line@) + lines_of(tail@) =~= lines.deep_view()
                        + lines_of(rest@));
                    assert(lines@.push(line).len() == lines@.len() + 1);
                }
                let ghost before = lines.deep_view();
                lines.push(line);
                proof {
                    assert(lines.deep_view() =~= before.push(line@));
                }
                rest = tail;
            },
        }
    }
    lines
}

} // verus!
