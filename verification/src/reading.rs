//! Readings: what one match of a pattern says about an item.

use crate::collection::member_name;
use crate::text::{all_digits, is_digit, lemma_run_is_padded_digits, parse_index, parsed_index};
use vstd::prelude::*;
use vstd::string::*;
use vstd::utf8::*;

verus! {

/// A stretch of an item, in bytes: from `start` up to, not including, `end`.
#[derive(Debug, Clone, Copy, PartialEq, Eq)]
pub struct Span {
    pub start: usize,
    pub end: usize,
}

/// One match of a pattern in an item: where the group that holds the index
/// took part in it, and where the group that detects the width did. Either
/// is `None` where the pattern has no such group or the group took no part.
#[derive(Debug, Clone, Copy, PartialEq, Eq)]
pub struct Occurrence {
    pub index: Option<Span>,
    pub padding: Option<Span>,
}

/// What one occurrence says: the item is `head`, then the text of the number
/// `index`, then `tail`; `padding` is the length of that text, or zero where
/// the width is left open.
pub struct Reading {
    pub head: String,
    pub tail: String,
    pub padding: i32,
    pub index: i32,
}

/// A reading as plain values.
pub struct ReadingView {
    pub head: Seq<char>,
    pub tail: Seq<char>,
    pub padding: int,
    pub index: i32,
}

impl View for Reading {
    type V = ReadingView;

    open spec fn view(&self) -> ReadingView {
        ReadingView {
            head: self.head@,
            tail: self.tail@,
            padding: self.padding as int,
            index: self.index,
        }
    }
}

/// The three parts of `item` that the bytes `start` and `end` cut it into:
/// what stands before `start`, from `start` to `end`, and from `end` on.
/// `None` unless `start <= end`, both lie in the item and neither falls
/// inside the bytes of a character.
pub open spec fn cut(item: Seq<char>, start: int, end: int) -> Option<
    (Seq<char>, Seq<char>, Seq<char>),
> {
    let bytes = encode_utf8(item);
    if 0 <= start <= end <= bytes.len() && is_char_boundary(bytes, start) && is_char_boundary(
        bytes,
        end,
    ) {
        Some(
            (
                decode_utf8(bytes.subrange(0, start)),
                decode_utf8(bytes.subrange(start, end)),
                decode_utf8(bytes.subrange(end, bytes.len() as int)),
            ),
        )
    } else {
        None
    }
}

/// What the occurrence `found` says about `item`. `None` where the index took
/// no part in the match, where its span does not cut the item, where it is
/// longer than a padding can say, or where its text is no 32-bit number.
pub open spec fn reading_of(item: Seq<char>, found: Occurrence) -> Option<ReadingView> {
    match found.index {
        None => None,
        Some(span) => match cut(item, span.start as int, span.end as int) {
            None => None,
            Some((head, number, tail)) => match parsed_index(number) {
                None => None,
                Some(index) => if span.end - span.start > i32::MAX {
                    None
                } else {
                    Some(
                        ReadingView {
                            head,
                            tail,
                            padding: if found.padding is Some {
                                span.end - span.start
                            } else {
                                0
                            },
                            index,
                        },
                    )
                },
            },
        },
    }
}

/// The parts of a cut, put together again, are the item.
pub proof fn lemma_cut_joins(item: Seq<char>, start: int, end: int)
    requires
        cut(item, start, end) is Some,
    ensures
        ({
            let (head, number, tail) = cut(item, start, end).unwrap();
            head + number + tail == item
        }),
{
    broadcast use group_utf8_lib;

    let bytes = encode_utf8(item);
    let front = bytes.subrange(0, end);
    lemma_boundary_of_front(bytes, start, end);
    decode_utf8_split(bytes, end);
    decode_utf8_split(front, start);
    assert(front.subrange(0, start) =~= bytes.subrange(0, start));
    assert(front.subrange(start, front.len() as int) =~= bytes.subrange(start, end));
    assert(decode_utf8(bytes) == item);
}

/// A place between two characters of a text is one in every beginning of
/// the text that reaches it.
proof fn lemma_boundary_of_front(bytes: Seq<u8>, start: int, end: int)
    requires
        valid_utf8(bytes),
        0 <= start <= end <= bytes.len(),
        is_char_boundary(bytes, start),
        is_char_boundary(bytes, end),
    ensures
        valid_utf8(bytes.subrange(0, end)),
        is_char_boundary(bytes.subrange(0, end), start),
{
    let front = bytes.subrange(0, end);
    valid_utf8_split(bytes, end);
    if start == end {
        is_char_boundary_start_end_of_seq(front);
    } else {
        is_char_boundary_iff_not_is_continuation_byte(bytes, start);
        is_char_boundary_iff_not_is_continuation_byte(front, start);
    }
}

/// The text that the index of an occurrence spans in `item`.
pub open spec fn index_text(item: Seq<char>, found: Occurrence) -> Seq<char> {
    let span = found.index.unwrap();
    cut(item, span.start as int, span.end as int).unwrap().1
}

/// A reading of a run of digits names its item. Where the group that detects
/// the width took part in the match and the index is written in digits
/// alone, the member that has the head, tail, padding and index of the
/// reading is the item itself.
pub proof fn lemma_reading_names_item(item: Seq<char>, found: Occurrence)
    requires
        reading_of(item, found) is Some,
        found.padding is Some,
        all_digits(index_text(item, found)),
    ensures
        ({
            let reading = reading_of(item, found).unwrap();
            member_name(reading.head, reading.tail, reading.padding, reading.index) == item
        }),
{
    broadcast use group_utf8_lib;

    let span = found.index.unwrap();
    let (start, end) = (span.start as int, span.end as int);
    let bytes = encode_utf8(item);
    let number = index_text(item, found);
    lemma_cut_joins(item, start, end);
    lemma_boundary_of_front(bytes, start, end);
    let front = bytes.subrange(0, end);
    valid_utf8_split(front, start);
    assert(front.subrange(start, front.len() as int) =~= bytes.subrange(start, end));
    assert(encode_utf8(number) == bytes.subrange(start, end));
    assert(is_ascii_chars(number)) by {
        assert forall|i: int| 0 <= i < number.len() implies '\0' <= #[trigger] number[i]
            <= '\u{7f}' by {
            assert(is_digit(number[i]));
        }
    }
    is_ascii_chars_encode_utf8(number);
    assert(number.len() > 0);
    assert(is_digit(number[0]));
    lemma_run_is_padded_digits(number);
}

/// Cuts `item` at the bytes `start` and `end`.
pub fn cut_item(item: &str, start: usize, end: usize) -> (parts: Option<(&str, &str, &str)>)
    ensures
        match parts {
            Some((head, number, tail)) => cut(item@, start as int, end as int) == Some(
                (head@, number@, tail@),
            ),
            None => cut(item@, start as int, end as int) is None,
        },
{
    broadcast use group_utf8_lib;

    if start > end || !item.is_char_boundary(start) || !item.is_char_boundary(end) {
        return None;
    }
    let ghost bytes = item.spec_bytes();
    assert(end <= bytes.len()) by {
        if end > bytes.len() {
            assert(!is_char_boundary(bytes, end as int));
        }
    }
    let (front, tail) = item.split_at(end);
    proof {
        lemma_boundary_of_front(bytes, start as int, end as int);
    }
    let (head, number) = front.split_at(start);
    proof {
        assert(front.spec_bytes().subrange(0, start as int) =~= bytes.subrange(0, start as int));
        assert(front.spec_bytes().subrange(start as int, front.spec_bytes().len() as int)
            =~= bytes.subrange(start as int, end as int));
        assert(decode_utf8(encode_utf8(head@)) == head@);
        assert(decode_utf8(encode_utf8(number@)) == number@);
        assert(decode_utf8(encode_utf8(tail@)) == tail@);
    }
    Some((head, number, tail))
}

/// Reads what the occurrence `found` says about `item`.
pub fn read_occurrence(item: &str, found: &Occurrence) -> (reading: Option<Reading>)
    ensures
        match reading {
            Some(r) => reading_of(item@, *found) == Some(r@),
            None => reading_of(item@, *found) is None,
        },
{
    match found.index {
        None => None,
        Some(span) => match cut_item(item, span.start, span.end) {
            None => None,
            Some((head, number, tail)) => match parse_index(number) {
                None => None,
                Some(index) => {
                    let width = span.end - span.start;
                    if width > i32::MAX as usize {
                        None
                    } else {
                        let padding: i32 = if found.padding.is_some() {
                            width as i32
                        } else {
                            0
                        };
                        Some(Reading { head: head.to_owned(), tail: tail.to_owned(), padding, index })
                    }
                },
            },
        },
    }
}

} // verus!
