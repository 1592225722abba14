//! What the written bytes mean to a reader.
//!
//! Nothing here runs: the library only writes. These definitions say how a
//! reader of the chunked transfer coding takes a body apart, so that it can be
//! stated and proved that what was written is read back.

use crate::hex::{is_digit_any_case, lemma_numeral_digits, lemma_numeral_value, numeral, value};
use crate::wire::{body, chunk, crlf, size_line, terminator};
use vstd::prelude::*;

verus! {

/// How many hexadecimal digits stand at the start of `stream`.
pub open spec fn digits_len(stream: Seq<u8>) -> nat
    decreases stream.len(),
{
    if stream.len() > 0 && is_digit_any_case(stream[0]) {
        1 + digits_len(stream.drop_first())
    } else {
        0
    }
}

/// Whether a line end stands in `stream` at position `at`.
pub open spec fn line_end_at(stream: Seq<u8>, at: int) -> bool {
    0 <= at && at + 2 <= stream.len() && stream[at] == 13 && stream[at + 1] == 10
}

/// Reads one body from the start of `stream`: chunk after chunk up to the
/// first chunk of size zero, and the line end after it. Gives the payload that
/// the chunks carried and what follows the body in `stream`, or `None` where
/// `stream` does not start with a body. A size is a run of hexadecimal digits
/// in either case; chunk extensions and trailer fields are not read.
pub open spec fn read_body(stream: Seq<u8>) -> Option<(Seq<u8>, Seq<u8>)>
    decreases stream.len(),
{
    let digits: int = digits_len(stream) as int;
    let data_at: int = digits + 2;
    let size: int = value(stream.take(digits)) as int;
    if digits == 0 || !line_end_at(stream, digits) {
        None
    } else if size == 0 {
        if line_end_at(stream, data_at) {
            Some((Seq::empty(), stream.skip(data_at + 2)))
        } else {
            None
        }
    } else if !line_end_at(stream, data_at + size) {
        None
    } else {
        match read_body(stream.skip(data_at + size + 2)) {
            Some((payload, rest)) => Some(
                (stream.subrange(data_at, data_at + size) + payload, rest),
            ),
            None => None,
        }
    }
}

/// The payloads joined into one sequence of bytes.
pub open spec fn joined(payloads: Seq<Seq<u8>>) -> Seq<u8>
    decreases payloads.len(),
{
    if payloads.len() == 0 {
        Seq::empty()
    } else {
        payloads.first() + joined(payloads.drop_first())
    }
}

/// Whether every payload that comes after an empty one is empty too.
pub open spec fn empty_only_at_end(payloads: Seq<Seq<u8>>) -> bool {
    forall|i: int, j: int|
        0 <= i < j < payloads.len() && (#[trigger] payloads[i]).len() == 0 ==> (
        #[trigger] payloads[j]).len() == 0
}

/// A run of digits that something other than a digit follows is counted in full.
proof fn lemma_digits_len(digits: Seq<u8>, tail: Seq<u8>)
    requires
        forall|i: int| 0 <= i < digits.len() ==> is_digit_any_case(#[trigger] digits[i]),
        tail.len() > 0 && !is_digit_any_case(tail[0]),
    ensures
        digits_len(digits + tail) == digits.len(),
    decreases digits.len(),
{
    let stream: Seq<u8> = digits + tail;
    if digits.len() == 0 {
        assert(stream[0] == tail[0]);
    } else {
        assert(stream[0] == digits[0]);
        assert(stream.drop_first() =~= digits.drop_first() + tail);
        lemma_digits_len(digits.drop_first(), tail);
    }
}

/// A reader finds the size line of a chunk at the start of the chunk: the
/// digits are those of the numeral, and the line end follows them.
proof fn lemma_read_size_line(len: nat, tail: Seq<u8>)
    ensures
        digits_len(size_line(len) + tail) == numeral(len).len(),
        (size_line(len) + tail).take(numeral(len).len() as int) == numeral(len),
        line_end_at(size_line(len) + tail, numeral(len).len() as int),
        (size_line(len) + tail).skip(numeral(len).len() as int + 2) == tail,
{
    let stream: Seq<u8> = size_line(len) + tail;
    lemma_numeral_digits(len);
    assert(stream =~= numeral(len) + (crlf() + tail));
    lemma_digits_len(numeral(len), crlf() + tail);
    assert(stream.take(numeral(len).len() as int) =~= numeral(len));
    assert(stream.skip(numeral(len).len() as int + 2) =~= tail);
}

/// A reader that meets the terminator ends the body there, with no payload,
/// and leaves what follows unread.
pub proof fn lemma_read_terminator(tail: Seq<u8>)
    ensures
        read_body(terminator() + tail) == Some((Seq::<u8>::empty(), tail)),
{
    let stream: Seq<u8> = terminator() + tail;
    assert(numeral(0) =~= seq![48u8]);
    assert(stream =~= size_line(0) + (crlf() + tail));
    lemma_read_size_line(0, crlf() + tail);
    lemma_numeral_value(0);
    assert(digits_len(stream) == 1);
    assert(value(stream.take(1)) == 0);
    assert(line_end_at(stream, 1));
    assert(stream[3] == 13 && stream[4] == 10);
    assert(line_end_at(stream, 3));
    assert(stream.skip(5) =~= tail);
}

/// A reader that meets the chunk of a payload that is not empty takes the
/// payload and reads on after the chunk.
pub proof fn lemma_read_chunk(data: Seq<u8>, tail: Seq<u8>)
    requires
        data.len() > 0,
    ensures
        read_body(chunk(data) + tail) == match read_body(tail) {
            Some((payload, rest)) => Some((data + payload, rest)),
            None => None,
        },
{
    let stream: Seq<u8> = chunk(data) + tail;
    let after: Seq<u8> = data + crlf() + tail;
    lemma_read_size_line(data.len(), after);
    lemma_numeral_value(data.len());
    assert(stream =~= size_line(data.len()) + after);
    let digits: int = numeral(data.len()).len() as int;
    let data_at: int = digits + 2;
    let size: int = data.len() as int;
    assert(stream.skip(data_at) =~= after);
    assert(stream.subrange(data_at, data_at + size) =~= data);
    assert(stream[data_at + size] == after[size]);
    assert(stream[data_at + size + 1] == after[size + 1]);
    assert(stream.skip(data_at + size + 2) =~= tail);
}

/// What was written is read back. A reader of a body, with anything after it,
/// finds the payloads joined in their order, provided that no payload was
/// written after an empty one: the chunk of an empty payload is the
/// terminator, and a reader stops at the first. Where no payload is empty the
/// reader also stops exactly at the end of the body.
pub proof fn lemma_read_body(payloads: Seq<Seq<u8>>, tail: Seq<u8>)
    requires
        empty_only_at_end(payloads),
    ensures
        read_body(body(payloads) + tail) matches Some((payload, _)) && payload == joined(payloads),
        (forall|i: int| 0 <= i < payloads.len() ==> (#[trigger] payloads[i]).len() > 0)
            ==> read_body(body(payloads) + tail) == Some((joined(payloads), tail)),
    decreases payloads.len(),
{
    let stream: Seq<u8> = body(payloads) + tail;
    if payloads.len() == 0 {
        assert(stream =~= terminator() + tail);
        lemma_read_terminator(tail);
    } else {
        let first: Seq<u8> = payloads.first();
        let others: Seq<Seq<u8>> = payloads.drop_first();
        assert(stream =~= chunk(first) + (body(others) + tail));
        assert forall|i: int, j: int|
            0 <= i < j < others.len() && (#[trigger] others[i]).len() == 0 implies (
        #[trigger] others[j]).len() == 0 by {
            assert(others[i] == payloads[i + 1]);
            assert(others[j] == payloads[j + 1]);
        }
        if first.len() == 0 {
            assert(first =~= Seq::<u8>::empty());
            lemma_read_terminator(body(others) + tail);
            assert forall|i: int| 0 <= i < others.len() implies (#[trigger] others[i]).len()
                == 0 by {
                assert(payloads[0].len() == 0);
                assert(others[i] == payloads[i + 1]);
            }
            lemma_joined_empty(others);
            assert(joined(payloads) =~= Seq::<u8>::empty());
        } else {
            lemma_read_chunk(first, body(others) + tail);
            lemma_read_body(others, tail);
            assert forall|i: int| 0 <= i < others.len() implies (#[trigger] payloads[i
                + 1]) == others[i] by {}
        }
    }
}

/// Empty payloads join to nothing.
proof fn lemma_joined_empty(payloads: Seq<Seq<u8>>)
    requires
        forall|i: int| 0 <= i < payloads.len() ==> (#[trigger] payloads[i]).len() == 0,
    ensures
        joined(payloads) == Seq::<u8>::empty(),
    decreases payloads.len(),
{
    if payloads.len() > 0 {
        assert forall|i: int| 0 <= i < payloads.drop_first().len() implies (
        #[trigger] payloads.drop_first()[i]).len() == 0 by {
            assert(payloads.drop_first()[i] == payloads[i + 1]);
        }
        lemma_joined_empty(payloads.drop_first());
        assert(joined(payloads) =~= Seq::<u8>::empty());
    }
}

} // verus!
