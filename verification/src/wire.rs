//! The chunked transfer coding as byte sequences: one chunk per payload, then the
//! terminating chunk. No chunk extensions and no trailer fields are produced.

use crate::hex::{digit, digit_byte, lemma_numeral_digits, lemma_numeral_len_of_usize, numeral};
use vstd::prelude::*;

verus! {

/// Carriage return and line feed, the line end of the wire format.
pub open spec fn crlf() -> Seq<u8> {
    seq![13u8, 10u8]
}

/// The first line of a chunk whose payload has `len` bytes: the numeral of `len` and a line end.
pub open spec fn size_line(len: nat) -> Seq<u8> {
    numeral(len) + crlf()
}

/// One chunk: the size line, the payload as it is, and a line end.
pub open spec fn chunk(data: Seq<u8>) -> Seq<u8> {
    size_line(data.len()) + data + crlf()
}

/// The chunk that ends a body: a chunk without payload.
pub open spec fn terminator() -> Seq<u8> {
    chunk(Seq::empty())
}

/// The chunks of `payloads`, one after another in their order.
pub open spec fn chunks(payloads: Seq<Seq<u8>>) -> Seq<u8>
    decreases payloads.len(),
{
    if payloads.len() == 0 {
        Seq::empty()
    } else {
        chunk(payloads.first()) + chunks(payloads.drop_first())
    }
}

/// A complete body: the chunk of every payload, then the terminator.
pub open spec fn body(payloads: Seq<Seq<u8>>) -> Seq<u8> {
    chunks(payloads) + terminator()
}

/// The terminator is the five bytes `0`, CR, LF, CR, LF.
pub proof fn lemma_terminator()
    ensures
        terminator() == seq![48u8, 13u8, 10u8, 13u8, 10u8],
{
    assert(terminator() =~= seq![48u8, 13u8, 10u8, 13u8, 10u8]);
}

/// One more payload adds its chunk at the end of the chunks before it.
pub proof fn lemma_chunks_push(payloads: Seq<Seq<u8>>, data: Seq<u8>)
    ensures
        chunks(payloads.push(data)) == chunks(payloads) + chunk(data),
    decreases payloads.len(),
{
    let all: Seq<Seq<u8>> = payloads.push(data);
    if payloads.len() == 0 {
        assert(all.drop_first() =~= payloads);
        assert(chunks(all) =~= chunk(data) + chunks(payloads));
    } else {
        lemma_chunks_push(payloads.drop_first(), data);
        assert(all.drop_first() =~= payloads.drop_first().push(data));
        assert(chunks(all) =~= chunks(payloads) + chunk(data));
    }
}

/// A chunk is longer than its payload by its numeral and two line ends, which is
/// between five and twenty bytes for a payload that fits in memory.
pub proof fn lemma_chunk_len(data: Seq<u8>)
    ensures
        chunk(data).len() == numeral(data.len()).len() + data.len() + 4,
        data.len() <= usize::MAX ==> data.len() + 5 <= chunk(data).len() <= data.len() + 20,
{
    lemma_numeral_digits(data.len());
    if data.len() <= usize::MAX {
        lemma_numeral_len_of_usize(data.len() as usize);
    }
}

/// The size line of one chunk, held in a fixed array so that no memory is
/// allocated for it. The longest line has sixteen digits and a line end; a shorter
/// one occupies the end of the array.
pub struct SizeLine {
    bytes: [u8; 18],
    start: usize,
}

impl SizeLine {
    #[verifier::type_invariant]
    spec fn in_bounds(self) -> bool {
        self.start <= 15
    }

    /// The bytes of the line.
    pub closed spec fn view(&self) -> Seq<u8> {
        self.bytes@.skip(self.start as int)
    }

    /// The size line for a payload of `len` bytes.
    pub fn new(len: usize) -> (line: Self)
        ensures
            line@ == size_line(len as nat),
    {
        let mut bytes: [u8; 18] = [0u8; 18];
        bytes[16] = 13u8;
        bytes[17] = 10u8;
        let mut start: usize = 15;
        let mut rest: usize = len / 16;
        bytes[15] = digit_byte(len % 16);
        proof {
            lemma_numeral_len_of_usize(len);
            assert(bytes@.subrange(15, 16) =~= seq![bytes@[15]]);
        }
        while rest > 0
            invariant
                start <= 15,
                bytes@[16] == 13u8,
                bytes@[17] == 10u8,
                numeral(len as nat).len() <= 16,
                numeral(len as nat) == leading(rest as nat) + bytes@.subrange(start as int, 16),
            decreases rest,
        {
            proof {
                lemma_numeral_digits(rest as nat);
            }
            let ghost before: Seq<u8> = bytes@;
            start = start - 1;
            bytes[start] = digit_byte(rest % 16);
            proof {
                assert(bytes@.subrange(start as int, 16) =~= seq![digit((rest % 16) as nat)]
                    + before.subrange(start + 1, 16));
                assert(leading(rest as nat) =~= leading((rest / 16) as nat).push(
                    digit((rest % 16) as nat),
                ));
            }
            rest = rest / 16;
        }
        proof {
            assert(bytes@.skip(start as int) =~= bytes@.subrange(start as int, 16) + crlf());
        }
        SizeLine { bytes, start }
    }

    /// The line as a slice.
    pub fn as_slice(&self) -> (s: &[u8])
        ensures
            s@ == self@,
    {
        proof {
            use_type_invariant(self);
        }
        vstd::slice::slice_subrange(self.bytes.as_slice(), self.start, 18)
    }
}

/// The digits that are still to be written in front of those already in place:
/// none once nothing is left of the number.
spec fn leading(rest: nat) -> Seq<u8> {
    if rest == 0 {
        Seq::empty()
    } else {
        numeral(rest)
    }
}

} // verus!
