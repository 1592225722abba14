//! Byte sinks: what a chunked writer writes into, and how a whole buffer is
//! drained into one.

use crate::calls::{added, drained, progress, result_of, stopped, Call};
use vstd::prelude::*;

verus! {

/// What is known of a sink at one moment.
pub struct SinkState {
    /// Every byte the sink has accepted so far, in the order it accepted them.
    pub written: Seq<u8>,
    /// How many of the accepted bytes have been forced on to the sink's destination.
    pub flushed: nat,
    /// `Some(k)` for a dependable sink: it never reports an error, and it accepts
    /// exactly `k` more bytes before it stops taking any. `None` where nothing is
    /// promised, as for a network connection.
    pub room: Option<nat>,
}

/// A destination for bytes that confirms how many bytes of each write it took,
/// and that can be flushed.
pub trait Sink {
    /// The failure that the sink reports.
    type Error;

    /// What is known of the sink.
    spec fn view(&self) -> SinkState;

    /// Every call made on the sink so far, oldest first, each with its answer.
    spec fn calls(&self) -> Seq<Call<Self::Error>>;

    /// Offers `buf` to the sink, which accepts a prefix of it and says how long
    /// that prefix is, or fails without accepting anything. A dependable sink
    /// accepts at least one byte while it has room and `buf` is not empty. The
    /// call is entered in the sink's calls with its answer.
    fn write(&mut self, buf: &[u8]) -> (r: Result<usize, Self::Error>)
        ensures
            match r {
                Ok(n) => n <= buf@.len() && final(self)@.written == old(self)@.written + buf@.take(
                    n as int,
                ),
                Err(_) => final(self)@.written == old(self)@.written,
            },
            match old(self)@.room {
                Some(room) => r matches Ok(n) && n <= room && (n == 0 ==> buf@.len() == 0 || room
                    == 0) && final(self)@.room == Some((room - n) as nat),
                None => final(self)@.room is None,
            },
            final(self).calls() == old(self).calls().push(
                Call::Write { offered: buf@, answer: r },
            ),
    ;

    /// Forces the accepted bytes on to the destination. The accepted bytes and the
    /// room stay as they are; a dependable sink does not fail. The call is
    /// entered in the sink's calls with its answer.
    fn flush(&mut self) -> (r: Result<(), Self::Error>)
        ensures
            flushed(old(self)@, final(self)@, r is Ok),
            final(self).calls() == old(self).calls().push(Call::Flush { outcome: r }),
    ;
}

/// How a flush relates the state before it to the state after it, given whether
/// it succeeded.
pub open spec fn flushed(before: SinkState, after: SinkState, ok: bool) -> bool {
    &&& after.written == before.written
    &&& after.room == before.room
    &&& ok ==> after.flushed == after.written.len()
    &&& before.room is Some ==> ok
}

/// Why a buffer could not be written in full.
#[derive(Debug)]
pub enum WriteError<E> {
    /// The sink reported this failure.
    Sink(E),
    /// The sink accepted none of the bytes that were still to be written.
    WriteZero,
}

/// How the offer of `bytes`, made piece by piece until all were accepted or a
/// write failed, relates the state before it to the state after it.
///
/// On success every byte was accepted. On failure a proper prefix was, and
/// nothing after it. A dependable sink accepts as many bytes as it has room
/// for, so the offer succeeds exactly when all of `bytes` fit.
pub open spec fn delivered<E>(
    before: SinkState,
    after: SinkState,
    bytes: Seq<u8>,
    outcome: Result<(), WriteError<E>>,
) -> bool {
    &&& match outcome {
        Ok(_) => after.written == before.written + bytes,
        Err(_) => exists|k: int|
            0 <= k < bytes.len() && after.written == before.written + #[trigger] bytes.take(k),
    }
    &&& match before.room {
        Some(room) => {
            &&& outcome is Ok <==> bytes.len() <= room
            &&& outcome matches Err(e) ==> e is WriteZero && after.written == before.written
                + bytes.take(room as int)
            &&& after.room == Some(
                if bytes.len() <= room {
                    (room - bytes.len()) as nat
                } else {
                    0
                },
            )
        },
        None => after.room is None,
    }
}

/// Delivering `first` in full and then `second` is delivering `first + second`,
/// with the outcome of the second offer.
pub proof fn lemma_delivered_both<E>(
    before: SinkState,
    between: SinkState,
    after: SinkState,
    first: Seq<u8>,
    second: Seq<u8>,
    outcome: Result<(), WriteError<E>>,
)
    requires
        delivered::<E>(before, between, first, Ok(())),
        delivered(between, after, second, outcome),
    ensures
        delivered(before, after, first + second, outcome),
{
    let all: Seq<u8> = first + second;
    match outcome {
        Ok(_) => {
            assert(after.written =~= before.written + all);
        },
        Err(_) => {
            let k: int = choose|k: int|
                0 <= k < second.len() && after.written == between.written + #[trigger] second.take(
                    k,
                );
            assert(all.take(first.len() + k) =~= first + second.take(k));
            assert(after.written =~= before.written + all.take(first.len() + k));
        },
    }
    match before.room {
        Some(room) => {
            if outcome is Err {
                let left: nat = (room - first.len()) as nat;
                assert(all.take(room as int) =~= first + second.take(left as int));
                assert(after.written =~= before.written + all.take(room as int));
            }
        },
        None => {},
    }
}

/// An offer of `first` that failed is also a failed offer of `first + second`:
/// nothing of `second` was attempted.
pub proof fn lemma_delivered_first_only<E>(
    before: SinkState,
    after: SinkState,
    first: Seq<u8>,
    second: Seq<u8>,
    error: WriteError<E>,
)
    requires
        delivered(before, after, first, Err(error)),
    ensures
        delivered(before, after, first + second, Err(error)),
{
    let all: Seq<u8> = first + second;
    let k: int = choose|k: int|
        0 <= k < first.len() && after.written == before.written + #[trigger] first.take(k);
    assert(all.take(k) =~= first.take(k));
    match before.room {
        Some(room) => {
            assert(all.take(room as int) =~= first.take(room as int));
        },
        None => {},
    }
}

/// What one answer of the sink means for a buffer of `len` bytes of which the
/// first `offset` have been accepted: the new offset, or the failure that ends
/// the attempt.
pub fn advance<E>(offset: usize, len: usize, answer: Result<usize, E>) -> (r: Result<
    usize,
    WriteError<E>,
>)
    requires
        offset < len,
        answer matches Ok(n) ==> n <= len - offset,
    ensures
        r == match answer {
            Ok(n) => if n == 0 {
                Err(WriteError::WriteZero)
            } else {
                Ok((offset + n) as usize)
            },
            Err(e) => Err(WriteError::Sink(e)),
        },
{
    match answer {
        Ok(n) => if n == 0 {
            Err(WriteError::WriteZero)
        } else {
            Ok(offset + n)
        },
        Err(e) => Err(WriteError::Sink(e)),
    }
}

/// Whether the calls on a sink went from `before` to `after` by a draining of
/// `bytes` that returned `r`: the calls of `before` stand as they were, and
/// those added are the calls of the draining, whose last decides `r`.
pub open spec fn drained_into<E>(
    before: Seq<Call<E>>,
    after: Seq<Call<E>>,
    bytes: Seq<u8>,
    r: Result<(), WriteError<E>>,
) -> bool {
    &&& after == before + added(before, after)
    &&& drained(bytes, added(before, after))
    &&& r == result_of(added(before, after))
}

/// Writes all of `buf` into `sink`: offers what is left of it again and again
/// until the sink has accepted every byte, fails, or accepts nothing. The
/// first failure ends the attempt and is returned; nothing is offered after
/// it, and the sink is not flushed.
pub fn write_all<W: Sink>(sink: &mut W, buf: &[u8]) -> (r: Result<(), WriteError<W::Error>>)
    ensures
        delivered(old(sink)@, final(sink)@, buf@, r),
        drained_into(old(sink).calls(), final(sink).calls(), buf@, r),
{
    let mut offset: usize = 0;
    let ghost mut made: Seq<Call<W::Error>> = Seq::empty();
    proof {
        assert(sink.calls() =~= old(sink).calls() + made);
    }
    while offset < buf.len()
        invariant
            offset <= buf@.len(),
            sink@.written == old(sink)@.written + buf@.take(offset as int),
            match old(sink)@.room {
                Some(room) => offset <= room && sink@.room == Some((room - offset) as nat),
                None => sink@.room is None,
            },
            sink.calls() == old(sink).calls() + made,
            progress(buf@, made) == Some(offset as nat),
        decreases buf@.len() - offset,
    {
        let rest: &[u8] = vstd::slice::slice_subrange(buf, offset, buf.len());
        let answer: Result<usize, W::Error> = sink.write(rest);
        let ghost call: Call<W::Error> = Call::Write { offered: rest@, answer };
        proof {
            if let Ok(n) = answer {
                assert(buf@.take(offset + n) =~= buf@.take(offset as int) + rest@.take(n as int));
            }
            assert(rest@ =~= buf@.skip(offset as int));
            assert(made.push(call).drop_last() =~= made);
            assert(sink.calls() =~= old(sink).calls() + made.push(call));
            assert(added(old(sink).calls(), sink.calls()) =~= made.push(call));
            made = made.push(call);
        }
        match advance(offset, buf.len(), answer) {
            Ok(next) => {
                offset = next;
            },
            Err(e) => {
                assert(stopped(buf@, made));
                return Err(e);
            },
        }
    }
    proof {
        assert(buf@.take(offset as int) =~= buf@);
        assert(added(old(sink).calls(), sink.calls()) =~= made);
    }
    Ok(())
}

} // verus!
