//! The chunked writer: every write becomes one chunk in the sink, and closing
//! the writer ends the body.

use crate::audited::Writer;
use crate::calls::{added, chunk_drained, lemma_chunk_drained, lemma_drained, parts_drained, result_of, Call};
use crate::sink::{delivered, flushed, lemma_delivered_both, lemma_delivered_first_only, write_all};
use crate::sink::{Sink, SinkState, WriteError};
use crate::wire::{body, chunk, chunks, crlf, lemma_chunks_push, size_line, terminator, SizeLine};
use vstd::prelude::*;

verus! {

/// Writes bytes into a sink in the chunked transfer coding.
///
/// The writer owns its sink and keeps nothing else: no buffer, no count. Each
/// write is framed as one chunk and passed on at once. `close` and `finish`
/// consume the writer, so the body is ended once and nothing is written after
/// its end.
pub struct ChunkedWrite<W: Sink>(W);

/// The first failure of the two steps that end a body: that of the
/// terminator, else that of the flush, else none.
pub open spec fn settled<E>(sent: Result<(), WriteError<E>>, flushed: Result<(), E>) -> Result<
    (),
    WriteError<E>,
> {
    match sent {
        Err(e) => Err(e),
        Ok(_) => match flushed {
            Ok(_) => Ok(()),
            Err(e) => Err(WriteError::Sink(e)),
        },
    }
}

/// What ending a body returns, given what sending the terminator returned and
/// what the sink answered to the flush: the first failure of the two.
pub fn settle<E>(sent: Result<(), WriteError<E>>, flushed: Result<(), E>) -> (r: Result<
    (),
    WriteError<E>,
>)
    ensures
        r == settled(sent, flushed),
{
    match sent {
        Err(e) => Err(e),
        Ok(_) => match flushed {
            Ok(_) => Ok(()),
            Err(e) => Err(WriteError::Sink(e)),
        },
    }
}

/// How ending a body relates the sink before it to the sink after it, with
/// the calls that were made on the sink meanwhile.
///
/// The calls are those of sending the terminator as a chunk, then exactly one
/// flush, whatever became of the terminator. The outcome is the first failure
/// of the two. A dependable sink cannot fail to flush.
pub open spec fn concluded<E>(
    before: SinkState,
    after: SinkState,
    calls: Seq<Call<E>>,
    outcome: Result<(), WriteError<E>>,
) -> bool {
    &&& calls.len() > 0
    &&& calls.last() matches Call::Flush { outcome: answer }
    &&& chunk_drained(Seq::<u8>::empty(), calls.drop_last())
    &&& delivered(before, after, terminator(), result_of(calls.drop_last()))
    &&& answer is Ok ==> after.flushed == after.written.len()
    &&& before.room is Some ==> answer is Ok
    &&& outcome == settled(result_of(calls.drop_last()), answer)
}

/// Of the calls that end a body the last is the flush and every one before it
/// is a write: the sink is flushed once, after the terminator.
pub proof fn lemma_concluded<E>(
    before: SinkState,
    after: SinkState,
    calls: Seq<Call<E>>,
    outcome: Result<(), WriteError<E>>,
)
    requires
        concluded(before, after, calls, outcome),
    ensures
        calls.len() >= 2,
        calls.last() is Flush,
        forall|k: int| 0 <= k < calls.len() - 1 ==> #[trigger] calls[k] is Write,
{
    lemma_chunk_drained(Seq::<u8>::empty(), calls.drop_last());
    assert forall|k: int| 0 <= k < calls.len() - 1 implies #[trigger] calls[k] is Write by {
        assert(calls.drop_last()[k] == calls[k]);
    }
}

/// Whether `states` are the states of one sink before, between and after the
/// sending of `payloads`, each with the outcome at its place in `outcomes`.
pub open spec fn sent_in_turn<E>(
    states: Seq<SinkState>,
    payloads: Seq<Seq<u8>>,
    outcomes: Seq<Result<(), WriteError<E>>>,
) -> bool {
    &&& states.len() == payloads.len() + 1
    &&& outcomes.len() == payloads.len()
    &&& forall|i: int|
        0 <= i < payloads.len() ==> delivered(
            states[i],
            states[i + 1],
            chunk(#[trigger] payloads[i]),
            outcomes[i],
        )
}

/// What holds of the sending of payloads holds of the sending of all but the
/// last of them.
proof fn lemma_sent_in_turn_earlier<E>(
    states: Seq<SinkState>,
    payloads: Seq<Seq<u8>>,
    outcomes: Seq<Result<(), WriteError<E>>>,
)
    requires
        sent_in_turn(states, payloads, outcomes),
        payloads.len() > 0,
    ensures
        sent_in_turn(states.drop_last(), payloads.drop_last(), outcomes.drop_last()),
{
    let earlier: Seq<Seq<u8>> = payloads.drop_last();
    assert forall|i: int| 0 <= i < earlier.len() implies delivered(
        states.drop_last()[i],
        states.drop_last()[i + 1],
        chunk(#[trigger] earlier[i]),
        outcomes.drop_last()[i],
    ) by {
        assert(earlier[i] == payloads[i]);
    }
}

/// While every payload goes through, the sink holds what it held at first and
/// after that the chunks of the payloads, in the order in which they were sent.
pub proof fn lemma_writes_make_chunks<E>(
    states: Seq<SinkState>,
    payloads: Seq<Seq<u8>>,
    outcomes: Seq<Result<(), WriteError<E>>>,
)
    requires
        sent_in_turn(states, payloads, outcomes),
        forall|i: int| 0 <= i < outcomes.len() ==> #[trigger] outcomes[i] is Ok,
    ensures
        states.last().written == states[0].written + chunks(payloads),
    decreases payloads.len(),
{
    if payloads.len() == 0 {
        assert(states.last().written =~= states[0].written + chunks(payloads));
    } else {
        let n: int = payloads.len() - 1;
        let earlier: Seq<Seq<u8>> = payloads.drop_last();
        lemma_sent_in_turn_earlier(states, payloads, outcomes);
        lemma_writes_make_chunks(states.drop_last(), earlier, outcomes.drop_last());
        assert(payloads[n] == payloads.last());
        assert(outcomes[n] is Ok);
        lemma_chunks_push(earlier, payloads.last());
        assert(earlier.push(payloads.last()) =~= payloads);
        assert(states.last().written =~= states[0].written + chunks(payloads));
    }
}

/// Payloads written one after another into a sink, and the body then ended,
/// leave in the sink what it held at first and after that the body of those
/// payloads: the chunk of each in order, then the terminator, and all of it
/// flushed. This holds where every step went through.
pub proof fn lemma_writes_make_body<E>(
    states: Seq<SinkState>,
    payloads: Seq<Seq<u8>>,
    outcomes: Seq<Result<(), WriteError<E>>>,
    end: SinkState,
    last_calls: Seq<Call<E>>,
)
    requires
        sent_in_turn(states, payloads, outcomes),
        forall|i: int| 0 <= i < outcomes.len() ==> #[trigger] outcomes[i] is Ok,
        concluded::<E>(states.last(), end, last_calls, Ok(())),
    ensures
        end.written == states[0].written + body(payloads),
        end.flushed == end.written.len(),
{
    lemma_writes_make_chunks(states, payloads, outcomes);
    assert(end.written =~= states[0].written + body(payloads));
}

/// A dependable sink with room for the whole body lets every step go through:
/// no write of a payload fails and the body ends without failure, whatever the
/// payloads are.
pub proof fn lemma_room_for_body<E>(
    states: Seq<SinkState>,
    payloads: Seq<Seq<u8>>,
    outcomes: Seq<Result<(), WriteError<E>>>,
    end: SinkState,
    last_calls: Seq<Call<E>>,
    outcome: Result<(), WriteError<E>>,
)
    requires
        sent_in_turn(states, payloads, outcomes),
        concluded(states.last(), end, last_calls, outcome),
        states[0].room matches Some(room) && body(payloads).len() <= room,
    ensures
        forall|i: int| 0 <= i < outcomes.len() ==> #[trigger] outcomes[i] is Ok,
        outcome is Ok,
        end.written == states[0].written + body(payloads),
        end.flushed == end.written.len(),
        end.room == Some((states[0].room->0 - body(payloads).len()) as nat),
{
    lemma_room_for_chunks(states, payloads, outcomes);
    lemma_writes_make_body(states, payloads, outcomes, end, last_calls);
}

/// A dependable sink with room for the chunks of all `payloads` accepts each
/// of them, and its room shrinks by their length.
proof fn lemma_room_for_chunks<E>(
    states: Seq<SinkState>,
    payloads: Seq<Seq<u8>>,
    outcomes: Seq<Result<(), WriteError<E>>>,
)
    requires
        sent_in_turn(states, payloads, outcomes),
        states[0].room matches Some(room) && chunks(payloads).len() <= room,
    ensures
        forall|i: int| 0 <= i < outcomes.len() ==> #[trigger] outcomes[i] is Ok,
        states.last().room == Some((states[0].room->0 - chunks(payloads).len()) as nat),
    decreases payloads.len(),
{
    if payloads.len() > 0 {
        let n: int = payloads.len() - 1;
        let earlier: Seq<Seq<u8>> = payloads.drop_last();
        lemma_sent_in_turn_earlier(states, payloads, outcomes);
        lemma_chunks_push(earlier, payloads.last());
        assert(earlier.push(payloads.last()) =~= payloads);
        lemma_room_for_chunks(states.drop_last(), earlier, outcomes.drop_last());
        assert(payloads[n] == payloads.last());
        assert forall|i: int| 0 <= i < outcomes.len() implies #[trigger] outcomes[i] is Ok by {
            if i < n {
                assert(outcomes.drop_last()[i] is Ok);
            }
        }
    }
}

impl<W: Sink> ChunkedWrite<W> {
    /// The sink that the writer writes into.
    pub closed spec fn sink(&self) -> W {
        self.0
    }

    /// What is known of the writer's sink.
    pub open spec fn view(&self) -> SinkState {
        self.sink()@
    }

    /// Every call made on the writer's sink so far.
    pub open spec fn calls(&self) -> Seq<Call<W::Error>> {
        self.sink().calls()
    }

    /// Creates a writer that writes into `sink`. Nothing is written yet.
    pub fn new(sink: W) -> (writer: Self)
        ensures
            writer.sink() == sink,
    {
        ChunkedWrite(sink)
    }

    /// Sends `data` as one chunk: its size line, `data` itself, and a line end,
    /// each written in full before the next. The first failure ends the attempt
    /// and is returned; nothing is offered to the sink after it, and what the
    /// sink had accepted by then stays written. The sink is not flushed.
    pub fn send(&mut self, data: &[u8]) -> (r: Result<(), WriteError<W::Error>>)
        ensures
            delivered(old(self)@, final(self)@, chunk(data@), r),
            chunk_sent(old(self).calls(), final(self).calls(), data@, r),
    {
        let ghost start: SinkState = self@;
        let ghost calls: Seq<Call<W::Error>> = self.calls();
        let line: SizeLine = SizeLine::new(data.len());
        let end: [u8; 2] = [13u8, 10u8];
        let ghost head: Seq<u8> = size_line(data@.len());
        assert(end@ =~= crlf());

        let first = write_all(&mut self.0, line.as_slice());
        let ghost after_head: SinkState = self@;
        let ghost a: Seq<Call<W::Error>> = added(calls, self.calls());
        if let Err(e) = first {
            proof {
                lemma_delivered_first_only(start, after_head, head, data@ + crlf(), e);
                assert(head + (data@ + crlf()) =~= chunk(data@));
                assert(a.take(a.len() as int) =~= a);
                assert(parts_drained(data@, a, a.len() as int, a.len() as int));
            }
            return Err(e);
        }
        let ghost calls_head: Seq<Call<W::Error>> = self.calls();
        let second = write_all(&mut self.0, data);
        let ghost after_data: SinkState = self@;
        let ghost b: Seq<Call<W::Error>> = added(calls_head, self.calls());
        let ghost ab: Seq<Call<W::Error>> = a + b;
        proof {
            lemma_delivered_both(start, after_head, after_data, head, data@, second);
            assert(self.calls() =~= calls + ab);
            assert(added(calls, self.calls()) =~= ab);
            assert(ab.take(a.len() as int) =~= a);
            assert(ab.subrange(a.len() as int, ab.len() as int) =~= b);
        }
        if let Err(e) = second {
            proof {
                lemma_delivered_first_only(start, after_data, head + data@, crlf(), e);
                assert(ab.last() == b.last());
                assert(parts_drained(data@, ab, a.len() as int, ab.len() as int));
            }
            return Err(e);
        }
        let ghost calls_data: Seq<Call<W::Error>> = self.calls();
        let third = write_all(&mut self.0, end.as_slice());
        proof {
            let c: Seq<Call<W::Error>> = added(calls_data, self.calls());
            let abc: Seq<Call<W::Error>> = ab + c;
            lemma_delivered_both(start, after_data, self@, head + data@, crlf(), third);
            lemma_drained(crlf(), c);
            assert(self.calls() =~= calls + abc);
            assert(added(calls, self.calls()) =~= abc);
            assert(abc.take(a.len() as int) =~= a);
            assert(abc.subrange(a.len() as int, ab.len() as int) =~= b);
            assert(abc.skip(ab.len() as int) =~= c);
            assert(abc.last() == c.last());
            assert(parts_drained(data@, abc, a.len() as int, ab.len() as int));
        }
        third
    }

    /// Ends the body and gives the sink back with the outcome: sends the
    /// terminator, then flushes the sink once, even if the terminator failed,
    /// and reports the first failure of the two.
    pub fn close(self) -> (r: (W, Result<(), WriteError<W::Error>>))
        ensures
            r.0.calls() == self.calls() + added(self.calls(), r.0.calls()),
            concluded(self@, r.0@, added(self.calls(), r.0.calls()), r.1),
    {
        let mut writer = self;
        let end: [u8; 0] = [];
        assert(end@ =~= Seq::<u8>::empty());
        let sent = writer.send(end.as_slice());
        let ghost writes: Seq<Call<W::Error>> = added(self.calls(), writer.calls());
        let mut sink = writer.0;
        let answer = sink.flush();
        proof {
            let all: Seq<Call<W::Error>> = writes.push(Call::Flush { outcome: answer });
            assert(sink.calls() =~= self.calls() + all);
            assert(added(self.calls(), sink.calls()) =~= all);
            assert(all.drop_last() =~= writes);
        }
        let outcome = settle(sent, answer);
        (sink, outcome)
    }

    /// Ends the body as `close` does and gives the sink back, without the
    /// outcome: a failure of the terminator or of the flush is dropped.
    pub fn finish(self) -> (sink: W)
        ensures
            sink.calls() == self.calls() + added(self.calls(), sink.calls()),
            exists|outcome: Result<(), WriteError<W::Error>>|
                concluded(self@, sink@, added(self.calls(), sink.calls()), outcome),
    {
        self.close().0
    }
}

/// Whether the calls on a sink went from `before` to `after` by the sending of
/// `data` as one chunk that returned `r`: the calls of `before` stand as they
/// were, and those added are the calls of the sending, whose last decides `r`.
pub open spec fn chunk_sent<E>(
    before: Seq<Call<E>>,
    after: Seq<Call<E>>,
    data: Seq<u8>,
    r: Result<(), WriteError<E>>,
) -> bool {
    &&& after == before + added(before, after)
    &&& chunk_drained(data, added(before, after))
    &&& r == result_of(added(before, after))
}

impl<W: Sink> Writer for ChunkedWrite<W> {
    type Error = WriteError<W::Error>;

    /// Sends `buf` as one chunk, as `send` does, and returns its length: the
    /// whole of `buf` is accepted or the write fails.
    fn write(&mut self, buf: &[u8]) -> (r: Result<usize, WriteError<W::Error>>)
        ensures
            r matches Ok(n) ==> n == buf@.len(),
            delivered(
                old(self)@,
                final(self)@,
                chunk(buf@),
                match r {
                    Ok(_) => Ok(()),
                    Err(e) => Err(e),
                },
            ),
            chunk_sent(
                old(self).calls(),
                final(self).calls(),
                buf@,
                match r {
                    Ok(_) => Ok(()),
                    Err(e) => Err(e),
                },
            ),
    {
        match self.send(buf) {
            Ok(_) => Ok(buf.len()),
            Err(e) => Err(e),
        }
    }

    /// Flushes the sink, once, and returns what the sink answered, its error
    /// as `WriteError::Sink`. Nothing is written.
    fn flush(&mut self) -> (r: Result<(), WriteError<W::Error>>)
        ensures
            flushed(old(self)@, final(self)@, r is Ok),
            final(self).calls().len() == old(self).calls().len() + 1,
            final(self).calls().drop_last() == old(self).calls(),
            final(self).calls().last() matches Call::Flush { outcome } && r == settled(
                Ok(()),
                outcome,
            ),
    {
        let answer = self.0.flush();
        proof {
            assert(self.calls().drop_last() =~= old(self).calls());
        }
        settle(Ok(()), answer)
    }
}

} // verus!
