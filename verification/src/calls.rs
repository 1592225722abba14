//! The calls made on a sink, and what a draining of bytes looks like in them.

use crate::sink::WriteError;
use crate::wire::{crlf, size_line};
use vstd::prelude::*;

verus! {

/// One call made on a sink: what was asked of it and what it answered.
pub enum Call<E> {
    /// A write that offered `offered`.
    Write { offered: Seq<u8>, answer: Result<usize, E> },
    /// A flush.
    Flush { outcome: Result<(), E> },
}

/// The calls that `after` holds beyond those of `before`.
pub open spec fn added<E>(before: Seq<Call<E>>, after: Seq<Call<E>>) -> Seq<Call<E>> {
    after.skip(before.len() as int)
}

/// How far into `bytes` the writes in `calls` have come, where each of them
/// offered all that was left and the sink accepted at least one byte of it;
/// `None` where `calls` are not such writes.
pub open spec fn progress<E>(bytes: Seq<u8>, calls: Seq<Call<E>>) -> Option<nat>
    decreases calls.len(),
{
    if calls.len() == 0 {
        Some(0)
    } else {
        match (progress(bytes, calls.drop_last()), calls.last()) {
            (Some(offset), Call::Write { offered, answer: Ok(n) }) => if offset < bytes.len()
                && offered == bytes.skip(offset as int) && 0 < n <= bytes.len() - offset {
                Some((offset + n) as nat)
            } else {
                None
            },
            _ => None,
        }
    }
}

/// Whether `calls` are a draining of `bytes` that was cut short: writes that
/// came some way into `bytes`, and then one more offer of the rest, which the
/// sink answered with an error or by accepting nothing.
pub open spec fn stopped<E>(bytes: Seq<u8>, calls: Seq<Call<E>>) -> bool {
    &&& calls.len() > 0
    &&& progress(bytes, calls.drop_last()) matches Some(offset)
    &&& offset < bytes.len()
    &&& calls.last() matches Call::Write { offered, answer }
    &&& offered == bytes.skip(offset as int)
    &&& !(answer matches Ok(n) && n > 0)
}

/// Whether `calls` are the calls of draining `bytes` into a sink: writes only,
/// each offering what the writes before it left over, up to the write that
/// took the last byte or to the first that failed or took nothing. No call
/// follows a failure. Nothing is offered where `bytes` is empty.
pub open spec fn drained<E>(bytes: Seq<u8>, calls: Seq<Call<E>>) -> bool {
    progress(bytes, calls) == Some(bytes.len()) || stopped(bytes, calls)
}

/// What a draining that made `calls` returns, which its last call decides:
/// the error of the sink where the last write failed, `WriteZero` where it
/// took nothing, success otherwise.
pub open spec fn result_of<E>(calls: Seq<Call<E>>) -> Result<(), WriteError<E>> {
    if calls.len() == 0 {
        Ok(())
    } else {
        match calls.last() {
            Call::Write { answer: Err(e), .. } => Err(WriteError::Sink(e)),
            Call::Write { answer: Ok(n), .. } => if n == 0 {
                Err(WriteError::WriteZero)
            } else {
                Ok(())
            },
            Call::Flush { .. } => Ok(()),
        }
    }
}

/// Writes that make progress are writes that the sink answered with a count
/// above zero, and they do not come further than the end of `bytes`.
pub proof fn lemma_progress<E>(bytes: Seq<u8>, calls: Seq<Call<E>>)
    requires
        progress(bytes, calls) is Some,
    ensures
        progress(bytes, calls)->0 <= bytes.len(),
        calls.len() > 0 ==> bytes.len() > 0,
        forall|k: int|
            0 <= k < calls.len() ==> (#[trigger] calls[k] matches Call::Write {
                answer: Ok(n),
                ..
            } && n > 0),
    decreases calls.len(),
{
    if calls.len() > 0 {
        lemma_progress(bytes, calls.drop_last());
        assert forall|k: int| 0 <= k < calls.len() implies (#[trigger] calls[k] matches Call::Write {
            answer: Ok(n),
            ..
        } && n > 0) by {
            if k < calls.len() - 1 {
                assert(calls.drop_last()[k] == calls[k]);
            }
        }
    }
}

/// In a draining every call is a write, and each but the last was answered
/// with a count above zero: a write that fails or takes nothing ends it. The
/// draining succeeds exactly when every byte was accepted, and it makes no
/// call at all exactly when there is nothing to drain.
pub proof fn lemma_drained<E>(bytes: Seq<u8>, calls: Seq<Call<E>>)
    requires
        drained(bytes, calls),
    ensures
        forall|k: int| 0 <= k < calls.len() ==> #[trigger] calls[k] is Write,
        forall|k: int|
            0 <= k < calls.len() - 1 ==> (#[trigger] calls[k] matches Call::Write {
                answer: Ok(n),
                ..
            } && n > 0),
        result_of(calls) is Ok <==> progress(bytes, calls) == Some(bytes.len()),
        result_of(calls) is Err <==> stopped(bytes, calls),
        calls.len() == 0 <==> bytes.len() == 0,
{
    if progress(bytes, calls) == Some(bytes.len()) {
        lemma_progress(bytes, calls);
    }
    if stopped(bytes, calls) {
        lemma_progress(bytes, calls.drop_last());
        assert forall|k: int| 0 <= k < calls.len() - 1 implies (#[trigger] calls[k] matches Call::Write {
            answer: Ok(n),
            ..
        } && n > 0) by {
            assert(calls.drop_last()[k] == calls[k]);
        }
    }
}

/// Whether `calls` are the calls of sending `data` as one chunk, with the
/// size line drained by the first `i` of them, the payload by those up to `j`
/// and the line end by the rest. A part that failed is the last: nothing of
/// the parts after it was offered.
pub open spec fn parts_drained<E>(data: Seq<u8>, calls: Seq<Call<E>>, i: int, j: int) -> bool {
    let head = calls.take(i);
    let middle = calls.subrange(i, j);
    let tail = calls.skip(j);
    &&& 0 <= i <= j <= calls.len()
    &&& drained(size_line(data.len()), head)
    &&& if result_of(head) is Err {
        i == calls.len()
    } else {
        &&& drained(data, middle)
        &&& if result_of(middle) is Err {
            j == calls.len()
        } else {
            drained(crlf(), tail)
        }
    }
}

/// Whether `calls` are the calls of sending `data` as one chunk: the draining
/// of its size line, then of `data`, then of the line end, up to the first
/// that failed. All of them are writes; the sink is not flushed.
pub open spec fn chunk_drained<E>(data: Seq<u8>, calls: Seq<Call<E>>) -> bool {
    exists|i: int, j: int| #[trigger] parts_drained(data, calls, i, j)
}

/// In the sending of a chunk at least one call is made, every call is a
/// write, and each but the last was answered with a count above zero: a write
/// that fails or takes nothing is the last call, and its answer decides the
/// result.
pub proof fn lemma_chunk_drained<E>(data: Seq<u8>, calls: Seq<Call<E>>)
    requires
        chunk_drained(data, calls),
    ensures
        calls.len() > 0,
        forall|k: int| 0 <= k < calls.len() ==> #[trigger] calls[k] is Write,
        forall|k: int|
            0 <= k < calls.len() - 1 ==> (#[trigger] calls[k] matches Call::Write {
                answer: Ok(n),
                ..
            } && n > 0),
{
    let (i, j): (int, int) = choose|i: int, j: int| #[trigger] parts_drained(data, calls, i, j);
    let head = calls.take(i);
    let middle = calls.subrange(i, j);
    let tail = calls.skip(j);
    crate::hex::lemma_numeral_digits(data.len());
    lemma_drained(size_line(data.len()), head);
    if result_of(head) is Ok {
        lemma_progress(size_line(data.len()), head);
        lemma_drained(data, middle);
        if result_of(middle) is Ok {
            if middle.len() > 0 {
                lemma_progress(data, middle);
            }
            lemma_drained(crlf(), tail);
        }
    }
    assert forall|k: int| 0 <= k < calls.len() implies #[trigger] calls[k] is Write by {
        if k < i {
            assert(head[k] == calls[k]);
        } else if k < j {
            assert(middle[k - i] == calls[k]);
        } else {
            assert(tail[k - j] == calls[k]);
        }
    }
    assert forall|k: int| 0 <= k < calls.len() - 1 implies (#[trigger] calls[k] matches Call::Write {
        answer: Ok(n),
        ..
    } && n > 0) by {
        if k < i {
            assert(head[k] == calls[k]);
        } else if k < j {
            assert(middle[k - i] == calls[k]);
        } else {
            assert(tail[k - j] == calls[k]);
        }
    }
}

} // verus!
