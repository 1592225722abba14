//! Writers from outside the library, and the record that turns one into a sink.

use crate::calls::Call;
use crate::sink::{Sink, SinkState};
use vstd::prelude::*;

verus! {

/// A writer of which nothing is known beyond its signatures: a file, a socket,
/// any stream of the surrounding program. `write` says how many bytes of
/// `buf` it took, `flush` forces them on.
pub trait Writer {
    /// The failure that the writer reports.
    type Error;

    /// Offers `buf` and returns how many of its bytes were taken.
    fn write(&mut self, buf: &[u8]) -> Result<usize, Self::Error>;

    /// Forces what was taken on to its destination.
    fn flush(&mut self) -> Result<(), Self::Error>;
}

/// A writer together with the record of every call made to it, which makes it
/// a sink. What the sink has accepted is what the writer acknowledged, call by
/// call; what it has flushed is what stood accepted at the last flush that
/// succeeded. Nothing is promised of such a sink: its room is `None`.
pub struct Audited<T: Writer> {
    inner: T,
    calls: Ghost<Seq<Call<T::Error>>>,
}

impl<T: Writer> Audited<T> {
    /// Starts an empty record for `inner`.
    pub fn new(inner: T) -> (sink: Self)
        ensures
            sink.calls() == Seq::<Call<T::Error>>::empty(),
            sink@.written == Seq::<u8>::empty(),
            sink@.flushed == 0,
            sink.inner() == inner,
    {
        Audited { inner, calls: Ghost(Seq::empty()) }
    }

    /// The writer under the record.
    pub closed spec fn inner(&self) -> T {
        self.inner
    }

    /// Gives up the record for the writer.
    pub fn into_inner(self) -> (inner: T)
        ensures
            inner == self.inner(),
    {
        self.inner
    }
}

/// What a writer's answer to an offer of `len` bytes counts for: the count it
/// gave, but no more than was offered, or its failure.
pub fn counted<E>(len: usize, answer: Result<usize, E>) -> (r: Result<usize, E>)
    ensures
        r == match answer {
            Ok(count) => Ok(
                if count <= len {
                    count
                } else {
                    len
                },
            ),
            Err(e) => Err(e),
        },
{
    match answer {
        Ok(count) => Ok(
            if count <= len {
                count
            } else {
                len
            },
        ),
        Err(e) => Err(e),
    }
}

impl<T: Writer> Sink for Audited<T> {
    type Error = T::Error;

    open spec fn view(&self) -> SinkState {
        SinkState {
            written: written_in(self.calls()),
            flushed: flushed_in(self.calls()),
            room: None,
        }
    }

    closed spec fn calls(&self) -> Seq<Call<T::Error>> {
        self.calls@
    }

    /// Hands `buf` to the writer, once, and enters the call in the record with
    /// what the writer's answer counts for, which is returned.
    fn write(&mut self, buf: &[u8]) -> (r: Result<usize, T::Error>) {
        let r: Result<usize, T::Error> = counted(buf.len(), self.inner.write(buf));
        let ghost call: Call<T::Error> = Call::Write { offered: buf@, answer: r };
        proof {
            assert(self.calls@.push(call).drop_last() =~= self.calls@);
        }
        self.calls = Ghost(self.calls@.push(call));
        r
    }

    /// Flushes the writer, once, enters the call in the record and returns the
    /// writer's answer as it is.
    fn flush(&mut self) -> (r: Result<(), T::Error>) {
        let r: Result<(), T::Error> = self.inner.flush();
        let ghost call: Call<T::Error> = Call::Flush { outcome: r };
        proof {
            assert(self.calls@.push(call).drop_last() =~= self.calls@);
        }
        self.calls = Ghost(self.calls@.push(call));
        r
    }
}

/// The bytes that a call added to what the sink has accepted.
pub open spec fn acknowledged<E>(call: Call<E>) -> Seq<u8> {
    match call {
        Call::Write { offered, answer: Ok(n) } => offered.take(n as int),
        _ => Seq::empty(),
    }
}

/// All bytes that the sink accepted in `calls`, in their order.
pub open spec fn written_in<E>(calls: Seq<Call<E>>) -> Seq<u8>
    decreases calls.len(),
{
    if calls.len() == 0 {
        Seq::empty()
    } else {
        written_in(calls.drop_last()) + acknowledged(calls.last())
    }
}

/// How many of those bytes stood accepted at the last flush in `calls` that
/// succeeded.
pub open spec fn flushed_in<E>(calls: Seq<Call<E>>) -> nat
    decreases calls.len(),
{
    if calls.len() == 0 {
        0
    } else if calls.last() matches Call::Flush { outcome: Ok(_) } {
        written_in(calls).len()
    } else {
        flushed_in(calls.drop_last())
    }
}

} // verus!
