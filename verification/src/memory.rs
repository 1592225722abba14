//! Sinks that keep the bytes in memory. Both are dependable: they report no
//! error, and how many bytes they still accept is known.

use crate::calls::Call;
use crate::sink::{Sink, SinkState};
use core::convert::Infallible;
use vstd::prelude::*;

verus! {

/// A sink that fills a borrowed slice from its start and accepts no more once
/// the slice is full.
pub struct SliceSink<'a> {
    buf: &'a mut [u8],
    len: usize,
    calls: Ghost<Seq<Call<Infallible>>>,
}

impl<'a> SliceSink<'a> {
    #[verifier::type_invariant]
    spec fn in_bounds(self) -> bool {
        self.len <= self.buf@.len()
    }

    /// A sink over `buf` that has accepted nothing yet.
    pub fn new(buf: &'a mut [u8]) -> (sink: Self)
        ensures
            sink@.written == Seq::<u8>::empty(),
            sink@.flushed == 0,
            sink@.room == Some(old(buf)@.len()),
            sink.calls() == Seq::<Call<Infallible>>::empty(),
    {
        SliceSink { buf, len: 0, calls: Ghost(Seq::empty()) }
    }

    /// How many bytes the sink has accepted.
    pub fn len(&self) -> (n: usize)
        ensures
            n == self@.written.len(),
    {
        proof {
            use_type_invariant(self);
        }
        self.len
    }

    /// The bytes the sink has accepted.
    pub fn as_slice(&self) -> (s: &[u8])
        ensures
            s@ == self@.written,
    {
        proof {
            use_type_invariant(self);
        }
        vstd::slice::slice_subrange(self.buf, 0, self.len)
    }
}

impl<'a> Sink for SliceSink<'a> {
    type Error = Infallible;

    closed spec fn view(&self) -> SinkState {
        SinkState {
            written: self.buf@.take(self.len as int),
            flushed: self.len as nat,
            room: Some((self.buf@.len() - self.len) as nat),
        }
    }

    closed spec fn calls(&self) -> Seq<Call<Infallible>> {
        self.calls@
    }

    /// Copies as much of `buf` as still fits.
    fn write(&mut self, buf: &[u8]) -> (r: Result<usize, Infallible>)
        ensures
            old(self)@.room matches Some(room) && r matches Ok(n) && n == if buf@.len() <= room {
                buf@.len()
            } else {
                room
            },
    {
        proof {
            use_type_invariant(&*self);
        }
        let room: usize = self.buf.len() - self.len;
        let n: usize = if buf.len() <= room {
            buf.len()
        } else {
            room
        };
        let mut i: usize = 0;
        while i < n
            invariant
                i <= n <= buf@.len(),
                self.len == old(self).len,
                self.calls == old(self).calls,
                self.len + n <= self.buf@.len() <= usize::MAX,
                self.buf@.len() == old(self).buf@.len(),
                self.buf@.take(self.len + i) == old(self).buf@.take(self.len as int) + buf@.take(
                    i as int,
                ),
            decreases n - i,
        {
            let ghost before: Seq<u8> = self.buf@;
            self.buf[self.len + i] = buf[i];
            proof {
                assert(self.buf@.take(self.len + i + 1) =~= before.take(self.len + i).push(
                    buf@[i as int],
                ));
                assert(buf@.take(i + 1) =~= buf@.take(i as int).push(buf@[i as int]));
            }
            i = i + 1;
        }
        self.len = self.len + n;
        self.calls = Ghost(self.calls@.push(Call::Write { offered: buf@, answer: Ok(n) }));
        Ok(n)
    }

    /// Nothing is held back, so there is nothing to do.
    fn flush(&mut self) -> (r: Result<(), Infallible>) {
        proof {
            use_type_invariant(&*self);
        }
        self.calls = Ghost(self.calls@.push(Call::Flush { outcome: Ok(()) }));
        Ok(())
    }
}

/// A sink that appends to a vector of its own and grows with what is written.
pub struct VecSink {
    bytes: Vec<u8>,
    calls: Ghost<Seq<Call<Infallible>>>,
}

impl VecSink {
    /// An empty sink.
    pub fn new() -> (sink: Self)
        ensures
            sink@.written == Seq::<u8>::empty(),
            sink@.flushed == 0,
            sink@.room == Some(usize::MAX as nat),
            sink.calls() == Seq::<Call<Infallible>>::empty(),
    {
        VecSink { bytes: Vec::new(), calls: Ghost(Seq::empty()) }
    }

    /// The bytes the sink has accepted.
    pub fn as_slice(&self) -> (s: &[u8])
        ensures
            s@ == self@.written,
    {
        self.bytes.as_slice()
    }

    /// Gives up the sink for the bytes it has accepted.
    pub fn into_inner(self) -> (bytes: Vec<u8>)
        ensures
            bytes@ == self@.written,
    {
        self.bytes
    }
}

impl Sink for VecSink {
    type Error = Infallible;

    closed spec fn view(&self) -> SinkState {
        SinkState {
            written: self.bytes@,
            flushed: self.bytes@.len(),
            room: Some((usize::MAX - self.bytes@.len()) as nat),
        }
    }

    closed spec fn calls(&self) -> Seq<Call<Infallible>> {
        self.calls@
    }

    /// Appends as much of `buf` as a vector can still hold.
    fn write(&mut self, buf: &[u8]) -> (r: Result<usize, Infallible>)
        ensures
            old(self)@.room matches Some(room) && r matches Ok(n) && n == if buf@.len() <= room {
                buf@.len()
            } else {
                room
            },
    {
        let room: usize = usize::MAX - self.bytes.len();
        let n: usize = if buf.len() <= room {
            buf.len()
        } else {
            room
        };
        let mut i: usize = 0;
        while i < n
            invariant
                i <= n <= buf@.len(),
                old(self).bytes@.len() + n <= usize::MAX,
                self.calls == old(self).calls,
                self.bytes@ == old(self).bytes@ + buf@.take(i as int),
            decreases n - i,
        {
            self.bytes.push(buf[i]);
            proof {
                assert(buf@.take(i + 1) =~= buf@.take(i as int).push(buf@[i as int]));
            }
            i = i + 1;
        }
        self.calls = Ghost(self.calls@.push(Call::Write { offered: buf@, answer: Ok(n) }));
        Ok(n)
    }

    /// Nothing is held back, so there is nothing to do.
    fn flush(&mut self) -> (r: Result<(), Infallible>) {
        self.calls = Ghost(self.calls@.push(Call::Flush { outcome: Ok(()) }));
        Ok(())
    }
}

} // verus!
