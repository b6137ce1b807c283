//! In-memory byte streams: the source that decoding reads from and the sink
//! that encoding writes to.

use vstd::prelude::*;
use crate::{Error, IoFault};

verus! {

/// A sequence of bytes with a read position.
pub struct Source {
    data: Vec<u8>,
    position: usize,
}

impl Source {
    /// All the bytes of the source, read or not.
    pub closed spec fn bytes(self) -> Seq<u8> {
        self.data@
    }

    /// How many bytes have been consumed.
    pub closed spec fn consumed(self) -> nat {
        self.position as nat
    }

    /// The position of a source never passes the end of its bytes.
    #[verifier::type_invariant]
    pub open spec fn in_bounds(self) -> bool {
        self.consumed() <= self.bytes().len()
    }

    /// The bytes that have not been consumed yet.
    pub open spec fn remaining(self) -> Seq<u8> {
        self.bytes().skip(self.consumed() as int)
    }

    /// A source over `data`, positioned at its first byte.
    pub fn new(data: Vec<u8>) -> (source: Source)
        ensures
            source.bytes() == data@,
            source.consumed() == 0,
    {
        Source { data, position: 0 }
    }

    /// The number of bytes consumed so far.
    pub fn position(&self) -> (position: usize)
        ensures
            position == self.consumed(),
            position <= self.bytes().len(),
    {
        proof {
            use_type_invariant(self);
        }
        self.position
    }

    /// The number of bytes still to be read.
    pub fn available(&self) -> (count: usize)
        ensures
            count == self.remaining().len(),
    {
        proof {
            use_type_invariant(self);
        }
        self.data.len() - self.position
    }

    /// Reads exactly `count` bytes. When fewer remain, the read fails with
    /// `UnexpectedEof` and the source is left at its end.
    pub fn read_exact(&mut self, count: usize) -> (result: Result<Vec<u8>, Error>)
        ensures
            final(self).bytes() == old(self).bytes(),
            final(self).consumed() == old(self).consumed() + taken(old(self).remaining(), count as nat),
            match result {
                Ok(bytes) => count <= old(self).remaining().len()
                    && bytes@ == old(self).remaining().take(count as int),
                Err(error) => count > old(self).remaining().len()
                    && error == Error::IOError(IoFault::UnexpectedEof),
            },
    {
        proof {
            use_type_invariant(&*self);
        }
        if self.data.len() - self.position < count {
            self.position = self.data.len();
            return Err(Error::IOError(IoFault::UnexpectedEof));
        }
        let start = self.position;
        let mut bytes: Vec<u8> = Vec::new();
        let mut index: usize = 0;
        while index < count
            invariant
                index <= count,
                start + count <= self.data.len(),
                start == self.position,
                self.data@ == old(self).data@,
                bytes@ == self.data@.subrange(start as int, start + index),
            decreases count - index,
        {
            bytes.push(self.data[start + index]);
            index = index + 1;
        }
        self.position = start + count;
        assert(bytes@ == old(self).remaining().take(count as int));
        Ok(bytes)
    }
}

/// How many bytes a read of `count` bytes consumes from `input`: the bytes
/// asked for when they are there, and otherwise all that is left.
pub open spec fn taken(input: Seq<u8>, count: nat) -> nat {
    if count <= input.len() {
        count
    } else {
        input.len()
    }
}

/// A growing sequence of bytes that holds at most `limit` bytes.
pub struct Sink {
    data: Vec<u8>,
    limit: usize,
}

impl View for Sink {
    type V = Seq<u8>;

    /// The bytes written so far.
    closed spec fn view(&self) -> Seq<u8> {
        self.data@
    }
}

impl Sink {
    /// The most bytes that the sink can hold.
    pub closed spec fn capacity(self) -> nat {
        self.limit as nat
    }

    /// A sink never holds more bytes than its limit.
    #[verifier::type_invariant]
    pub open spec fn within_limit(self) -> bool {
        self@.len() <= self.capacity()
    }

    /// Whether `data` can be written whole.
    pub open spec fn accepts(self, data: Seq<u8>) -> bool {
        self@.len() + data.len() <= self.capacity()
    }

    /// What the sink holds after an attempt to write `data`: the bytes that
    /// were there, followed by as much of `data` as fits.
    pub open spec fn after(self, data: Seq<u8>) -> Seq<u8> {
        if self.accepts(data) {
            self@ + data
        } else {
            (self@ + data).take(self.capacity() as int)
        }
    }

    /// Whether a write of `data` takes the sink from `self` to `next` and
    /// reports `result`: the limit stays, the bytes that fit are appended,
    /// and the write succeeds exactly when all of them fit.
    pub open spec fn wrote(self, next: Sink, data: Seq<u8>, result: Result<(), Error>) -> bool {
        &&& next.capacity() == self.capacity()
        &&& next@ == self.after(data)
        &&& result == if self.accepts(data) {
            Ok::<(), Error>(())
        } else {
            Err::<(), Error>(Error::IOError(IoFault::WriteZero))
        }
    }

    /// An empty sink without a limit of its own.
    pub fn new() -> (sink: Sink)
        ensures
            sink@ == Seq::<u8>::empty(),
            sink.capacity() == usize::MAX,
    {
        Sink { data: Vec::new(), limit: usize::MAX }
    }

    /// An empty sink that holds at most `limit` bytes.
    pub fn with_limit(limit: usize) -> (sink: Sink)
        ensures
            sink@ == Seq::<u8>::empty(),
            sink.capacity() == limit,
    {
        Sink { data: Vec::new(), limit }
    }

    /// The number of bytes written so far.
    pub fn len(&self) -> (len: usize)
        ensures
            len == self@.len(),
            len <= self.capacity(),
    {
        proof {
            use_type_invariant(self);
        }
        self.data.len()
    }

    /// The bytes written so far.
    pub fn into_inner(self) -> (data: Vec<u8>)
        ensures
            data@ == self@,
    {
        self.data
    }

    /// Writes all of `data`. When the sink cannot hold it all, the bytes that
    /// fit are written and the write fails with `WriteZero`.
    pub fn write_all(&mut self, data: &[u8]) -> (result: Result<(), Error>)
        ensures
            old(self).wrote(*final(self), data@, result),
    {
        proof {
            use_type_invariant(&*self);
        }
        let room = self.limit - self.data.len();
        let count = if data.len() <= room { data.len() } else { room };
        let mut written: Vec<u8> = Vec::new();
        core::mem::swap(&mut written, &mut self.data);
        let mut index: usize = 0;
        while index < count
            invariant
                index <= count,
                count <= data@.len(),
                written@ == old(self).data@ + data@.take(index as int),
            decreases count - index,
        {
            written.push(data[index]);
            index = index + 1;
        }
        self.data = written;
        if data.len() <= room {
            assert(data@.take(count as int) == data@);
            Ok(())
        } else {
            assert(self.data@ == (old(self).data@ + data@).take(self.limit as int));
            Err(Error::IOError(IoFault::WriteZero))
        }
    }
}

/// What a source has left after `count` more bytes were consumed.
pub proof fn lemma_advance(before: Source, next: Source, count: nat)
    requires
        next.bytes() == before.bytes(),
        next.consumed() == before.consumed() + count,
        next.in_bounds(),
    ensures
        next.remaining() == before.remaining().skip(count as int),
{
}

/// Writing `first` and then, if it fitted, `second` leaves a sink as one
/// write of both does.
pub proof fn lemma_write_in_two(start: Sink, middle: Sink, first: Seq<u8>, second: Seq<u8>)
    requires
        middle.capacity() == start.capacity(),
        middle@ == start.after(first),
    ensures
        !start.accepts(first) ==> !start.accepts(first + second) && start.after(first + second)
            == middle@,
        start.accepts(first) ==> (start.accepts(first + second) <==> middle.accepts(second))
            && start.after(first + second) == middle.after(second),
{
    let limit = start.capacity() as int;
    if start.accepts(first) {
        assert(start@ + (first + second) == (start@ + first) + second);
    } else {
        assert((start@ + (first + second)).take(limit) == (start@ + first).take(limit));
    }
}

} // verus!
