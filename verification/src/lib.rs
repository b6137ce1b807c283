//! A binary wire format for primitive and composite values, with codecs for
//! records and tagged unions derived from a description of their shape.

use vstd::prelude::*;
use crate::stream::{Sink, Source};

pub mod derive;
pub mod endian;
pub mod fields;
pub mod impls;
pub mod integers;
pub mod parse;
pub mod stream;

verus! {

/// Why a byte stream could not serve a read or a write.
#[derive(Clone, Copy, Debug, PartialEq, Eq, Structural)]
pub enum IoFault {
    /// The source ended before the requested bytes were read.
    UnexpectedEof,
    /// The sink was full before the whole buffer was written.
    WriteZero,
    /// The bytes read do not fit the type that was asked for.
    InvalidData,
    /// Any other fault of the underlying stream.
    Other,
}

/// The ways in which encoding or decoding a value fails.
#[derive(Clone, Copy, Debug, PartialEq, Eq, Structural)]
pub enum Error {
    /// The underlying stream failed.
    IOError(IoFault),
    /// The bytes of a text are not valid UTF-8.
    Utf8DecodeError,
    /// A boolean byte was neither 0 nor 1; carries the byte.
    InvalidBoolean(u8),
    /// A discriminant matched no variant of the tagged union.
    InvalidEnumVariant,
}

/// What decoding makes of a sequence of bytes: a value or an error, and the
/// number of bytes that were consumed to get there.
pub struct Decoded<V> {
    pub outcome: Result<V, Error>,
    pub consumed: nat,
}

impl<V> Decoded<V> {
    /// Decoding gave `value` after `consumed` bytes.
    pub open spec fn success(value: V, consumed: nat) -> Self {
        Decoded { outcome: Ok(value), consumed }
    }

    /// Decoding failed with `error` after `consumed` bytes.
    pub open spec fn failure(error: Error, consumed: nat) -> Self {
        Decoded { outcome: Err(error), consumed }
    }

    /// The same decoding, `before` bytes further into the stream.
    pub open spec fn shifted(self, before: nat) -> Self {
        Decoded { outcome: self.outcome, consumed: before + self.consumed }
    }

    /// Whether a read that took a source from `before` to `next`, and whose
    /// outcome has the model `result`, did what `self` says: the bytes stay,
    /// the position advances by what was consumed, and the outcome is the same.
    pub open spec fn read(self, before: Source, next: Source, result: Result<V, Error>) -> bool {
        &&& next.bytes() == before.bytes()
        &&& next.consumed() == before.consumed() + self.consumed
        &&& result == self.outcome
    }
}

/// The model of what a decoding function returned.
pub open spec fn model_of<T: DeepView>(result: Result<T, Error>) -> Result<T::V, Error> {
    match result {
        Ok(value) => Ok(value.deep_view()),
        Err(error) => Err(error),
    }
}

/// A type with a place in the wire format. The format is stated over the
/// type's model, its deep view: which bytes encode a value, and what decoding
/// makes of any sequence of bytes.
pub trait Transmittable: Sized + DeepView {
    /// Whether `value` can be the model of a value of the type: a sequence,
    /// for one, has a length that fits a platform word.
    spec fn valid(value: Self::V) -> bool;

    /// The bytes that encode `value`.
    spec fn encoding(value: Self::V) -> Seq<u8>;

    /// What decoding makes of `input`, the bytes that a source has left.
    spec fn decoding(input: Seq<u8>) -> Decoded<Self::V>;

    /// Decoding the encoding of a value gives the value back and consumes the
    /// encoding and nothing else, whatever follows it.
    proof fn lemma_round_trip(value: Self::V, rest: Seq<u8>)
        requires
            Self::valid(value),
        ensures
            Self::decoding(Self::encoding(value) + rest) == Decoded::success(
                value,
                Self::encoding(value).len(),
            ),
    ;

    /// Decoding never consumes more bytes than there are.
    proof fn lemma_no_over_read(input: Seq<u8>)
        ensures
            Self::decoding(input).consumed <= input.len(),
    ;

    /// Writes the encoding of the value to `sink`. Fails with `WriteZero`,
    /// after writing the bytes that fit, when the sink cannot hold it all.
    /// A value that was written whole has a valid model.
    fn serialize(&self, sink: &mut Sink) -> (result: Result<(), Error>)
        ensures
            old(sink).wrote(*final(sink), Self::encoding(self.deep_view()), result),
            result is Ok ==> Self::valid(self.deep_view()),
    ;

    /// Reads a value from `source`, consuming the bytes of its encoding. On a
    /// failure the source stands behind the last byte that was read.
    fn deserialize(source: &mut Source) -> (result: Result<Self, Error>)
        ensures
            Self::decoding(old(source).remaining()).read(
                *old(source),
                *final(source),
                model_of(result),
            ),
    ;
}

} // verus!
