//! The values of the fields of a record or of a variant, as a list whose
//! type says what the fields are: the unit for no field, and a pair of the
//! first field and the list of the others.

use vstd::prelude::*;
use crate::stream::{lemma_advance, lemma_write_in_two, Sink, Source};
use crate::{model_of, Decoded, Error, Transmittable};

verus! {

/// The values of the fields of a record or of a variant, in declared order:
/// nothing, or a first field and the fields that follow it.
pub trait FieldList: Sized + DeepView {
    /// The number of fields.
    spec fn arity() -> nat;

    /// Whether `fields` can be the model of such fields.
    spec fn valid(fields: Self::V) -> bool;

    /// The encodings of the fields, one after the other.
    spec fn encoding(fields: Self::V) -> Seq<u8>;

    /// What decoding makes of `input` where the fields are due: the fields,
    /// or the error of the first that fails, nothing being read behind it.
    spec fn decoding(input: Seq<u8>) -> Decoded<Self::V>;

    /// Decoding the encoding of fields gives the fields back and consumes
    /// the encoding and nothing else, whatever follows it.
    proof fn lemma_round_trip(fields: Self::V, rest: Seq<u8>)
        requires
            Self::valid(fields),
        ensures
            Self::decoding(Self::encoding(fields) + rest) == Decoded::success(
                fields,
                Self::encoding(fields).len(),
            ),
    ;

    /// Decoding never consumes more bytes than there are.
    proof fn lemma_no_over_read(input: Seq<u8>)
        ensures
            Self::decoding(input).consumed <= input.len(),
    ;

    /// Writes the fields in declared order and stops at the first that does
    /// not fit; what was written stays.
    fn serialize_fields(&self, sink: &mut Sink) -> (result: Result<(), Error>)
        ensures
            old(sink).wrote(*final(sink), Self::encoding(self.deep_view()), result),
            result is Ok ==> Self::valid(self.deep_view()),
    ;

    /// Reads the fields in declared order and stops at the first that fails.
    fn deserialize_fields(source: &mut Source) -> (result: Result<Self, Error>)
        ensures
            Self::decoding(old(source).remaining()).read(
                *old(source),
                *final(source),
                model_of(result),
            ),
    ;
}

impl FieldList for () {
    open spec fn arity() -> nat {
        0
    }

    open spec fn valid(fields: ()) -> bool {
        true
    }

    open spec fn encoding(fields: ()) -> Seq<u8> {
        Seq::empty()
    }

    open spec fn decoding(input: Seq<u8>) -> Decoded<()> {
        Decoded::success((), 0)
    }

    proof fn lemma_round_trip(fields: (), rest: Seq<u8>) {
    }

    proof fn lemma_no_over_read(input: Seq<u8>) {
    }

    fn serialize_fields(&self, sink: &mut Sink) -> (result: Result<(), Error>) {
        proof {
            use_type_invariant(&*sink);
            assert(sink@ + Seq::<u8>::empty() == sink@);
        }
        Ok(())
    }

    fn deserialize_fields(source: &mut Source) -> (result: Result<Self, Error>) {
        Ok(())
    }
}

impl<H: Transmittable, T: FieldList> FieldList for (H, T) {
    open spec fn arity() -> nat {
        1 + T::arity()
    }

    open spec fn valid(fields: (H::V, T::V)) -> bool {
        H::valid(fields.0) && T::valid(fields.1)
    }

    open spec fn encoding(fields: (H::V, T::V)) -> Seq<u8> {
        H::encoding(fields.0) + T::encoding(fields.1)
    }

    open spec fn decoding(input: Seq<u8>) -> Decoded<(H::V, T::V)> {
        let first = H::decoding(input);
        match first.outcome {
            Ok(head) => {
                let others = T::decoding(input.skip(first.consumed as int));
                match others.outcome {
                    Ok(tail) => Decoded::success((head, tail), first.consumed + others.consumed),
                    Err(error) => Decoded::failure(error, first.consumed + others.consumed),
                }
            },
            Err(error) => Decoded::failure(error, first.consumed),
        }
    }

    proof fn lemma_round_trip(fields: (H::V, T::V), rest: Seq<u8>) {
        let input = Self::encoding(fields) + rest;
        assert(input == H::encoding(fields.0) + (T::encoding(fields.1) + rest));
        H::lemma_round_trip(fields.0, T::encoding(fields.1) + rest);
        assert(input.skip(H::encoding(fields.0).len() as int) == T::encoding(fields.1) + rest);
        T::lemma_round_trip(fields.1, rest);
    }

    proof fn lemma_no_over_read(input: Seq<u8>) {
        let first = H::decoding(input);
        H::lemma_no_over_read(input);
        T::lemma_no_over_read(input.skip(first.consumed as int));
    }

    fn serialize_fields(&self, sink: &mut Sink) -> (result: Result<(), Error>) {
        let ghost start = *sink;
        let first = self.0.serialize(sink);
        proof {
            lemma_write_in_two(
                start,
                *sink,
                H::encoding(self.0.deep_view()),
                T::encoding(self.1.deep_view()),
            );
        }
        if first.is_err() {
            return first;
        }
        self.1.serialize_fields(sink)
    }

    fn deserialize_fields(source: &mut Source) -> (result: Result<Self, Error>) {
        match H::deserialize(source) {
            Ok(head) => {
                proof {
                    use_type_invariant(&*source);
                    lemma_advance(
                        *old(source),
                        *source,
                        H::decoding(old(source).remaining()).consumed,
                    );
                }
                match T::deserialize_fields(source) {
                    Ok(tail) => Ok((head, tail)),
                    Err(error) => Err(error),
                }
            },
            Err(error) => Err(error),
        }
    }
}

} // verus!
