//! The wire format of booleans, optional values, sequences, arrays and text.

use vstd::prelude::*;
use vstd::utf8::{
    decode_utf8, encode_utf8, encode_utf8_decode_utf8, encode_utf8_valid_utf8, valid_utf8,
};
use crate::stream::{lemma_advance, lemma_write_in_two, Sink, Source};
use crate::{model_of, Decoded, Error, IoFault, Transmittable};

verus! {

impl Transmittable for bool {
    open spec fn valid(value: bool) -> bool {
        true
    }

    open spec fn encoding(value: bool) -> Seq<u8> {
        if value {
            seq![1u8]
        } else {
            seq![0u8]
        }
    }

    open spec fn decoding(input: Seq<u8>) -> Decoded<bool> {
        if input.len() == 0 {
            Decoded::failure(Error::IOError(IoFault::UnexpectedEof), 0)
        } else if input[0] == 0 {
            Decoded::success(false, 1)
        } else if input[0] == 1 {
            Decoded::success(true, 1)
        } else {
            Decoded::failure(Error::InvalidBoolean(input[0]), 1)
        }
    }

    proof fn lemma_round_trip(value: bool, rest: Seq<u8>) {
    }

    proof fn lemma_no_over_read(input: Seq<u8>) {
    }

    fn serialize(&self, sink: &mut Sink) -> (result: Result<(), Error>) {
        let byte: u8 = if *self {
            1
        } else {
            0
        };
        let buffer: [u8; 1] = [byte];
        assert(buffer@ == seq![byte]);
        sink.write_all(buffer.as_slice())
    }

    fn deserialize(source: &mut Source) -> (result: Result<Self, Error>) {
        match source.read_exact(1) {
            Ok(buffer) => {
                let byte: u8 = buffer[0];
                if byte == 0 {
                    Ok(false)
                } else if byte == 1 {
                    Ok(true)
                } else {
                    Err(Error::InvalidBoolean(byte))
                }
            },
            Err(error) => Err(error),
        }
    }
}

/// A boolean is one byte: 0 decodes to false and 1 to true; any other byte
/// is rejected and carried in the error.
pub proof fn lemma_boolean_domain(byte: u8, rest: Seq<u8>)
    ensures
        bool::decoding(seq![byte] + rest) == if byte == 0 {
            Decoded::success(false, 1)
        } else if byte == 1 {
            Decoded::success(true, 1)
        } else {
            Decoded::<bool>::failure(Error::InvalidBoolean(byte), 1)
        },
{
}

impl<T: Transmittable> Transmittable for Option<T> {
    open spec fn valid(value: Option<T::V>) -> bool {
        match value {
            Some(item) => T::valid(item),
            None => true,
        }
    }

    open spec fn encoding(value: Option<T::V>) -> Seq<u8> {
        match value {
            Some(item) => bool::encoding(true) + T::encoding(item),
            None => bool::encoding(false),
        }
    }

    open spec fn decoding(input: Seq<u8>) -> Decoded<Option<T::V>> {
        let presence = bool::decoding(input);
        match presence.outcome {
            Ok(true) => {
                let item = T::decoding(input.skip(presence.consumed as int));
                match item.outcome {
                    Ok(item_value) => Decoded::success(
                        Some(item_value),
                        presence.consumed + item.consumed,
                    ),
                    Err(error) => Decoded::failure(error, presence.consumed + item.consumed),
                }
            },
            Ok(false) => Decoded::success(None, presence.consumed),
            Err(error) => Decoded::failure(error, presence.consumed),
        }
    }

    proof fn lemma_round_trip(value: Option<T::V>, rest: Seq<u8>) {
        match value {
            Some(item) => {
                let input = Self::encoding(value) + rest;
                assert(input.skip(1) == T::encoding(item) + rest);
                T::lemma_round_trip(item, rest);
            },
            None => {},
        }
    }

    proof fn lemma_no_over_read(input: Seq<u8>) {
        if input.len() > 0 {
            T::lemma_no_over_read(input.skip(1));
        }
    }

    fn serialize(&self, sink: &mut Sink) -> (result: Result<(), Error>) {
        let ghost start = *sink;
        match self {
            Some(item) => {
                let presence = true.serialize(sink);
                let ghost middle = *sink;
                proof {
                    lemma_write_in_two(
                        start,
                        middle,
                        bool::encoding(true),
                        T::encoding(item.deep_view()),
                    );
                }
                if presence.is_err() {
                    return presence;
                }
                item.serialize(sink)
            },
            None => false.serialize(sink),
        }
    }

    fn deserialize(source: &mut Source) -> (result: Result<Self, Error>) {
        match bool::deserialize(source) {
            Ok(true) => {
                proof {
                    use_type_invariant(&*source);
                    lemma_advance(*old(source), *source, 1);
                }
                match T::deserialize(source) {
                    Ok(item) => Ok(Some(item)),
                    Err(error) => Err(error),
                }
            },
            Ok(false) => Ok(None),
            Err(error) => Err(error),
        }
    }
}

/// Whether every item of `values` is valid.
pub open spec fn all_valid<T: Transmittable>(values: Seq<T::V>) -> bool {
    forall|index: int| 0 <= index < values.len() ==> T::valid(#[trigger] values[index])
}

/// The encodings of `values`, one after the other.
pub open spec fn encode_elements<T: Transmittable>(values: Seq<T::V>) -> Seq<u8>
    decreases values.len(),
{
    if values.len() == 0 {
        Seq::empty()
    } else {
        encode_elements::<T>(values.drop_last()) + T::encoding(values.last())
    }
}

/// What decoding makes of `input` where `count` items are due, one after the
/// other: the items, or the error of the first one that fails, nothing being
/// read behind it.
pub open spec fn decode_elements<T: Transmittable>(input: Seq<u8>, count: nat) -> Decoded<
    Seq<T::V>,
>
    decreases count,
{
    if count == 0 {
        Decoded::success(Seq::empty(), 0)
    } else {
        let front = decode_elements::<T>(input, (count - 1) as nat);
        match front.outcome {
            Ok(values) => {
                let item = T::decoding(input.skip(front.consumed as int));
                match item.outcome {
                    Ok(value) => Decoded::success(
                        values.push(value),
                        front.consumed + item.consumed,
                    ),
                    Err(error) => Decoded::failure(error, front.consumed + item.consumed),
                }
            },
            Err(error) => front,
        }
    }
}

/// The encoding of a sequence with a length prefix: the number of items as a
/// platform word, then the items.
pub open spec fn encode_sequence<T: Transmittable>(values: Seq<T::V>) -> Seq<u8> {
    usize::encoding(values.len() as usize) + encode_elements::<T>(values)
}

/// The encoding of two sequences in a row is the two encodings in a row.
pub proof fn lemma_encode_elements_concat<T: Transmittable>(front: Seq<T::V>, back: Seq<T::V>)
    ensures
        encode_elements::<T>(front + back) == encode_elements::<T>(front) + encode_elements::<T>(
            back,
        ),
    decreases back.len(),
{
    if back.len() == 0 {
        assert(front + back == front);
    } else {
        lemma_encode_elements_concat::<T>(front, back.drop_last());
        assert((front + back).drop_last() == front + back.drop_last());
    }
}

/// Once an item has failed to decode, asking for more items changes nothing.
pub proof fn lemma_decode_failure_stays<T: Transmittable>(input: Seq<u8>, failed: nat, count: nat)
    requires
        failed <= count,
        decode_elements::<T>(input, failed).outcome is Err,
    ensures
        decode_elements::<T>(input, count) == decode_elements::<T>(input, failed),
    decreases count,
{
    if failed < count {
        lemma_decode_failure_stays::<T>(input, failed, (count - 1) as nat);
    }
}

/// Items that were encoded one after the other are decoded again, and the
/// bytes consumed are those of their encodings.
pub proof fn lemma_elements_round_trip<T: Transmittable>(values: Seq<T::V>, rest: Seq<u8>)
    requires
        all_valid::<T>(values),
    ensures
        decode_elements::<T>(encode_elements::<T>(values) + rest, values.len())
            == Decoded::success(values, encode_elements::<T>(values).len()),
    decreases values.len(),
{
    if values.len() > 0 {
        let front = values.drop_last();
        let last = values.last();
        let input = encode_elements::<T>(values) + rest;
        assert(input == encode_elements::<T>(front) + (T::encoding(last) + rest));
        lemma_elements_round_trip::<T>(front, T::encoding(last) + rest);
        assert(decode_elements::<T>(input, front.len()) == Decoded::success(
            front,
            encode_elements::<T>(front).len(),
        ));
        assert(input.skip(encode_elements::<T>(front).len() as int) == T::encoding(last) + rest);
        T::lemma_round_trip(last, rest);
        assert(front.push(last) == values);
    } else {
        assert(values == Seq::<T::V>::empty());
    }
}

/// A sequence that was encoded with its length prefix is decoded again.
pub proof fn lemma_sequence_round_trip<T: Transmittable>(values: Seq<T::V>, rest: Seq<u8>)
    requires
        values.len() <= usize::MAX,
        all_valid::<T>(values),
    ensures
        usize::decoding(encode_sequence::<T>(values) + rest) == Decoded::success(
            values.len() as usize,
            usize::encoding(values.len() as usize).len(),
        ),
        (encode_sequence::<T>(values) + rest).skip(
            usize::encoding(values.len() as usize).len() as int,
        ) == encode_elements::<T>(values) + rest,
        decode_elements::<T>(encode_elements::<T>(values) + rest, values.len())
            == Decoded::success(values, encode_elements::<T>(values).len()),
{
    let prefix = usize::encoding(values.len() as usize);
    let input = encode_sequence::<T>(values) + rest;
    assert(input == prefix + (encode_elements::<T>(values) + rest));
    usize::lemma_round_trip(values.len() as usize, encode_elements::<T>(values) + rest);
    assert(input.skip(prefix.len() as int) == encode_elements::<T>(values) + rest);
    lemma_elements_round_trip::<T>(values, rest);
}

/// Decoding items never consumes more bytes than there are.
pub proof fn lemma_elements_no_over_read<T: Transmittable>(input: Seq<u8>, count: nat)
    ensures
        decode_elements::<T>(input, count).consumed <= input.len(),
    decreases count,
{
    if count > 0 {
        let front = decode_elements::<T>(input, (count - 1) as nat);
        lemma_elements_no_over_read::<T>(input, (count - 1) as nat);
        T::lemma_no_over_read(input.skip(front.consumed as int));
    }
}

/// Decoding a sequence with its length prefix never consumes more bytes than
/// there are.
pub proof fn lemma_sequence_no_over_read<T: Transmittable>(input: Seq<u8>)
    ensures
        usize::decoding(input).consumed <= input.len(),
        usize::decoding(input).outcome matches Ok(size) ==> usize::decoding(input).consumed
            + decode_elements::<T>(
            input.skip(usize::decoding(input).consumed as int),
            size as nat,
        ).consumed <= input.len(),
{
    let count = usize::decoding(input);
    usize::lemma_no_over_read(input);
    if let Ok(size) = count.outcome {
        lemma_elements_no_over_read::<T>(input.skip(count.consumed as int), size as nat);
    }
}

/// Where `count` items were decoded, there are `count` of them.
pub proof fn lemma_decoded_count<T: Transmittable>(input: Seq<u8>, count: nat)
    ensures
        decode_elements::<T>(input, count).outcome matches Ok(values) ==> values.len() == count,
    decreases count,
{
    if count > 0 {
        lemma_decoded_count::<T>(input, (count - 1) as nat);
    }
}

/// Writes the items one after the other, and stops at the first that does
/// not fit.
pub fn write_elements<T: Transmittable>(items: &[T], sink: &mut Sink) -> (result: Result<
    (),
    Error,
>)
    ensures
        old(sink).wrote(*final(sink), encode_elements::<T>(items.deep_view()), result),
        result is Ok ==> all_valid::<T>(items.deep_view()),
{
    let ghost start = *sink;
    let ghost values = items.deep_view();
    let mut index: usize = 0;
    proof {
        use_type_invariant(&*sink);
        assert(start@ + encode_elements::<T>(values.take(0)) == start@);
    }
    while index < items.len()
        invariant
            index <= items.len(),
            values == items.deep_view(),
            start == *old(sink),
            start.wrote(*sink, encode_elements::<T>(values.take(index as int)), Ok(())),
            all_valid::<T>(values.take(index as int)),
        decreases items.len() - index,
    {
        let ghost middle = *sink;
        let ghost written = values.take(index as int);
        let ghost next = values.take(index + 1);
        let outcome = items[index].serialize(sink);
        proof {
            assert(next.drop_last() == written);
            assert(next.last() == items[index as int].deep_view());
            assert(encode_elements::<T>(next) == encode_elements::<T>(written) + T::encoding(
                items[index as int].deep_view(),
            ));
            lemma_write_in_two(
                start,
                middle,
                encode_elements::<T>(written),
                T::encoding(items[index as int].deep_view()),
            );
        }
        if outcome.is_err() {
            proof {
                let tail = values.skip(index + 1);
                assert(values == next + tail);
                lemma_encode_elements_concat::<T>(next, tail);
                lemma_write_in_two(
                    start,
                    *sink,
                    encode_elements::<T>(next),
                    encode_elements::<T>(tail),
                );
            }
            return outcome;
        }
        index = index + 1;
    }
    assert(values.take(index as int) == values);
    Ok(())
}

/// Writes the number of items as a platform word, then the items.
pub fn write_sequence<T: Transmittable>(items: &[T], sink: &mut Sink) -> (result: Result<
    (),
    Error,
>)
    ensures
        old(sink).wrote(*final(sink), encode_sequence::<T>(items.deep_view()), result),
        result is Ok ==> items.deep_view().len() <= usize::MAX && all_valid::<T>(
            items.deep_view(),
        ),
{
    let ghost start = *sink;
    let prefix = items.len().serialize(sink);
    proof {
        lemma_write_in_two(
            start,
            *sink,
            usize::encoding(items.len()),
            encode_elements::<T>(items.deep_view()),
        );
    }
    if prefix.is_err() {
        return prefix;
    }
    write_elements(items, sink)
}

/// Reads `count` items one after the other, and stops at the first that
/// fails. The buffer grows with the items read, whatever `count` promises.
pub fn read_elements<T: Transmittable>(source: &mut Source, count: usize) -> (result: Result<
    Vec<T>,
    Error,
>)
    ensures
        decode_elements::<T>(old(source).remaining(), count as nat).read(
            *old(source),
            *final(source),
            model_of(result),
        ),
{
    let ghost input = source.remaining();
    let mut items: Vec<T> = Vec::new();
    let mut index: usize = 0;
    assert(items.deep_view() == Seq::<T::V>::empty());
    while index < count
        invariant
            index <= count,
            input == old(source).remaining(),
            source.bytes() == old(source).bytes(),
            old(source).consumed() <= source.consumed(),
            decode_elements::<T>(input, index as nat) == Decoded::success(
                items.deep_view(),
                (source.consumed() - old(source).consumed()) as nat,
            ),
        decreases count - index,
    {
        let ghost before = items.deep_view();
        proof {
            use_type_invariant(&*source);
            lemma_advance(
                *old(source),
                *source,
                (source.consumed() - old(source).consumed()) as nat,
            );
        }
        match T::deserialize(source) {
            Ok(item) => {
                let ghost value = item.deep_view();
                items.push(item);
                assert(items.deep_view() == before.push(value));
            },
            Err(error) => {
                proof {
                    lemma_decode_failure_stays::<T>(input, (index + 1) as nat, count as nat);
                }
                return Err(error);
            },
        }
        index = index + 1;
    }
    Ok(items)
}

impl<T: Transmittable> Transmittable for Vec<T> {
    open spec fn valid(value: Seq<T::V>) -> bool {
        value.len() <= usize::MAX && all_valid::<T>(value)
    }

    open spec fn encoding(value: Seq<T::V>) -> Seq<u8> {
        encode_sequence::<T>(value)
    }

    open spec fn decoding(input: Seq<u8>) -> Decoded<Seq<T::V>> {
        let count = usize::decoding(input);
        match count.outcome {
            Ok(size) => decode_elements::<T>(
                input.skip(count.consumed as int),
                size as nat,
            ).shifted(count.consumed),
            Err(error) => Decoded::failure(error, count.consumed),
        }
    }

    proof fn lemma_round_trip(value: Seq<T::V>, rest: Seq<u8>) {
        lemma_sequence_round_trip::<T>(value, rest);
    }

    proof fn lemma_no_over_read(input: Seq<u8>) {
        lemma_sequence_no_over_read::<T>(input);
    }

    fn serialize(&self, sink: &mut Sink) -> (result: Result<(), Error>) {
        write_sequence(self.as_slice(), sink)
    }

    fn deserialize(source: &mut Source) -> (result: Result<Self, Error>) {
        match usize::deserialize(source) {
            Ok(size) => {
                proof {
                    use_type_invariant(&*source);
                    lemma_advance(
                        *old(source),
                        *source,
                        usize::decoding(old(source).remaining()).consumed,
                    );
                }
                read_elements(source, size)
            },
            Err(error) => Err(error),
        }
    }
}

/// `TryFrom<Vec<T>>` for `[T; N]`: the contents of the vector as an array, if
/// there are exactly `N` items; otherwise the vector comes back.
#[verifier::external_body]
fn array_from_vec<T, const N: usize>(items: Vec<T>) -> (result: Result<[T; N], Vec<T>>)
    ensures
        match result {
            Ok(array) => items@.len() == N && array@ == items@,
            Err(rejected) => items@.len() != N && rejected@ == items@,
        },
{
    items.try_into()
}

impl<T: Transmittable, const N: usize> Transmittable for [T; N] {
    open spec fn valid(value: Seq<T::V>) -> bool {
        value.len() == N && all_valid::<T>(value)
    }

    open spec fn encoding(value: Seq<T::V>) -> Seq<u8> {
        encode_sequence::<T>(value)
    }

    open spec fn decoding(input: Seq<u8>) -> Decoded<Seq<T::V>> {
        let count = usize::decoding(input);
        match count.outcome {
            Ok(size) => if size == N {
                decode_elements::<T>(input.skip(count.consumed as int), size as nat).shifted(
                    count.consumed,
                )
            } else {
                Decoded::failure(Error::IOError(IoFault::InvalidData), count.consumed)
            },
            Err(error) => Decoded::failure(error, count.consumed),
        }
    }

    proof fn lemma_round_trip(value: Seq<T::V>, rest: Seq<u8>) {
        lemma_sequence_round_trip::<T>(value, rest);
    }

    proof fn lemma_no_over_read(input: Seq<u8>) {
        lemma_sequence_no_over_read::<T>(input);
    }

    fn serialize(&self, sink: &mut Sink) -> (result: Result<(), Error>) {
        write_sequence(self.as_slice(), sink)
    }

    fn deserialize(source: &mut Source) -> (result: Result<Self, Error>) {
        match usize::deserialize(source) {
            Ok(size) => {
                if size != N {
                    return Err(Error::IOError(IoFault::InvalidData));
                }
                proof {
                    use_type_invariant(&*source);
                    lemma_advance(
                        *old(source),
                        *source,
                        usize::decoding(old(source).remaining()).consumed,
                    );
                    lemma_decoded_count::<T>(source.remaining(), size as nat);
                }
                match read_elements::<T>(source, size) {
                    Ok(items) => match array_from_vec(items) {
                        Ok(array) => Ok(array),
                        Err(_) => Err(Error::IOError(IoFault::InvalidData)),
                    },
                    Err(error) => Err(error),
                }
            },
            Err(error) => Err(error),
        }
    }
}

/// The error of `String::from_utf8`; nothing is read from it.
#[verifier::external_type_specification]
#[verifier::external_body]
pub struct ExFromUtf8Error(std::string::FromUtf8Error);

/// `String::from_utf8`: the text whose UTF-8 encoding is `bytes`, if they are
/// valid UTF-8, and an error otherwise.
#[verifier::external_body]
fn string_from_utf8(bytes: Vec<u8>) -> (result: Result<String, std::string::FromUtf8Error>)
    ensures
        result is Ok <==> valid_utf8(bytes@),
        result matches Ok(text) ==> encode_utf8(text@) == bytes@,
{
    String::from_utf8(bytes)
}

impl Transmittable for String {
    open spec fn valid(value: Seq<char>) -> bool {
        encode_utf8(value).len() <= usize::MAX
    }

    open spec fn encoding(value: Seq<char>) -> Seq<u8> {
        Vec::<u8>::encoding(encode_utf8(value))
    }

    open spec fn decoding(input: Seq<u8>) -> Decoded<Seq<char>> {
        let bytes = Vec::<u8>::decoding(input);
        match bytes.outcome {
            Ok(buffer) => if valid_utf8(buffer) {
                Decoded::success(decode_utf8(buffer), bytes.consumed)
            } else {
                Decoded::failure(Error::Utf8DecodeError, bytes.consumed)
            },
            Err(error) => Decoded::failure(error, bytes.consumed),
        }
    }

    proof fn lemma_round_trip(value: Seq<char>, rest: Seq<u8>) {
        Vec::<u8>::lemma_round_trip(encode_utf8(value), rest);
        encode_utf8_valid_utf8(value);
        encode_utf8_decode_utf8(value);
    }

    proof fn lemma_no_over_read(input: Seq<u8>) {
        Vec::<u8>::lemma_no_over_read(input);
    }

    fn serialize(&self, sink: &mut Sink) -> (result: Result<(), Error>) {
        let bytes = self.as_str().as_bytes();
        assert(bytes.deep_view() == encode_utf8(self@));
        write_sequence::<u8>(bytes, sink)
    }

    fn deserialize(source: &mut Source) -> (result: Result<Self, Error>) {
        match Vec::<u8>::deserialize(source) {
            Ok(buffer) => {
                assert(buffer.deep_view() == buffer@);
                match string_from_utf8(buffer) {
                    Ok(text) => {
                        proof {
                            encode_utf8_decode_utf8(text@);
                        }
                        Ok(text)
                    },
                    Err(_) => Err(Error::Utf8DecodeError),
                }
            },
            Err(error) => Err(error),
        }
    }
}

} // verus!
