//! The wire format of the integers: fixed width, big-endian, signed values
//! in two's complement.

use vstd::prelude::*;
use crate::endian::{
    be_bytes, be_value, fits_signed, from_be_bytes, lemma_be_bytes_len, lemma_be_value_bound,
    lemma_be_value_of_bytes, lemma_radix_values, lemma_signed_round_trip, radix, signed_value,
    to_be_bytes, twos_complement,
};
use crate::stream::{Sink, Source};
use crate::{Decoded, Error, IoFault, Transmittable};

verus! {

/// The number of bytes of a platform word.
pub open spec fn word_width() -> nat {
    (usize::BITS / 8) as nat
}

/// What decoding makes of `input` where a number of `width` bytes is due.
pub open spec fn decode_fixed(input: Seq<u8>, width: nat) -> Decoded<nat> {
    if input.len() < width {
        Decoded::failure(Error::IOError(IoFault::UnexpectedEof), input.len())
    } else {
        Decoded::success(be_value(input.take(width as int)), width)
    }
}

/// A number that fits in `width` bytes is read back from its encoding.
pub proof fn lemma_fixed_round_trip(value: nat, width: nat, rest: Seq<u8>)
    requires
        value < radix(width),
    ensures
        be_bytes(value, width).len() == width,
        decode_fixed(be_bytes(value, width) + rest, width) == Decoded::success(value, width),
{
    lemma_be_bytes_len(value, width);
    lemma_be_value_of_bytes(value, width);
    assert((be_bytes(value, width) + rest).take(width as int) == be_bytes(value, width));
}

/// The number of bytes of a platform word.
pub fn word_bytes() -> (width: usize)
    ensures
        width == word_width(),
        width == 4 || width == 8,
        radix(width as nat) == usize::MAX + 1,
{
    proof {
        lemma_radix_values();
    }
    (usize::BITS / 8) as usize
}

/// Writes the `width` low-order bytes of `bits`, most significant first.
pub(crate) fn write_bits(bits: u128, width: usize, sink: &mut Sink) -> (result: Result<(), Error>)
    ensures
        old(sink).wrote(*final(sink), be_bytes(bits as nat, width as nat), result),
{
    let bytes = to_be_bytes(bits, width);
    sink.write_all(bytes.as_slice())
}

/// Reads a number of `width` bytes, most significant first.
pub(crate) fn read_bits(source: &mut Source, width: usize) -> (result: Result<u128, Error>)
    requires
        width <= 16,
    ensures
        final(source).bytes() == old(source).bytes(),
        final(source).consumed() == old(source).consumed() + decode_fixed(
            old(source).remaining(),
            width as nat,
        ).consumed,
        match result {
            Ok(bits) => bits < radix(width as nat) && decode_fixed(
                old(source).remaining(),
                width as nat,
            ).outcome == Ok::<nat, Error>(bits as nat),
            Err(error) => decode_fixed(old(source).remaining(), width as nat).outcome == Err::<
                nat,
                Error,
            >(error),
        },
{
    match source.read_exact(width) {
        Ok(bytes) => {
            proof {
                lemma_be_value_bound(bytes@);
            }
            Ok(from_be_bytes(bytes.as_slice()))
        },
        Err(error) => Err(error),
    }
}

/// The radix of a width of one, two, four or eight bytes.
pub(crate) fn radix_of(width: usize) -> (limit: u128)
    requires
        width == 1 || width == 2 || width == 4 || width == 8,
    ensures
        limit == radix(width as nat),
        0x100 <= limit <= 0x1_0000_0000_0000_0000,
        limit % 2 == 0,
{
    proof {
        lemma_radix_values();
    }
    if width == 1 {
        0x100
    } else if width == 2 {
        0x1_0000
    } else if width == 4 {
        0x1_0000_0000
    } else {
        0x1_0000_0000_0000_0000
    }
}

/// The two's complement, on at most eight bytes, of a value that fits.
pub(crate) fn signed_bits(value: i128, width: usize) -> (bits: u128)
    requires
        width == 1 || width == 2 || width == 4 || width == 8,
        fits_signed(value as int, width as nat),
    ensures
        bits == twos_complement(value as int, width as nat),
        bits < radix(width as nat),
{
    let limit = radix_of(width);
    if value >= 0 {
        value as u128
    } else {
        (value + limit as i128) as u128
    }
}

/// The signed value of at most eight bytes read as two's complement.
pub(crate) fn signed_from_bits(bits: u128, width: usize) -> (value: i128)
    requires
        width == 1 || width == 2 || width == 4 || width == 8,
        bits < radix(width as nat),
    ensures
        value == signed_value(bits as nat, width as nat),
        fits_signed(value as int, width as nat),
{
    let limit = radix_of(width);
    if bits < limit / 2 {
        bits as i128
    } else {
        bits as i128 - limit as i128
    }
}

impl Transmittable for u8 {
    open spec fn valid(value: u8) -> bool {
        true
    }

    open spec fn encoding(value: u8) -> Seq<u8> {
        be_bytes(value as nat, 1)
    }

    open spec fn decoding(input: Seq<u8>) -> Decoded<u8> {
        let read = decode_fixed(input, 1);
        match read.outcome {
            Ok(bits) => Decoded::success(bits as u8, read.consumed),
            Err(error) => Decoded::failure(error, read.consumed),
        }
    }

    proof fn lemma_round_trip(value: u8, rest: Seq<u8>) {
        lemma_radix_values();
        lemma_fixed_round_trip(value as nat, 1, rest);
    }

    proof fn lemma_no_over_read(input: Seq<u8>) {
    }

    fn serialize(&self, sink: &mut Sink) -> (result: Result<(), Error>) {
        write_bits(*self as u128, 1, sink)
    }

    fn deserialize(source: &mut Source) -> (result: Result<Self, Error>) {
        proof {
            lemma_radix_values();
        }
        match read_bits(source, 1) {
            Ok(bits) => Ok(bits as u8),
            Err(error) => Err(error),
        }
    }
}

impl Transmittable for u16 {
    open spec fn valid(value: u16) -> bool {
        true
    }

    open spec fn encoding(value: u16) -> Seq<u8> {
        be_bytes(value as nat, 2)
    }

    open spec fn decoding(input: Seq<u8>) -> Decoded<u16> {
        let read = decode_fixed(input, 2);
        match read.outcome {
            Ok(bits) => Decoded::success(bits as u16, read.consumed),
            Err(error) => Decoded::failure(error, read.consumed),
        }
    }

    proof fn lemma_round_trip(value: u16, rest: Seq<u8>) {
        lemma_radix_values();
        lemma_fixed_round_trip(value as nat, 2, rest);
    }

    proof fn lemma_no_over_read(input: Seq<u8>) {
    }

    fn serialize(&self, sink: &mut Sink) -> (result: Result<(), Error>) {
        write_bits(*self as u128, 2, sink)
    }

    fn deserialize(source: &mut Source) -> (result: Result<Self, Error>) {
        proof {
            lemma_radix_values();
        }
        match read_bits(source, 2) {
            Ok(bits) => Ok(bits as u16),
            Err(error) => Err(error),
        }
    }
}

impl Transmittable for u32 {
    open spec fn valid(value: u32) -> bool {
        true
    }

    open spec fn encoding(value: u32) -> Seq<u8> {
        be_bytes(value as nat, 4)
    }

    open spec fn decoding(input: Seq<u8>) -> Decoded<u32> {
        let read = decode_fixed(input, 4);
        match read.outcome {
            Ok(bits) => Decoded::success(bits as u32, read.consumed),
            Err(error) => Decoded::failure(error, read.consumed),
        }
    }

    proof fn lemma_round_trip(value: u32, rest: Seq<u8>) {
        lemma_radix_values();
        lemma_fixed_round_trip(value as nat, 4, rest);
    }

    proof fn lemma_no_over_read(input: Seq<u8>) {
    }

    fn serialize(&self, sink: &mut Sink) -> (result: Result<(), Error>) {
        write_bits(*self as u128, 4, sink)
    }

    fn deserialize(source: &mut Source) -> (result: Result<Self, Error>) {
        proof {
            lemma_radix_values();
        }
        match read_bits(source, 4) {
            Ok(bits) => Ok(bits as u32),
            Err(error) => Err(error),
        }
    }
}

impl Transmittable for u64 {
    open spec fn valid(value: u64) -> bool {
        true
    }

    open spec fn encoding(value: u64) -> Seq<u8> {
        be_bytes(value as nat, 8)
    }

    open spec fn decoding(input: Seq<u8>) -> Decoded<u64> {
        let read = decode_fixed(input, 8);
        match read.outcome {
            Ok(bits) => Decoded::success(bits as u64, read.consumed),
            Err(error) => Decoded::failure(error, read.consumed),
        }
    }

    proof fn lemma_round_trip(value: u64, rest: Seq<u8>) {
        lemma_radix_values();
        lemma_fixed_round_trip(value as nat, 8, rest);
    }

    proof fn lemma_no_over_read(input: Seq<u8>) {
    }

    fn serialize(&self, sink: &mut Sink) -> (result: Result<(), Error>) {
        write_bits(*self as u128, 8, sink)
    }

    fn deserialize(source: &mut Source) -> (result: Result<Self, Error>) {
        proof {
            lemma_radix_values();
        }
        match read_bits(source, 8) {
            Ok(bits) => Ok(bits as u64),
            Err(error) => Err(error),
        }
    }
}

impl Transmittable for u128 {
    open spec fn valid(value: u128) -> bool {
        true
    }

    open spec fn encoding(value: u128) -> Seq<u8> {
        be_bytes(value as nat, 16)
    }

    open spec fn decoding(input: Seq<u8>) -> Decoded<u128> {
        let read = decode_fixed(input, 16);
        match read.outcome {
            Ok(bits) => Decoded::success(bits as u128, read.consumed),
            Err(error) => Decoded::failure(error, read.consumed),
        }
    }

    proof fn lemma_round_trip(value: u128, rest: Seq<u8>) {
        lemma_radix_values();
        lemma_fixed_round_trip(value as nat, 16, rest);
    }

    proof fn lemma_no_over_read(input: Seq<u8>) {
    }

    fn serialize(&self, sink: &mut Sink) -> (result: Result<(), Error>) {
        write_bits(*self as u128, 16, sink)
    }

    fn deserialize(source: &mut Source) -> (result: Result<Self, Error>) {
        proof {
            lemma_radix_values();
        }
        match read_bits(source, 16) {
            Ok(bits) => Ok(bits as u128),
            Err(error) => Err(error),
        }
    }
}

impl Transmittable for usize {
    open spec fn valid(value: usize) -> bool {
        true
    }

    open spec fn encoding(value: usize) -> Seq<u8> {
        be_bytes(value as nat, word_width())
    }

    open spec fn decoding(input: Seq<u8>) -> Decoded<usize> {
        let read = decode_fixed(input, word_width());
        match read.outcome {
            Ok(bits) => Decoded::success(bits as usize, read.consumed),
            Err(error) => Decoded::failure(error, read.consumed),
        }
    }

    proof fn lemma_round_trip(value: usize, rest: Seq<u8>) {
        lemma_radix_values();
        lemma_fixed_round_trip(value as nat, word_width(), rest);
    }

    proof fn lemma_no_over_read(input: Seq<u8>) {
    }

    fn serialize(&self, sink: &mut Sink) -> (result: Result<(), Error>) {
        write_bits(*self as u128, word_bytes(), sink)
    }

    fn deserialize(source: &mut Source) -> (result: Result<Self, Error>) {
        proof {
            lemma_radix_values();
        }
        match read_bits(source, word_bytes()) {
            Ok(bits) => Ok(bits as usize),
            Err(error) => Err(error),
        }
    }
}

impl Transmittable for i8 {
    open spec fn valid(value: i8) -> bool {
        true
    }

    open spec fn encoding(value: i8) -> Seq<u8> {
        be_bytes(twos_complement(value as int, 1), 1)
    }

    open spec fn decoding(input: Seq<u8>) -> Decoded<i8> {
        let read = decode_fixed(input, 1);
        match read.outcome {
            Ok(bits) => Decoded::success(signed_value(bits, 1) as i8, read.consumed),
            Err(error) => Decoded::failure(error, read.consumed),
        }
    }

    proof fn lemma_round_trip(value: i8, rest: Seq<u8>) {
        lemma_radix_values();
        lemma_signed_round_trip(value as int, 1);
        lemma_fixed_round_trip(twos_complement(value as int, 1), 1, rest);
    }

    proof fn lemma_no_over_read(input: Seq<u8>) {
    }

    fn serialize(&self, sink: &mut Sink) -> (result: Result<(), Error>) {
        proof {
            lemma_radix_values();
        }
        let width: usize = 1;
        write_bits(signed_bits(*self as i128, width), width, sink)
    }

    fn deserialize(source: &mut Source) -> (result: Result<Self, Error>) {
        proof {
            lemma_radix_values();
        }
        let width: usize = 1;
        match read_bits(source, width) {
            Ok(bits) => Ok(signed_from_bits(bits, width) as i8),
            Err(error) => Err(error),
        }
    }
}

impl Transmittable for i16 {
    open spec fn valid(value: i16) -> bool {
        true
    }

    open spec fn encoding(value: i16) -> Seq<u8> {
        be_bytes(twos_complement(value as int, 2), 2)
    }

    open spec fn decoding(input: Seq<u8>) -> Decoded<i16> {
        let read = decode_fixed(input, 2);
        match read.outcome {
            Ok(bits) => Decoded::success(signed_value(bits, 2) as i16, read.consumed),
            Err(error) => Decoded::failure(error, read.consumed),
        }
    }

    proof fn lemma_round_trip(value: i16, rest: Seq<u8>) {
        lemma_radix_values();
        lemma_signed_round_trip(value as int, 2);
        lemma_fixed_round_trip(twos_complement(value as int, 2), 2, rest);
    }

    proof fn lemma_no_over_read(input: Seq<u8>) {
    }

    fn serialize(&self, sink: &mut Sink) -> (result: Result<(), Error>) {
        proof {
            lemma_radix_values();
        }
        let width: usize = 2;
        write_bits(signed_bits(*self as i128, width), width, sink)
    }

    fn deserialize(source: &mut Source) -> (result: Result<Self, Error>) {
        proof {
            lemma_radix_values();
        }
        let width: usize = 2;
        match read_bits(source, width) {
            Ok(bits) => Ok(signed_from_bits(bits, width) as i16),
            Err(error) => Err(error),
        }
    }
}

impl Transmittable for i32 {
    open spec fn valid(value: i32) -> bool {
        true
    }

    open spec fn encoding(value: i32) -> Seq<u8> {
        be_bytes(twos_complement(value as int, 4), 4)
    }

    open spec fn decoding(input: Seq<u8>) -> Decoded<i32> {
        let read = decode_fixed(input, 4);
        match read.outcome {
            Ok(bits) => Decoded::success(signed_value(bits, 4) as i32, read.consumed),
            Err(error) => Decoded::failure(error, read.consumed),
        }
    }

    proof fn lemma_round_trip(value: i32, rest: Seq<u8>) {
        lemma_radix_values();
        lemma_signed_round_trip(value as int, 4);
        lemma_fixed_round_trip(twos_complement(value as int, 4), 4, rest);
    }

    proof fn lemma_no_over_read(input: Seq<u8>) {
    }

    fn serialize(&self, sink: &mut Sink) -> (result: Result<(), Error>) {
        proof {
            lemma_radix_values();
        }
        let width: usize = 4;
        write_bits(signed_bits(*self as i128, width), width, sink)
    }

    fn deserialize(source: &mut Source) -> (result: Result<Self, Error>) {
        proof {
            lemma_radix_values();
        }
        let width: usize = 4;
        match read_bits(source, width) {
            Ok(bits) => Ok(signed_from_bits(bits, width) as i32),
            Err(error) => Err(error),
        }
    }
}

impl Transmittable for i64 {
    open spec fn valid(value: i64) -> bool {
        true
    }

    open spec fn encoding(value: i64) -> Seq<u8> {
        be_bytes(twos_complement(value as int, 8), 8)
    }

    open spec fn decoding(input: Seq<u8>) -> Decoded<i64> {
        let read = decode_fixed(input, 8);
        match read.outcome {
            Ok(bits) => Decoded::success(signed_value(bits, 8) as i64, read.consumed),
            Err(error) => Decoded::failure(error, read.consumed),
        }
    }

    proof fn lemma_round_trip(value: i64, rest: Seq<u8>) {
        lemma_radix_values();
        lemma_signed_round_trip(value as int, 8);
        lemma_fixed_round_trip(twos_complement(value as int, 8), 8, rest);
    }

    proof fn lemma_no_over_read(input: Seq<u8>) {
    }

    fn serialize(&self, sink: &mut Sink) -> (result: Result<(), Error>) {
        proof {
            lemma_radix_values();
        }
        let width: usize = 8;
        write_bits(signed_bits(*self as i128, width), width, sink)
    }

    fn deserialize(source: &mut Source) -> (result: Result<Self, Error>) {
        proof {
            lemma_radix_values();
        }
        let width: usize = 8;
        match read_bits(source, width) {
            Ok(bits) => Ok(signed_from_bits(bits, width) as i64),
            Err(error) => Err(error),
        }
    }
}

impl Transmittable for i128 {
    open spec fn valid(value: i128) -> bool {
        true
    }

    open spec fn encoding(value: i128) -> Seq<u8> {
        be_bytes(twos_complement(value as int, 16), 16)
    }

    open spec fn decoding(input: Seq<u8>) -> Decoded<i128> {
        let read = decode_fixed(input, 16);
        match read.outcome {
            Ok(bits) => Decoded::success(signed_value(bits, 16) as i128, read.consumed),
            Err(error) => Decoded::failure(error, read.consumed),
        }
    }

    proof fn lemma_round_trip(value: i128, rest: Seq<u8>) {
        lemma_radix_values();
        lemma_signed_round_trip(value as int, 16);
        lemma_fixed_round_trip(twos_complement(value as int, 16), 16, rest);
    }

    proof fn lemma_no_over_read(input: Seq<u8>) {
    }

    fn serialize(&self, sink: &mut Sink) -> (result: Result<(), Error>) {
        proof {
            lemma_radix_values();
        }
        let value = *self;
        let bits: u128 = if value >= 0 {
            value as u128
        } else {
            u128::MAX - ((-(value + 1)) as u128)
        };
        write_bits(bits, 16, sink)
    }

    fn deserialize(source: &mut Source) -> (result: Result<Self, Error>) {
        proof {
            lemma_radix_values();
        }
        match read_bits(source, 16) {
            Ok(bits) => if bits <= i128::MAX as u128 {
                Ok(bits as i128)
            } else {
                Ok(-((u128::MAX - bits) as i128) - 1)
            },
            Err(error) => Err(error),
        }
    }
}

impl Transmittable for isize {
    open spec fn valid(value: isize) -> bool {
        true
    }

    open spec fn encoding(value: isize) -> Seq<u8> {
        be_bytes(twos_complement(value as int, word_width()), word_width())
    }

    open spec fn decoding(input: Seq<u8>) -> Decoded<isize> {
        let read = decode_fixed(input, word_width());
        match read.outcome {
            Ok(bits) => Decoded::success(signed_value(bits, word_width()) as isize, read.consumed),
            Err(error) => Decoded::failure(error, read.consumed),
        }
    }

    proof fn lemma_round_trip(value: isize, rest: Seq<u8>) {
        lemma_radix_values();
        lemma_signed_round_trip(value as int, word_width());
        lemma_fixed_round_trip(twos_complement(value as int, word_width()), word_width(), rest);
    }

    proof fn lemma_no_over_read(input: Seq<u8>) {
    }

    fn serialize(&self, sink: &mut Sink) -> (result: Result<(), Error>) {
        proof {
            lemma_radix_values();
        }
        let width: usize = word_bytes();
        write_bits(signed_bits(*self as i128, width), width, sink)
    }

    fn deserialize(source: &mut Source) -> (result: Result<Self, Error>) {
        proof {
            lemma_radix_values();
        }
        let width: usize = word_bytes();
        match read_bits(source, width) {
            Ok(bits) => Ok(signed_from_bits(bits, width) as isize),
            Err(error) => Err(error),
        }
    }
}

} // verus!
