use std::fmt::Debug;
use transmittable::stream::{Sink, Source};
use transmittable::{Error, IoFault, Transmittable};

fn read_case<T: Transmittable + PartialEq + Debug>(bytes: &[u8], expected: Result<T, Error>) {
    let mut source = Source::new(bytes.to_vec());
    let result = T::deserialize(&mut source);
    assert_eq!(result, expected);
    assert_eq!(source.position(), bytes.len(), "the whole buffer must be read");
    assert_eq!(source.available(), 0);
}

fn write_case<T: Transmittable>(bytes: &[u8], value: T) {
    let mut sink = Sink::new();
    assert_eq!(value.serialize(&mut sink), Ok(()));
    assert_eq!(sink.into_inner(), bytes);
}

fn word(value: usize) -> Vec<u8> {
    value.to_be_bytes().to_vec()
}

fn prefixed(count: usize, payload: &[u8]) -> Vec<u8> {
    let mut bytes = word(count);
    bytes.extend_from_slice(payload);
    bytes
}

#[test]
fn read_bool() {
    read_case::<bool>(&[0], Ok(false));
    read_case::<bool>(&[1], Ok(true));
    read_case::<bool>(&[2], Err(Error::InvalidBoolean(2)));
    read_case::<bool>(b"\xFF", Err(Error::InvalidBoolean(255)));
}

#[test]
fn write_bool() {
    write_case(&[0], false);
    write_case(&[1], true);
}

#[test]
fn read_u8() {
    read_case::<u8>(b"\x00", Ok(0));
    read_case::<u8>(b"\xFF", Ok(u8::MAX));
}

#[test]
fn write_u8() {
    write_case(b"\x00", 0u8);
    write_case(b"\xFF", u8::MAX);
}

#[test]
fn read_u16() {
    read_case::<u16>(b"\x00\x00", Ok(0));
    read_case::<u16>(b"\xFF\xFF", Ok(u16::MAX));
}

#[test]
fn write_u16() {
    write_case(b"\x00\x00", 0u16);
    write_case(b"\xFF\xFF", u16::MAX);
}

#[test]
fn read_u32() {
    read_case::<u32>(b"\x00\x00\x00\x00", Ok(0));
    read_case::<u32>(b"\xFF\xFF\xFF\xFF", Ok(u32::MAX));
}

#[test]
fn write_u32() {
    write_case(b"\x00\x00\x00\x00", 0u32);
    write_case(b"\xFF\xFF\xFF\xFF", u32::MAX);
}

#[test]
fn read_u64() {
    read_case::<u64>(&[0; 8], Ok(0));
    read_case::<u64>(&[0xFF; 8], Ok(u64::MAX));
}

#[test]
fn write_u64() {
    write_case(&[0; 8], 0u64);
    write_case(&[0xFF; 8], u64::MAX);
}

#[test]
fn read_u128() {
    read_case::<u128>(&[0; 16], Ok(0));
    read_case::<u128>(&[0xFF; 16], Ok(u128::MAX));
}

#[test]
fn write_u128() {
    write_case(&[0; 16], 0u128);
    write_case(&[0xFF; 16], u128::MAX);
}

#[test]
fn read_usize() {
    let width = std::mem::size_of::<usize>();
    read_case::<usize>(&vec![0; width], Ok(0));
    read_case::<usize>(&vec![0xFF; width], Ok(usize::MAX));
}

#[test]
fn write_usize() {
    let width = std::mem::size_of::<usize>();
    write_case(&vec![0; width], 0usize);
    write_case(&vec![0xFF; width], usize::MAX);
}

#[test]
fn read_i8() {
    read_case::<i8>(b"\x00", Ok(0));
    read_case::<i8>(b"\x7F", Ok(i8::MAX));
}

#[test]
fn write_i8() {
    write_case(b"\x00", 0i8);
    write_case(b"\x7F", i8::MAX);
}

#[test]
fn read_i16() {
    read_case::<i16>(b"\x00\x00", Ok(0));
    read_case::<i16>(b"\x7F\xFF", Ok(i16::MAX));
}

#[test]
fn write_i16() {
    write_case(b"\x00\x00", 0i16);
    write_case(b"\x7F\xFF", i16::MAX);
}

#[test]
fn read_i32() {
    read_case::<i32>(b"\x00\x00\x00\x00", Ok(0));
    read_case::<i32>(b"\x7F\xFF\xFF\xFF", Ok(i32::MAX));
}

#[test]
fn write_i32() {
    write_case(b"\x00\x00\x00\x00", 0i32);
    write_case(b"\x7F\xFF\xFF\xFF", i32::MAX);
}

#[test]
fn read_i64() {
    read_case::<i64>(&[0; 8], Ok(0));
    read_case::<i64>(b"\x7F\xFF\xFF\xFF\xFF\xFF\xFF\xFF", Ok(i64::MAX));
}

#[test]
fn write_i64() {
    write_case(&[0; 8], 0i64);
    write_case(b"\x7F\xFF\xFF\xFF\xFF\xFF\xFF\xFF", i64::MAX);
}

#[test]
fn read_i128() {
    read_case::<i128>(&[0; 16], Ok(0));
    let mut max = [0xFFu8; 16];
    max[0] = 0x7F;
    read_case::<i128>(&max, Ok(i128::MAX));
}

#[test]
fn write_i128() {
    write_case(&[0; 16], 0i128);
    let mut max = [0xFFu8; 16];
    max[0] = 0x7F;
    write_case(&max, i128::MAX);
}

#[test]
fn read_isize() {
    let width = std::mem::size_of::<isize>();
    let mut max = vec![0xFFu8; width];
    max[0] = 0x7F;
    read_case::<isize>(&vec![0; width], Ok(0));
    read_case::<isize>(&max, Ok(isize::MAX));
}

#[test]
fn write_isize() {
    let width = std::mem::size_of::<isize>();
    let mut max = vec![0xFFu8; width];
    max[0] = 0x7F;
    write_case(&vec![0; width], 0isize);
    write_case(&max, isize::MAX);
}

#[test]
fn read_f32() {
    let mut source = Source::new(b"\x40\x48\xF5\xC3".to_vec());
    assert_eq!(u32::deserialize(&mut source).map(f32::from_bits), Ok(3.14f32));
    let mut source = Source::new(vec![0; 4]);
    assert_eq!(u32::deserialize(&mut source).map(f32::from_bits), Ok(0f32));
}

#[test]
fn write_f32() {
    write_case(b"\x40\x48\xF5\xC3", 3.14f32.to_bits());
    write_case(&[0; 4], 0f32.to_bits());
}

#[test]
fn read_f64() {
    let mut source = Source::new(b"\x40\x09\x1E\xB8\x51\xEB\x85\x1F".to_vec());
    assert_eq!(u64::deserialize(&mut source).map(f64::from_bits), Ok(3.14f64));
}

#[test]
fn write_f64() {
    write_case(b"\x40\x09\x1E\xB8\x51\xEB\x85\x1F", 3.14f64.to_bits());
    write_case(&[0; 8], 0f64.to_bits());
}

#[test]
fn read_vec() {
    read_case::<Vec<u8>>(&prefixed(0, b""), Ok(Vec::new()));
    read_case::<Vec<u8>>(&prefixed(8, &[0; 8]), Ok(vec![0u8; 8]));
    read_case::<Vec<u8>>(&prefixed(4, b"AAAA"), Ok(vec![65u8, 65u8, 65u8, 65u8]));
}

#[test]
fn write_vec() {
    write_case(&prefixed(0, b""), Vec::<u8>::new());
    write_case(&prefixed(8, &[0; 8]), vec![0u8; 8]);
    write_case(&prefixed(4, b"AAAA"), vec![65u8, 65u8, 65u8, 65u8]);
}

#[test]
fn vec_length_prefix_is_eight_bytes_on_64_bit() {
    if std::mem::size_of::<usize>() == 8 {
        write_case(b"\x00\x00\x00\x00\x00\x00\x00\x00", Vec::<u8>::new());
        write_case(b"\x00\x00\x00\x00\x00\x00\x00\x04AAAA", vec![65u8; 4]);
        read_case::<Vec<u8>>(b"\x00\x00\x00\x00\x00\x00\x00\x04AAAA", Ok(vec![65u8; 4]));
    }
}

#[test]
fn read_string() {
    read_case::<String>(&prefixed(0, b""), Ok("".to_string()));
    read_case::<String>(&prefixed(4, b"AAAA"), Ok("AAAA".to_string()));
}

#[test]
fn write_string() {
    write_case(&prefixed(0, b""), "".to_string());
    write_case(&prefixed(4, b"AAAA"), "AAAA".to_string());
}

#[test]
fn string_with_multibyte_text_counts_bytes() {
    let text = "h\u{e9}llo \u{1F600}".to_string();
    let expected = prefixed(text.len(), text.as_bytes());
    write_case(&expected, text.clone());
    read_case::<String>(&expected, Ok(text));
}

#[test]
fn string_rejects_invalid_utf8() {
    read_case::<String>(&prefixed(2, b"\xC3\x28"), Err(Error::Utf8DecodeError));
    read_case::<String>(&prefixed(1, b"\xFF"), Err(Error::Utf8DecodeError));
}

#[test]
fn read_option() {
    read_case::<Option<u8>>(b"\x00", Ok(None));
    read_case::<Option<u8>>(b"\x01\x00", Ok(Some(0u8)));
    read_case::<Option<u8>>(b"\x01\xFF", Ok(Some(255u8)));
    read_case::<Option<u8>>(b"\x02", Err(Error::InvalidBoolean(2)));
}

#[test]
fn write_option() {
    write_case(b"\x00", None::<u8>);
    write_case(b"\x01\x00", Some(0u8));
    write_case(b"\x01\xFF", Some(255u8));
}

#[test]
fn read_array() {
    read_case::<[u16; 3]>(&prefixed(3, b"\x00\x01\x00\x02\xFF\xFF"), Ok([1u16, 2, 0xFFFF]));
    read_case::<[u8; 0]>(&prefixed(0, b""), Ok([]));
}

#[test]
fn write_array() {
    write_case(&prefixed(3, b"\x00\x01\x00\x02\xFF\xFF"), [1u16, 2, 0xFFFF]);
    write_case(&prefixed(0, b""), [0u8; 0]);
}

#[test]
fn array_rejects_a_length_that_is_not_its_own() {
    let bytes = prefixed(2, b"\x01\x02\x03");
    let mut source = Source::new(bytes.clone());
    let result = <[u8; 3]>::deserialize(&mut source);
    assert_eq!(result, Err(Error::IOError(IoFault::InvalidData)));
    assert_eq!(source.position(), std::mem::size_of::<usize>());
}

#[test]
fn negative_integers_use_twos_complement() {
    write_case(b"\xFF", -1i8);
    write_case(b"\x80", i8::MIN);
    write_case(b"\xFF\xFE", -2i16);
    write_case(b"\x80\x00\x00\x00", i32::MIN);
    write_case(b"\xFF\xFF\xFF\xFF\xFF\xFF\xFF\x85", -123i64);
    let mut min = [0u8; 16];
    min[0] = 0x80;
    write_case(&min, i128::MIN);
    write_case(&[0xFF; 16], -1i128);
    read_case::<i8>(b"\x80", Ok(i8::MIN));
    read_case::<i16>(b"\xFF\xFE", Ok(-2));
    read_case::<i32>(b"\x80\x00\x00\x00", Ok(i32::MIN));
    read_case::<i64>(b"\xFF\xFF\xFF\xFF\xFF\xFF\xFF\x85", Ok(-123));
    read_case::<i128>(&min, Ok(i128::MIN));
    read_case::<i128>(&[0xFF; 16], Ok(-1));
    let width = std::mem::size_of::<isize>();
    write_case(&vec![0xFF; width], -1isize);
    read_case::<isize>(&vec![0xFF; width], Ok(-1));
}

#[test]
fn integers_are_big_endian() {
    write_case(b"\x12\x34", 0x1234u16);
    write_case(b"\x12\x34\x56\x78", 0x1234_5678u32);
    write_case(b"\x01\x02\x03\x04\x05\x06\x07\x08", 0x0102_0304_0506_0708u64);
    read_case::<u32>(b"\x12\x34\x56\x78", Ok(0x1234_5678));
    read_case::<u128>(
        b"\x00\x01\x02\x03\x04\x05\x06\x07\x08\x09\x0A\x0B\x0C\x0D\x0E\x0F",
        Ok(0x0001_0203_0405_0607_0809_0A0B_0C0D_0E0F),
    );
}

#[test]
fn a_short_source_fails_and_is_left_at_its_end() {
    let mut source = Source::new(vec![1, 2, 3]);
    assert_eq!(u32::deserialize(&mut source), Err(Error::IOError(IoFault::UnexpectedEof)));
    assert_eq!(source.position(), 3);
    let mut source = Source::new(Vec::new());
    assert_eq!(bool::deserialize(&mut source), Err(Error::IOError(IoFault::UnexpectedEof)));
    let mut source = Source::new(prefixed(3, b"\x01\x02"));
    assert_eq!(Vec::<u8>::deserialize(&mut source), Err(Error::IOError(IoFault::UnexpectedEof)));
    assert_eq!(source.available(), 0);
}

#[test]
fn decoding_leaves_what_follows_the_value() {
    let mut source = Source::new(b"\x00\x2A\x01\x07rest".to_vec());
    assert_eq!(u16::deserialize(&mut source), Ok(42));
    assert_eq!(source.position(), 2);
    assert_eq!(Option::<u8>::deserialize(&mut source), Ok(Some(7)));
    assert_eq!(source.position(), 4);
    assert_eq!(source.available(), 4);
    assert_eq!(source.read_exact(4), Ok(b"rest".to_vec()));
    assert_eq!(source.read_exact(1), Err(Error::IOError(IoFault::UnexpectedEof)));
}

#[test]
fn a_full_sink_keeps_what_fitted() {
    let mut sink = Sink::with_limit(3);
    assert_eq!(0x0102u16.serialize(&mut sink), Ok(()));
    assert_eq!(0x0304_0506u32.serialize(&mut sink), Err(Error::IOError(IoFault::WriteZero)));
    assert_eq!(sink.len(), 3);
    assert_eq!(sink.into_inner(), vec![1, 2, 3]);
}

#[test]
fn a_sequence_stops_at_the_first_item_that_does_not_fit() {
    let width = std::mem::size_of::<usize>();
    let mut sink = Sink::with_limit(width + 3);
    let items: Vec<u16> = vec![0x0102, 0x0304, 0x0506];
    assert_eq!(items.serialize(&mut sink), Err(Error::IOError(IoFault::WriteZero)));
    assert_eq!(sink.into_inner(), prefixed(3, b"\x01\x02\x03"));
}

#[test]
fn a_sequence_stops_at_the_first_item_that_fails() {
    let mut source = Source::new(prefixed(3, b"\x01\x05\x01"));
    assert_eq!(Vec::<bool>::deserialize(&mut source), Err(Error::InvalidBoolean(5)));
    assert_eq!(source.available(), 1);
}

#[test]
fn nested_values_round_trip() {
    let value: Vec<Option<Vec<String>>> = vec![
        None,
        Some(vec![]),
        Some(vec!["a".to_string(), "".to_string(), "\u{4e16}\u{754c}".to_string()]),
    ];
    let mut sink = Sink::new();
    assert_eq!(value.serialize(&mut sink), Ok(()));
    let bytes = sink.into_inner();
    let mut source = Source::new(bytes.clone());
    assert_eq!(Vec::<Option<Vec<String>>>::deserialize(&mut source), Ok(value));
    assert_eq!(source.position(), bytes.len());
}

#[test]
fn every_byte_round_trips_as_u8_and_i8() {
    for byte in 0..=255u8 {
        write_case(&[byte], byte);
        read_case::<u8>(&[byte], Ok(byte));
        write_case(&[byte], byte as i8);
        read_case::<i8>(&[byte], Ok(byte as i8));
    }
}

#[test]
fn every_byte_but_zero_and_one_is_an_invalid_boolean() {
    for byte in 2..=255u8 {
        read_case::<bool>(&[byte], Err(Error::InvalidBoolean(byte)));
    }
}
