use rabbit_net::error::Error;
use rabbit_net::leb128::{DecodeLeb128, EncodeLeb128};
use std::fmt::Debug;

fn test_round_trip<T>(value: T)
where
    T: EncodeLeb128 + DecodeLeb128 + PartialEq + Debug + Copy,
{
    let mut buffer = Vec::new();
    value.encode_leb128(&mut buffer);

    let (decoded, rest) = T::decode_leb128(&buffer).expect(&format!("failed to decode {:?}", value));
    assert_eq!(value, decoded);
    assert!(rest.is_empty());
}

#[test]
fn round_trip_unsigned() {
    test_round_trip(123u32);
    test_round_trip(123456u32);

    test_round_trip(!0u64);

    for i in (!0u64 >> 8) - 16..(!0u64 >> 8) + 16 {
        test_round_trip(i);
    }

    for i in std::u8::MIN..=std::u8::MAX {
        test_round_trip(i);
    }

    for i in std::u16::MIN..=std::u16::MAX {
        test_round_trip(i);
    }
}

#[test]
fn round_trip_signed() {
    test_round_trip(-123i32);
    test_round_trip(-123456i32);

    for i in std::i8::MIN..=std::i8::MAX {
        test_round_trip(i);
    }

    for i in std::i16::MIN..=std::i16::MAX {
        test_round_trip(i);
    }
}

#[test]
fn decode_unsigned_with_overflow() {
    let buffer = [0xff, 0x02];

    assert_eq!(u8::decode_leb128(&buffer).unwrap_err(), Error::Leb128Overflow);
}

#[test]
fn decode_unsigned_with_overflow_continuation() {
    let buffer = [0xff, 0x81, 0x00];

    assert_eq!(u8::decode_leb128(&buffer).unwrap_err(), Error::Leb128Overflow);
}

#[test]
fn decode_signed_with_overflow() {
    let buffer = [0xff, 0x7d];

    assert_eq!(i8::decode_leb128(&buffer).unwrap_err(), Error::Leb128Overflow);
}

#[test]
fn decode_signed_with_overflow_continuation() {
    let buffer = [0xff, 0xff, 0x7f];

    assert_eq!(i8::decode_leb128(&buffer).unwrap_err(), Error::Leb128Overflow);
}

#[test]
fn leb128_known_encodings() {
    let mut buffer = Vec::new();
    624485u32.encode_leb128(&mut buffer);
    assert_eq!(buffer, vec![0xe5, 0x8e, 0x26]);

    let mut buffer = Vec::new();
    (-123456i32).encode_leb128(&mut buffer);
    assert_eq!(buffer, vec![0xc0, 0xbb, 0x78]);

    let mut buffer = Vec::new();
    0u8.encode_leb128(&mut buffer);
    assert_eq!(buffer, vec![0x00]);
}

#[test]
fn leb128_decode_keeps_rest() {
    let bytes = [0xe5, 0x8e, 0x26, 0x07, 0x09];
    let (value, rest) = u32::decode_leb128(&bytes).unwrap();
    assert_eq!(value, 624485);
    assert_eq!(rest, &[0x07, 0x09]);
}

#[test]
fn leb128_decode_eof() {
    assert_eq!(u32::decode_leb128(&[]).unwrap_err(), Error::Eof);
    assert_eq!(u32::decode_leb128(&[0x80, 0x80]).unwrap_err(), Error::Eof);
    assert_eq!(i64::decode_leb128(&[0xff]).unwrap_err(), Error::Eof);
}
