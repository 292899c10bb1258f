use rabbit_net::rabbit::{PackBits, UnpackBits};
use rabbit_net::read::BitReader;
use rabbit_net::write::BitWriter;

fn to_bytes<T>(value: T) -> Vec<u8>
where
    T: PackBits,
{
    let mut writer = BitWriter::new();
    value.pack(&mut writer).unwrap();
    writer.finish()
}

fn assert_vlq_lossless<T>(value: T)
where
    T: Copy + PackBits + UnpackBits + PartialEq + std::fmt::Debug,
{
    let bytes = to_bytes(value);
    let mut reader = BitReader::new(&bytes);
    let encoded = T::unpack(&mut reader).unwrap();
    assert_eq!(value, encoded);
}

#[test]
fn encode_lossless_small() {
    for i in 0..512u16 {
        assert_vlq_lossless(i);
    }
    for i in 0..512u32 {
        assert_vlq_lossless(i);
    }
    for i in 0..512u64 {
        assert_vlq_lossless(i);
    }
    for i in 0..512u128 {
        assert_vlq_lossless(i);
    }
}

#[test]
fn encode_lossless_small_signed() {
    for i in -512..512i16 {
        assert_vlq_lossless(i);
    }
    for i in -512..512i32 {
        assert_vlq_lossless(i);
    }
    for i in -512..512i64 {
        assert_vlq_lossless(i);
    }
    for i in -512..512i128 {
        assert_vlq_lossless(i);
    }
}

#[test]
fn encode_lossless_large() {
    assert_vlq_lossless(u64::max_value());
    assert_vlq_lossless(u128::max_value());
}

#[test]
fn encode_lossless_large_signed() {
    assert_vlq_lossless(i64::max_value());
    assert_vlq_lossless(i128::max_value());
    assert_vlq_lossless(i64::min_value());
    assert_vlq_lossless(i128::min_value());
}

#[test]
fn vlq_small_values_take_few_bits() {
    // A `u32` that fits in a byte: a two-bit count of 0, then the byte.
    assert_eq!(to_bytes(42u32), vec![0xa8, 0x00]);
    assert_eq!(to_bytes(3u32), vec![0b1100, 0]);
    assert_eq!(to_bytes(0u32), vec![0, 0]);
    assert_eq!(to_bytes(true), vec![1]);
    assert_eq!(to_bytes(0xabu8), vec![0xab]);
}
