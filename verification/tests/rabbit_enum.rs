use rabbit_net::rabbit::{from_bytes, to_bytes, PackBits, UnpackBits};
use rabbit_net::read::ReadBits;
use rabbit_net::variant::{checked_variant_index_bits, pack_variant, unpack_variant, variant_index_bits};
use rabbit_net::write::WriteBits;

fn assert_enum_lossless<T>(before: &T)
where
    T: PackBits + UnpackBits + PartialEq + std::fmt::Debug,
{
    let bytes = to_bytes(before).unwrap();
    let after: T = from_bytes(&bytes).unwrap();
    assert_eq!(before, &after);
}

#[derive(Debug, PartialEq)]
enum OneVariant {
    Bar,
}

impl PackBits for OneVariant {
    fn pack<W: WriteBits>(&self, writer: &mut W) -> Result<(), W::Error> {
        match self {
            OneVariant::Bar => pack_variant(0, 1, writer),
        }
    }
}

impl UnpackBits for OneVariant {
    fn unpack<R: ReadBits>(reader: &mut R) -> Result<Self, R::Error> {
        match unpack_variant(1, reader)? {
            _ => Ok(OneVariant::Bar),
        }
    }
}

#[derive(Debug, PartialEq)]
enum TwoVariants {
    Bar,
    Baz,
}

impl PackBits for TwoVariants {
    fn pack<W: WriteBits>(&self, writer: &mut W) -> Result<(), W::Error> {
        match self {
            TwoVariants::Bar => pack_variant(0, 2, writer),
            TwoVariants::Baz => pack_variant(1, 2, writer),
        }
    }
}

impl UnpackBits for TwoVariants {
    fn unpack<R: ReadBits>(reader: &mut R) -> Result<Self, R::Error> {
        match unpack_variant(2, reader)? {
            0 => Ok(TwoVariants::Bar),
            _ => Ok(TwoVariants::Baz),
        }
    }
}

#[derive(Debug, PartialEq)]
enum ThreeVariants {
    A,
    B,
    C,
}

impl PackBits for ThreeVariants {
    fn pack<W: WriteBits>(&self, writer: &mut W) -> Result<(), W::Error> {
        match self {
            ThreeVariants::A => pack_variant(0, 3, writer),
            ThreeVariants::B => pack_variant(1, 3, writer),
            ThreeVariants::C => pack_variant(2, 3, writer),
        }
    }
}

impl UnpackBits for ThreeVariants {
    fn unpack<R: ReadBits>(reader: &mut R) -> Result<Self, R::Error> {
        match unpack_variant(3, reader)? {
            0 => Ok(ThreeVariants::A),
            1 => Ok(ThreeVariants::B),
            _ => Ok(ThreeVariants::C),
        }
    }
}

#[derive(Debug, PartialEq)]
enum DataVariants {
    A(u32),
    B(u32, u32),
    C { a: u32, b: u32 },
}

impl PackBits for DataVariants {
    fn pack<W: WriteBits>(&self, writer: &mut W) -> Result<(), W::Error> {
        match self {
            DataVariants::A(_0) => {
                pack_variant(0, 3, writer)?;
                _0.pack(writer)?;
            }
            DataVariants::B(_0, _1) => {
                pack_variant(1, 3, writer)?;
                _0.pack(writer)?;
                _1.pack(writer)?;
            }
            DataVariants::C { a, b } => {
                pack_variant(2, 3, writer)?;
                a.pack(writer)?;
                b.pack(writer)?;
            }
        }
        Ok(())
    }
}

impl UnpackBits for DataVariants {
    fn unpack<R: ReadBits>(reader: &mut R) -> Result<Self, R::Error> {
        match unpack_variant(3, reader)? {
            0 => {
                let _0 = u32::unpack(reader)?;
                Ok(DataVariants::A(_0))
            }
            1 => {
                let _0 = u32::unpack(reader)?;
                let _1 = u32::unpack(reader)?;
                Ok(DataVariants::B(_0, _1))
            }
            _ => {
                let a = u32::unpack(reader)?;
                let b = u32::unpack(reader)?;
                Ok(DataVariants::C { a, b })
            }
        }
    }
}

#[test]
fn one_variant() {
    assert_enum_lossless(&OneVariant::Bar);
}

#[test]
fn two_variants() {
    assert_enum_lossless(&TwoVariants::Bar);
    assert_enum_lossless(&TwoVariants::Baz);
}

#[test]
fn three_variants() {
    assert_enum_lossless(&ThreeVariants::A);
    assert_enum_lossless(&ThreeVariants::B);
    assert_enum_lossless(&ThreeVariants::C);
}

#[test]
fn data_variants() {
    assert_enum_lossless(&DataVariants::A(123));
    assert_enum_lossless(&DataVariants::B(456, 789));
    assert_enum_lossless(&DataVariants::C {
        a: 123456789,
        b: 4711,
    });
}

#[test]
fn variant_index_bit_counts() {
    assert_eq!(variant_index_bits(1), 0);
    assert_eq!(variant_index_bits(2), 1);
    assert_eq!(variant_index_bits(3), 2);
    assert_eq!(variant_index_bits(4), 2);
    assert_eq!(variant_index_bits(5), 3);
    assert_eq!(variant_index_bits(256), 8);
    assert_eq!(variant_index_bits(257), 9);
    assert_eq!(variant_index_bits(u32::MAX), 32);
}

#[test]
fn unknown_variant_index_is_refused() {
    // Two bits hold index 3, but only three variants exist.
    let bytes = [0b11u8];
    assert!(from_bytes::<ThreeVariants>(&bytes).is_err());
    // The packed variant of an enum of three takes two bits.
    assert_eq!(to_bytes(&ThreeVariants::C).unwrap(), vec![0b10]);
}

#[test]
fn empty_input_is_eof() {
    assert!(from_bytes::<DataVariants>(&[]).is_err());
}

#[test]
fn enum_without_variants_has_no_index_bits() {
    assert_eq!(checked_variant_index_bits(0), None);
    assert_eq!(checked_variant_index_bits(1), Some(0));
    assert_eq!(checked_variant_index_bits(5), Some(3));
    assert_eq!(checked_variant_index_bits(u32::MAX), Some(32));
}
