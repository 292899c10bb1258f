use rabbit_net::rabbit::{from_bytes, to_bytes, PackBits, UnpackBits};
use rabbit_net::read::ReadBits;
use rabbit_net::write::WriteBits;

fn assert_struct_lossless<T>(before: &T)
where
    T: PackBits + UnpackBits + PartialEq + std::fmt::Debug,
{
    let bytes = to_bytes(before).unwrap();
    let after: T = from_bytes(&bytes).unwrap();
    assert_eq!(before, &after);
}

#[derive(Debug, PartialEq)]
struct UnitStruct;

impl PackBits for UnitStruct {
    fn pack<W: WriteBits>(&self, _writer: &mut W) -> Result<(), W::Error> {
        Ok(())
    }
}

impl UnpackBits for UnitStruct {
    fn unpack<R: ReadBits>(_reader: &mut R) -> Result<Self, R::Error> {
        Ok(UnitStruct)
    }
}

#[derive(Debug, PartialEq)]
struct SingleTuple(u32);

impl PackBits for SingleTuple {
    fn pack<W: WriteBits>(&self, writer: &mut W) -> Result<(), W::Error> {
        self.0.pack(writer)?;
        Ok(())
    }
}

impl UnpackBits for SingleTuple {
    fn unpack<R: ReadBits>(reader: &mut R) -> Result<Self, R::Error> {
        let _0 = u32::unpack(reader)?;
        Ok(SingleTuple(_0))
    }
}

#[derive(Debug, PartialEq)]
struct TwoTuple(u32, u32);

impl PackBits for TwoTuple {
    fn pack<W: WriteBits>(&self, writer: &mut W) -> Result<(), W::Error> {
        self.0.pack(writer)?;
        self.1.pack(writer)?;
        Ok(())
    }
}

impl UnpackBits for TwoTuple {
    fn unpack<R: ReadBits>(reader: &mut R) -> Result<Self, R::Error> {
        let _0 = u32::unpack(reader)?;
        let _1 = u32::unpack(reader)?;
        Ok(TwoTuple(_0, _1))
    }
}

#[derive(Debug, PartialEq)]
struct SingleNamed {
    bar: u32,
}

impl PackBits for SingleNamed {
    fn pack<W: WriteBits>(&self, writer: &mut W) -> Result<(), W::Error> {
        self.bar.pack(writer)?;
        Ok(())
    }
}

impl UnpackBits for SingleNamed {
    fn unpack<R: ReadBits>(reader: &mut R) -> Result<Self, R::Error> {
        let bar = u32::unpack(reader)?;
        Ok(SingleNamed { bar })
    }
}

#[derive(Debug, PartialEq)]
struct TwoNamed {
    bar: u32,
    baz: u32,
}

impl PackBits for TwoNamed {
    fn pack<W: WriteBits>(&self, writer: &mut W) -> Result<(), W::Error> {
        self.bar.pack(writer)?;
        self.baz.pack(writer)?;
        Ok(())
    }
}

impl UnpackBits for TwoNamed {
    fn unpack<R: ReadBits>(reader: &mut R) -> Result<Self, R::Error> {
        let bar = u32::unpack(reader)?;
        let baz = u32::unpack(reader)?;
        Ok(TwoNamed { bar, baz })
    }
}

#[derive(Debug, PartialEq)]
struct Outer {
    a: u32,
    inner: Inner,
}

#[derive(Debug, PartialEq)]
struct Inner {
    b: u32,
    c: u32,
}

impl PackBits for Outer {
    fn pack<W: WriteBits>(&self, writer: &mut W) -> Result<(), W::Error> {
        self.a.pack(writer)?;
        self.inner.pack(writer)?;
        Ok(())
    }
}

impl UnpackBits for Outer {
    fn unpack<R: ReadBits>(reader: &mut R) -> Result<Self, R::Error> {
        let a = u32::unpack(reader)?;
        let inner = Inner::unpack(reader)?;
        Ok(Outer { a, inner })
    }
}

impl PackBits for Inner {
    fn pack<W: WriteBits>(&self, writer: &mut W) -> Result<(), W::Error> {
        self.b.pack(writer)?;
        self.c.pack(writer)?;
        Ok(())
    }
}

impl UnpackBits for Inner {
    fn unpack<R: ReadBits>(reader: &mut R) -> Result<Self, R::Error> {
        let b = u32::unpack(reader)?;
        let c = u32::unpack(reader)?;
        Ok(Inner { b, c })
    }
}

#[derive(Debug, PartialEq)]
struct Point {
    x: u8,
    y: u8,
}

fn point_pack<W: WriteBits>(point: &Point, writer: &mut W) -> Result<(), W::Error> {
    point.x.pack(writer)?;
    point.y.pack(writer)?;
    Ok(())
}

fn point_unpack<R: ReadBits>(reader: &mut R) -> Result<Point, R::Error> {
    Ok(Point {
        x: u8::unpack(reader)?,
        y: u8::unpack(reader)?,
    })
}

#[derive(Debug, PartialEq)]
struct Line {
    start: Point,
    end: Point,
}

impl PackBits for Line {
    fn pack<W: WriteBits>(&self, writer: &mut W) -> Result<(), W::Error> {
        (point_pack)(&self.start, writer)?;
        (point_pack)(&self.end, writer)?;
        Ok(())
    }
}

impl UnpackBits for Line {
    fn unpack<R: ReadBits>(reader: &mut R) -> Result<Self, R::Error> {
        let start: Point = (point_unpack)(reader)?;
        let end: Point = (point_unpack)(reader)?;
        Ok(Line { start, end })
    }
}

#[test]
fn unit() {
    assert_struct_lossless(&UnitStruct);
}

#[test]
fn single_field_tuple() {
    assert_struct_lossless(&SingleTuple(32));
}

#[test]
fn two_fields_tuple() {
    assert_struct_lossless(&TwoTuple(123, 456));
}

#[test]
fn single_field_named() {
    assert_struct_lossless(&SingleNamed { bar: 42 });
}

#[test]
fn two_fields_named() {
    assert_struct_lossless(&TwoNamed {
        bar: 42,
        baz: 12839081,
    });
}

#[test]
fn nested_struct() {
    assert_struct_lossless(&Outer {
        a: 0,
        inner: Inner { b: 1, c: 2 },
    });
}

#[test]
fn custom_packing_fn() {
    assert_struct_lossless(&Line {
        start: Point { x: 0, y: 4 },
        end: Point { x: 37, y: 1 },
    });
}

#[test]
fn unit_struct_packs_to_nothing() {
    assert_eq!(to_bytes(&UnitStruct).unwrap(), Vec::<u8>::new());
}

#[test]
fn tuples_pack_field_after_field() {
    // (42u32, true): the count 00, the byte 42, then the bit of `true`: 11 bits.
    assert_eq!(to_bytes(&(42u32, true)).unwrap(), vec![0xa8, 0x04]);
    assert_eq!(from_bytes::<(u32, bool)>(&[0xa8, 0x04]).unwrap(), (42, true));
}

#[test]
fn slices_pack_like_vectors() {
    let items: &[u32] = &[1, 2, 300];
    let mut writer = rabbit_net::write::BitWriter::new();
    items.pack(&mut writer).unwrap();
    let from_slice = writer.finish();
    assert_eq!(from_slice, to_bytes(&vec![1u32, 2, 300]).unwrap());
    assert_eq!(from_bytes::<Vec<u32>>(&from_slice).unwrap(), vec![1, 2, 300]);
}
