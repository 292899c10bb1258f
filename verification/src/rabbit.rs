//! Packing values into bit streams and unpacking them again.
use vstd::prelude::*;
use vstd::arithmetic::power2::{pow2, lemma2_to64};
use std::sync::Arc;
use vstd::utf8::{valid_utf8, decode_utf8, encode_utf8, encode_utf8_valid_utf8, encode_utf8_decode_utf8};
use std::rc::Rc;
use crate::bits::{bits_of, value_of, bytes_bits, lemma_bits_of_len, lemma_value_of_bits_small, lemma_value_of_bound};
use crate::write::{WriteBits, BitWriter};
use crate::read::{ReadBits, BitReader, Error as ReadError};
use crate::vlq::{
    vlq_bits, vlq_decode, zigzag, unzigzag, encode_unsigned, decode_unsigned, lemma_vlq_round_trip,
    lemma_unzigzag_zigzag, lemma_vlq_capacity,
};

verus! {

/// What packing or unpacking can fail with.
#[derive(Debug, Clone)]
pub enum Error {
    /// A message from a packing or unpacking function.
    Message(String),
    /// The input ended before the value did.
    Eof,
}

/// A value that can be written to a bit stream.
pub trait PackBits {
    /// `pack` writes exactly `packed_bits`. Every implementation in this crate says so and is
    /// verified against it; one written outside verified code keeps this default, and then the
    /// contract claims nothing of the bits it writes.
    open spec fn obeys_pack_spec() -> bool {
        false
    }

    /// The bits that packing this value writes.
    open spec fn packed_bits(&self) -> Seq<bool> {
        Seq::empty()
    }

    /// Write the value's bits.
    fn pack<W: WriteBits>(&self, writer: &mut W) -> (r: Result<(), W::Error>)
        requires
            old(writer).writer_inv(),
        ensures
            final(writer).writer_inv(),
            final(writer).never_fails() == old(writer).never_fails(),
            old(writer).never_fails() ==> r is Ok,
            Self::obeys_pack_spec() && r is Ok ==> final(writer).written() == old(writer).written()
                + self.packed_bits(),
    ;
}

/// A value that can be read from a bit stream.
pub trait UnpackBits: Sized {
    /// `unpack` reads as `unpacked_len`, `unpacks_to` and `runs_out` say. Every implementation
    /// in this crate says so and is verified against them; one written outside verified code
    /// keeps this default, and then the contract claims nothing of what it reads.
    open spec fn obeys_unpack_spec() -> bool {
        false
    }

    /// The number of bits that the value at the front of `bits` takes, or `None` when the bits
    /// do not start with one.
    open spec fn unpacked_len(bits: Seq<bool>) -> Option<nat> {
        None
    }

    /// `v` is the value at the front of `bits`.
    open spec fn unpacks_to(bits: Seq<bool>, v: Self) -> bool {
        false
    }

    /// `bits` end before the value at their front does.
    open spec fn runs_out(bits: Seq<bool>) -> bool {
        false
    }

    /// Read a value. On success exactly the value's bits are consumed; the error says that the
    /// bits ran out exactly when they end before the value does.
    fn unpack<R: ReadBits>(reader: &mut R) -> (r: Result<Self, R::Error>)
        requires
            old(reader).reader_inv(),
        ensures
            final(reader).reader_inv(),
            Self::obeys_unpack_spec() && Self::runs_out(old(reader).remaining()) ==> r is Err,
            Self::obeys_unpack_spec() ==> (r matches Err(e) ==> (e.is_eof() <==> Self::runs_out(
                old(reader).remaining(),
            ))),
            Self::obeys_unpack_spec() ==> match Self::unpacked_len(old(reader).remaining()) {
                Some(n) => n <= old(reader).remaining().len() && (r matches Ok(v) && Self::unpacks_to(
                    old(reader).remaining(),
                    v,
                )) && final(reader).remaining() == old(reader).remaining().skip(n as int),
                None => r is Err,
            },
    ;
}

/// Packing and unpacking agree: a packed value is unpacked again from the front of any stream.
pub trait RoundTrip: PackBits + UnpackBits {
    /// The values that survive the trip.
    spec fn round_trips(&self) -> bool;

    /// Unpacking the bits of a packed value, followed by anything, gives the value back and
    /// consumes exactly its bits.
    proof fn lemma_round_trip(v: Self, rest: Seq<bool>)
        requires
            v.round_trips(),
        ensures
            Self::unpacked_len(v.packed_bits() + rest) == Some(v.packed_bits().len()),
            Self::unpacks_to(v.packed_bits() + rest, v),
    ;
}

/// Unpacking is exact: the value at the front of a packed value's bits is that value itself.
pub trait Lossless: RoundTrip {
    /// Whatever unpacks from the bits of a packed value, followed by anything, is that value.
    proof fn lemma_lossless(v: Self, rest: Seq<bool>, x: Self)
        requires
            v.round_trips(),
            Self::unpacks_to(v.packed_bits() + rest, x),
        ensures
            x == v,
    ;

    /// The implementation is verified against the packing and unpacking specifications.
    proof fn lemma_obeys()
        ensures
            Self::obeys_pack_spec(),
            Self::obeys_unpack_spec(),
    ;
}

/// Pack a value into bytes; the last byte is padded with zero bits.
pub fn to_bytes<T: PackBits>(value: &T) -> (r: Result<Vec<u8>, Error>)
    ensures
        r is Ok,
        T::obeys_pack_spec() ==> (r matches Ok(bytes) ==> bytes@.len() == (value.packed_bits().len()
            + 7) / 8 && bytes_bits(bytes@) == value.packed_bits() + bits_of(
            0,
            (8 * bytes@.len() - value.packed_bits().len()) as nat,
        )),
{
    let mut writer = BitWriter::new();
    match value.pack(&mut writer) {
        Ok(()) => {},
        Err(e) => return Err(e),
    }
    proof {
        assert(Seq::<bool>::empty() + value.packed_bits() =~= value.packed_bits());
    }
    Ok(writer.finish())
}

/// Unpack a value from the front of a byte slice; the bytes after it are left unread. Fails
/// with `Eof` exactly when the bytes end before the value does.
pub fn from_bytes<T: UnpackBits>(bytes: &[u8]) -> (r: Result<T, Error>)
    ensures
        T::obeys_unpack_spec() && T::runs_out(bytes_bits(bytes@)) ==> r is Err,
        T::obeys_unpack_spec() ==> (r matches Err(e) ==> (e is Eof <==> T::runs_out(bytes_bits(bytes@)))),
        T::obeys_unpack_spec() ==> match T::unpacked_len(bytes_bits(bytes@)) {
            Some(n) => r matches Ok(v) && T::unpacks_to(bytes_bits(bytes@), v),
            None => r is Err,
        },
{
    let mut reader = BitReader::new(bytes);
    T::unpack(&mut reader)
}

/// What `to_bytes` makes of a value, `from_bytes` reads back: the bits of bytes that hold the
/// value's bits followed by zero padding unpack to the value, taking its bits.
pub proof fn lemma_bytes_round_trip<T: RoundTrip>(v: T, bytes: Seq<u8>)
    requires
        v.round_trips(),
        8 * bytes.len() >= v.packed_bits().len(),
        bytes_bits(bytes) == v.packed_bits() + bits_of(0, (8 * bytes.len() - v.packed_bits().len()) as nat),
    ensures
        T::unpacked_len(bytes_bits(bytes)) == Some(v.packed_bits().len()),
        T::unpacks_to(bytes_bits(bytes), v),
{
    T::lemma_round_trip(v, bits_of(0, (8 * bytes.len() - v.packed_bits().len()) as nat));
}

/// `from_bytes` gives back exactly the value that `to_bytes` packed: the bits of bytes that hold
/// a value's bits followed by zero padding unpack to that value and to no other, and both
/// functions are verified against these specifications for the type.
pub proof fn lemma_bytes_lossless<T: Lossless>(v: T, bytes: Seq<u8>, x: T)
    requires
        v.round_trips(),
        8 * bytes.len() >= v.packed_bits().len(),
        bytes_bits(bytes) == v.packed_bits() + bits_of(0, (8 * bytes.len() - v.packed_bits().len()) as nat),
        T::unpacks_to(bytes_bits(bytes), x),
    ensures
        x == v,
        T::unpacked_len(bytes_bits(bytes)) == Some(v.packed_bits().len()),
        T::obeys_pack_spec(),
        T::obeys_unpack_spec(),
{
    lemma_bytes_round_trip(v, bytes);
    T::lemma_lossless(v, bits_of(0, (8 * bytes.len() - v.packed_bits().len()) as nat), x);
    T::lemma_obeys();
}

// ---------------------------------------------------------------------------------------------
// Booleans and bytes.

impl PackBits for bool {
    open spec fn obeys_pack_spec() -> bool {
        true
    }

    open spec fn packed_bits(&self) -> Seq<bool> {
        seq![*self]
    }

    fn pack<W: WriteBits>(&self, writer: &mut W) -> (r: Result<(), W::Error>) {
        let bit: u32 = if *self { 1 } else { 0 };
        let r = writer.write(bit, 1);
        proof {
            reveal_with_fuel(bits_of, 2);
            assert(bits_of(bit as nat, 1) =~= seq![*self]);
        }
        r
    }
}

impl UnpackBits for bool {
    open spec fn obeys_unpack_spec() -> bool {
        true
    }

    open spec fn unpacked_len(bits: Seq<bool>) -> Option<nat> {
        if bits.len() >= 1 {
            Some(1)
        } else {
            None
        }
    }

    open spec fn unpacks_to(bits: Seq<bool>, v: bool) -> bool {
        v == bits[0]
    }

    open spec fn runs_out(bits: Seq<bool>) -> bool {
        bits.len() < 1
    }

    fn unpack<R: ReadBits>(reader: &mut R) -> (r: Result<bool, R::Error>) {
        let ghost s = old(reader).remaining();
        let bit = match reader.read(1) {
            Ok(b) => b,
            Err(e) => return Err(e),
        };
        proof {
            let t = s.take(1);
            assert(t.drop_first() =~= Seq::<bool>::empty());
            assert(value_of(t.drop_first()) == 0);
        }
        Ok(bit != 0)
    }
}

impl RoundTrip for bool {
    open spec fn round_trips(&self) -> bool {
        true
    }

    proof fn lemma_round_trip(v: bool, rest: Seq<bool>) {
    }
}

impl Lossless for bool {
    proof fn lemma_lossless(v: bool, rest: Seq<bool>, x: bool) {
        Self::lemma_round_trip(v, rest);
    }

    proof fn lemma_obeys() {
    }
}

impl PackBits for u8 {
    open spec fn obeys_pack_spec() -> bool {
        true
    }

    open spec fn packed_bits(&self) -> Seq<bool> {
        bits_of(*self as nat, 8)
    }

    fn pack<W: WriteBits>(&self, writer: &mut W) -> (r: Result<(), W::Error>) {
        writer.write(*self as u32, 8)
    }
}

impl UnpackBits for u8 {
    open spec fn obeys_unpack_spec() -> bool {
        true
    }

    open spec fn unpacked_len(bits: Seq<bool>) -> Option<nat> {
        if bits.len() >= 8 {
            Some(8)
        } else {
            None
        }
    }

    open spec fn unpacks_to(bits: Seq<bool>, v: u8) -> bool {
        v == value_of(bits.take(8))
    }

    open spec fn runs_out(bits: Seq<bool>) -> bool {
        bits.len() < 8
    }

    fn unpack<R: ReadBits>(reader: &mut R) -> (r: Result<u8, R::Error>) {
        let ghost s = old(reader).remaining();
        let byte = match reader.read(8) {
            Ok(b) => b,
            Err(e) => return Err(e),
        };
        proof {
            lemma2_to64();
            lemma_value_of_bound(s.take(8));
        }
        Ok(byte as u8)
    }
}

impl RoundTrip for u8 {
    open spec fn round_trips(&self) -> bool {
        true
    }

    proof fn lemma_round_trip(v: u8, rest: Seq<bool>) {
        lemma2_to64();
        lemma_bits_of_len(v as nat, 8);
        assert((v.packed_bits() + rest).take(8) =~= bits_of(v as nat, 8));
        lemma_value_of_bits_small(v as nat, 8);
    }
}

impl Lossless for u8 {
    proof fn lemma_lossless(v: u8, rest: Seq<bool>, x: u8) {
        Self::lemma_round_trip(v, rest);
    }

    proof fn lemma_obeys() {
    }
}

// ---------------------------------------------------------------------------------------------
// Integers, in the variable length encoding.

/// `usize` and `isize` have `2^k` bytes; this is `k`.
pub open spec fn pointer_k() -> nat {
    if usize::BITS == 64 {
        3
    } else {
        2
    }
}

fn pointer_k_exec() -> (k: u8)
    ensures
        k == pointer_k(),
{
    if usize::BITS == 64 {
        3
    } else {
        2
    }
}

proof fn lemma_pointer_capacity()
    ensures
        pow2(8 * pow2(pointer_k())) == usize::MAX + 1,
        usize::MAX == isize::MAX * 2 + 1,
{
    lemma_vlq_capacity();
}

impl PackBits for u16 {
    open spec fn obeys_pack_spec() -> bool {
        true
    }

    open spec fn packed_bits(&self) -> Seq<bool> {
        vlq_bits(*self as nat, 1)
    }

    fn pack<W: WriteBits>(&self, writer: &mut W) -> (r: Result<(), W::Error>) {
        proof {
            lemma_vlq_capacity();
        }
        encode_unsigned(*self as u128, 1, writer)
    }
}

impl UnpackBits for u16 {
    open spec fn obeys_unpack_spec() -> bool {
        true
    }

    open spec fn unpacked_len(bits: Seq<bool>) -> Option<nat> {
        match vlq_decode(bits, 1) {
            Some((v, n)) => Some(n),
            None => None,
        }
    }

    open spec fn unpacks_to(bits: Seq<bool>, v: u16) -> bool {
        vlq_decode(bits, 1) matches Some((u, n)) && v == u
    }

    open spec fn runs_out(bits: Seq<bool>) -> bool {
        vlq_decode(bits, 1) is None
    }

    fn unpack<R: ReadBits>(reader: &mut R) -> (r: Result<u16, R::Error>) {
        proof {
            lemma_vlq_capacity();
        }
        match decode_unsigned(1, reader) {
            Ok(v) => Ok(v as u16),
            Err(e) => Err(e),
        }
    }
}

impl RoundTrip for u16 {
    open spec fn round_trips(&self) -> bool {
        true
    }

    proof fn lemma_round_trip(v: u16, rest: Seq<bool>) {
        lemma_vlq_capacity();
        lemma_vlq_round_trip(v as nat, 1, rest);
    }
}

impl Lossless for u16 {
    proof fn lemma_lossless(v: u16, rest: Seq<bool>, x: u16) {
        Self::lemma_round_trip(v, rest);
    }

    proof fn lemma_obeys() {
    }
}

impl PackBits for u32 {
    open spec fn obeys_pack_spec() -> bool {
        true
    }

    open spec fn packed_bits(&self) -> Seq<bool> {
        vlq_bits(*self as nat, 2)
    }

    fn pack<W: WriteBits>(&self, writer: &mut W) -> (r: Result<(), W::Error>) {
        proof {
            lemma_vlq_capacity();
        }
        encode_unsigned(*self as u128, 2, writer)
    }
}

impl UnpackBits for u32 {
    open spec fn obeys_unpack_spec() -> bool {
        true
    }

    open spec fn unpacked_len(bits: Seq<bool>) -> Option<nat> {
        match vlq_decode(bits, 2) {
            Some((v, n)) => Some(n),
            None => None,
        }
    }

    open spec fn unpacks_to(bits: Seq<bool>, v: u32) -> bool {
        vlq_decode(bits, 2) matches Some((u, n)) && v == u
    }

    open spec fn runs_out(bits: Seq<bool>) -> bool {
        vlq_decode(bits, 2) is None
    }

    fn unpack<R: ReadBits>(reader: &mut R) -> (r: Result<u32, R::Error>) {
        proof {
            lemma_vlq_capacity();
        }
        match decode_unsigned(2, reader) {
            Ok(v) => Ok(v as u32),
            Err(e) => Err(e),
        }
    }
}

impl RoundTrip for u32 {
    open spec fn round_trips(&self) -> bool {
        true
    }

    proof fn lemma_round_trip(v: u32, rest: Seq<bool>) {
        lemma_vlq_capacity();
        lemma_vlq_round_trip(v as nat, 2, rest);
    }
}

impl Lossless for u32 {
    proof fn lemma_lossless(v: u32, rest: Seq<bool>, x: u32) {
        Self::lemma_round_trip(v, rest);
    }

    proof fn lemma_obeys() {
    }
}

impl PackBits for u64 {
    open spec fn obeys_pack_spec() -> bool {
        true
    }

    open spec fn packed_bits(&self) -> Seq<bool> {
        vlq_bits(*self as nat, 3)
    }

    fn pack<W: WriteBits>(&self, writer: &mut W) -> (r: Result<(), W::Error>) {
        proof {
            lemma_vlq_capacity();
        }
        encode_unsigned(*self as u128, 3, writer)
    }
}

impl UnpackBits for u64 {
    open spec fn obeys_unpack_spec() -> bool {
        true
    }

    open spec fn unpacked_len(bits: Seq<bool>) -> Option<nat> {
        match vlq_decode(bits, 3) {
            Some((v, n)) => Some(n),
            None => None,
        }
    }

    open spec fn unpacks_to(bits: Seq<bool>, v: u64) -> bool {
        vlq_decode(bits, 3) matches Some((u, n)) && v == u
    }

    open spec fn runs_out(bits: Seq<bool>) -> bool {
        vlq_decode(bits, 3) is None
    }

    fn unpack<R: ReadBits>(reader: &mut R) -> (r: Result<u64, R::Error>) {
        proof {
            lemma_vlq_capacity();
        }
        match decode_unsigned(3, reader) {
            Ok(v) => Ok(v as u64),
            Err(e) => Err(e),
        }
    }
}

impl RoundTrip for u64 {
    open spec fn round_trips(&self) -> bool {
        true
    }

    proof fn lemma_round_trip(v: u64, rest: Seq<bool>) {
        lemma_vlq_capacity();
        lemma_vlq_round_trip(v as nat, 3, rest);
    }
}

impl Lossless for u64 {
    proof fn lemma_lossless(v: u64, rest: Seq<bool>, x: u64) {
        Self::lemma_round_trip(v, rest);
    }

    proof fn lemma_obeys() {
    }
}

impl PackBits for u128 {
    open spec fn obeys_pack_spec() -> bool {
        true
    }

    open spec fn packed_bits(&self) -> Seq<bool> {
        vlq_bits(*self as nat, 4)
    }

    fn pack<W: WriteBits>(&self, writer: &mut W) -> (r: Result<(), W::Error>) {
        proof {
            lemma_vlq_capacity();
        }
        encode_unsigned(*self as u128, 4, writer)
    }
}

impl UnpackBits for u128 {
    open spec fn obeys_unpack_spec() -> bool {
        true
    }

    open spec fn unpacked_len(bits: Seq<bool>) -> Option<nat> {
        match vlq_decode(bits, 4) {
            Some((v, n)) => Some(n),
            None => None,
        }
    }

    open spec fn unpacks_to(bits: Seq<bool>, v: u128) -> bool {
        vlq_decode(bits, 4) matches Some((u, n)) && v == u
    }

    open spec fn runs_out(bits: Seq<bool>) -> bool {
        vlq_decode(bits, 4) is None
    }

    fn unpack<R: ReadBits>(reader: &mut R) -> (r: Result<u128, R::Error>) {
        proof {
            lemma_vlq_capacity();
        }
        match decode_unsigned(4, reader) {
            Ok(v) => Ok(v as u128),
            Err(e) => Err(e),
        }
    }
}

impl RoundTrip for u128 {
    open spec fn round_trips(&self) -> bool {
        true
    }

    proof fn lemma_round_trip(v: u128, rest: Seq<bool>) {
        lemma_vlq_capacity();
        lemma_vlq_round_trip(v as nat, 4, rest);
    }
}

impl Lossless for u128 {
    proof fn lemma_lossless(v: u128, rest: Seq<bool>, x: u128) {
        Self::lemma_round_trip(v, rest);
    }

    proof fn lemma_obeys() {
    }
}

impl PackBits for usize {
    open spec fn obeys_pack_spec() -> bool {
        true
    }

    open spec fn packed_bits(&self) -> Seq<bool> {
        vlq_bits(*self as nat, pointer_k())
    }

    fn pack<W: WriteBits>(&self, writer: &mut W) -> (r: Result<(), W::Error>) {
        proof {
            lemma_vlq_capacity();
            lemma_pointer_capacity();
        }
        encode_unsigned(*self as u128, pointer_k_exec(), writer)
    }
}

impl UnpackBits for usize {
    open spec fn obeys_unpack_spec() -> bool {
        true
    }

    open spec fn unpacked_len(bits: Seq<bool>) -> Option<nat> {
        match vlq_decode(bits, pointer_k()) {
            Some((v, n)) => Some(n),
            None => None,
        }
    }

    open spec fn unpacks_to(bits: Seq<bool>, v: usize) -> bool {
        vlq_decode(bits, pointer_k()) matches Some((u, n)) && v == u
    }

    open spec fn runs_out(bits: Seq<bool>) -> bool {
        vlq_decode(bits, pointer_k()) is None
    }

    fn unpack<R: ReadBits>(reader: &mut R) -> (r: Result<usize, R::Error>) {
        proof {
            lemma_vlq_capacity();
            lemma_pointer_capacity();
        }
        match decode_unsigned(pointer_k_exec(), reader) {
            Ok(v) => Ok(v as usize),
            Err(e) => Err(e),
        }
    }
}

impl RoundTrip for usize {
    open spec fn round_trips(&self) -> bool {
        true
    }

    proof fn lemma_round_trip(v: usize, rest: Seq<bool>) {
        lemma_vlq_capacity();
            lemma_pointer_capacity();
        lemma_vlq_round_trip(v as nat, pointer_k(), rest);
    }
}

impl Lossless for usize {
    proof fn lemma_lossless(v: usize, rest: Seq<bool>, x: usize) {
        Self::lemma_round_trip(v, rest);
    }

    proof fn lemma_obeys() {
    }
}

impl PackBits for i16 {
    open spec fn obeys_pack_spec() -> bool {
        true
    }

    open spec fn packed_bits(&self) -> Seq<bool> {
        vlq_bits(zigzag(*self as int), 1)
    }

    fn pack<W: WriteBits>(&self, writer: &mut W) -> (r: Result<(), W::Error>) {
        proof {
            lemma_vlq_capacity();
        }
        let zig_zag: u16 = if *self >= 0 {
            (*self as u16) * 2
        } else {
            ((-(*self + 1)) as u16) * 2 + 1
        };
        encode_unsigned(zig_zag as u128, 1, writer)
    }
}

impl UnpackBits for i16 {
    open spec fn obeys_unpack_spec() -> bool {
        true
    }

    open spec fn unpacked_len(bits: Seq<bool>) -> Option<nat> {
        match vlq_decode(bits, 1) {
            Some((u, n)) => Some(n),
            None => None,
        }
    }

    open spec fn unpacks_to(bits: Seq<bool>, v: i16) -> bool {
        vlq_decode(bits, 1) matches Some((u, n)) && v == unzigzag(u)
    }

    open spec fn runs_out(bits: Seq<bool>) -> bool {
        vlq_decode(bits, 1) is None
    }

    fn unpack<R: ReadBits>(reader: &mut R) -> (r: Result<i16, R::Error>) {
        proof {
            lemma_vlq_capacity();
        }
        let value = match decode_unsigned(1, reader) {
            Ok(v) => v as u16,
            Err(e) => return Err(e),
        };
        let half = (value / 2) as i16;
        if value % 2 == 0 {
            Ok(half)
        } else {
            Ok(-half - 1)
        }
    }
}

impl RoundTrip for i16 {
    open spec fn round_trips(&self) -> bool {
        true
    }

    proof fn lemma_round_trip(v: i16, rest: Seq<bool>) {
        lemma_vlq_capacity();
        lemma_vlq_round_trip(zigzag(v as int), 1, rest);
        lemma_unzigzag_zigzag(v as int);
    }
}

impl Lossless for i16 {
    proof fn lemma_lossless(v: i16, rest: Seq<bool>, x: i16) {
        Self::lemma_round_trip(v, rest);
    }

    proof fn lemma_obeys() {
    }
}

impl PackBits for i32 {
    open spec fn obeys_pack_spec() -> bool {
        true
    }

    open spec fn packed_bits(&self) -> Seq<bool> {
        vlq_bits(zigzag(*self as int), 2)
    }

    fn pack<W: WriteBits>(&self, writer: &mut W) -> (r: Result<(), W::Error>) {
        proof {
            lemma_vlq_capacity();
        }
        let zig_zag: u32 = if *self >= 0 {
            (*self as u32) * 2
        } else {
            ((-(*self + 1)) as u32) * 2 + 1
        };
        encode_unsigned(zig_zag as u128, 2, writer)
    }
}

impl UnpackBits for i32 {
    open spec fn obeys_unpack_spec() -> bool {
        true
    }

    open spec fn unpacked_len(bits: Seq<bool>) -> Option<nat> {
        match vlq_decode(bits, 2) {
            Some((u, n)) => Some(n),
            None => None,
        }
    }

    open spec fn unpacks_to(bits: Seq<bool>, v: i32) -> bool {
        vlq_decode(bits, 2) matches Some((u, n)) && v == unzigzag(u)
    }

    open spec fn runs_out(bits: Seq<bool>) -> bool {
        vlq_decode(bits, 2) is None
    }

    fn unpack<R: ReadBits>(reader: &mut R) -> (r: Result<i32, R::Error>) {
        proof {
            lemma_vlq_capacity();
        }
        let value = match decode_unsigned(2, reader) {
            Ok(v) => v as u32,
            Err(e) => return Err(e),
        };
        let half = (value / 2) as i32;
        if value % 2 == 0 {
            Ok(half)
        } else {
            Ok(-half - 1)
        }
    }
}

impl RoundTrip for i32 {
    open spec fn round_trips(&self) -> bool {
        true
    }

    proof fn lemma_round_trip(v: i32, rest: Seq<bool>) {
        lemma_vlq_capacity();
        lemma_vlq_round_trip(zigzag(v as int), 2, rest);
        lemma_unzigzag_zigzag(v as int);
    }
}

impl Lossless for i32 {
    proof fn lemma_lossless(v: i32, rest: Seq<bool>, x: i32) {
        Self::lemma_round_trip(v, rest);
    }

    proof fn lemma_obeys() {
    }
}

impl PackBits for i64 {
    open spec fn obeys_pack_spec() -> bool {
        true
    }

    open spec fn packed_bits(&self) -> Seq<bool> {
        vlq_bits(zigzag(*self as int), 3)
    }

    fn pack<W: WriteBits>(&self, writer: &mut W) -> (r: Result<(), W::Error>) {
        proof {
            lemma_vlq_capacity();
        }
        let zig_zag: u64 = if *self >= 0 {
            (*self as u64) * 2
        } else {
            ((-(*self + 1)) as u64) * 2 + 1
        };
        encode_unsigned(zig_zag as u128, 3, writer)
    }
}

impl UnpackBits for i64 {
    open spec fn obeys_unpack_spec() -> bool {
        true
    }

    open spec fn unpacked_len(bits: Seq<bool>) -> Option<nat> {
        match vlq_decode(bits, 3) {
            Some((u, n)) => Some(n),
            None => None,
        }
    }

    open spec fn unpacks_to(bits: Seq<bool>, v: i64) -> bool {
        vlq_decode(bits, 3) matches Some((u, n)) && v == unzigzag(u)
    }

    open spec fn runs_out(bits: Seq<bool>) -> bool {
        vlq_decode(bits, 3) is None
    }

    fn unpack<R: ReadBits>(reader: &mut R) -> (r: Result<i64, R::Error>) {
        proof {
            lemma_vlq_capacity();
        }
        let value = match decode_unsigned(3, reader) {
            Ok(v) => v as u64,
            Err(e) => return Err(e),
        };
        let half = (value / 2) as i64;
        if value % 2 == 0 {
            Ok(half)
        } else {
            Ok(-half - 1)
        }
    }
}

impl RoundTrip for i64 {
    open spec fn round_trips(&self) -> bool {
        true
    }

    proof fn lemma_round_trip(v: i64, rest: Seq<bool>) {
        lemma_vlq_capacity();
        lemma_vlq_round_trip(zigzag(v as int), 3, rest);
        lemma_unzigzag_zigzag(v as int);
    }
}

impl Lossless for i64 {
    proof fn lemma_lossless(v: i64, rest: Seq<bool>, x: i64) {
        Self::lemma_round_trip(v, rest);
    }

    proof fn lemma_obeys() {
    }
}

impl PackBits for i128 {
    open spec fn obeys_pack_spec() -> bool {
        true
    }

    open spec fn packed_bits(&self) -> Seq<bool> {
        vlq_bits(zigzag(*self as int), 4)
    }

    fn pack<W: WriteBits>(&self, writer: &mut W) -> (r: Result<(), W::Error>) {
        proof {
            lemma_vlq_capacity();
        }
        let zig_zag: u128 = if *self >= 0 {
            (*self as u128) * 2
        } else {
            ((-(*self + 1)) as u128) * 2 + 1
        };
        encode_unsigned(zig_zag as u128, 4, writer)
    }
}

impl UnpackBits for i128 {
    open spec fn obeys_unpack_spec() -> bool {
        true
    }

    open spec fn unpacked_len(bits: Seq<bool>) -> Option<nat> {
        match vlq_decode(bits, 4) {
            Some((u, n)) => Some(n),
            None => None,
        }
    }

    open spec fn unpacks_to(bits: Seq<bool>, v: i128) -> bool {
        vlq_decode(bits, 4) matches Some((u, n)) && v == unzigzag(u)
    }

    open spec fn runs_out(bits: Seq<bool>) -> bool {
        vlq_decode(bits, 4) is None
    }

    fn unpack<R: ReadBits>(reader: &mut R) -> (r: Result<i128, R::Error>) {
        proof {
            lemma_vlq_capacity();
        }
        let value = match decode_unsigned(4, reader) {
            Ok(v) => v as u128,
            Err(e) => return Err(e),
        };
        let half = (value / 2) as i128;
        if value % 2 == 0 {
            Ok(half)
        } else {
            Ok(-half - 1)
        }
    }
}

impl RoundTrip for i128 {
    open spec fn round_trips(&self) -> bool {
        true
    }

    proof fn lemma_round_trip(v: i128, rest: Seq<bool>) {
        lemma_vlq_capacity();
        lemma_vlq_round_trip(zigzag(v as int), 4, rest);
        lemma_unzigzag_zigzag(v as int);
    }
}

impl Lossless for i128 {
    proof fn lemma_lossless(v: i128, rest: Seq<bool>, x: i128) {
        Self::lemma_round_trip(v, rest);
    }

    proof fn lemma_obeys() {
    }
}

impl PackBits for isize {
    open spec fn obeys_pack_spec() -> bool {
        true
    }

    open spec fn packed_bits(&self) -> Seq<bool> {
        vlq_bits(zigzag(*self as int), pointer_k())
    }

    fn pack<W: WriteBits>(&self, writer: &mut W) -> (r: Result<(), W::Error>) {
        proof {
            lemma_vlq_capacity();
            lemma_pointer_capacity();
        }
        let zig_zag: usize = if *self >= 0 {
            (*self as usize) * 2
        } else {
            ((-(*self + 1)) as usize) * 2 + 1
        };
        encode_unsigned(zig_zag as u128, pointer_k_exec(), writer)
    }
}

impl UnpackBits for isize {
    open spec fn obeys_unpack_spec() -> bool {
        true
    }

    open spec fn unpacked_len(bits: Seq<bool>) -> Option<nat> {
        match vlq_decode(bits, pointer_k()) {
            Some((u, n)) => Some(n),
            None => None,
        }
    }

    open spec fn unpacks_to(bits: Seq<bool>, v: isize) -> bool {
        vlq_decode(bits, pointer_k()) matches Some((u, n)) && v == unzigzag(u)
    }

    open spec fn runs_out(bits: Seq<bool>) -> bool {
        vlq_decode(bits, pointer_k()) is None
    }

    fn unpack<R: ReadBits>(reader: &mut R) -> (r: Result<isize, R::Error>) {
        proof {
            lemma_vlq_capacity();
            lemma_pointer_capacity();
        }
        let value = match decode_unsigned(pointer_k_exec(), reader) {
            Ok(v) => v as usize,
            Err(e) => return Err(e),
        };
        let half = (value / 2) as isize;
        if value % 2 == 0 {
            Ok(half)
        } else {
            Ok(-half - 1)
        }
    }
}

impl RoundTrip for isize {
    open spec fn round_trips(&self) -> bool {
        true
    }

    proof fn lemma_round_trip(v: isize, rest: Seq<bool>) {
        lemma_vlq_capacity();
            lemma_pointer_capacity();
        lemma_vlq_round_trip(zigzag(v as int), pointer_k(), rest);
        lemma_unzigzag_zigzag(v as int);
    }
}

impl Lossless for isize {
    proof fn lemma_lossless(v: isize, rest: Seq<bool>, x: isize) {
        Self::lemma_round_trip(v, rest);
    }

    proof fn lemma_obeys() {
    }
}

// ---------------------------------------------------------------------------------------------
// Optional values: a flag bit, then the value when there is one.

impl<T: PackBits> PackBits for Option<T> {
    open spec fn obeys_pack_spec() -> bool {
        T::obeys_pack_spec()
    }

    open spec fn packed_bits(&self) -> Seq<bool> {
        match self {
            None => seq![false],
            Some(v) => seq![true] + v.packed_bits(),
        }
    }

    fn pack<W: WriteBits>(&self, writer: &mut W) -> (r: Result<(), W::Error>) {
        proof {
            if Self::obeys_pack_spec() {
                reveal_with_fuel(bits_of, 2);
                assert(bits_of(0, 1) =~= seq![false]);
                assert(bits_of(1, 1) =~= seq![true]);
            }
        }
        match self {
            None => writer.write(0, 1),
            Some(value) => {
                let ghost w0 = old(writer).written();
                match writer.write(1, 1) {
                    Ok(()) => {},
                    Err(e) => return Err(e),
                }
                let r = value.pack(writer);
                proof {
                    if Self::obeys_pack_spec() {
                        assert(w0 + seq![true] + value.packed_bits() =~= w0 + (seq![true] + value.packed_bits()));
                    }
                }
                r
            },
        }
    }
}

impl<T: UnpackBits> UnpackBits for Option<T> {
    open spec fn obeys_unpack_spec() -> bool {
        T::obeys_unpack_spec()
    }

    open spec fn unpacked_len(bits: Seq<bool>) -> Option<nat> {
        if bits.len() < 1 {
            None
        } else if !bits[0] {
            Some(1)
        } else {
            match T::unpacked_len(bits.drop_first()) {
                Some(n) => Some(n + 1),
                None => None,
            }
        }
    }

    open spec fn unpacks_to(bits: Seq<bool>, v: Option<T>) -> bool {
        if !bits[0] {
            v is None
        } else {
            v matches Some(x) && T::unpacks_to(bits.drop_first(), x)
        }
    }

    open spec fn runs_out(bits: Seq<bool>) -> bool {
        bits.len() < 1 || (bits[0] && T::runs_out(bits.drop_first()))
    }

    fn unpack<R: ReadBits>(reader: &mut R) -> (r: Result<Option<T>, R::Error>) {
        let ghost s = old(reader).remaining();
        let flag = match reader.read(1) {
            Ok(f) => f,
            Err(e) => return Err(e),
        };
        proof {
            if Self::obeys_unpack_spec() {
                reveal_with_fuel(value_of, 2);
                assert(s.take(1).drop_first() =~= Seq::<bool>::empty());
                assert(s.skip(1) =~= s.drop_first());
            }
        }
        if flag == 0 {
            Ok(None)
        } else {
            let r = T::unpack(reader);
            proof {
                if Self::obeys_unpack_spec() {
                    if let Some(n) = T::unpacked_len(s.drop_first()) {
                        assert(s.drop_first().skip(n as int) =~= s.skip((n + 1) as int));
                    }
                }
            }
            match r {
                Ok(v) => Ok(Some(v)),
                Err(e) => Err(e),
            }
        }
    }
}

impl<T: RoundTrip> RoundTrip for Option<T> {
    open spec fn round_trips(&self) -> bool {
        match self {
            None => true,
            Some(v) => v.round_trips(),
        }
    }

    proof fn lemma_round_trip(v: Option<T>, rest: Seq<bool>) {
        match v {
            None => {},
            Some(x) => {
                T::lemma_round_trip(x, rest);
                assert((seq![true] + x.packed_bits() + rest).drop_first() =~= x.packed_bits() + rest);
            },
        }
    }
}

impl<T: Lossless> Lossless for Option<T> {
    proof fn lemma_lossless(v: Option<T>, rest: Seq<bool>, x: Option<T>) {
        Self::lemma_round_trip(v, rest);
        match v {
            None => {},
            Some(a) => {
                assert((seq![true] + a.packed_bits() + rest).drop_first() =~= a.packed_bits() + rest);
                T::lemma_lossless(a, rest, x->0);
            },
        }
    }

    proof fn lemma_obeys() {
        T::lemma_obeys();
    }
}

impl<T: PackBits> PackBits for Box<T> {
    open spec fn obeys_pack_spec() -> bool {
        T::obeys_pack_spec()
    }

    open spec fn packed_bits(&self) -> Seq<bool> {
        (**self).packed_bits()
    }

    fn pack<W: WriteBits>(&self, writer: &mut W) -> (r: Result<(), W::Error>) {
        (**self).pack(writer)
    }
}

impl<T: UnpackBits> UnpackBits for Box<T> {
    open spec fn obeys_unpack_spec() -> bool {
        T::obeys_unpack_spec()
    }

    open spec fn unpacked_len(bits: Seq<bool>) -> Option<nat> {
        T::unpacked_len(bits)
    }

    open spec fn unpacks_to(bits: Seq<bool>, v: Box<T>) -> bool {
        T::unpacks_to(bits, *v)
    }

    open spec fn runs_out(bits: Seq<bool>) -> bool {
        T::runs_out(bits)
    }

    fn unpack<R: ReadBits>(reader: &mut R) -> (r: Result<Box<T>, R::Error>) {
        match T::unpack(reader) {
            Ok(v) => Ok(Box::new(v)),
            Err(e) => Err(e),
        }
    }
}

impl<T: RoundTrip> RoundTrip for Box<T> {
    open spec fn round_trips(&self) -> bool {
        (**self).round_trips()
    }

    proof fn lemma_round_trip(v: Box<T>, rest: Seq<bool>) {
        T::lemma_round_trip(*v, rest);
    }
}

impl<T: Lossless> Lossless for Box<T> {
    proof fn lemma_lossless(v: Box<T>, rest: Seq<bool>, x: Box<T>) {
        T::lemma_lossless(*v, rest, *x);
    }

    proof fn lemma_obeys() {
        T::lemma_obeys();
    }
}

impl<T: PackBits> PackBits for Arc<T> {
    open spec fn obeys_pack_spec() -> bool {
        T::obeys_pack_spec()
    }

    open spec fn packed_bits(&self) -> Seq<bool> {
        (**self).packed_bits()
    }

    fn pack<W: WriteBits>(&self, writer: &mut W) -> (r: Result<(), W::Error>) {
        (**self).pack(writer)
    }
}

impl<T: UnpackBits> UnpackBits for Arc<T> {
    open spec fn obeys_unpack_spec() -> bool {
        T::obeys_unpack_spec()
    }

    open spec fn unpacked_len(bits: Seq<bool>) -> Option<nat> {
        T::unpacked_len(bits)
    }

    open spec fn unpacks_to(bits: Seq<bool>, v: Arc<T>) -> bool {
        T::unpacks_to(bits, *v)
    }

    open spec fn runs_out(bits: Seq<bool>) -> bool {
        T::runs_out(bits)
    }

    fn unpack<R: ReadBits>(reader: &mut R) -> (r: Result<Arc<T>, R::Error>) {
        match T::unpack(reader) {
            Ok(v) => Ok(Arc::new(v)),
            Err(e) => Err(e),
        }
    }
}

/// The value an `Arc` points to.
pub open spec fn inner_of_arc<T>(v: Arc<T>) -> T {
    *v
}

/// The value an `Rc` points to.
pub open spec fn inner_of_rc<T>(v: Rc<T>) -> T {
    *v
}

impl<T: RoundTrip> RoundTrip for Arc<T> {
    open spec fn round_trips(&self) -> bool {
        (**self).round_trips()
    }

    proof fn lemma_round_trip(v: Arc<T>, rest: Seq<bool>) {
        T::lemma_round_trip(inner_of_arc(v), rest);
    }
}

impl<T: Lossless> Lossless for Arc<T> {
    proof fn lemma_lossless(v: Arc<T>, rest: Seq<bool>, x: Arc<T>) {
        T::lemma_lossless(inner_of_arc(v), rest, inner_of_arc(x));
    }

    proof fn lemma_obeys() {
        T::lemma_obeys();
    }
}

impl<T: PackBits> PackBits for Rc<T> {
    open spec fn obeys_pack_spec() -> bool {
        T::obeys_pack_spec()
    }

    open spec fn packed_bits(&self) -> Seq<bool> {
        (**self).packed_bits()
    }

    fn pack<W: WriteBits>(&self, writer: &mut W) -> (r: Result<(), W::Error>) {
        (**self).pack(writer)
    }
}

impl<T: UnpackBits> UnpackBits for Rc<T> {
    open spec fn obeys_unpack_spec() -> bool {
        T::obeys_unpack_spec()
    }

    open spec fn unpacked_len(bits: Seq<bool>) -> Option<nat> {
        T::unpacked_len(bits)
    }

    open spec fn unpacks_to(bits: Seq<bool>, v: Rc<T>) -> bool {
        T::unpacks_to(bits, *v)
    }

    open spec fn runs_out(bits: Seq<bool>) -> bool {
        T::runs_out(bits)
    }

    fn unpack<R: ReadBits>(reader: &mut R) -> (r: Result<Rc<T>, R::Error>) {
        match T::unpack(reader) {
            Ok(v) => Ok(Rc::new(v)),
            Err(e) => Err(e),
        }
    }
}

impl<T: RoundTrip> RoundTrip for Rc<T> {
    open spec fn round_trips(&self) -> bool {
        (**self).round_trips()
    }

    proof fn lemma_round_trip(v: Rc<T>, rest: Seq<bool>) {
        T::lemma_round_trip(inner_of_rc(v), rest);
    }
}

impl<T: Lossless> Lossless for Rc<T> {
    proof fn lemma_lossless(v: Rc<T>, rest: Seq<bool>, x: Rc<T>) {
        T::lemma_lossless(inner_of_rc(v), rest, inner_of_rc(x));
    }

    proof fn lemma_obeys() {
        T::lemma_obeys();
    }
}

impl<A: PackBits> PackBits for (A,) {
    open spec fn obeys_pack_spec() -> bool {
        A::obeys_pack_spec()
    }

    open spec fn packed_bits(&self) -> Seq<bool> {
        self.0.packed_bits()
    }

    fn pack<W: WriteBits>(&self, writer: &mut W) -> (r: Result<(), W::Error>) {
        let ghost w0 = old(writer).written();
        match self.0.pack(writer) {
            Ok(()) => {},
            Err(e) => return Err(e),
        }
        proof {
            if Self::obeys_pack_spec() {
                assert(writer.written() =~= w0 + (self.0.packed_bits()));
            }
        }
        Ok(())
    }
}

impl<A: UnpackBits> UnpackBits for (A,) {
    open spec fn obeys_unpack_spec() -> bool {
        A::obeys_unpack_spec()
    }

    open spec fn unpacked_len(bits: Seq<bool>) -> Option<nat> {
        match A::unpacked_len(bits) { Some(n0) => Some(n0), None => None }
    }

    open spec fn unpacks_to(bits: Seq<bool>, v: (A,)) -> bool {
        A::unpacks_to(bits, v.0)
    }

    open spec fn runs_out(bits: Seq<bool>) -> bool {
        A::runs_out(bits)
    }

    fn unpack<R: ReadBits>(reader: &mut R) -> (r: Result<(A,), R::Error>) {
        let ghost s = old(reader).remaining();
        let ghost mut off: nat = 0;
        proof {
            if Self::obeys_unpack_spec() {
                assert(s.skip(0) =~= s);
            }
        }
        let ghost r0 = reader.remaining();
        let v0 = match A::unpack(reader) {
            Ok(v) => v,
            Err(e) => return Err(e),
        };
        proof {
            if Self::obeys_unpack_spec() {
                let n = A::unpacked_len(r0).unwrap();
                assert(s.skip(off as int).skip(n as int) =~= s.skip((off + n) as int));
                off = off + n;
            }
        }
        Ok((v0,))
    }
}

impl<A: RoundTrip> RoundTrip for (A,) {
    open spec fn round_trips(&self) -> bool {
        self.0.round_trips()
    }

    proof fn lemma_round_trip(v: (A,), rest: Seq<bool>) {
        A::lemma_round_trip(v.0, rest);
        assert(v.packed_bits() + rest =~= (v.0.packed_bits() + rest));
    }
}

impl<A: Lossless> Lossless for (A,) {
    proof fn lemma_lossless(v: (A,), rest: Seq<bool>, x: (A,)) {
        A::lemma_round_trip(v.0, rest);
        assert(v.packed_bits() + rest =~= (v.0.packed_bits() + rest));
        A::lemma_lossless(v.0, rest, x.0);
    }

    proof fn lemma_obeys() {
        A::lemma_obeys();
    }
}

impl<A: PackBits, B: PackBits> PackBits for (A, B) {
    open spec fn obeys_pack_spec() -> bool {
        A::obeys_pack_spec() && B::obeys_pack_spec()
    }

    open spec fn packed_bits(&self) -> Seq<bool> {
        self.0.packed_bits() + self.1.packed_bits()
    }

    fn pack<W: WriteBits>(&self, writer: &mut W) -> (r: Result<(), W::Error>) {
        let ghost w0 = old(writer).written();
        match self.0.pack(writer) {
            Ok(()) => {},
            Err(e) => return Err(e),
        }
        proof {
            if Self::obeys_pack_spec() {
                assert(writer.written() =~= w0 + (self.0.packed_bits()));
            }
        }
        match self.1.pack(writer) {
            Ok(()) => {},
            Err(e) => return Err(e),
        }
        proof {
            if Self::obeys_pack_spec() {
                assert(writer.written() =~= w0 + (self.0.packed_bits() + self.1.packed_bits()));
            }
        }
        Ok(())
    }
}

impl<A: UnpackBits, B: UnpackBits> UnpackBits for (A, B) {
    open spec fn obeys_unpack_spec() -> bool {
        A::obeys_unpack_spec() && B::obeys_unpack_spec()
    }

    open spec fn unpacked_len(bits: Seq<bool>) -> Option<nat> {
        match A::unpacked_len(bits) { Some(n0) => match B::unpacked_len(bits.skip((n0) as int)) { Some(n1) => Some(n0 + n1), None => None }, None => None }
    }

    open spec fn unpacks_to(bits: Seq<bool>, v: (A, B)) -> bool {
        A::unpacks_to(bits, v.0) && (A::unpacked_len(bits) matches Some(n0) && B::unpacks_to(bits.skip((n0) as int), v.1))
    }

    open spec fn runs_out(bits: Seq<bool>) -> bool {
        A::runs_out(bits) || match A::unpacked_len(bits) { Some(n0) => B::runs_out(bits.skip((n0) as int)), None => false }
    }

    fn unpack<R: ReadBits>(reader: &mut R) -> (r: Result<(A, B), R::Error>) {
        let ghost s = old(reader).remaining();
        let ghost mut off: nat = 0;
        proof {
            if Self::obeys_unpack_spec() {
                assert(s.skip(0) =~= s);
            }
        }
        let ghost r0 = reader.remaining();
        let v0 = match A::unpack(reader) {
            Ok(v) => v,
            Err(e) => return Err(e),
        };
        proof {
            if Self::obeys_unpack_spec() {
                let n = A::unpacked_len(r0).unwrap();
                assert(s.skip(off as int).skip(n as int) =~= s.skip((off + n) as int));
                off = off + n;
            }
        }
        let ghost r1 = reader.remaining();
        let v1 = match B::unpack(reader) {
            Ok(v) => v,
            Err(e) => return Err(e),
        };
        proof {
            if Self::obeys_unpack_spec() {
                let n = B::unpacked_len(r1).unwrap();
                assert(s.skip(off as int).skip(n as int) =~= s.skip((off + n) as int));
                off = off + n;
            }
        }
        Ok((v0, v1))
    }
}

impl<A: RoundTrip, B: RoundTrip> RoundTrip for (A, B) {
    open spec fn round_trips(&self) -> bool {
        self.0.round_trips() && self.1.round_trips()
    }

    proof fn lemma_round_trip(v: (A, B), rest: Seq<bool>) {
        A::lemma_round_trip(v.0, (v.1.packed_bits() + rest));
        B::lemma_round_trip(v.1, rest);
        assert(v.packed_bits() + rest =~= (v.0.packed_bits() + (v.1.packed_bits() + rest)));
        assert((v.packed_bits() + rest).skip((v.0.packed_bits().len()) as int) =~= (v.1.packed_bits() + rest));
    }
}

impl<A: Lossless, B: Lossless> Lossless for (A, B) {
    proof fn lemma_lossless(v: (A, B), rest: Seq<bool>, x: (A, B)) {
        A::lemma_round_trip(v.0, (v.1.packed_bits() + rest));
        B::lemma_round_trip(v.1, rest);
        assert(v.packed_bits() + rest =~= (v.0.packed_bits() + (v.1.packed_bits() + rest)));
        assert((v.packed_bits() + rest).skip((v.0.packed_bits().len()) as int) =~= (v.1.packed_bits() + rest));
        A::lemma_lossless(v.0, (v.1.packed_bits() + rest), x.0);
        B::lemma_lossless(v.1, rest, x.1);
    }

    proof fn lemma_obeys() {
        A::lemma_obeys();
        B::lemma_obeys();
    }
}

impl<A: PackBits, B: PackBits, C: PackBits> PackBits for (A, B, C) {
    open spec fn obeys_pack_spec() -> bool {
        A::obeys_pack_spec() && B::obeys_pack_spec() && C::obeys_pack_spec()
    }

    open spec fn packed_bits(&self) -> Seq<bool> {
        self.0.packed_bits() + self.1.packed_bits() + self.2.packed_bits()
    }

    fn pack<W: WriteBits>(&self, writer: &mut W) -> (r: Result<(), W::Error>) {
        let ghost w0 = old(writer).written();
        match self.0.pack(writer) {
            Ok(()) => {},
            Err(e) => return Err(e),
        }
        proof {
            if Self::obeys_pack_spec() {
                assert(writer.written() =~= w0 + (self.0.packed_bits()));
            }
        }
        match self.1.pack(writer) {
            Ok(()) => {},
            Err(e) => return Err(e),
        }
        proof {
            if Self::obeys_pack_spec() {
                assert(writer.written() =~= w0 + (self.0.packed_bits() + self.1.packed_bits()));
            }
        }
        match self.2.pack(writer) {
            Ok(()) => {},
            Err(e) => return Err(e),
        }
        proof {
            if Self::obeys_pack_spec() {
                assert(writer.written() =~= w0 + (self.0.packed_bits() + self.1.packed_bits() + self.2.packed_bits()));
            }
        }
        Ok(())
    }
}

impl<A: UnpackBits, B: UnpackBits, C: UnpackBits> UnpackBits for (A, B, C) {
    open spec fn obeys_unpack_spec() -> bool {
        A::obeys_unpack_spec() && B::obeys_unpack_spec() && C::obeys_unpack_spec()
    }

    open spec fn unpacked_len(bits: Seq<bool>) -> Option<nat> {
        match A::unpacked_len(bits) { Some(n0) => match B::unpacked_len(bits.skip((n0) as int)) { Some(n1) => match C::unpacked_len(bits.skip((n0 + n1) as int)) { Some(n2) => Some(n0 + n1 + n2), None => None }, None => None }, None => None }
    }

    open spec fn unpacks_to(bits: Seq<bool>, v: (A, B, C)) -> bool {
        A::unpacks_to(bits, v.0) && (A::unpacked_len(bits) matches Some(n0) && B::unpacks_to(bits.skip((n0) as int), v.1) && (B::unpacked_len(bits.skip((n0) as int)) matches Some(n1) && C::unpacks_to(bits.skip((n0 + n1) as int), v.2)))
    }

    open spec fn runs_out(bits: Seq<bool>) -> bool {
        A::runs_out(bits) || match A::unpacked_len(bits) { Some(n0) => B::runs_out(bits.skip((n0) as int)) || match B::unpacked_len(bits.skip((n0) as int)) { Some(n1) => C::runs_out(bits.skip((n0 + n1) as int)), None => false }, None => false }
    }

    fn unpack<R: ReadBits>(reader: &mut R) -> (r: Result<(A, B, C), R::Error>) {
        let ghost s = old(reader).remaining();
        let ghost mut off: nat = 0;
        proof {
            if Self::obeys_unpack_spec() {
                assert(s.skip(0) =~= s);
            }
        }
        let ghost r0 = reader.remaining();
        let v0 = match A::unpack(reader) {
            Ok(v) => v,
            Err(e) => return Err(e),
        };
        proof {
            if Self::obeys_unpack_spec() {
                let n = A::unpacked_len(r0).unwrap();
                assert(s.skip(off as int).skip(n as int) =~= s.skip((off + n) as int));
                off = off + n;
            }
        }
        let ghost r1 = reader.remaining();
        let v1 = match B::unpack(reader) {
            Ok(v) => v,
            Err(e) => return Err(e),
        };
        proof {
            if Self::obeys_unpack_spec() {
                let n = B::unpacked_len(r1).unwrap();
                assert(s.skip(off as int).skip(n as int) =~= s.skip((off + n) as int));
                off = off + n;
            }
        }
        let ghost r2 = reader.remaining();
        let v2 = match C::unpack(reader) {
            Ok(v) => v,
            Err(e) => return Err(e),
        };
        proof {
            if Self::obeys_unpack_spec() {
                let n = C::unpacked_len(r2).unwrap();
                assert(s.skip(off as int).skip(n as int) =~= s.skip((off + n) as int));
                off = off + n;
            }
        }
        Ok((v0, v1, v2))
    }
}

impl<A: RoundTrip, B: RoundTrip, C: RoundTrip> RoundTrip for (A, B, C) {
    open spec fn round_trips(&self) -> bool {
        self.0.round_trips() && self.1.round_trips() && self.2.round_trips()
    }

    proof fn lemma_round_trip(v: (A, B, C), rest: Seq<bool>) {
        A::lemma_round_trip(v.0, (v.1.packed_bits() + (v.2.packed_bits() + rest)));
        B::lemma_round_trip(v.1, (v.2.packed_bits() + rest));
        C::lemma_round_trip(v.2, rest);
        assert(v.packed_bits() + rest =~= (v.0.packed_bits() + (v.1.packed_bits() + (v.2.packed_bits() + rest))));
        assert((v.packed_bits() + rest).skip((v.0.packed_bits().len()) as int) =~= (v.1.packed_bits() + (v.2.packed_bits() + rest)));
        assert((v.packed_bits() + rest).skip((v.0.packed_bits().len() + v.1.packed_bits().len()) as int) =~= (v.2.packed_bits() + rest));
    }
}

impl<A: Lossless, B: Lossless, C: Lossless> Lossless for (A, B, C) {
    proof fn lemma_lossless(v: (A, B, C), rest: Seq<bool>, x: (A, B, C)) {
        A::lemma_round_trip(v.0, (v.1.packed_bits() + (v.2.packed_bits() + rest)));
        B::lemma_round_trip(v.1, (v.2.packed_bits() + rest));
        C::lemma_round_trip(v.2, rest);
        assert(v.packed_bits() + rest =~= (v.0.packed_bits() + (v.1.packed_bits() + (v.2.packed_bits() + rest))));
        assert((v.packed_bits() + rest).skip((v.0.packed_bits().len()) as int) =~= (v.1.packed_bits() + (v.2.packed_bits() + rest)));
        assert((v.packed_bits() + rest).skip((v.0.packed_bits().len() + v.1.packed_bits().len()) as int) =~= (v.2.packed_bits() + rest));
        A::lemma_lossless(v.0, (v.1.packed_bits() + (v.2.packed_bits() + rest)), x.0);
        B::lemma_lossless(v.1, (v.2.packed_bits() + rest), x.1);
        C::lemma_lossless(v.2, rest, x.2);
    }

    proof fn lemma_obeys() {
        A::lemma_obeys();
        B::lemma_obeys();
        C::lemma_obeys();
    }
}

impl<A: PackBits, B: PackBits, C: PackBits, D: PackBits> PackBits for (A, B, C, D) {
    open spec fn obeys_pack_spec() -> bool {
        A::obeys_pack_spec() && B::obeys_pack_spec() && C::obeys_pack_spec() && D::obeys_pack_spec()
    }

    open spec fn packed_bits(&self) -> Seq<bool> {
        self.0.packed_bits() + self.1.packed_bits() + self.2.packed_bits() + self.3.packed_bits()
    }

    fn pack<W: WriteBits>(&self, writer: &mut W) -> (r: Result<(), W::Error>) {
        let ghost w0 = old(writer).written();
        match self.0.pack(writer) {
            Ok(()) => {},
            Err(e) => return Err(e),
        }
        proof {
            if Self::obeys_pack_spec() {
                assert(writer.written() =~= w0 + (self.0.packed_bits()));
            }
        }
        match self.1.pack(writer) {
            Ok(()) => {},
            Err(e) => return Err(e),
        }
        proof {
            if Self::obeys_pack_spec() {
                assert(writer.written() =~= w0 + (self.0.packed_bits() + self.1.packed_bits()));
            }
        }
        match self.2.pack(writer) {
            Ok(()) => {},
            Err(e) => return Err(e),
        }
        proof {
            if Self::obeys_pack_spec() {
                assert(writer.written() =~= w0 + (self.0.packed_bits() + self.1.packed_bits() + self.2.packed_bits()));
            }
        }
        match self.3.pack(writer) {
            Ok(()) => {},
            Err(e) => return Err(e),
        }
        proof {
            if Self::obeys_pack_spec() {
                assert(writer.written() =~= w0 + (self.0.packed_bits() + self.1.packed_bits() + self.2.packed_bits() + self.3.packed_bits()));
            }
        }
        Ok(())
    }
}

impl<A: UnpackBits, B: UnpackBits, C: UnpackBits, D: UnpackBits> UnpackBits for (A, B, C, D) {
    open spec fn obeys_unpack_spec() -> bool {
        A::obeys_unpack_spec() && B::obeys_unpack_spec() && C::obeys_unpack_spec() && D::obeys_unpack_spec()
    }

    open spec fn unpacked_len(bits: Seq<bool>) -> Option<nat> {
        match A::unpacked_len(bits) { Some(n0) => match B::unpacked_len(bits.skip((n0) as int)) { Some(n1) => match C::unpacked_len(bits.skip((n0 + n1) as int)) { Some(n2) => match D::unpacked_len(bits.skip((n0 + n1 + n2) as int)) { Some(n3) => Some(n0 + n1 + n2 + n3), None => None }, None => None }, None => None }, None => None }
    }

    open spec fn unpacks_to(bits: Seq<bool>, v: (A, B, C, D)) -> bool {
        A::unpacks_to(bits, v.0) && (A::unpacked_len(bits) matches Some(n0) && B::unpacks_to(bits.skip((n0) as int), v.1) && (B::unpacked_len(bits.skip((n0) as int)) matches Some(n1) && C::unpacks_to(bits.skip((n0 + n1) as int), v.2) && (C::unpacked_len(bits.skip((n0 + n1) as int)) matches Some(n2) && D::unpacks_to(bits.skip((n0 + n1 + n2) as int), v.3))))
    }

    open spec fn runs_out(bits: Seq<bool>) -> bool {
        A::runs_out(bits) || match A::unpacked_len(bits) { Some(n0) => B::runs_out(bits.skip((n0) as int)) || match B::unpacked_len(bits.skip((n0) as int)) { Some(n1) => C::runs_out(bits.skip((n0 + n1) as int)) || match C::unpacked_len(bits.skip((n0 + n1) as int)) { Some(n2) => D::runs_out(bits.skip((n0 + n1 + n2) as int)), None => false }, None => false }, None => false }
    }

    fn unpack<R: ReadBits>(reader: &mut R) -> (r: Result<(A, B, C, D), R::Error>) {
        let ghost s = old(reader).remaining();
        let ghost mut off: nat = 0;
        proof {
            if Self::obeys_unpack_spec() {
                assert(s.skip(0) =~= s);
            }
        }
        let ghost r0 = reader.remaining();
        let v0 = match A::unpack(reader) {
            Ok(v) => v,
            Err(e) => return Err(e),
        };
        proof {
            if Self::obeys_unpack_spec() {
                let n = A::unpacked_len(r0).unwrap();
                assert(s.skip(off as int).skip(n as int) =~= s.skip((off + n) as int));
                off = off + n;
            }
        }
        let ghost r1 = reader.remaining();
        let v1 = match B::unpack(reader) {
            Ok(v) => v,
            Err(e) => return Err(e),
        };
        proof {
            if Self::obeys_unpack_spec() {
                let n = B::unpacked_len(r1).unwrap();
                assert(s.skip(off as int).skip(n as int) =~= s.skip((off + n) as int));
                off = off + n;
            }
        }
        let ghost r2 = reader.remaining();
        let v2 = match C::unpack(reader) {
            Ok(v) => v,
            Err(e) => return Err(e),
        };
        proof {
            if Self::obeys_unpack_spec() {
                let n = C::unpacked_len(r2).unwrap();
                assert(s.skip(off as int).skip(n as int) =~= s.skip((off + n) as int));
                off = off + n;
            }
        }
        let ghost r3 = reader.remaining();
        let v3 = match D::unpack(reader) {
            Ok(v) => v,
            Err(e) => return Err(e),
        };
        proof {
            if Self::obeys_unpack_spec() {
                let n = D::unpacked_len(r3).unwrap();
                assert(s.skip(off as int).skip(n as int) =~= s.skip((off + n) as int));
                off = off + n;
            }
        }
        Ok((v0, v1, v2, v3))
    }
}

impl<A: RoundTrip, B: RoundTrip, C: RoundTrip, D: RoundTrip> RoundTrip for (A, B, C, D) {
    open spec fn round_trips(&self) -> bool {
        self.0.round_trips() && self.1.round_trips() && self.2.round_trips() && self.3.round_trips()
    }

    proof fn lemma_round_trip(v: (A, B, C, D), rest: Seq<bool>) {
        A::lemma_round_trip(v.0, (v.1.packed_bits() + (v.2.packed_bits() + (v.3.packed_bits() + rest))));
        B::lemma_round_trip(v.1, (v.2.packed_bits() + (v.3.packed_bits() + rest)));
        C::lemma_round_trip(v.2, (v.3.packed_bits() + rest));
        D::lemma_round_trip(v.3, rest);
        assert(v.packed_bits() + rest =~= (v.0.packed_bits() + (v.1.packed_bits() + (v.2.packed_bits() + (v.3.packed_bits() + rest)))));
        assert((v.packed_bits() + rest).skip((v.0.packed_bits().len()) as int) =~= (v.1.packed_bits() + (v.2.packed_bits() + (v.3.packed_bits() + rest))));
        assert((v.packed_bits() + rest).skip((v.0.packed_bits().len() + v.1.packed_bits().len()) as int) =~= (v.2.packed_bits() + (v.3.packed_bits() + rest)));
        assert((v.packed_bits() + rest).skip((v.0.packed_bits().len() + v.1.packed_bits().len() + v.2.packed_bits().len()) as int) =~= (v.3.packed_bits() + rest));
    }
}

impl<A: Lossless, B: Lossless, C: Lossless, D: Lossless> Lossless for (A, B, C, D) {
    proof fn lemma_lossless(v: (A, B, C, D), rest: Seq<bool>, x: (A, B, C, D)) {
        A::lemma_round_trip(v.0, (v.1.packed_bits() + (v.2.packed_bits() + (v.3.packed_bits() + rest))));
        B::lemma_round_trip(v.1, (v.2.packed_bits() + (v.3.packed_bits() + rest)));
        C::lemma_round_trip(v.2, (v.3.packed_bits() + rest));
        D::lemma_round_trip(v.3, rest);
        assert(v.packed_bits() + rest =~= (v.0.packed_bits() + (v.1.packed_bits() + (v.2.packed_bits() + (v.3.packed_bits() + rest)))));
        assert((v.packed_bits() + rest).skip((v.0.packed_bits().len()) as int) =~= (v.1.packed_bits() + (v.2.packed_bits() + (v.3.packed_bits() + rest))));
        assert((v.packed_bits() + rest).skip((v.0.packed_bits().len() + v.1.packed_bits().len()) as int) =~= (v.2.packed_bits() + (v.3.packed_bits() + rest)));
        assert((v.packed_bits() + rest).skip((v.0.packed_bits().len() + v.1.packed_bits().len() + v.2.packed_bits().len()) as int) =~= (v.3.packed_bits() + rest));
        A::lemma_lossless(v.0, (v.1.packed_bits() + (v.2.packed_bits() + (v.3.packed_bits() + rest))), x.0);
        B::lemma_lossless(v.1, (v.2.packed_bits() + (v.3.packed_bits() + rest)), x.1);
        C::lemma_lossless(v.2, (v.3.packed_bits() + rest), x.2);
        D::lemma_lossless(v.3, rest, x.3);
    }

    proof fn lemma_obeys() {
        A::lemma_obeys();
        B::lemma_obeys();
        C::lemma_obeys();
        D::lemma_obeys();
    }
}

impl<A: PackBits, B: PackBits, C: PackBits, D: PackBits, E: PackBits> PackBits for (A, B, C, D, E) {
    open spec fn obeys_pack_spec() -> bool {
        A::obeys_pack_spec() && B::obeys_pack_spec() && C::obeys_pack_spec() && D::obeys_pack_spec() && E::obeys_pack_spec()
    }

    open spec fn packed_bits(&self) -> Seq<bool> {
        self.0.packed_bits() + self.1.packed_bits() + self.2.packed_bits() + self.3.packed_bits() + self.4.packed_bits()
    }

    fn pack<W: WriteBits>(&self, writer: &mut W) -> (r: Result<(), W::Error>) {
        let ghost w0 = old(writer).written();
        match self.0.pack(writer) {
            Ok(()) => {},
            Err(e) => return Err(e),
        }
        proof {
            if Self::obeys_pack_spec() {
                assert(writer.written() =~= w0 + (self.0.packed_bits()));
            }
        }
        match self.1.pack(writer) {
            Ok(()) => {},
            Err(e) => return Err(e),
        }
        proof {
            if Self::obeys_pack_spec() {
                assert(writer.written() =~= w0 + (self.0.packed_bits() + self.1.packed_bits()));
            }
        }
        match self.2.pack(writer) {
            Ok(()) => {},
            Err(e) => return Err(e),
        }
        proof {
            if Self::obeys_pack_spec() {
                assert(writer.written() =~= w0 + (self.0.packed_bits() + self.1.packed_bits() + self.2.packed_bits()));
            }
        }
        match self.3.pack(writer) {
            Ok(()) => {},
            Err(e) => return Err(e),
        }
        proof {
            if Self::obeys_pack_spec() {
                assert(writer.written() =~= w0 + (self.0.packed_bits() + self.1.packed_bits() + self.2.packed_bits() + self.3.packed_bits()));
            }
        }
        match self.4.pack(writer) {
            Ok(()) => {},
            Err(e) => return Err(e),
        }
        proof {
            if Self::obeys_pack_spec() {
                assert(writer.written() =~= w0 + (self.0.packed_bits() + self.1.packed_bits() + self.2.packed_bits() + self.3.packed_bits() + self.4.packed_bits()));
            }
        }
        Ok(())
    }
}

impl<A: UnpackBits, B: UnpackBits, C: UnpackBits, D: UnpackBits, E: UnpackBits> UnpackBits for (A, B, C, D, E) {
    open spec fn obeys_unpack_spec() -> bool {
        A::obeys_unpack_spec() && B::obeys_unpack_spec() && C::obeys_unpack_spec() && D::obeys_unpack_spec() && E::obeys_unpack_spec()
    }

    open spec fn unpacked_len(bits: Seq<bool>) -> Option<nat> {
        match A::unpacked_len(bits) { Some(n0) => match B::unpacked_len(bits.skip((n0) as int)) { Some(n1) => match C::unpacked_len(bits.skip((n0 + n1) as int)) { Some(n2) => match D::unpacked_len(bits.skip((n0 + n1 + n2) as int)) { Some(n3) => match E::unpacked_len(bits.skip((n0 + n1 + n2 + n3) as int)) { Some(n4) => Some(n0 + n1 + n2 + n3 + n4), None => None }, None => None }, None => None }, None => None }, None => None }
    }

    open spec fn unpacks_to(bits: Seq<bool>, v: (A, B, C, D, E)) -> bool {
        A::unpacks_to(bits, v.0) && (A::unpacked_len(bits) matches Some(n0) && B::unpacks_to(bits.skip((n0) as int), v.1) && (B::unpacked_len(bits.skip((n0) as int)) matches Some(n1) && C::unpacks_to(bits.skip((n0 + n1) as int), v.2) && (C::unpacked_len(bits.skip((n0 + n1) as int)) matches Some(n2) && D::unpacks_to(bits.skip((n0 + n1 + n2) as int), v.3) && (D::unpacked_len(bits.skip((n0 + n1 + n2) as int)) matches Some(n3) && E::unpacks_to(bits.skip((n0 + n1 + n2 + n3) as int), v.4)))))
    }

    open spec fn runs_out(bits: Seq<bool>) -> bool {
        A::runs_out(bits) || match A::unpacked_len(bits) { Some(n0) => B::runs_out(bits.skip((n0) as int)) || match B::unpacked_len(bits.skip((n0) as int)) { Some(n1) => C::runs_out(bits.skip((n0 + n1) as int)) || match C::unpacked_len(bits.skip((n0 + n1) as int)) { Some(n2) => D::runs_out(bits.skip((n0 + n1 + n2) as int)) || match D::unpacked_len(bits.skip((n0 + n1 + n2) as int)) { Some(n3) => E::runs_out(bits.skip((n0 + n1 + n2 + n3) as int)), None => false }, None => false }, None => false }, None => false }
    }

    fn unpack<R: ReadBits>(reader: &mut R) -> (r: Result<(A, B, C, D, E), R::Error>) {
        let ghost s = old(reader).remaining();
        let ghost mut off: nat = 0;
        proof {
            if Self::obeys_unpack_spec() {
                assert(s.skip(0) =~= s);
            }
        }
        let ghost r0 = reader.remaining();
        let v0 = match A::unpack(reader) {
            Ok(v) => v,
            Err(e) => return Err(e),
        };
        proof {
            if Self::obeys_unpack_spec() {
                let n = A::unpacked_len(r0).unwrap();
                assert(s.skip(off as int).skip(n as int) =~= s.skip((off + n) as int));
                off = off + n;
            }
        }
        let ghost r1 = reader.remaining();
        let v1 = match B::unpack(reader) {
            Ok(v) => v,
            Err(e) => return Err(e),
        };
        proof {
            if Self::obeys_unpack_spec() {
                let n = B::unpacked_len(r1).unwrap();
                assert(s.skip(off as int).skip(n as int) =~= s.skip((off + n) as int));
                off = off + n;
            }
        }
        let ghost r2 = reader.remaining();
        let v2 = match C::unpack(reader) {
            Ok(v) => v,
            Err(e) => return Err(e),
        };
        proof {
            if Self::obeys_unpack_spec() {
                let n = C::unpacked_len(r2).unwrap();
                assert(s.skip(off as int).skip(n as int) =~= s.skip((off + n) as int));
                off = off + n;
            }
        }
        let ghost r3 = reader.remaining();
        let v3 = match D::unpack(reader) {
            Ok(v) => v,
            Err(e) => return Err(e),
        };
        proof {
            if Self::obeys_unpack_spec() {
                let n = D::unpacked_len(r3).unwrap();
                assert(s.skip(off as int).skip(n as int) =~= s.skip((off + n) as int));
                off = off + n;
            }
        }
        let ghost r4 = reader.remaining();
        let v4 = match E::unpack(reader) {
            Ok(v) => v,
            Err(e) => return Err(e),
        };
        proof {
            if Self::obeys_unpack_spec() {
                let n = E::unpacked_len(r4).unwrap();
                assert(s.skip(off as int).skip(n as int) =~= s.skip((off + n) as int));
                off = off + n;
            }
        }
        Ok((v0, v1, v2, v3, v4))
    }
}

impl<A: RoundTrip, B: RoundTrip, C: RoundTrip, D: RoundTrip, E: RoundTrip> RoundTrip for (A, B, C, D, E) {
    open spec fn round_trips(&self) -> bool {
        self.0.round_trips() && self.1.round_trips() && self.2.round_trips() && self.3.round_trips() && self.4.round_trips()
    }

    proof fn lemma_round_trip(v: (A, B, C, D, E), rest: Seq<bool>) {
        A::lemma_round_trip(v.0, (v.1.packed_bits() + (v.2.packed_bits() + (v.3.packed_bits() + (v.4.packed_bits() + rest)))));
        B::lemma_round_trip(v.1, (v.2.packed_bits() + (v.3.packed_bits() + (v.4.packed_bits() + rest))));
        C::lemma_round_trip(v.2, (v.3.packed_bits() + (v.4.packed_bits() + rest)));
        D::lemma_round_trip(v.3, (v.4.packed_bits() + rest));
        E::lemma_round_trip(v.4, rest);
        assert(v.packed_bits() + rest =~= (v.0.packed_bits() + (v.1.packed_bits() + (v.2.packed_bits() + (v.3.packed_bits() + (v.4.packed_bits() + rest))))));
        assert((v.packed_bits() + rest).skip((v.0.packed_bits().len()) as int) =~= (v.1.packed_bits() + (v.2.packed_bits() + (v.3.packed_bits() + (v.4.packed_bits() + rest)))));
        assert((v.packed_bits() + rest).skip((v.0.packed_bits().len() + v.1.packed_bits().len()) as int) =~= (v.2.packed_bits() + (v.3.packed_bits() + (v.4.packed_bits() + rest))));
        assert((v.packed_bits() + rest).skip((v.0.packed_bits().len() + v.1.packed_bits().len() + v.2.packed_bits().len()) as int) =~= (v.3.packed_bits() + (v.4.packed_bits() + rest)));
        assert((v.packed_bits() + rest).skip((v.0.packed_bits().len() + v.1.packed_bits().len() + v.2.packed_bits().len() + v.3.packed_bits().len()) as int) =~= (v.4.packed_bits() + rest));
    }
}

impl<A: Lossless, B: Lossless, C: Lossless, D: Lossless, E: Lossless> Lossless for (A, B, C, D, E) {
    proof fn lemma_lossless(v: (A, B, C, D, E), rest: Seq<bool>, x: (A, B, C, D, E)) {
        A::lemma_round_trip(v.0, (v.1.packed_bits() + (v.2.packed_bits() + (v.3.packed_bits() + (v.4.packed_bits() + rest)))));
        B::lemma_round_trip(v.1, (v.2.packed_bits() + (v.3.packed_bits() + (v.4.packed_bits() + rest))));
        C::lemma_round_trip(v.2, (v.3.packed_bits() + (v.4.packed_bits() + rest)));
        D::lemma_round_trip(v.3, (v.4.packed_bits() + rest));
        E::lemma_round_trip(v.4, rest);
        assert(v.packed_bits() + rest =~= (v.0.packed_bits() + (v.1.packed_bits() + (v.2.packed_bits() + (v.3.packed_bits() + (v.4.packed_bits() + rest))))));
        assert((v.packed_bits() + rest).skip((v.0.packed_bits().len()) as int) =~= (v.1.packed_bits() + (v.2.packed_bits() + (v.3.packed_bits() + (v.4.packed_bits() + rest)))));
        assert((v.packed_bits() + rest).skip((v.0.packed_bits().len() + v.1.packed_bits().len()) as int) =~= (v.2.packed_bits() + (v.3.packed_bits() + (v.4.packed_bits() + rest))));
        assert((v.packed_bits() + rest).skip((v.0.packed_bits().len() + v.1.packed_bits().len() + v.2.packed_bits().len()) as int) =~= (v.3.packed_bits() + (v.4.packed_bits() + rest)));
        assert((v.packed_bits() + rest).skip((v.0.packed_bits().len() + v.1.packed_bits().len() + v.2.packed_bits().len() + v.3.packed_bits().len()) as int) =~= (v.4.packed_bits() + rest));
        A::lemma_lossless(v.0, (v.1.packed_bits() + (v.2.packed_bits() + (v.3.packed_bits() + (v.4.packed_bits() + rest)))), x.0);
        B::lemma_lossless(v.1, (v.2.packed_bits() + (v.3.packed_bits() + (v.4.packed_bits() + rest))), x.1);
        C::lemma_lossless(v.2, (v.3.packed_bits() + (v.4.packed_bits() + rest)), x.2);
        D::lemma_lossless(v.3, (v.4.packed_bits() + rest), x.3);
        E::lemma_lossless(v.4, rest, x.4);
    }

    proof fn lemma_obeys() {
        A::lemma_obeys();
        B::lemma_obeys();
        C::lemma_obeys();
        D::lemma_obeys();
        E::lemma_obeys();
    }
}

// ---------------------------------------------------------------------------------------------
// Sequences: the length as a `u32`, then every item.

/// The bits of `items` packed one after another.
pub open spec fn seq_packed<T: PackBits>(items: Seq<T>) -> Seq<bool>
    decreases items.len(),
{
    if items.len() == 0 {
        Seq::empty()
    } else {
        seq_packed(items.drop_last()) + items.last().packed_bits()
    }
}

/// The number of bits that `count` values at the front of `bits` take.
pub open spec fn items_len<T: UnpackBits>(bits: Seq<bool>, count: nat) -> Option<nat>
    decreases count,
{
    if count == 0 {
        Some(0)
    } else {
        match T::unpacked_len(bits) {
            Some(n) => match items_len::<T>(bits.skip(n as int), (count - 1) as nat) {
                Some(m) => Some(n + m),
                None => None,
            },
            None => None,
        }
    }
}

/// `bits` end before the `count` values at their front do.
pub open spec fn items_run_out<T: UnpackBits>(bits: Seq<bool>, count: nat) -> bool
    decreases count,
{
    count > 0 && (T::runs_out(bits) || match T::unpacked_len(bits) {
        Some(n) => items_run_out::<T>(bits.skip(n as int), (count - 1) as nat),
        None => false,
    })
}

/// `items` are the values at the front of `bits`, one after another.
pub open spec fn items_unpack_to<T: UnpackBits>(bits: Seq<bool>, items: Seq<T>) -> bool
    decreases items.len(),
{
    items.len() == 0 || (T::unpacks_to(bits, items[0]) && (T::unpacked_len(bits) matches Some(n)
        && items_unpack_to(bits.skip(n as int), items.drop_first())))
}

/// The bytes that `count` packed bytes at the front of `bits` hold.
pub open spec fn bytes_from_bits(bits: Seq<bool>, count: nat) -> Seq<u8>
    decreases count,
{
    if count == 0 {
        Seq::empty()
    } else {
        seq![value_of(bits.take(8)) as u8] + bytes_from_bits(bits.skip(8), (count - 1) as nat)
    }
}

proof fn lemma_items_len_snoc<T: UnpackBits>(bits: Seq<bool>, i: nat, c: nat, n: nat)
    requires
        items_len::<T>(bits, i) == Some(c),
        c <= bits.len(),
        T::unpacked_len(bits.skip(c as int)) == Some(n),
    ensures
        items_len::<T>(bits, i + 1) == Some(c + n),
    decreases i,
{
    if i == 0 {
        assert(bits.skip(0) =~= bits);
        assert(items_len::<T>(bits.skip(n as int), 0) == Some(0nat));
    } else {
        let n0 = T::unpacked_len(bits).unwrap();
        let m = items_len::<T>(bits.skip(n0 as int), (i - 1) as nat).unwrap();
        assert(bits.skip(n0 as int).skip(m as int) =~= bits.skip(c as int));
        lemma_items_len_snoc::<T>(bits.skip(n0 as int), (i - 1) as nat, m, n);
        assert((i + 1 - 1) as nat == ((i - 1) as nat + 1));
    }
}

proof fn lemma_items_len_fails<T: UnpackBits>(bits: Seq<bool>, i: nat, c: nat, j: nat)
    requires
        items_len::<T>(bits, i) == Some(c),
        c <= bits.len(),
        T::unpacked_len(bits.skip(c as int)) is None,
        i < j,
    ensures
        items_len::<T>(bits, j) is None,
    decreases i,
{
    if i == 0 {
        assert(bits.skip(0) =~= bits);
    } else {
        let n0 = T::unpacked_len(bits).unwrap();
        let m = items_len::<T>(bits.skip(n0 as int), (i - 1) as nat).unwrap();
        assert(bits.skip(n0 as int).skip(m as int) =~= bits.skip(c as int));
        lemma_items_len_fails::<T>(bits.skip(n0 as int), (i - 1) as nat, m, (j - 1) as nat);
    }
}

proof fn lemma_items_unpack_to_snoc<T: UnpackBits>(bits: Seq<bool>, items: Seq<T>, c: nat, x: T)
    requires
        items_unpack_to(bits, items),
        items_len::<T>(bits, items.len()) == Some(c),
        c <= bits.len(),
        T::unpacks_to(bits.skip(c as int), x),
        T::unpacked_len(bits.skip(c as int)) is Some,
    ensures
        items_unpack_to(bits, items.push(x)),
    decreases items.len(),
{
    if items.len() == 0 {
        assert(bits.skip(0) =~= bits);
        let n = T::unpacked_len(bits).unwrap();
        assert(items.push(x).drop_first() =~= Seq::<T>::empty());
        assert(items_unpack_to(bits.skip(n as int), Seq::<T>::empty()));
        assert(items.push(x)[0] == x);
    } else {
        assert(items.push(x)[0] == items[0]);
        let n0 = T::unpacked_len(bits).unwrap();
        let m = items_len::<T>(bits.skip(n0 as int), (items.len() - 1) as nat).unwrap();
        assert(bits.skip(n0 as int).skip(m as int) =~= bits.skip(c as int));
        lemma_items_unpack_to_snoc::<T>(bits.skip(n0 as int), items.drop_first(), m, x);
        assert(items.push(x).drop_first() =~= items.drop_first().push(x));
    }
}

proof fn lemma_seq_packed_first<T: PackBits>(items: Seq<T>)
    requires
        items.len() > 0,
    ensures
        seq_packed(items) == items[0].packed_bits() + seq_packed(items.drop_first()),
    decreases items.len(),
{
    if items.len() == 1 {
        assert(items.drop_last() =~= Seq::<T>::empty());
        assert(items.drop_first() =~= Seq::<T>::empty());
        assert(seq_packed(items) =~= items[0].packed_bits() + seq_packed(items.drop_first()));
    } else {
        lemma_seq_packed_first(items.drop_last());
        assert(items.drop_last().drop_first() =~= items.drop_first().drop_last());
        assert(seq_packed(items) =~= items[0].packed_bits() + seq_packed(items.drop_first()));
    }
}

proof fn lemma_items_round_trip<T: RoundTrip>(items: Seq<T>, rest: Seq<bool>)
    requires
        forall|i: int| 0 <= i < items.len() ==> #[trigger] items[i].round_trips(),
    ensures
        items_len::<T>(seq_packed(items) + rest, items.len()) == Some(seq_packed(items).len()),
        items_unpack_to(seq_packed(items) + rest, items),
    decreases items.len(),
{
    if items.len() > 0 {
        lemma_seq_packed_first(items);
        let tail = items.drop_first();
        assert forall|i: int| 0 <= i < tail.len() implies #[trigger] tail[i].round_trips() by {
            assert(tail[i] == items[i + 1]);
        }
        lemma_items_round_trip(tail, rest);
        assert(items[0].round_trips());
        T::lemma_round_trip(items[0], seq_packed(tail) + rest);
        let bits = seq_packed(items) + rest;
        assert(bits =~= items[0].packed_bits() + (seq_packed(tail) + rest));
        assert(bits.skip(items[0].packed_bits().len() as int) =~= seq_packed(tail) + rest);
    }
}

/// Pack the number of items as a `u32`, then every item.
fn pack_items<T: PackBits, W: WriteBits>(items: &[T], writer: &mut W) -> (r: Result<(), W::Error>)
    requires
        old(writer).writer_inv(),
    ensures
        final(writer).writer_inv(),
        final(writer).never_fails() == old(writer).never_fails(),
        old(writer).never_fails() ==> r is Ok,
        T::obeys_pack_spec() && r is Ok ==> final(writer).written() == old(writer).written() + (
        items@.len() as u32).packed_bits() + seq_packed(items@),
{
    let ghost w0 = old(writer).written();
    let len = items.len() as u32;
    match len.pack(writer) {
        Ok(()) => {},
        Err(e) => return Err(e),
    }
    let mut i: usize = 0;
    proof {
        assert(items@.take(0) =~= Seq::<T>::empty());
        assert(writer.written() =~= w0 + len.packed_bits() + seq_packed(items@.take(0)));
    }
    while i < items.len()
        invariant
            writer.writer_inv(),
            writer.never_fails() == old(writer).never_fails(),
            i <= items@.len(),
            len == items@.len() as u32,
            T::obeys_pack_spec() ==> writer.written() == w0 + len.packed_bits() + seq_packed(
                items@.take(i as int),
            ),
        decreases items@.len() - i,
    {
        match items[i].pack(writer) {
            Ok(()) => {},
            Err(e) => return Err(e),
        }
        proof {
            assert(items@.take(i + 1).drop_last() =~= items@.take(i as int));
            assert(items@.take(i + 1).last() == items@[i as int]);
        }
        i = i + 1;
    }
    proof {
        assert(items@.take(i as int) =~= items@);
    }
    Ok(())
}

/// Unpack a `u32` count, then that many items.
fn unpack_items<T: UnpackBits, R: ReadBits>(reader: &mut R) -> (r: Result<Vec<T>, R::Error>)
    requires
        old(reader).reader_inv(),
    ensures
        final(reader).reader_inv(),
        T::obeys_unpack_spec() ==> match vec_unpacked_len::<T>(old(reader).remaining()) {
            Some(n) => n <= old(reader).remaining().len() && (r matches Ok(v) && vec_unpacks_to(
                old(reader).remaining(),
                v@,
            )) && final(reader).remaining() == old(reader).remaining().skip(n as int),
            None => r is Err,
        },
        T::obeys_unpack_spec() && vec_runs_out::<T>(old(reader).remaining()) ==> r is Err,
        T::obeys_unpack_spec() ==> (r matches Err(e) ==> (e.is_eof() <==> vec_runs_out::<T>(
            old(reader).remaining(),
        ))),
{
    let ghost ok = T::obeys_unpack_spec();
    let ghost s = old(reader).remaining();
    let len = match u32::unpack(reader) {
        Ok(l) => l,
        Err(e) => return Err(e),
    };
    let ghost n0 = u32::unpacked_len(s).unwrap();
    let ghost t = s.skip(n0 as int);
    let mut data: Vec<T> = Vec::with_capacity(len as usize);
    let mut i: u32 = 0;
    let ghost mut c: nat = 0;
    proof {
        assert(t.skip(0) =~= t);
    }
    while i < len
        invariant
            reader.reader_inv(),
            i <= len,
            data@.len() == i,
            ok ==> items_len::<T>(t, i as nat) == Some(c),
            ok ==> reader.remaining() == t.skip(c as int),
            ok ==> c <= t.len(),
            ok ==> items_unpack_to(t, data@),
            ok ==> vec_runs_out::<T>(s) == items_run_out::<T>(t.skip(c as int), (len - i) as nat),
            ok == T::obeys_unpack_spec(),
            s == old(reader).remaining(),
            t == s.skip(n0 as int),
            n0 <= s.len(),
            vlq_decode(s, 2) == Some((len as nat, n0)),
        decreases len - i,
    {
        let ghost before = reader.remaining();
        let item = match T::unpack(reader) {
            Ok(v) => v,
            Err(e) => {
                proof {
                    if ok {
                        lemma_items_len_fails::<T>(t, i as nat, c, len as nat);
                    }
                }
                return Err(e);
            },
        };
        proof {
            if ok {
                let n = T::unpacked_len(before).unwrap();
                lemma_items_len_snoc::<T>(t, i as nat, c, n);
                lemma_items_unpack_to_snoc::<T>(t, data@, c, item);
                assert(t.skip(c as int).skip(n as int) =~= t.skip((c + n) as int));
                c = c + n;
            }
        }
        data.push(item);
        i = i + 1;
    }
    proof {
        if ok {
            assert(s.skip(n0 as int).skip(c as int) =~= s.skip((n0 + c) as int));
        }
    }
    Ok(data)
}

/// The number of bits a packed sequence at the front of `bits` takes.
pub open spec fn vec_unpacked_len<T: UnpackBits>(bits: Seq<bool>) -> Option<nat> {
    match vlq_decode(bits, 2) {
        Some((len, n)) => match items_len::<T>(bits.skip(n as int), len) {
            Some(m) => Some(n + m),
            None => None,
        },
        None => None,
    }
}

/// `bits` end before the packed sequence at their front does.
pub open spec fn vec_runs_out<T: UnpackBits>(bits: Seq<bool>) -> bool {
    match vlq_decode(bits, 2) {
        Some((len, n)) => items_run_out::<T>(bits.skip(n as int), len),
        None => true,
    }
}

/// `items` is the packed sequence at the front of `bits`.
pub open spec fn vec_unpacks_to<T: UnpackBits>(bits: Seq<bool>, items: Seq<T>) -> bool {
    vlq_decode(bits, 2) matches Some((len, n)) && items.len() == len && items_unpack_to(
        bits.skip(n as int),
        items,
    )
}

impl<T: PackBits> PackBits for [T] {
    open spec fn obeys_pack_spec() -> bool {
        T::obeys_pack_spec()
    }

    open spec fn packed_bits(&self) -> Seq<bool> {
        (self@.len() as u32).packed_bits() + seq_packed(self@)
    }

    fn pack<W: WriteBits>(&self, writer: &mut W) -> (r: Result<(), W::Error>) {
        pack_items(self, writer)
    }
}

impl<T: PackBits> PackBits for Vec<T> {
    open spec fn obeys_pack_spec() -> bool {
        T::obeys_pack_spec()
    }

    open spec fn packed_bits(&self) -> Seq<bool> {
        (self@.len() as u32).packed_bits() + seq_packed(self@)
    }

    fn pack<W: WriteBits>(&self, writer: &mut W) -> (r: Result<(), W::Error>) {
        pack_items(self.as_slice(), writer)
    }
}

impl<T: UnpackBits> UnpackBits for Vec<T> {
    open spec fn obeys_unpack_spec() -> bool {
        T::obeys_unpack_spec()
    }

    open spec fn unpacked_len(bits: Seq<bool>) -> Option<nat> {
        vec_unpacked_len::<T>(bits)
    }

    open spec fn unpacks_to(bits: Seq<bool>, v: Vec<T>) -> bool {
        vec_unpacks_to(bits, v@)
    }

    open spec fn runs_out(bits: Seq<bool>) -> bool {
        vec_runs_out::<T>(bits)
    }

    fn unpack<R: ReadBits>(reader: &mut R) -> (r: Result<Vec<T>, R::Error>) {
        unpack_items(reader)
    }
}

impl<T: RoundTrip> RoundTrip for Vec<T> {
    open spec fn round_trips(&self) -> bool {
        &&& self@.len() <= u32::MAX
        &&& forall|i: int| 0 <= i < self@.len() ==> #[trigger] self@[i].round_trips()
    }

    proof fn lemma_round_trip(v: Vec<T>, rest: Seq<bool>) {
        let len = v@.len() as u32;
        let bits = v.packed_bits() + rest;
        u32::lemma_round_trip(len, seq_packed(v@) + rest);
        assert(bits =~= len.packed_bits() + (seq_packed(v@) + rest));
        assert(bits.skip(len.packed_bits().len() as int) =~= seq_packed(v@) + rest);
        lemma_items_round_trip(v@, rest);
    }
}

// ---------------------------------------------------------------------------------------------
// Strings: their UTF-8 bytes, packed as a sequence.

/// `String::from_utf8`, with the error replaced by its message.
///
/// Trusted: the standard library accepts exactly the bytes that are valid UTF-8 and keeps
/// the characters they encode.
#[verifier::external_body]
fn string_from_utf8(bytes: Vec<u8>) -> (r: Result<String, String>)
    ensures
        r is Ok <==> valid_utf8(bytes@),
        r matches Ok(s) ==> s@ == decode_utf8(bytes@),
{
    match String::from_utf8(bytes) {
        Ok(s) => Ok(s),
        Err(e) => Err(e.to_string()),
    }
}

/// The bytes of the packed sequence of bytes at the front of `bits`.
pub open spec fn packed_bytes(bits: Seq<bool>) -> Seq<u8> {
    match vlq_decode(bits, 2) {
        Some((len, n)) => bytes_from_bits(bits.skip(n as int), len),
        None => Seq::empty(),
    }
}

proof fn lemma_bytes_unpack_to(bits: Seq<bool>, items: Seq<u8>)
    requires
        items_unpack_to(bits, items),
    ensures
        items == bytes_from_bits(bits, items.len()),
    decreases items.len(),
{
    if items.len() > 0 {
        lemma_bytes_unpack_to(bits.skip(8), items.drop_first());
        lemma2_to64();
        lemma_value_of_bound(bits.take(8));
        assert(items =~= bytes_from_bits(bits, items.len()));
    }
}

impl PackBits for String {
    open spec fn obeys_pack_spec() -> bool {
        true
    }

    open spec fn packed_bits(&self) -> Seq<bool> {
        (encode_utf8(self@).len() as u32).packed_bits() + seq_packed(encode_utf8(self@))
    }

    fn pack<W: WriteBits>(&self, writer: &mut W) -> (r: Result<(), W::Error>) {
        pack_items(self.as_str().as_bytes(), writer)
    }
}

impl UnpackBits for String {
    open spec fn obeys_unpack_spec() -> bool {
        true
    }

    open spec fn unpacked_len(bits: Seq<bool>) -> Option<nat> {
        match vec_unpacked_len::<u8>(bits) {
            Some(n) => if valid_utf8(packed_bytes(bits)) {
                Some(n)
            } else {
                None
            },
            None => None,
        }
    }

    open spec fn unpacks_to(bits: Seq<bool>, v: String) -> bool {
        v@ == decode_utf8(packed_bytes(bits))
    }

    open spec fn runs_out(bits: Seq<bool>) -> bool {
        vec_runs_out::<u8>(bits)
    }

    fn unpack<R: ReadBits>(reader: &mut R) -> (r: Result<String, R::Error>) {
        let ghost s = old(reader).remaining();
        let bytes = match unpack_items::<u8, R>(reader) {
            Ok(b) => b,
            Err(e) => return Err(e),
        };
        proof {
            lemma_bytes_unpack_to(s.skip(vlq_decode(s, 2).unwrap().1 as int), bytes@);
        }
        match string_from_utf8(bytes) {
            Ok(text) => Ok(text),
            Err(msg) => Err(<R::Error as crate::read::Error>::custom(msg)),
        }
    }
}

impl RoundTrip for String {
    open spec fn round_trips(&self) -> bool {
        encode_utf8(self@).len() <= u32::MAX
    }

    proof fn lemma_round_trip(v: String, rest: Seq<bool>) {
        let bytes = encode_utf8(v@);
        let len = bytes.len() as u32;
        let bits = v.packed_bits() + rest;
        u32::lemma_round_trip(len, seq_packed(bytes) + rest);
        assert(bits =~= len.packed_bits() + (seq_packed(bytes) + rest));
        assert(bits.skip(len.packed_bits().len() as int) =~= seq_packed(bytes) + rest);
        lemma_items_round_trip(bytes, rest);
        lemma_bytes_unpack_to(seq_packed(bytes) + rest, bytes);
        encode_utf8_valid_utf8(v@);
        encode_utf8_decode_utf8(v@);
    }
}


/// Items that each unpack exactly come back exactly from their packed bits.
proof fn lemma_items_lossless<T: Lossless>(items: Seq<T>, rest: Seq<bool>, ys: Seq<T>)
    requires
        forall|i: int| 0 <= i < items.len() ==> #[trigger] items[i].round_trips(),
        ys.len() == items.len(),
        items_unpack_to(seq_packed(items) + rest, ys),
    ensures
        ys == items,
    decreases items.len(),
{
    if items.len() > 0 {
        lemma_seq_packed_first(items);
        let tail = items.drop_first();
        let bits = seq_packed(items) + rest;
        assert(items[0].round_trips());
        assert(bits =~= items[0].packed_bits() + (seq_packed(tail) + rest));
        T::lemma_round_trip(items[0], seq_packed(tail) + rest);
        T::lemma_lossless(items[0], seq_packed(tail) + rest, ys[0]);
        assert(bits.skip(items[0].packed_bits().len() as int) =~= seq_packed(tail) + rest);
        assert forall|i: int| 0 <= i < tail.len() implies #[trigger] tail[i].round_trips() by {
            assert(tail[i] == items[i + 1]);
        }
        lemma_items_lossless(tail, rest, ys.drop_first());
        assert(ys =~= items) by {
            assert forall|i: int| 0 <= i < ys.len() implies ys[i] == items[i] by {
                if i > 0 {
                    assert(ys[i] == ys.drop_first()[i - 1]);
                    assert(items[i] == tail[i - 1]);
                }
            }
        }
    } else {
        assert(ys =~= items);
    }
}

/// A packed sequence of items that each unpack exactly comes back with the same items, in the
/// same order.
pub proof fn lemma_vec_lossless<T: Lossless>(v: Vec<T>, rest: Seq<bool>, x: Vec<T>)
    requires
        v.round_trips(),
        <Vec<T> as UnpackBits>::unpacks_to(v.packed_bits() + rest, x),
    ensures
        x@ == v@,
{
    let len = v@.len() as u32;
    let bits = v.packed_bits() + rest;
    u32::lemma_round_trip(len, seq_packed(v@) + rest);
    assert(bits =~= len.packed_bits() + (seq_packed(v@) + rest));
    assert(bits.skip(len.packed_bits().len() as int) =~= seq_packed(v@) + rest);
    lemma_items_lossless(v@, rest, x@);
}

/// Packed text comes back as the same characters.
pub proof fn lemma_string_lossless(v: String, rest: Seq<bool>, x: String)
    requires
        v.round_trips(),
        <String as UnpackBits>::unpacks_to(v.packed_bits() + rest, x),
    ensures
        x@ == v@,
{
    String::lemma_round_trip(v, rest);
}

} // verus!
