//! The byte form of the handshake messages: each is a single big-endian `u32`.
use vstd::prelude::*;

verus! {

/// What reading a handshake message can fail with.
#[derive(Debug, Clone)]
pub enum Error {
    /// The packet ended before the value did.
    Eof,
}

/// The four bytes of `value`, most significant first.
pub open spec fn u32_be_bytes(value: u32) -> Seq<u8> {
    seq![
        (value / 0x100_0000) as u8,
        (value / 0x1_0000 % 0x100) as u8,
        (value / 0x100 % 0x100) as u8,
        (value % 0x100) as u8,
    ]
}

/// The `u32` whose big-endian bytes start `bytes`.
pub open spec fn u32_from_be(bytes: Seq<u8>) -> u32 {
    (bytes[0] * 0x100_0000 + bytes[1] * 0x1_0000 + bytes[2] * 0x100 + bytes[3]) as u32
}

/// A value that can be read from a raw packet.
pub trait FromRawPacket: Sized {
    /// The value that a packet holds, or `None` when it is too short to hold one.
    spec fn from_packet(bytes: Seq<u8>) -> Option<Self>;

    /// Read the value at the front of a packet; bytes after it are ignored.
    fn deserialize(bytes: &[u8]) -> (r: Result<Self, Error>)
        ensures
            match Self::from_packet(bytes@) {
                Some(v) => r == Ok::<Self, Error>(v),
                None => r is Err,
            },
    ;
}

/// A value that can be written as a raw packet.
pub trait IntoRawPacket: Sized {
    /// The bytes of the packet that holds the value.
    spec fn packet_bytes(&self) -> Seq<u8>;

    /// Write the value as a packet.
    fn serialize(&self) -> (r: Vec<u8>)
        ensures
            r@ == self.packet_bytes(),
    ;
}

/// Read a big-endian `u32` from the front of `bytes`, and return the bytes after it.
pub fn read_u32(bytes: &[u8]) -> (r: Result<(u32, &[u8]), Error>)
    ensures
        bytes@.len() < 4 <==> r is Err,
        r matches Ok((value, rest)) ==> value == u32_from_be(bytes@) && rest@ == bytes@.skip(4),
{
    if bytes.len() < 4 {
        Err(Error::Eof)
    } else {
        let (prefix, suffix) = bytes.split_at(4);
        let value = (prefix[0] as u32) * 0x100_0000 + (prefix[1] as u32) * 0x1_0000 + (prefix[2] as u32)
            * 0x100 + prefix[3] as u32;
        Ok((value, suffix))
    }
}

/// Append the big-endian bytes of `value`.
pub fn write_u32(bytes: &mut Vec<u8>, value: u32)
    ensures
        final(bytes)@ == old(bytes)@ + u32_be_bytes(value),
{
    bytes.push((value / 0x100_0000) as u8);
    bytes.push((value / 0x1_0000 % 0x100) as u8);
    bytes.push((value / 0x100 % 0x100) as u8);
    bytes.push((value % 0x100) as u8);
    proof {
        assert(bytes@ =~= old(bytes)@ + u32_be_bytes(value));
    }
}

/// A written `u32` is read back, whatever follows it.
pub proof fn lemma_u32_round_trip(value: u32, rest: Seq<u8>)
    ensures
        (u32_be_bytes(value) + rest).len() >= 4,
        u32_from_be(u32_be_bytes(value) + rest) == value,
        (u32_be_bytes(value) + rest).skip(4) == rest,
{
    let b = u32_be_bytes(value) + rest;
    assert(b[0] == (value / 0x100_0000) as u8);
    assert(b[1] == (value / 0x1_0000 % 0x100) as u8);
    assert(b[2] == (value / 0x100 % 0x100) as u8);
    assert(b[3] == (value % 0x100) as u8);
    assert(b.skip(4) =~= rest);
}

} // verus!
