//! Packing the variant of an enum: its index, in just enough bits to number every variant.
use vstd::prelude::*;
use vstd::arithmetic::power2::{pow2, lemma2_to64, lemma_pow2_unfold};
use crate::bits::{bits_of, value_of, lemma_bits_of_len, lemma_value_of_bits_small};
use crate::write::WriteBits;
use crate::read::{ReadBits, Error};

verus! {

/// The number of bits that the index of a variant takes in an enum of `count` variants: the
/// bit length of the largest index.
pub open spec fn index_bits(count: nat) -> nat
    decreases count,
{
    if count <= 1 {
        0
    } else {
        1 + index_bits(((count + 1) / 2) as nat)
    }
}

/// Every index of an enum of `count` variants fits in `index_bits(count)` bits, and an enum
/// numbered by `k` bits needs at most `k`.
pub proof fn lemma_index_bits_fit(count: nat, k: nat)
    requires
        1 <= count <= pow2(k),
    ensures
        count <= pow2(index_bits(count)),
        index_bits(count) <= k,
    decreases count,
{
    if count > 1 {
        let half = ((count + 1) / 2) as nat;
        assert(k > 0) by {
            if k == 0 {
                lemma2_to64();
            }
        }
        lemma_pow2_unfold(k);
        lemma_index_bits_fit(half, (k - 1) as nat);
        lemma_pow2_unfold(index_bits(count));
    } else {
        lemma2_to64();
    }
}

/// The number of bits that a variant index takes in an enum of `count` variants.
pub fn variant_index_bits(count: u32) -> (b: u8)
    requires
        count >= 1,
    ensures
        b == index_bits(count as nat),
        b <= 32,
{
    proof {
        lemma2_to64();
        lemma_index_bits_fit(count as nat, 32);
    }
    let mut c: u32 = count;
    let mut b: u8 = 0;
    while c > 1
        invariant
            1 <= c,
            b + index_bits(c as nat) == index_bits(count as nat),
            index_bits(count as nat) <= 32,
        decreases c,
    {
        c = c / 2 + c % 2;
        b = b + 1;
    }
    b
}

/// The number of bits that a variant index takes in an enum of `count` variants, or `None` for
/// an enum without variants, which has no index to pack.
pub fn checked_variant_index_bits(count: u32) -> (r: Option<u8>)
    ensures
        count == 0 <==> r is None,
        r matches Some(b) ==> b == index_bits(count as nat) && b <= 32,
{
    if count == 0 {
        None
    } else {
        Some(variant_index_bits(count))
    }
}

/// `format!("unknown variant index: {}", index)`.
///
/// Trusted only to return; nothing is stated of the message.
#[verifier::external_body]
fn unknown_variant_message(index: u32) -> String {
    format!("unknown variant index: {}", index)
}

/// Write the index of a variant of an enum with `count` variants.
pub fn pack_variant<W: WriteBits>(index: u32, count: u32, writer: &mut W) -> (r: Result<(), W::Error>)
    requires
        old(writer).writer_inv(),
        index < count,
    ensures
        final(writer).writer_inv(),
        final(writer).never_fails() == old(writer).never_fails(),
        old(writer).never_fails() ==> r is Ok,
        r is Ok ==> final(writer).written() == old(writer).written() + bits_of(index as nat, index_bits(count as nat)),
{
    let bits = variant_index_bits(count);
    writer.write(index, bits)
}

/// The variant index at the front of `bits` in an enum of `count` variants, if the bits hold a
/// valid one.
pub open spec fn variant_at(bits: Seq<bool>, count: nat) -> Option<nat> {
    let b = index_bits(count);
    if b <= bits.len() && value_of(bits.take(b as int)) < count {
        Some(value_of(bits.take(b as int)))
    } else {
        None
    }
}

/// Read the index of a variant of an enum with `count` variants. An index beyond the last
/// variant is refused with a message; too few bits are refused as running out.
pub fn unpack_variant<R: ReadBits>(count: u32, reader: &mut R) -> (r: Result<u32, R::Error>)
    requires
        old(reader).reader_inv(),
        count >= 1,
    ensures
        final(reader).reader_inv(),
        old(reader).remaining().len() < index_bits(count as nat) ==> r is Err,
        r matches Err(e) ==> (e.is_eof() <==> old(reader).remaining().len() < index_bits(count as nat)),
        match variant_at(old(reader).remaining(), count as nat) {
            Some(index) => r == Ok::<u32, R::Error>(index as u32) && final(reader).remaining() == old(reader).remaining().skip(
                index_bits(count as nat) as int,
            ),
            None => r is Err,
        },
{
    let bits = variant_index_bits(count);
    let index = match reader.read(bits) {
        Ok(index) => index,
        Err(e) => return Err(e),
    };
    if index >= count {
        Err(R::Error::custom(unknown_variant_message(index)))
    } else {
        Ok(index)
    }
}

/// A written variant index is read back, whatever follows it.
pub proof fn lemma_variant_round_trip(index: nat, count: nat, rest: Seq<bool>)
    requires
        index < count <= pow2(32),
    ensures
        variant_at(bits_of(index, index_bits(count)) + rest, count) == Some(index),
        (bits_of(index, index_bits(count)) + rest).skip(index_bits(count) as int) == rest,
{
    let b = index_bits(count);
    lemma_index_bits_fit(count, 32);
    lemma_bits_of_len(index, b);
    let s = bits_of(index, b) + rest;
    assert(s.take(b as int) =~= bits_of(index, b));
    assert(s.skip(b as int) =~= rest);
    lemma_value_of_bits_small(index, b);
}

} // verus!
