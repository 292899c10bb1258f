//! Reading bit streams.
use vstd::prelude::*;
use vstd::arithmetic::power2::{pow2, lemma2_to64, lemma_pow2_pos, lemma_pow2_adds, lemma_pow2_strictly_increases};
use vstd::bits::{lemma_u64_shl_is_mul, lemma_u64_pow2_no_overflow};
use crate::bits::{
    bits_of, bytes_bits, value_of, lemma_bits_of_split, lemma_bits_of_len, lemma_bytes_bits_len,
    lemma_bytes_bits_first, lemma_bits_of_append, lemma_append_bound, lemma_div_lt,
    lemma_value_of_bits, lemma_small_mod_nat,
};
use crate::write::clamp32;

verus! {

/// Errors that a bit source can report.
pub trait Error: Sized {
    /// The error says that the bits ran out.
    spec fn is_eof(&self) -> bool;

    /// An error carrying a message; it does not say that the bits ran out.
    fn custom(msg: String) -> (e: Self)
        ensures
            !e.is_eof(),
    ;
}

/// A source of bits.
pub trait ReadBits {
    type Error: Error;

    /// The bits that have not been read yet, in order.
    spec fn remaining(&self) -> Seq<bool>;

    /// The source's own well-formedness.
    spec fn reader_inv(&self) -> bool;

    /// Read the next `count` bits (at most 32), the first one read becoming the least
    /// significant bit of the result. Fails, consuming nothing and saying that the bits ran
    /// out, when fewer bits remain.
    fn read(&mut self, count: u8) -> (r: Result<u32, Self::Error>)
        requires
            old(self).reader_inv(),
        ensures
            final(self).reader_inv(),
            r matches Err(e) ==> e.is_eof(),
            r is Ok <==> clamp32(count) <= old(self).remaining().len(),
            r matches Ok(v) ==> v == value_of(old(self).remaining().take(clamp32(count) as int))
                && final(self).remaining() == old(self).remaining().skip(clamp32(count) as int),
            r is Err ==> final(self).remaining() == old(self).remaining(),
    ;
}

/// Reads bits from a byte slice, each byte least significant bit first.
pub struct BitReader<'a> {
    bytes: &'a [u8],
    buffer: u64,
    len: u8,
}

impl<'a> BitReader<'a> {
    /// A reader positioned at the first bit of `bytes`.
    pub fn new(bytes: &'a [u8]) -> (r: BitReader<'a>)
        ensures
            r.reader_inv(),
            r.remaining() == bytes_bits(bytes@),
    {
        let r = BitReader { bytes, buffer: 0, len: 0 };
        proof {
            lemma2_to64();
            assert(r.remaining() =~= bytes_bits(bytes@));
        }
        r
    }

    /// Move as many whole bytes as fit from the slice into the buffer.
    fn refill_buffer(&mut self)
        requires
            old(self).reader_inv(),
        ensures
            final(self).reader_inv(),
            final(self).remaining() == old(self).remaining(),
            final(self).len >= old(self).len,
            old(self).len < 32 ==> final(self).len >= 32 || final(self).bytes@.len() == 0,
    {
        let space = (64 - self.len) / 8;
        let available = if self.bytes.len() < space as usize { self.bytes.len() } else { space as usize };
        let ghost total = self.remaining();
        let mut i: usize = 0;
        proof {
            assert(self.bytes@.skip(0) =~= self.bytes@);
        }
        while i < available
            invariant
                i <= available,
                available <= self.bytes@.len(),
                self.len + 8 * (available - i) <= 64,
                self.buffer < pow2(self.len as nat),
                bits_of(self.buffer as nat, self.len as nat) + bytes_bits(self.bytes@.skip(i as int)) == total,
                self.len == old(self).len + 8 * i,
                self.bytes == old(self).bytes,
            decreases available - i,
        {
            let byte = self.bytes[i];
            proof {
                lemma2_to64();
                lemma_u64_pow2_no_overflow(self.len as nat);
                lemma_u64_shl_is_mul(1, self.len as u64);
                lemma_append_bound(self.buffer as nat, self.len as nat, byte as nat, 8);
                if self.len + 8 < 64 {
                    lemma_pow2_strictly_increases((self.len + 8) as nat, 64);
                }
                lemma_pow2_adds(self.len as nat, 8);
                lemma_bits_of_append(self.buffer as nat, self.len as nat, byte as nat, 8);
                lemma_bytes_bits_first(self.bytes@.skip(i as int));
                assert(self.bytes@.skip(i as int).drop_first() =~= self.bytes@.skip(i + 1));
                lemma_small_mod_nat(byte as nat, pow2(8));
                crate::bits::lemma_bits_of_mod(byte as nat, 8);
            }
            let scale: u64 = 1u64 << (self.len as u64);
            proof {
                vstd::arithmetic::mul::lemma_mul_is_commutative(byte as int, scale as int);
            }
            self.buffer = self.buffer + (byte as u64) * scale;
            self.len = self.len + 8;
            i = i + 1;
        }
        let (_, rest) = self.bytes.split_at(available);
        self.bytes = rest;
        proof {
            assert(rest@ =~= old(self).bytes@.skip(available as int));
        }
    }
}

impl Error for crate::rabbit::Error {
    open spec fn is_eof(&self) -> bool {
        *self is Eof
    }

    fn custom(msg: String) -> (e: crate::rabbit::Error)
        ensures
            e == crate::rabbit::Error::Message(msg),
    {
        crate::rabbit::Error::Message(msg)
    }
}

impl<'a> ReadBits for BitReader<'a> {
    type Error = crate::rabbit::Error;

    closed spec fn remaining(&self) -> Seq<bool> {
        bits_of(self.buffer as nat, self.len as nat) + bytes_bits(self.bytes@)
    }

    closed spec fn reader_inv(&self) -> bool {
        self.len <= 64 && self.buffer < pow2(self.len as nat)
    }

    fn read(&mut self, count: u8) -> (r: Result<u32, crate::rabbit::Error>)
        ensures
            r matches Err(e) ==> e is Eof,
    {
        let count = if count < 32 { count } else { 32 };
        if count > self.len {
            self.refill_buffer();
        }
        proof {
            lemma_bits_of_len(self.buffer as nat, self.len as nat);
            lemma_bytes_bits_len(self.bytes@);
        }
        if count > self.len {
            Err(crate::rabbit::Error::Eof)
        } else {
            let ghost b = self.buffer as nat;
            let ghost l = self.len as nat;
            proof {
                lemma2_to64();
                lemma_u64_pow2_no_overflow(count as nat);
                lemma_u64_shl_is_mul(1, count as u64);
                lemma_pow2_pos(count as nat);
                lemma_pow2_strictly_increases(count as nat, 33);
            }
            let scale: u64 = 1u64 << (count as u64);
            let bits = (self.buffer % scale) as u32;
            self.buffer = self.buffer / scale;
            self.len = self.len - count;
            proof {
                let rest = (l - count) as nat;
                lemma_bits_of_split(b, count as nat, rest);
                assert(count as nat + rest == l);
                lemma_bits_of_len(b, count as nat);
                let total = bits_of(b, l) + bytes_bits(self.bytes@);
                assert(total.take(count as int) =~= bits_of(b, count as nat));
                assert(total.skip(count as int) =~= bits_of(b / pow2(count as nat), rest) + bytes_bits(self.bytes@));
                lemma_value_of_bits(b, count as nat);
                lemma_pow2_adds(count as nat, rest);
                lemma_div_lt(b, pow2(count as nat), pow2(rest));
            }
            Ok(bits)
        }
    }
}


/// The bits that writing each `(bits, count)` of `writes` in turn appends.
pub open spec fn written_bits(writes: Seq<(u32, u8)>) -> Seq<bool>
    decreases writes.len(),
{
    if writes.len() == 0 {
        Seq::empty()
    } else {
        bits_of(writes[0].0 as nat, clamp32(writes[0].1)) + written_bits(writes.drop_first())
    }
}

/// What reading `counts` bits in turn from the front of `s` returns, as long as the bits last.
pub open spec fn reads_of(s: Seq<bool>, counts: Seq<u8>) -> Seq<nat>
    decreases counts.len(),
{
    if counts.len() == 0 || s.len() < clamp32(counts[0]) {
        Seq::empty()
    } else {
        seq![value_of(s.take(clamp32(counts[0]) as int))] + reads_of(
            s.skip(clamp32(counts[0]) as int),
            counts.drop_first(),
        )
    }
}

/// The mask of the low `count` bits of a `u32`: none for 0, all for 32 or more.
pub open spec fn low_mask(count: u8) -> u32 {
    if count == 0 {
        0
    } else if count >= 32 {
        0xffff_ffff
    } else {
        (0xffff_ffffu32 >> ((32 - count) as u32)) as u32
    }
}

/// The low `count` bits of `bits` are `bits & low_mask(count)`.
pub proof fn lemma_low_mask(bits: u32, count: u8)
    ensures
        bits as nat % pow2(clamp32(count)) == (bits & low_mask(count)) as nat,
{
    lemma2_to64();
    if count == 0 {
        assert(bits & 0u32 == 0u32) by (bit_vector);
    } else if count >= 32 {
        assert(bits & 0xffff_ffffu32 == bits) by (bit_vector);
        lemma_small_mod_nat(bits as nat, pow2(32));
    } else {
        let c = count as u32;
        let d = (32 - c) as u32;
        let q = bits >> c;
        assert(bits & (0xffff_ffffu32 >> d) == bits - (q << c) && (q << c) <= bits) by (bit_vector)
            requires
                1 <= c < 32,
                d == 32 - c,
                q == bits >> c,
        ;
        vstd::bits::lemma_u32_shr_is_div(bits, c);
        vstd::bits::lemma_u32_pow2_no_overflow(c as nat);
        lemma_pow2_pos(c as nat);
        vstd::arithmetic::div_mod::lemma_fundamental_div_mod(bits as int, pow2(c as nat) as int);
        assert(q as nat * pow2(c as nat) <= bits) by {
            vstd::arithmetic::div_mod::lemma_fundamental_div_mod(bits as int, pow2(c as nat) as int);
            vstd::arithmetic::mul::lemma_mul_is_commutative(q as int, pow2(c as nat) as int);
        }
        vstd::bits::lemma_u32_shl_is_mul(q, c);
        vstd::arithmetic::mul::lemma_mul_is_commutative(q as int, pow2(c as nat) as int);
    }
}

/// Reading back what was written, whatever follows: each read of a written count returns the
/// low bits of the value written, in the order they were written.
pub proof fn lemma_reads_back(writes: Seq<(u32, u8)>, rest: Seq<bool>)
    ensures
        reads_of(written_bits(writes) + rest, writes.map_values(|w: (u32, u8)| w.1)) == writes.map_values(
            |w: (u32, u8)| (w.0 & low_mask(w.1)) as nat,
        ),
    decreases writes.len(),
{
    let counts = writes.map_values(|w: (u32, u8)| w.1);
    let values = writes.map_values(|w: (u32, u8)| (w.0 & low_mask(w.1)) as nat);
    if writes.len() == 0 {
        assert(values =~= Seq::<nat>::empty());
    } else {
        let (b, c) = writes[0];
        let n = clamp32(c);
        let tail = writes.drop_first();
        lemma_reads_back(tail, rest);
        let s = written_bits(writes) + rest;
        lemma_bits_of_len(b as nat, n);
        assert(s =~= bits_of(b as nat, n) + (written_bits(tail) + rest));
        assert(s.take(n as int) =~= bits_of(b as nat, n));
        assert(s.skip(n as int) =~= written_bits(tail) + rest);
        lemma_value_of_bits(b as nat, n);
        lemma_low_mask(b, c);
        assert(counts.drop_first() =~= tail.map_values(|w: (u32, u8)| w.1));
        assert(values =~= seq![values[0]] + tail.map_values(|w: (u32, u8)| (w.0 & low_mask(w.1)) as nat));
    }
}

/// Bit `j` of bytes read least significant bit first is bit `j % 8` of byte `j / 8`.
pub proof fn lemma_bytes_bits_index(bytes: Seq<u8>, j: int)
    requires
        0 <= j < 8 * bytes.len(),
    ensures
        bytes_bits(bytes)[j] == ((bytes[j / 8] >> (j % 8) as u8) & 1 == 1),
    decreases bytes.len(),
{
    lemma_bytes_bits_first(bytes);
    let b = bytes[0];
    lemma_bits_of_len(b as nat, 8);
    lemma_bytes_bits_len(bytes.drop_first());
    if j < 8 {
        lemma_bit_of_byte(b, j as nat);
    } else {
        lemma_bytes_bits_index(bytes.drop_first(), j - 8);
        assert(bytes.drop_first()[(j - 8) / 8] == bytes[j / 8]);
        assert((j - 8) % 8 == j % 8);
    }
}

proof fn lemma_bit_of_byte(b: u8, i: nat)
    requires
        i < 8,
    ensures
        bits_of(b as nat, 8)[i as int] == ((b >> i as u8) & 1 == 1),
{
    lemma2_to64();
    lemma_bits_of_bit(b as nat, 8, i);
    let k = i as u8;
    assert((b >> k) & 1 == ((b >> k) % 2)) by (bit_vector);
    vstd::bits::lemma_u8_shr_is_div(b, k);
    vstd::bits::lemma_u8_pow2_no_overflow(k as nat);
}

proof fn lemma_bits_of_bit(v: nat, n: nat, i: nat)
    requires
        i < n,
    ensures
        bits_of(v, n)[i as int] == ((v / pow2(i)) % 2 == 1),
    decreases n,
{
    lemma2_to64();
    lemma_bits_of_len(v / 2, (n - 1) as nat);
    assert(bits_of(v, n) == seq![v % 2 == 1] + bits_of(v / 2, (n - 1) as nat));
    if i > 0 {
        lemma_bits_of_bit(v / 2, (n - 1) as nat, (i - 1) as nat);
        assert(bits_of(v, n)[i as int] == bits_of(v / 2, (n - 1) as nat)[i - 1]);
        vstd::arithmetic::power2::lemma_pow2_unfold(i);
        lemma_pow2_pos((i - 1) as nat);
        vstd::arithmetic::div_mod::lemma_div_denominator(v as int, 2, pow2((i - 1) as nat) as int);
        assert(pow2(i) == 2 * pow2((i - 1) as nat));
        assert(v / pow2(i) == (v / 2) / pow2((i - 1) as nat));
    } else {
        assert(v / pow2(0) == v);
    }
}

/// What `BitWriter::finish` returns, byte by byte: bit `j % 8` of byte `j / 8` is the `j`-th bit
/// written, and every bit after the written ones is zero.
pub proof fn lemma_finished_bytes(bytes: Seq<u8>, written: Seq<bool>)
    requires
        8 * bytes.len() >= written.len(),
        bytes_bits(bytes) == written + bits_of(0, (8 * bytes.len() - written.len()) as nat),
    ensures
        forall|j: int| 0 <= j < written.len() ==> ((#[trigger] bytes[j / 8] >> (j % 8) as u8) & 1 == 1) == written[j],
        forall|j: int| written.len() <= j < 8 * bytes.len() ==> (#[trigger] bytes[j / 8] >> (j % 8) as u8) & 1 == 0,
{
    let pad = (8 * bytes.len() - written.len()) as nat;
    assert forall|j: int| 0 <= j < written.len() implies ((#[trigger] bytes[j / 8] >> (j % 8) as u8) & 1 == 1)
        == written[j] by {
        lemma_bytes_bits_index(bytes, j);
    }
    assert forall|j: int| written.len() <= j < 8 * bytes.len() implies (#[trigger] bytes[j / 8] >> (j % 8) as u8)
        & 1 == 0 by {
        lemma_bytes_bits_index(bytes, j);
        let i = (j - written.len()) as nat;
        lemma_bits_of_bit(0, pad, i);
        lemma_bits_of_len(0, pad);
        lemma_pow2_pos(i);
        assert(0nat / pow2(i) == 0);
        assert(bytes_bits(bytes)[j] == bits_of(0, pad)[i as int]);
        let byte = bytes[j / 8];
        let sh = (j % 8) as u8;
        let x = (byte >> sh) & 1;
        assert(x == 0 || x == 1) by (bit_vector)
            requires
                x == (byte >> sh) & 1,
        ;
    }
}

} // verus!
