//! Writing bit streams.
use vstd::prelude::*;
use vstd::arithmetic::power2::{pow2, lemma2_to64, lemma_pow2_pos, lemma_pow2_adds, lemma_pow2_strictly_increases};
use vstd::bits::{lemma_u32_shl_is_mul, lemma_u64_shl_is_mul, lemma_u64_pow2_no_overflow};
use crate::bits::{lemma_append_bound, lemma_div_lt, lemma_div_small, bits_of, bytes_bits, lemma_bits_of_split, lemma_bits_of_mod, lemma_small_mod_nat, lemma_bytes_bits_len, lemma_bits_of_len, lemma_bits_of_append};

verus! {

/// Errors that a bit sink can report.
pub trait Error: Sized {
    /// An error carrying a message.
    fn custom(msg: String) -> Self;
}

/// A sink of bits.
pub trait WriteBits {
    type Error: Error;

    /// Every bit written so far, in order.
    spec fn written(&self) -> Seq<bool>;

    /// The sink's own well-formedness.
    spec fn writer_inv(&self) -> bool;

    /// The sink accepts every write; a sink that may refuse one, say when it is full, is not of
    /// this kind.
    spec fn never_fails(&self) -> bool;

    /// Write `count` bits, starting with the least significant bit (LSB). At most 32 bits are
    /// written; bits of `bits` above `count` are ignored.
    fn write(&mut self, bits: u32, count: u8) -> (r: Result<(), Self::Error>)
        requires
            old(self).writer_inv(),
        ensures
            final(self).writer_inv(),
            final(self).never_fails() == old(self).never_fails(),
            old(self).never_fails() ==> r is Ok,
            r is Ok ==> final(self).written() == old(self).written() + bits_of(
                bits as nat,
                clamp32(count),
            ),
    ;
}

/// The number of bits a single read or write moves: `count`, but at most 32.
pub open spec fn clamp32(count: u8) -> nat {
    if count < 32 {
        count as nat
    } else {
        32
    }
}

/// Collects bits into bytes, least significant bit first.
pub struct BitWriter {
    bytes: Vec<u8>,
    buffer: u64,
    len: u8,
}

/// `bits` limited to its low `count` bits, as the writer stores it.
fn masked_bits(bits: u32, count: u8) -> (m: u64)
    requires
        count <= 32,
    ensures
        m == bits as nat % pow2(count as nat),
        m < pow2(count as nat),
{
    proof { lemma2_to64(); }
    if count == 32 {
        proof { lemma_small_mod_nat(bits as nat, pow2(32)); }
        bits as u64
    } else {
        proof {
            lemma_u32_shl_is_mul(1, count as u32);
            vstd::bits::lemma_u32_pow2_no_overflow(count as nat);
            lemma_pow2_pos(count as nat);
        }
        let modulus: u32 = 1u32 << count;
        (bits % modulus) as u64
    }
}

impl BitWriter {
    /// An empty writer.
    pub fn new() -> (w: BitWriter)
        ensures
            w.writer_inv(),
            w.written() == Seq::<bool>::empty(),
    {
        let w = BitWriter { bytes: Vec::new(), buffer: 0, len: 0 };
        proof {
            lemma2_to64();
            assert(w.written() =~= Seq::<bool>::empty());
        }
        w
    }

    /// Move the lowest byte of the buffer into the output. The buffer holds at least one bit,
    /// or exactly the padding that completes the last byte.
    fn push_low_byte(&mut self)
        requires
            old(self).buffer < pow2(old(self).len as nat),
            old(self).len <= 64,
        ensures
            final(self).len == if old(self).len >= 8 { (old(self).len - 8) as u8 } else { 0 },
            final(self).buffer < pow2(final(self).len as nat),
            final(self).bytes@ == old(self).bytes@.push((old(self).buffer % 256) as u8),
            bytes_bits(final(self).bytes@) + bits_of(final(self).buffer as nat, final(self).len as nat)
                == bytes_bits(old(self).bytes@) + bits_of(old(self).buffer as nat, old(self).len as nat)
                + bits_of(0, if old(self).len >= 8 { 0 } else { (8 - old(self).len) as nat }),
    {
        let ghost old_bytes = self.bytes@;
        let ghost b = self.buffer as nat;
        let ghost l = self.len as nat;
        let byte = (self.buffer % 256) as u8;
        self.bytes.push(byte);
        self.buffer = self.buffer / 256;
        self.len = if self.len >= 8 { self.len - 8 } else { 0 };
        proof {
            lemma2_to64();
            assert(self.bytes@.drop_last() =~= old_bytes);
            if l >= 8 {
                let rest = (l - 8) as nat;
                lemma_bits_of_split(b, 8, rest);
                lemma_bits_of_mod(b, 8);
                lemma_pow2_adds(8, rest);
                lemma_pow2_pos(rest);
                assert(b < pow2(8) * pow2(rest));
                lemma_div_lt(b, pow2(8), pow2(rest));
                assert(bits_of(b, l) =~= bits_of(b, 8) + bits_of(b / 256, rest));
            } else {
                lemma_bits_of_split(b, l, (8 - l) as nat);
                lemma_pow2_strictly_increases(l, 8);
                lemma_small_mod_nat(b, 256);
                lemma_div_small(b, pow2(l));
                assert(b / 256 == 0) by {
                    lemma_div_small(b, 256);
                }
                assert((l + (8 - l) as nat) == 8);
                assert(bits_of(b, 8) == bits_of(b, l) + bits_of(0, (8 - l) as nat));
                assert(bits_of(0, 0) =~= Seq::<bool>::empty());
            }
            assert(bytes_bits(self.bytes@) == bytes_bits(old_bytes) + bits_of(byte as nat, 8));
        }
    }

    /// Move 32 complete bits from the buffer into the output when they are available.
    fn flush(&mut self)
        requires
            old(self).buffer < pow2(old(self).len as nat),
            old(self).len < 64,
        ensures
            final(self).buffer < pow2(final(self).len as nat),
            final(self).len < 32 || final(self).len == old(self).len,
            old(self).len >= 32 ==> final(self).len == old(self).len - 32,
            old(self).len < 32 ==> *final(self) == *old(self),
            bytes_bits(final(self).bytes@) + bits_of(final(self).buffer as nat, final(self).len as nat)
                == bytes_bits(old(self).bytes@) + bits_of(old(self).buffer as nat, old(self).len as nat),
    {
        if self.len >= 32 {
            self.push_low_byte();
            self.push_low_byte();
            self.push_low_byte();
            self.push_low_byte();
            proof {
                assert(bits_of(0, 0) =~= Seq::<bool>::empty());
            }
        }
    }

    /// The bytes written, with the last byte padded by zero bits.
    pub fn finish(self) -> (bytes: Vec<u8>)
        requires
            self.writer_inv(),
        ensures
            bytes@.len() == (self.written().len() + 7) / 8,
            bytes_bits(bytes@) == self.written() + bits_of(
                0,
                (8 * bytes@.len() - self.written().len()) as nat,
            ),
    {
        let mut this = self;
        let ghost w = this.written();
        proof {
            lemma_bytes_bits_len(this.bytes@);
            lemma_bits_of_len(this.buffer as nat, this.len as nat);
        }
        while this.len > 0
            invariant
                this.len < 32,
                this.buffer < pow2(this.len as nat),
                this.len > 0 ==> bytes_bits(this.bytes@) + bits_of(this.buffer as nat, this.len as nat) == w,
                this.len == 0 ==> bytes_bits(this.bytes@) == w + bits_of(
                    0,
                    (8 * this.bytes@.len() - w.len()) as nat,
                ),
                8 * this.bytes@.len() + this.len >= w.len(),
                this.len > 0 ==> 8 * this.bytes@.len() + this.len == w.len(),
                8 * this.bytes@.len() < w.len() + 8,
            decreases this.len,
        {
            let ghost l = this.len;
            let ghost old_bytes = this.bytes@;
            this.push_low_byte();
            proof {
                lemma_bytes_bits_len(this.bytes@);
                lemma_bytes_bits_len(old_bytes);
                assert(this.bytes@.len() == old_bytes.len() + 1);
                if l < 8 {
                    assert((8 * this.bytes@.len() - w.len()) as nat == (8 - l) as nat);
                    assert(this.len == 0);
                    assert(bits_of(this.buffer as nat, 0) =~= Seq::<bool>::empty());
                    assert(bytes_bits(this.bytes@) =~= bytes_bits(this.bytes@) + bits_of(this.buffer as nat, 0));
                }
            }
        }
        proof {
            if w.len() == 8 * this.bytes@.len() {
                assert(bits_of(0, 0) =~= Seq::<bool>::empty());
                assert(bits_of(this.buffer as nat, 0) =~= Seq::<bool>::empty());
                assert(bytes_bits(this.bytes@) =~= bytes_bits(this.bytes@) + bits_of(this.buffer as nat, 0));
                assert(bytes_bits(this.bytes@) =~= w + bits_of(0, 0));
            }
        }
        this.bytes
    }
}

impl Error for crate::rabbit::Error {
    fn custom(msg: String) -> (e: crate::rabbit::Error)
        ensures
            e == crate::rabbit::Error::Message(msg),
    {
        crate::rabbit::Error::Message(msg)
    }
}

impl WriteBits for BitWriter {
    type Error = crate::rabbit::Error;

    closed spec fn written(&self) -> Seq<bool> {
        bytes_bits(self.bytes@) + bits_of(self.buffer as nat, self.len as nat)
    }

    closed spec fn writer_inv(&self) -> bool {
        self.len < 32 && self.buffer < pow2(self.len as nat)
    }

    open spec fn never_fails(&self) -> bool {
        true
    }

    fn write(&mut self, bits: u32, count: u8) -> (r: Result<(), crate::rabbit::Error>)
        ensures
            r is Ok,
    {
        let count = if count < 32 { count } else { 32 };
        let masked = masked_bits(bits, count);
        let ghost old_w = self.written();
        proof {
            lemma2_to64();
            lemma_u64_pow2_no_overflow(self.len as nat);
            lemma_u64_shl_is_mul(1, self.len as u64);
            lemma_append_bound(self.buffer as nat, self.len as nat, masked as nat, count as nat);
            lemma_pow2_strictly_increases((self.len + count) as nat, 64);
            lemma_bits_of_append(self.buffer as nat, self.len as nat, masked as nat, count as nat);
            lemma_bits_of_mod(bits as nat, count as nat);
        }
        let scale: u64 = 1u64 << (self.len as u64);
        proof {
            assert(scale == pow2(self.len as nat));
            vstd::arithmetic::mul::lemma_mul_is_commutative(masked as int, scale as int);
        }
        self.buffer = self.buffer + masked * scale;
        self.len = self.len + count;
        self.flush();
        Ok(())
    }
}

} // verus!
