//! Variable Length Quantity (variable length integer) encoding.
//!
//! An integer of `2^k` bytes is written as a `k`-bit count `n` of additional bytes, followed by
//! the `n + 1` low bytes of the integer. The bytes go out most significant first, in groups of
//! up to four, and each group is written least significant bit first.
//!
//! Signed integers are first mapped to unsigned ones by the ZigZag encoding, which places the
//! sign in the least significant bit: 0, -1, 1, -2, 2, ... become 0, 1, 2, 3, 4, ...
use vstd::prelude::*;
use vstd::arithmetic::power2::{pow2, lemma2_to64, lemma2_to64_rest, lemma_pow2_pos, lemma_pow2_adds, lemma_pow2_strictly_increases};
use vstd::arithmetic::div_mod::lemma_mod_breakdown;
use vstd::arithmetic::mul::{lemma_mul_is_commutative, lemma_mul_is_associative, lemma_mul_is_distributive_add};
use crate::bits::{
    bits_of, value_of, lemma_bits_of_len, lemma_value_of_bits, lemma_value_of_bits_small,
    lemma_small_mod_nat, lemma_div_lt, lemma_append_bound, lemma_value_of_bound,
    lemma_bits_of_mod, lemma_bits_of_split, lemma_fundamental,
};
use crate::write::{WriteBits, clamp32};
use crate::read::{ReadBits, Error as ReadError};

verus! {

/// The number of bytes beyond the first that `v` needs.
pub open spec fn extra_bytes(v: nat) -> nat
    decreases v,
{
    if v < 256 {
        0
    } else {
        1 + extra_bytes(v / 256)
    }
}

/// The `bytes` low bytes of `v`, most significant group of up to four bytes first.
pub open spec fn windows(v: nat, bytes: nat) -> Seq<bool>
    decreases bytes,
{
    if bytes == 0 {
        Seq::empty()
    } else {
        let stride: nat = if bytes < 4 { bytes } else { 4 };
        let rest = (bytes - stride) as nat;
        bits_of(v / pow2(8 * rest), 8 * stride) + windows(v, rest)
    }
}

/// The encoding of `v` when the count of additional bytes takes `k` bits.
pub open spec fn vlq_bits(v: nat, k: nat) -> Seq<bool> {
    bits_of(extra_bytes(v), k) + windows(v, extra_bytes(v) + 1)
}

/// The number read from `bytes` bytes laid out as `windows` lays them out.
pub open spec fn read_windows(s: Seq<bool>, bytes: nat) -> nat
    decreases bytes,
{
    if bytes == 0 {
        0
    } else {
        let stride: nat = if bytes < 4 { bytes } else { 4 };
        let rest = (bytes - stride) as nat;
        value_of(s.take(8 * stride as int)) * pow2(8 * rest) + read_windows(s.skip(8 * stride as int), rest)
    }
}

/// Decoding the front of `s` with a `k`-bit byte count: the value and the number of bits it
/// takes, or `None` when `s` ends first.
pub open spec fn vlq_decode(s: Seq<bool>, k: nat) -> Option<(nat, nat)> {
    if s.len() < k {
        None
    } else {
        let n = value_of(s.take(k as int)) + 1;
        if s.len() < k + 8 * n {
            None
        } else {
            Some((read_windows(s.skip(k as int), n), k + 8 * n))
        }
    }
}

/// The ZigZag map from signed to unsigned numbers.
pub open spec fn zigzag(v: int) -> nat {
    if v >= 0 {
        (2 * v) as nat
    } else {
        (-2 * v - 1) as nat
    }
}

/// The inverse of `zigzag`.
pub open spec fn unzigzag(u: nat) -> int {
    if u % 2 == 0 {
        (u / 2) as int
    } else {
        -((u / 2) as int) - 1
    }
}

pub proof fn lemma_windows_len(v: nat, bytes: nat)
    ensures
        windows(v, bytes).len() == 8 * bytes,
    decreases bytes,
{
    if bytes > 0 {
        let stride: nat = if bytes < 4 { bytes } else { 4 };
        let rest = (bytes - stride) as nat;
        lemma_windows_len(v, rest);
        lemma_bits_of_len(v / pow2(8 * rest), 8 * stride);
    }
}

/// Reading back `bytes` windows gives the `bytes` low bytes of the value.
pub proof fn lemma_read_windows(v: nat, bytes: nat, rest: Seq<bool>)
    ensures
        read_windows(windows(v, bytes) + rest, bytes) == v % pow2(8 * bytes),
    decreases bytes,
{
    lemma2_to64();
    if bytes == 0 {
    } else {
        let stride: nat = if bytes < 4 { bytes } else { 4 };
        let r = (bytes - stride) as nat;
        let first = bits_of(v / pow2(8 * r), 8 * stride);
        let s = windows(v, bytes) + rest;
        lemma_bits_of_len(v / pow2(8 * r), 8 * stride);
        assert(s.take(8 * stride as int) =~= first);
        assert(s.skip(8 * stride as int) =~= windows(v, r) + rest);
        lemma_read_windows(v, r, rest);
        lemma_value_of_bits(v / pow2(8 * r), 8 * stride);
        lemma_pow2_pos(8 * r);
        lemma_pow2_pos(8 * stride);
        lemma_mod_breakdown(v as int, pow2(8 * r) as int, pow2(8 * stride) as int);
        lemma_pow2_adds(8 * r, 8 * stride);
        lemma_mul_is_commutative(((v / pow2(8 * r)) % pow2(8 * stride)) as int, pow2(8 * r) as int);
        assert(8 * r + 8 * stride == 8 * bytes);
    }
}

/// A value needs few enough bytes: it fits in `extra_bytes(v) + 1` of them.
pub proof fn lemma_extra_bytes_fit(v: nat)
    ensures
        v < pow2(8 * (extra_bytes(v) + 1)),
    decreases v,
{
    lemma2_to64();
    if v >= 256 {
        lemma_extra_bytes_fit(v / 256);
        let e = extra_bytes(v / 256);
        lemma_pow2_adds(8, 8 * (e + 1));
        lemma_fundamental(v, 256);
        assert(v / 256 < pow2(8 * (e + 1)));
        assert(v < 256 * pow2(8 * (e + 1))) by (nonlinear_arith)
            requires
                v == 256 * (v / 256) + v % 256,
                v % 256 < 256,
                v / 256 < pow2(8 * (e + 1)),
        ;
        assert(8 + 8 * (e + 1) == 8 * (extra_bytes(v) + 1));
    }
}

/// A value below `2^(8m)` needs fewer than `m` additional bytes.
pub proof fn lemma_extra_bytes_bound(v: nat, m: nat)
    requires
        m > 0,
        v < pow2(8 * m),
    ensures
        extra_bytes(v) < m,
    decreases v,
{
    lemma2_to64();
    if v >= 256 {
        if m == 1 {
        } else {
            lemma_pow2_adds(8, 8 * (m - 1) as nat);
            assert(8 * m == 8 + 8 * (m - 1) as nat);
            lemma_div_lt(v, 256, pow2(8 * (m - 1) as nat));
            lemma_extra_bytes_bound(v / 256, (m - 1) as nat);
        }
    }
}

/// Decoding an encoding gives the value back and consumes exactly the encoding.
pub proof fn lemma_vlq_round_trip(v: nat, k: nat, rest: Seq<bool>)
    requires
        v < pow2(8 * pow2(k)),
    ensures
        vlq_decode(vlq_bits(v, k) + rest, k) == Some((v, vlq_bits(v, k).len())),
{
    let e = extra_bytes(v);
    let s = vlq_bits(v, k) + rest;
    lemma_pow2_pos(k);
    lemma_extra_bytes_bound(v, pow2(k));
    lemma_bits_of_len(e, k);
    lemma_windows_len(v, e + 1);
    assert(s.take(k as int) =~= bits_of(e, k));
    lemma_value_of_bits_small(e, k);
    assert(s.skip(k as int) =~= windows(v, e + 1) + rest);
    lemma_read_windows(v, e + 1, rest);
    lemma_extra_bytes_fit(v);
    lemma_small_mod_nat(v, pow2(8 * (e + 1)));
}

/// The ZigZag map is undone by its inverse.
pub proof fn lemma_unzigzag_zigzag(v: int)
    ensures
        unzigzag(zigzag(v)) == v,
{
}

/// Write `value` with a `k`-bit count of additional bytes.
pub fn encode_unsigned<W: WriteBits>(value: u128, k: u8, writer: &mut W) -> (r: Result<(), W::Error>)
    requires
        1 <= k <= 4,
        value < pow2(8 * pow2(k as nat)),
        old(writer).writer_inv(),
    ensures
        final(writer).writer_inv(),
        final(writer).never_fails() == old(writer).never_fails(),
        old(writer).never_fails() ==> r is Ok,
        r is Ok ==> final(writer).written() == old(writer).written() + vlq_bits(value as nat, k as nat),
{
    proof {
        lemma2_to64();
        lemma_extra_bytes_bound(value as nat, pow2(k as nat));
        lemma_pow2_strictly_increases(k as nat, 5);
    }
    let size: u32 = if k == 1 { 2 } else if k == 2 { 4 } else if k == 3 { 8 } else { 16 };
    let mut additional_bytes: u32 = 0;
    let mut shifted: u128 = value;
    while shifted >= 256
        invariant
            size == pow2(k as nat),
            additional_bytes < size,
            extra_bytes(value as nat) == additional_bytes + extra_bytes(shifted as nat),
            extra_bytes(value as nat) < size,
        decreases shifted,
    {
        shifted = shifted / 256;
        additional_bytes = additional_bytes + 1;
    }
    let ghost target = old(writer).written() + vlq_bits(value as nat, k as nat);
    match writer.write(additional_bytes, k) {
        Ok(()) => {},
        Err(e) => return Err(e),
    }
    let mut bytes: u32 = additional_bytes + 1;
    proof {
        assert(clamp32(k) == k as nat);
        assert(writer.written() + windows(value as nat, bytes as nat) =~= target);
    }
    while bytes > 0
        invariant
            bytes <= 16,
            writer.writer_inv(),
            writer.never_fails() == old(writer).never_fails(),
            writer.written() + windows(value as nat, bytes as nat) == target,
        decreases bytes,
    {
        let stride: u32 = if bytes < 4 { bytes } else { 4 };
        bytes = bytes - stride;
        let bit_offset: u32 = 8 * bytes;
        proof {
            lemma2_to64();
            lemma2_to64_rest();
            vstd::bits::lemma_u128_shr_is_div(value, bit_offset as u128);
        }
        let window = ((value >> bit_offset) % 0x1_0000_0000) as u32;
        let ghost prev = writer.written();
        match writer.write(window, (8 * stride) as u8) {
            Ok(()) => {},
            Err(e) => return Err(e),
        }
        proof {
            let q = value as nat / pow2(8 * bytes as nat);
            lemma_bits_of_mod(q, 32);
            lemma_bits_of_split(q, 8 * stride as nat, (32 - 8 * stride) as nat);
            lemma_bits_of_split(window as nat, 8 * stride as nat, (32 - 8 * stride) as nat);
            lemma_small_mod_nat(window as nat, pow2(32));
            lemma_bits_of_len(q, 8 * stride as nat);
            lemma_bits_of_len(window as nat, 8 * stride as nat);
            assert(bits_of(q, 32).take(8 * stride as int) =~= bits_of(q, 8 * stride as nat));
            assert(bits_of(window as nat, 32).take(8 * stride as int) =~= bits_of(window as nat, 8 * stride as nat));
            assert(bits_of(window as nat, 8 * stride as nat) == bits_of(q, 8 * stride as nat));
            assert(writer.written() + windows(value as nat, bytes as nat) =~= target);
        }
    }
    proof {
        assert(writer.written() =~= target);
    }
    Ok(())
}

/// Read a number written by `encode_unsigned` with the same `k`.
pub fn decode_unsigned<R: ReadBits>(k: u8, reader: &mut R) -> (r: Result<u128, R::Error>)
    requires
        1 <= k <= 4,
        old(reader).reader_inv(),
    ensures
        final(reader).reader_inv(),
        match vlq_decode(old(reader).remaining(), k as nat) {
            Some((v, n)) => r == Ok::<u128, R::Error>(v as u128) && v < pow2(8 * pow2(k as nat))
                && n <= old(reader).remaining().len()
                && final(reader).remaining() == old(reader).remaining().skip(n as int),
            None => r is Err,
        },
        r matches Ok(v) ==> v < pow2(8 * pow2(k as nat)),
        r matches Err(e) ==> e.is_eof(),
{
    let ghost s = old(reader).remaining();
    proof {
        lemma2_to64();
        lemma2_to64_rest();
    }
    let additional_bytes = match reader.read(k) {
        Ok(a) => a,
        Err(e) => return Err(e),
    };
    proof {
        assert(clamp32(k) == k as nat);
        lemma_value_of_bound(s.take(k as int));
        lemma_pow2_strictly_increases(k as nat, 5);
    }
    let mut bytes = match additional_bytes.checked_add(1) {
        Some(b) => b,
        None => return Err(R::Error::custom(String::new())),
    };
    let ghost n = bytes as nat;
    let ghost t = s.skip(k as int);
    let mut value: u128 = 0;
    proof {
        assert(t.skip(0) =~= t);
        assert(n <= 16);
    }
    while bytes > 0
        invariant
            n <= 16,
            bytes <= n,
            reader.reader_inv(),
            reader.remaining() == t.skip(8 * (n - bytes)),
            8 * (n - bytes) <= t.len(),
            value < pow2(8 * (n - bytes) as nat),
            value * pow2(8 * bytes as nat) + read_windows(t.skip(8 * (n - bytes)), bytes as nat) == read_windows(t, n),
            t == s.skip(k as int),
            s == old(reader).remaining(),
            s.len() >= k,
            n == value_of(s.take(k as int)) + 1,
        decreases bytes,
    {
        let stride: u32 = if bytes < 4 { bytes } else { 4 };
        let ghost before = reader.remaining();
        let ghost b0 = bytes as nat;
        bytes = bytes - stride;
        let next_bytes = match reader.read((8 * stride) as u8) {
            Ok(b) => b,
            Err(e) => {
                proof {
                    assert(before.len() < 8 * stride);
                    assert(t.len() < 8 * n) by {
                        assert(before.len() == t.len() - 8 * (n - b0));
                    }
                    assert(s.len() < k + 8 * n) by {
                        assert(t.len() == s.len() - k);
                    }
                    assert(vlq_decode(s, k as nat) is None);
                }
                return Err(e);
            },
        };
        proof {
            lemma2_to64();
            let rest = bytes as nat;
            let st = stride as nat;
            let consumed = (n - b0) as nat;
            assert(clamp32((8 * stride) as u8) == 8 * st);
            assert(t.skip(8 * consumed as int).skip(8 * st as int) =~= t.skip(8 * (consumed + st) as int));
            lemma_value_of_bound(before.take(8 * st as int));
            lemma_pow2_pos(8 * rest);
            lemma_pow2_pos(8 * st);
            lemma_pow2_adds(8 * st, 8 * rest);
            lemma_pow2_adds(8 * consumed, 8 * st);
            lemma_append_bound(next_bytes as nat, 8 * st, value as nat, 8 * consumed);
            lemma_mul_is_commutative(pow2(8 * st) as int, value as int);
            assert(8 * b0 == 8 * st + 8 * rest);
            lemma_mul_is_associative(value as int, pow2(8 * st) as int, pow2(8 * rest) as int);
            lemma_mul_is_distributive_add(pow2(8 * rest) as int, (value * pow2(8 * st)) as int, next_bytes as int);
            lemma_mul_is_commutative(pow2(8 * rest) as int, (value * pow2(8 * st)) as int);
            lemma_mul_is_commutative(pow2(8 * rest) as int, next_bytes as int);
            lemma_mul_is_commutative(pow2(8 * rest) as int, (value * pow2(8 * st) + next_bytes) as int);
            assert(8 * (consumed + st) <= 128);
            lemma_pow2_adds(64, 64);
            if 8 * (consumed + st) < 128 {
                lemma_pow2_strictly_increases(8 * (consumed + st), 128);
            }
            lemma_u128_pow2(8 * st);
        }
        let scale: u128 = (1u64 << (8 * stride) as u64) as u128;
        value = value * scale + next_bytes as u128;
        proof {
            assert(reader.remaining() == t.skip(8 * (n - bytes)));
        }
    }
    proof {
        assert(t.skip(8 * n as int).len() >= 0);
        assert(s.len() >= k + 8 * n) by {
            assert(reader.remaining().len() == t.len() - 8 * n);
        }
        assert(s.skip((k + 8 * n) as int) =~= t.skip(8 * n as int));
        lemma2_to64();
        assert(value * pow2(0) == value);
        assert(value == read_windows(t, n));
        lemma_pow2_strictly_increases(k as nat, 5);
        assert(8 * n <= 8 * pow2(k as nat));
        if 8 * n < 8 * pow2(k as nat) {
            lemma_pow2_strictly_increases(8 * n, 8 * pow2(k as nat));
        }
    }
    Ok(value)
}

/// How large the numbers are that a `k`-bit byte count can describe.
pub proof fn lemma_vlq_capacity()
    ensures
        pow2(8 * pow2(1)) == 0x1_0000,
        pow2(8 * pow2(2)) == 0x1_0000_0000,
        pow2(8 * pow2(3)) == 0x1_0000_0000_0000_0000,
        pow2(8 * pow2(4)) == 0x1_0000_0000_0000_0000_0000_0000_0000_0000,
{
    lemma2_to64();
    lemma_pow2_adds(64, 64);
}

proof fn lemma_u128_pow2(e: nat)
    requires
        e <= 32,
    ensures
        (1u64 << (e as u64)) == pow2(e),
        pow2(e) <= 0x1_0000_0000,
{
    lemma2_to64();
    if e < 32 {
        lemma_pow2_strictly_increases(e, 32);
    }
    lemma_pow2_pos(e);
    vstd::bits::lemma_u64_pow2_no_overflow(e);
    vstd::bits::lemma_u64_shl_is_mul(1, e as u64);
}

} // verus!
