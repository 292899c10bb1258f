//! The mathematical model of bit streams.
//!
//! A bit stream is a `Seq<bool>`, least significant bit first. `bits_of(v, n)` is the
//! `n`-bit little-endian representation of `v`, and `value_of` reads such a sequence back
//! as a number. Bytes are laid out one after the other, each least significant bit first.
use vstd::prelude::*;
use vstd::arithmetic::power2::{pow2, lemma2_to64, lemma_pow2_unfold, lemma_pow2_pos, lemma_pow2_adds};
use vstd::arithmetic::div_mod::{
    lemma_mod_breakdown,
    lemma_div_denominator,
    lemma_fundamental_div_mod,
    lemma_fundamental_div_mod_converse,
};
use vstd::arithmetic::mul::{lemma_mul_is_associative, lemma_mul_is_commutative, lemma_mul_inequality};

verus! {

/// The `n` low bits of `v`, least significant first.
pub open spec fn bits_of(v: nat, n: nat) -> Seq<bool>
    decreases n,
{
    if n == 0 {
        Seq::empty()
    } else {
        seq![v % 2 == 1] + bits_of(v / 2, (n - 1) as nat)
    }
}

/// The number whose binary digits, least significant first, are `s`.
pub open spec fn value_of(s: Seq<bool>) -> nat
    decreases s.len(),
{
    if s.len() == 0 {
        0
    } else {
        (if s[0] { 1nat } else { 0nat }) + 2 * value_of(s.drop_first())
    }
}

/// The bits of a byte sequence, each byte least significant bit first.
pub open spec fn bytes_bits(bytes: Seq<u8>) -> Seq<bool>
    decreases bytes.len(),
{
    if bytes.len() == 0 {
        Seq::empty()
    } else {
        bytes_bits(bytes.drop_last()) + bits_of(bytes.last() as nat, 8)
    }
}

pub proof fn lemma_bits_of_len(v: nat, n: nat)
    ensures
        #[trigger] bits_of(v, n).len() == n,
    decreases n,
{
    if n > 0 {
        lemma_bits_of_len(v / 2, (n - 1) as nat);
    }
}

pub proof fn lemma_bytes_bits_len(bytes: Seq<u8>)
    ensures
        #[trigger] bytes_bits(bytes).len() == 8 * bytes.len(),
    decreases bytes.len(),
{
    if bytes.len() > 0 {
        lemma_bytes_bits_len(bytes.drop_last());
        lemma_bits_of_len(bytes.last() as nat, 8);
    }
}

/// Reading a concatenation: the second part is shifted past the first.
pub proof fn lemma_value_of_concat(a: Seq<bool>, b: Seq<bool>)
    ensures
        value_of(a + b) == value_of(a) + pow2(a.len()) * value_of(b),
    decreases a.len(),
{
    if a.len() == 0 {
        assert(a + b =~= b);
        lemma2_to64();
    } else {
        assert((a + b).drop_first() =~= a.drop_first() + b);
        lemma_value_of_concat(a.drop_first(), b);
        lemma_pow2_unfold(a.len());
        lemma_mul_is_associative(2, pow2((a.len() - 1) as nat) as int, value_of(b) as int);
    }
}

/// A bit sequence reads as a number below `2^len`.
pub proof fn lemma_value_of_bound(s: Seq<bool>)
    ensures
        value_of(s) < pow2(s.len()),
    decreases s.len(),
{
    if s.len() == 0 {
        lemma2_to64();
    } else {
        lemma_value_of_bound(s.drop_first());
        lemma_pow2_unfold(s.len());
    }
}

/// Reading the `n`-bit representation of `v` gives `v mod 2^n`.
pub proof fn lemma_value_of_bits(v: nat, n: nat)
    ensures
        value_of(bits_of(v, n)) == v % pow2(n),
    decreases n,
{
    if n == 0 {
        lemma2_to64();
    } else {
        let s = bits_of(v, n);
        assert(s.drop_first() =~= bits_of(v / 2, (n - 1) as nat));
        lemma_value_of_bits(v / 2, (n - 1) as nat);
        lemma_pow2_unfold(n);
        lemma_pow2_pos((n - 1) as nat);
        lemma_mod_breakdown(v as int, 2, pow2((n - 1) as nat) as int);
    }
}

/// Writing down the value of a bit sequence gives the sequence back.
pub proof fn lemma_bits_of_value(s: Seq<bool>)
    ensures
        bits_of(value_of(s), s.len()) == s,
    decreases s.len(),
{
    if s.len() > 0 {
        let r = value_of(s.drop_first());
        let b: nat = if s[0] { 1 } else { 0 };
        assert(value_of(s) == b + 2 * r);
        lemma_fundamental_div_mod_converse((b + 2 * r) as int, 2, r as int, b as int);
        lemma_bits_of_value(s.drop_first());
        assert(bits_of(value_of(s), s.len()) =~= s);
    }
}

/// Only the low `n` bits of `v` matter for its `n`-bit representation.
pub proof fn lemma_bits_of_mod(v: nat, n: nat)
    ensures
        bits_of(v, n) == bits_of(v % pow2(n), n),
{
    lemma_bits_of_len(v, n);
    lemma_bits_of_value(bits_of(v, n));
    lemma_value_of_bits(v, n);
}

/// Two numbers below `2^n` have the same `n`-bit representation only if they are equal.
pub proof fn lemma_bits_of_injective(a: nat, b: nat, n: nat)
    requires
        bits_of(a, n) == bits_of(b, n),
        a < pow2(n),
        b < pow2(n),
    ensures
        a == b,
{
    lemma_value_of_bits(a, n);
    lemma_value_of_bits(b, n);
    lemma_small_mod_nat(a, pow2(n));
    lemma_small_mod_nat(b, pow2(n));
}

pub proof fn lemma_small_mod_nat(x: nat, m: nat)
    requires
        x < m,
    ensures
        x % m == x,
{
    lemma_fundamental_div_mod_converse(x as int, m as int, 0, x as int);
}

/// The representation splits into its low `k` bits followed by the rest.
pub proof fn lemma_bits_of_split(v: nat, k: nat, m: nat)
    ensures
        bits_of(v, k + m) == bits_of(v, k) + bits_of(v / pow2(k), m),
    decreases k,
{
    if k == 0 {
        lemma2_to64();
        assert(bits_of(v, 0) + bits_of(v, m) =~= bits_of(v, m));
    } else {
        lemma_bits_of_split(v / 2, (k - 1) as nat, m);
        lemma_pow2_unfold(k);
        lemma_pow2_pos((k - 1) as nat);
        lemma_div_denominator(v as int, 2, pow2((k - 1) as nat) as int);
        assert(((k + m) - 1) as nat == ((k - 1) as nat + m));
        assert(bits_of(v, k + m) =~= bits_of(v, k) + bits_of(v / pow2(k), m));
    }
}

/// Appending `b` above `a` (with `a < 2^k`) concatenates their representations.
pub proof fn lemma_bits_of_append(a: nat, k: nat, b: nat, m: nat)
    requires
        a < pow2(k),
    ensures
        bits_of(a + pow2(k) * b, k + m) == bits_of(a, k) + bits_of(b, m),
{
    let v = a + pow2(k) * b;
    lemma_pow2_pos(k);
    lemma_bits_of_split(v, k, m);
    lemma_mul_is_commutative(b as int, pow2(k) as int);
    lemma_fundamental_div_mod_converse(v as int, pow2(k) as int, b as int, a as int);
    lemma_bits_of_mod(v, k);
}

/// Numbers below `2^k` read back from their `k`-bit representation.
pub proof fn lemma_value_of_bits_small(v: nat, k: nat)
    requires
        v < pow2(k),
    ensures
        value_of(bits_of(v, k)) == v,
{
    lemma_value_of_bits(v, k);
    lemma_small_mod_nat(v, pow2(k));
}

/// Bits of a byte sequence, with the first byte split off.
pub proof fn lemma_bytes_bits_first(bytes: Seq<u8>)
    requires
        bytes.len() > 0,
    ensures
        bytes_bits(bytes) == bits_of(bytes[0] as nat, 8) + bytes_bits(bytes.drop_first()),
    decreases bytes.len(),
{
    if bytes.len() == 1 {
        assert(bytes.drop_last() =~= Seq::<u8>::empty());
        assert(bytes.drop_first() =~= Seq::<u8>::empty());
        assert(bytes_bits(bytes) =~= bits_of(bytes[0] as nat, 8) + bytes_bits(bytes.drop_first()));
    } else {
        lemma_bytes_bits_first(bytes.drop_last());
        assert(bytes.drop_last().drop_first() =~= bytes.drop_first().drop_last());
        assert(bytes.drop_first().last() == bytes.last());
        assert(bytes_bits(bytes) =~= bits_of(bytes[0] as nat, 8) + bytes_bits(bytes.drop_first()));
    }
}

/// Bits of a concatenation of byte sequences.
pub proof fn lemma_bytes_bits_concat(a: Seq<u8>, b: Seq<u8>)
    ensures
        bytes_bits(a + b) == bytes_bits(a) + bytes_bits(b),
    decreases b.len(),
{
    if b.len() == 0 {
        assert(a + b =~= a);
        assert(bytes_bits(a) + bytes_bits(b) =~= bytes_bits(a));
    } else {
        assert((a + b).drop_last() =~= a + b.drop_last());
        lemma_bytes_bits_concat(a, b.drop_last());
        assert(bytes_bits(a + b) =~= bytes_bits(a) + bytes_bits(b));
    }
}

/// A value below `2^(8n)` is at most `2^(8n) - 1`.
pub proof fn lemma_mul_lt(a: nat, b: nat, c: nat)
    requires
        a < b,
    ensures
        a * c <= b * c,
{
    lemma_mul_inequality(a as int, b as int, c as int);
}

pub proof fn lemma_fundamental(x: nat, d: nat)
    requires
        d > 0,
    ensures
        x == d * (x / d) + x % d,
{
    lemma_fundamental_div_mod(x as int, d as int);
}

pub proof fn lemma_pow2_add(a: nat, b: nat)
    ensures
        pow2(a) * pow2(b) == pow2(a + b),
{
    lemma_pow2_adds(a, b);
}

pub proof fn lemma_div_small(x: nat, d: nat)
    requires
        x < d,
    ensures
        x / d == 0,
{
    vstd::arithmetic::div_mod::lemma_basic_div(x as int, d as int);
}

pub proof fn lemma_div_lt(x: nat, a: nat, b: nat)
    requires
        x < a * b,
        a > 0,
        b > 0,
    ensures
        x / a < b,
{
    lemma_fundamental_div_mod(x as int, a as int);
    if x / a >= b {
        lemma_mul_inequality(b as int, (x / a) as int, a as int);
        lemma_mul_is_commutative(b as int, a as int);
        lemma_mul_is_commutative((x / a) as int, a as int);
    }
}

/// Putting `b` above the `k` bits of `a` stays below `2^(k+m)`.
pub proof fn lemma_append_bound(a: nat, k: nat, b: nat, m: nat)
    requires
        a < pow2(k),
        b < pow2(m),
    ensures
        a + pow2(k) * b < pow2(k + m),
{
    let p = pow2(k);
    let q = pow2(m);
    lemma_pow2_pos(k);
    assert(a + p * b < p * q) by (nonlinear_arith)
        requires
            a < p,
            b < q,
            p > 0,
    ;
    lemma_pow2_adds(k, m);
}

} // verus!
