//! LEB128 integers: seven bits per byte, least significant group first, the high bit of each
//! byte telling whether another byte follows. Signed integers are stored in two's complement;
//! the last group's bit 6 is their sign.
use vstd::prelude::*;
use vstd::arithmetic::power2::{pow2, lemma2_to64, lemma2_to64_rest, lemma_pow2_pos, lemma_pow2_adds, lemma_pow2_strictly_increases};
use vstd::arithmetic::div_mod::{lemma_fundamental_div_mod, lemma_fundamental_div_mod_converse};
use vstd::arithmetic::mul::{lemma_mul_inequality, lemma_mul_is_commutative};
use crate::bits::{lemma_small_mod_nat, lemma_div_small};
use crate::error::Error;

verus! {

/// The unsigned LEB128 encoding of `v`.
pub open spec fn uleb128(v: nat) -> Seq<u8>
    decreases v,
{
    if v < 128 {
        seq![v as u8]
    } else {
        seq![(128 + v % 128) as u8] + uleb128(v / 128)
    }
}

/// Whether the signed encoding of `v` ends with its lowest group: the rest of `v` is all sign.
pub open spec fn sleb_last(v: int) -> bool {
    let low = v % 128;
    let rest = v / 128;
    (rest == 0 && low < 64) || (rest == -1 && low >= 64)
}

/// The signed LEB128 encoding of `v`.
pub open spec fn sleb128(v: int) -> Seq<u8>
    decreases (if v >= 0 { v } else { -v }),
{
    if sleb_last(v) {
        seq![(v % 128) as u8]
    } else {
        proof {
            lemma_sleb_decreases(v);
        }
        seq![(128 + v % 128) as u8] + sleb128(v / 128)
    }
}

pub proof fn lemma_sleb_decreases(v: int)
    requires
        !sleb_last(v),
    ensures
        (if v / 128 >= 0 { v / 128 } else { -(v / 128) }) < (if v >= 0 { v } else { -v }),
{
    lemma_fundamental_div_mod(v, 128);
}

/// The number held by the seven-bit groups of `bytes`, least significant first.
pub open spec fn groups_value(bytes: Seq<u8>) -> nat
    decreases bytes.len(),
{
    if bytes.len() == 0 {
        0
    } else {
        (bytes[0] % 128) as nat + 128 * groups_value(bytes.drop_first())
    }
}

/// The index of the first byte that has no successor.
pub open spec fn last_byte(bytes: Seq<u8>) -> Option<nat>
    decreases bytes.len(),
{
    if bytes.len() == 0 {
        None
    } else if bytes[0] < 128 {
        Some(0)
    } else {
        match last_byte(bytes.drop_first()) {
            Some(i) => Some(i + 1),
            None => None,
        }
    }
}

/// The most bytes a `bits`-bit integer can take.
pub open spec fn max_leb_bytes(bits: nat) -> nat {
    ((bits + 6) / 7) as nat
}

/// The outcome of decoding a LEB128 integer.
pub enum LebOutcome {
    /// The integer and the number of bytes it took.
    Value(int, nat),
    /// The input ended first.
    Eof,
    /// The integer does not fit.
    Overflow,
}

/// Decoding an unsigned `bits`-bit LEB128 integer from the front of `bytes`.
pub open spec fn uleb_decode(bytes: Seq<u8>, bits: nat) -> LebOutcome {
    let m = max_leb_bytes(bits);
    match last_byte(bytes) {
        Some(e) if e < m => if e == m - 1 && bytes[e as int] % 128 >= pow2((bits - 7 * e) as nat) {
            LebOutcome::Overflow
        } else {
            LebOutcome::Value(groups_value(bytes.take((e + 1) as int)) as int, e + 1)
        },
        _ => if bytes.len() < m {
            LebOutcome::Eof
        } else {
            LebOutcome::Overflow
        },
    }
}

/// Decoding a signed `bits`-bit LEB128 integer from the front of `bytes`.
pub open spec fn sleb_decode(bytes: Seq<u8>, bits: nat) -> LebOutcome {
    let m = max_leb_bytes(bits);
    match last_byte(bytes) {
        Some(e) if e < m => {
            let low = (bytes[e as int] % 128) as nat;
            if e < m - 1 {
                let u = groups_value(bytes.take((e + 1) as int));
                LebOutcome::Value(
                    if low >= 64 { u - pow2(7 * (e + 1)) } else { u as int },
                    e + 1,
                )
            } else {
                // The last possible byte: the bits above the integer's width must all equal.
                let kept = (bits - 7 * e) as nat;
                let top = low / pow2(kept);
                if top != 0 && top != pow2((7 - kept) as nat) - 1 {
                    LebOutcome::Overflow
                } else {
                    let u = groups_value(bytes.take(e as int)) + (low % pow2(kept)) * pow2(7 * e);
                    LebOutcome::Value(
                        if u >= pow2((bits - 1) as nat) { u - pow2(bits) } else { u as int },
                        e + 1,
                    )
                }
            }
        },
        _ => if bytes.len() < m {
            LebOutcome::Eof
        } else {
            LebOutcome::Overflow
        },
    }
}

/// Append the unsigned LEB128 encoding of `value`.
pub fn encode_unsigned(value: u128, bytes: &mut Vec<u8>)
    ensures
        final(bytes)@ == old(bytes)@ + uleb128(value as nat),
{
    let mut value = value;
    let ghost target = old(bytes)@ + uleb128(value as nat);
    proof {
        assert(bytes@ + uleb128(value as nat) =~= target);
    }
    loop
        invariant_except_break
            bytes@ + uleb128(value as nat) == target,
        ensures
            bytes@ == target,
        decreases value,
    {
        let ghost v0 = value;
        let ghost prev = bytes@;
        let low = (value % 128) as u8;
        value = value / 128;
        if value == 0 {
            bytes.push(low);
            proof {
                assert(bytes@ =~= target);
            }
            break;
        } else {
            bytes.push(128 + low);
            proof {
                assert(bytes@ + uleb128(value as nat) =~= prev + uleb128(v0 as nat));
            }
        }
    }
}

/// Append the signed LEB128 encoding of `value`.
pub fn encode_signed(value: i128, bytes: &mut Vec<u8>)
    ensures
        final(bytes)@ == old(bytes)@ + sleb128(value as int),
{
    let mut value = value;
    let ghost target = old(bytes)@ + sleb128(value as int);
    proof {
        assert(bytes@ + sleb128(value as int) =~= target);
    }
    loop
        invariant_except_break
            bytes@ + sleb128(value as int) == target,
        ensures
            bytes@ == target,
        decreases (if value >= 0 { value as int } else { -value }),
    {
        let ghost v0 = value as int;
        let ghost prev = bytes@;
        let r = value % 128;
        let low: i128 = if r < 0 { r + 128 } else { r };
        proof {
            lemma_fundamental_div_mod(v0, 128);
            assert(low == v0 % 128);
        }
        value = (value - low) / 128;
        proof {
            assert(value == v0 / 128);
        }
        let positive = low < 64;
        if (value == 0 && positive) || (value == -1 && !positive) {
            bytes.push(low as u8);
            proof {
                assert(sleb_last(v0));
                assert(bytes@ =~= target);
            }
            break;
        } else {
            bytes.push((128 + low) as u8);
            proof {
                assert(!sleb_last(v0));
                lemma_sleb_decreases(v0);
                assert(bytes@ + sleb128(value as int) =~= prev + sleb128(v0));
            }
        }
    }
}

/// `2^e` as a `u128`.
pub fn pow2_u128(e: u32) -> (r: u128)
    requires
        e < 128,
    ensures
        r == pow2(e as nat),
{
    let mut r: u128 = 1;
    let mut i: u32 = 0;
    proof {
        lemma2_to64();
    }
    while i < e
        invariant
            i <= e,
            e < 128,
            r == pow2(i as nat),
        decreases e - i,
    {
        proof {
            vstd::arithmetic::power2::lemma_pow2_unfold((i + 1) as nat);
            lemma_pow2_strictly_increases((i + 1) as nat, 128);
            lemma_pow2_adds(64, 64);
            lemma2_to64();
        }
        r = r * 2;
        i = i + 1;
    }
    r
}

pub proof fn lemma_groups_value_snoc(s: Seq<u8>, b: u8)
    ensures
        groups_value(s.push(b)) == groups_value(s) + (b % 128) as nat * pow2(7 * s.len()),
    decreases s.len(),
{
    lemma2_to64();
    if s.len() == 0 {
        assert(s.push(b).drop_first() =~= Seq::<u8>::empty());
        assert(groups_value(s.push(b).drop_first()) == 0);
        assert(s.push(b)[0] == b);
        assert(groups_value(s) == 0);
        assert(groups_value(s.push(b)) == (b % 128) as nat);
        assert(pow2(7 * s.len()) == 1);
        assert((b % 128) as nat * pow2(7 * s.len()) == (b % 128) as nat);
    } else {
        lemma_groups_value_snoc(s.drop_first(), b);
        assert(s.push(b).drop_first() =~= s.drop_first().push(b));
        assert(s.push(b)[0] == s[0]);
        lemma_pow2_adds(7, 7 * (s.len() - 1) as nat);
        assert(7 + 7 * (s.len() - 1) as nat == 7 * s.len());
        let p = pow2(7 * (s.len() - 1) as nat);
        let x = (b % 128) as nat;
        assert(128 * (x * p) == x * (128 * p)) by (nonlinear_arith);
        let g = groups_value(s.drop_first());
        assert(groups_value(s.push(b)) == (s[0] % 128) as nat + 128 * (g + x * p));
        assert(groups_value(s) == (s[0] % 128) as nat + 128 * g);
        let s0 = (s[0] % 128) as nat;
        assert(pow2(7) == 128);
        assert(pow2(7 * s.len()) == 128 * p);
        assert(s0 + 128 * (g + x * p) == (s0 + 128 * g) + x * (128 * p)) by (nonlinear_arith);
    }
}

pub proof fn lemma_groups_value_bound(s: Seq<u8>)
    ensures
        groups_value(s) < pow2(7 * s.len()),
    decreases s.len(),
{
    lemma2_to64();
    if s.len() > 0 {
        lemma_groups_value_bound(s.drop_first());
        lemma_pow2_adds(7, 7 * (s.len() - 1) as nat);
        assert(7 + 7 * (s.len() - 1) as nat == 7 * s.len());
        let g = groups_value(s.drop_first());
        let p = pow2(7 * (s.len() - 1) as nat);
        assert((s[0] % 128) as nat + 128 * g < 128 * p) by (nonlinear_arith)
            requires
                g < p,
                (s[0] % 128) < 128,
        ;
    }
}

pub proof fn lemma_last_byte_at(bytes: Seq<u8>, e: nat)
    requires
        e < bytes.len(),
        bytes[e as int] < 128,
        forall|j: int| 0 <= j < e ==> bytes[j] >= 128,
    ensures
        last_byte(bytes) == Some(e),
    decreases e,
{
    if e > 0 {
        lemma_last_byte_at(bytes.drop_first(), (e - 1) as nat);
    }
}

pub proof fn lemma_last_byte_beyond(bytes: Seq<u8>, i: nat)
    requires
        i <= bytes.len(),
        forall|j: int| 0 <= j < i ==> bytes[j] >= 128,
    ensures
        last_byte(bytes) matches Some(e) ==> e >= i,
        i == bytes.len() ==> last_byte(bytes) is None,
    decreases i,
{
    if i > 0 {
        lemma_last_byte_beyond(bytes.drop_first(), (i - 1) as nat);
    } else if bytes.len() == 0 {
    }
}

/// Decode an unsigned `bits`-bit LEB128 integer from the front of `bytes`; the result is the
/// integer and the number of bytes it took.
pub fn decode_unsigned(bytes: &[u8], bits: u32) -> (r: Result<(u128, usize), Error>)
    requires
        1 <= bits <= 128,
    ensures
        match uleb_decode(bytes@, bits as nat) {
            LebOutcome::Value(v, n) => r == Ok::<(u128, usize), Error>((v as u128, n as usize))
                && 0 <= v < pow2(bits as nat) && n <= bytes@.len(),
            LebOutcome::Eof => r matches Err(e) && e is Eof,
            LebOutcome::Overflow => r matches Err(e) && e is Leb128Overflow,
        },
{
    let mut value: u128 = 0;
    let mut i: usize = 0;
    proof {
        lemma2_to64();
        assert(bytes@.take(0) =~= Seq::<u8>::empty());
    }
    loop
        invariant
            1 <= bits <= 128,
            i <= bytes@.len(),
            7 * i < bits,
            forall|j: int| 0 <= j < i ==> bytes@[j] >= 128,
            value == groups_value(bytes@.take(i as int)),
            value < pow2(7 * i as nat),
        decreases bytes@.len() - i,
    {
        proof {
            lemma2_to64();
        }
        if i >= bytes.len() {
            proof {
                lemma_last_byte_beyond(bytes@, i as nat);
            }
            return Err(Error::Eof);
        }
        let next = bytes[i];
        let low = next % 128;
        let has_successor = next >= 128;
        let shift = 7 * i as u32;
        if shift + 7 >= bits {
            let kept = bits - shift;
            proof {
                lemma_pow2_strictly_increases(kept as nat, 8);
                vstd::bits::lemma_u8_shr_is_div(next, kept as u8);
            }
            if has_successor || (next >> kept as u8) != 0 {
                proof {
                    lemma_last_byte_beyond(bytes@, i as nat);
                    if !has_successor {
                        lemma_last_byte_at(bytes@, i as nat);
                        assert(next as nat / pow2(kept as nat) != 0);
                        if (next % 128) < pow2(kept as nat) {
                            lemma_div_small(next as nat, pow2(kept as nat));
                        }
                    } else {
                        lemma_last_byte_beyond(bytes@, (i + 1) as nat);
                    }
                }
                return Err(Error::Leb128Overflow);
            }
        }
        let scale = pow2_u128(shift);
        proof {
            lemma_groups_value_snoc(bytes@.take(i as int), next);
            assert(bytes@.take(i as int).push(next) =~= bytes@.take(i + 1));
            lemma_groups_value_bound(bytes@.take(i + 1));
            lemma_pow2_adds(7 * i as nat, 7);
            if shift + 7 >= bits {
                // The last group keeps only the bits that fit.
                assert(low < pow2((bits - shift) as nat)) by {
                    if low >= pow2((bits - shift) as nat) {
                        vstd::arithmetic::div_mod::lemma_div_is_ordered(pow2((bits - shift) as nat) as int, next as int, pow2((bits - shift) as nat) as int);
                        vstd::arithmetic::div_mod::lemma_div_by_self(pow2((bits - shift) as nat) as int);
                    }
                }
                crate::bits::lemma_append_bound(value as nat, shift as nat, low as nat, (bits - shift) as nat);
                lemma_mul_is_commutative(pow2(shift as nat) as int, low as int);
                if bits < 128 {
                    lemma_pow2_strictly_increases(bits as nat, 128);
                }
                lemma_pow2_adds(64, 64);
            } else {
                lemma_pow2_strictly_increases((7 * i + 7) as nat, 128);
                lemma_pow2_strictly_increases((7 * i + 7) as nat, bits as nat);
                lemma_pow2_adds(64, 64);
                lemma_mul_inequality(low as int, 128, pow2(shift as nat) as int);
            }
        }
        value = value + (low as u128) * scale;
        i = i + 1;
        if !has_successor {
            proof {
                lemma_last_byte_at(bytes@, (i - 1) as nat);
            }
            return Ok((value, i));
        }
    }
}

/// Decode a signed `bits`-bit LEB128 integer from the front of `bytes`; the result is the
/// integer and the number of bytes it took.
pub fn decode_signed(bytes: &[u8], bits: u32) -> (r: Result<(i128, usize), Error>)
    requires
        2 <= bits <= 128,
    ensures
        match sleb_decode(bytes@, bits as nat) {
            LebOutcome::Value(v, n) => r == Ok::<(i128, usize), Error>((v as i128, n as usize))
                && -pow2((bits - 1) as nat) <= v < pow2((bits - 1) as nat) && n <= bytes@.len(),
            LebOutcome::Eof => r matches Err(e) && e is Eof,
            LebOutcome::Overflow => r matches Err(e) && e is Leb128Overflow,
        },
{
    let mut value: u128 = 0;
    let mut i: usize = 0;
    proof {
        lemma2_to64();
        assert(bytes@.take(0) =~= Seq::<u8>::empty());
    }
    loop
        invariant
            2 <= bits <= 128,
            i <= bytes@.len(),
            7 * i < bits,
            forall|j: int| 0 <= j < i ==> bytes@[j] >= 128,
            value == groups_value(bytes@.take(i as int)),
            value < pow2(7 * i as nat),
        decreases bytes@.len() - i,
    {
        proof {
            lemma2_to64();
            lemma_pow2_adds(64, 64);
        }
        if i >= bytes.len() {
            proof {
                lemma_last_byte_beyond(bytes@, i as nat);
            }
            return Err(Error::Eof);
        }
        let next = bytes[i];
        let low = next % 128;
        let has_successor = next >= 128;
        let shift = 7 * i as u32;
        if shift + 7 >= bits {
            let kept = bits - shift;
            proof {
                lemma_pow2_strictly_increases(kept as nat, 8);
                vstd::bits::lemma_u8_shr_is_div(low, kept as u8);
                vstd::bits::lemma_u8_pow2_no_overflow((7 - kept) as nat);
                vstd::bits::lemma_u8_shl_is_mul(1, (7 - kept) as u8);
                if 7 - kept < 6 {
                    lemma_pow2_strictly_increases((7 - kept) as nat, 6);
                }
            }
            let top = low >> kept as u8;
            let all_ones: u8 = (1u8 << (7 - kept) as u8) - 1;
            if has_successor || !(top == 0 || top == all_ones) {
                proof {
                    lemma_last_byte_beyond(bytes@, i as nat);
                    if !has_successor {
                        lemma_last_byte_at(bytes@, i as nat);
                    } else {
                        lemma_last_byte_beyond(bytes@, (i + 1) as nat);
                    }
                }
                return Err(Error::Leb128Overflow);
            }
            proof {
                lemma_last_byte_at(bytes@, i as nat);
                lemma_pow2_pos(kept as nat);
                lemma_pow2_strictly_increases(kept as nat, 8);
            }
            let kept_scale = pow2_u128(kept);
            let scale = pow2_u128(shift);
            let part = (low as u128) % kept_scale;
            proof {
                crate::bits::lemma_append_bound(value as nat, shift as nat, part as nat, kept as nat);
                lemma_mul_is_commutative(pow2(shift as nat) as int, part as int);
                if bits < 128 {
                    lemma_pow2_strictly_increases(bits as nat, 128);
                }
                assert(bytes@.take(i as int) =~= bytes@.take(i as int));
            }
            let u = value + part * scale;
            let half = pow2_u128(bits - 1);
            proof {
                vstd::arithmetic::power2::lemma_pow2_unfold(bits as nat);
            }
            if u >= half {
                let max: u128 = if bits == 128 { u128::MAX } else { pow2_u128(bits) - 1 };
                let result = -((max - u) as i128) - 1;
                return Ok((result, i + 1));
            } else {
                return Ok((u as i128, i + 1));
            }
        }
        let scale = pow2_u128(shift);
        proof {
            lemma_groups_value_snoc(bytes@.take(i as int), next);
            assert(bytes@.take(i as int).push(next) =~= bytes@.take(i + 1));
            lemma_groups_value_bound(bytes@.take(i + 1));
            lemma_pow2_adds(7 * i as nat, 7);
            lemma_pow2_strictly_increases((7 * i + 7) as nat, 128);
            lemma_pow2_strictly_increases((7 * i + 7) as nat, (bits - 1) as nat + 1);
            lemma_mul_inequality(low as int, 128, pow2(shift as nat) as int);
        }
        value = value + (low as u128) * scale;
        i = i + 1;
        if !has_successor {
            proof {
                lemma_last_byte_at(bytes@, (i - 1) as nat);
                if 7 * i < bits - 1 {
                    lemma_pow2_strictly_increases((7 * i) as nat, (bits - 1) as nat);
                }
            }
            proof {
                lemma_pow2_strictly_increases((7 * i) as nat, 127);
                lemma_pow2_adds(64, 63);
                lemma2_to64();
                lemma2_to64_rest();
                assert(pow2(127) == 0x8000_0000_0000_0000_0000_0000_0000_0000);
                assert(value < pow2(7 * i as nat));
                assert(value < pow2(127));
            }
            if low >= 64 {
                let extend = pow2_u128(7 * i as u32);
                return Ok(((value as i128) - (extend as i128), i));
            } else {
                return Ok((value as i128, i));
            }
        }
    }
}

/// The shape of the unsigned encoding: every byte but the last has a successor, the groups
/// hold `v`, and no shorter encoding would hold it.
pub proof fn lemma_uleb_shape(v: nat)
    ensures
        uleb128(v).len() >= 1,
        forall|j: int| 0 <= j < uleb128(v).len() - 1 ==> uleb128(v)[j] >= 128,
        uleb128(v)[uleb128(v).len() - 1] < 128,
        groups_value(uleb128(v)) == v,
        uleb128(v).len() == 1 || pow2(7 * (uleb128(v).len() - 1) as nat) <= v,
    decreases v,
{
    lemma2_to64();
    if v < 128 {
        assert(uleb128(v).drop_first() =~= Seq::<u8>::empty());
        assert(groups_value(uleb128(v)) == v % 128 + 128 * groups_value(Seq::<u8>::empty()));
    } else {
        let t = uleb128(v / 128);
        lemma_uleb_shape(v / 128);
        let enc = uleb128(v);
        assert(enc == seq![(128 + v % 128) as u8] + t);
        assert forall|j: int| 0 <= j < enc.len() - 1 implies enc[j] >= 128 by {
            if j > 0 {
                assert(enc[j] == t[j - 1]);
            }
        }
        assert(enc.drop_first() =~= t);
        lemma_fundamental_div_mod(v as int, 128);
        assert(enc[0] % 128 == v % 128);
        assert(groups_value(enc) == v % 128 + 128 * (v / 128));
        if t.len() > 1 {
            lemma_pow2_adds(7, 7 * (t.len() - 1) as nat);
            assert(7 + 7 * (t.len() - 1) as nat == 7 * (enc.len() - 1) as nat);
            let p = pow2(7 * (t.len() - 1) as nat);
            assert(128 * p <= v) by (nonlinear_arith)
                requires
                    p <= v / 128,
                    v == 128 * (v / 128) + v % 128,
                    v % 128 >= 0,
            ;
        }
    }
}

/// The top group of the unsigned encoding: what is left of `v` above the other groups.
proof fn lemma_leb_last_group(enc: Seq<u8>)
    requires
        enc.len() >= 1,
    ensures
        groups_value(enc) == groups_value(enc.take(enc.len() - 1)) + (enc[enc.len() - 1] % 128) as nat
            * pow2(7 * (enc.len() - 1) as nat),
        groups_value(enc.take(enc.len() - 1)) < pow2(7 * (enc.len() - 1) as nat),
{
    let e = enc.len() - 1;
    assert(enc.take(e).push(enc[e]) =~= enc);
    lemma_groups_value_snoc(enc.take(e), enc[e]);
    lemma_groups_value_bound(enc.take(e));
}

/// Decoding the unsigned encoding of a value that fits gives the value back.
pub proof fn lemma_uleb_round_trip(v: nat, bits: nat, rest: Seq<u8>)
    requires
        1 <= bits,
        v < pow2(bits),
    ensures
        uleb_decode(uleb128(v) + rest, bits) == LebOutcome::Value(v as int, uleb128(v).len()),
{
    lemma_uleb_shape(v);
    let enc = uleb128(v);
    let s = enc + rest;
    let e = (enc.len() - 1) as nat;
    assert forall|j: int| 0 <= j < e implies s[j] >= 128 by {
        assert(s[j] == enc[j]);
    }
    lemma_last_byte_at(s, e);
    assert(s.take((e + 1) as int) =~= enc);
    if e > 0 && 7 * e >= bits {
        if 7 * e > bits {
            lemma_pow2_strictly_increases(bits, 7 * e);
        }
    }
    assert(7 * e < bits);
    lemma_leb_last_group(enc);
    let g = groups_value(enc.take(e as int));
    let last = (enc[e as int] % 128) as nat;
    let kept = (bits - 7 * e) as nat;
    lemma_pow2_adds(kept, 7 * e);
    assert(last < pow2(kept)) by {
        let p = pow2(7 * e);
        let q = pow2(kept);
        lemma_pow2_pos(7 * e);
        assert(last < q) by (nonlinear_arith)
            requires
                g + last * p < q * p,
                p > 0,
        ;
    }
}

/// The shape of the signed encoding: every byte but the last has a successor, the groups
/// hold `v` once the sign of the last group is taken off, and no shorter encoding would hold it.
pub proof fn lemma_sleb_shape(v: int)
    ensures
        sleb128(v).len() >= 1,
        forall|j: int| 0 <= j < sleb128(v).len() - 1 ==> sleb128(v)[j] >= 128,
        sleb128(v)[sleb128(v).len() - 1] < 128,
        groups_value(sleb128(v)) == v + (if sleb128(v)[sleb128(v).len() - 1] >= 64 {
            pow2(7 * sleb128(v).len())
        } else {
            0
        }),
        -pow2((7 * sleb128(v).len() - 1) as nat) <= v < pow2((7 * sleb128(v).len() - 1) as nat),
        sleb128(v).len() == 1 || !(-pow2((7 * (sleb128(v).len() - 1) - 1) as nat) <= v < pow2(
            (7 * (sleb128(v).len() - 1) - 1) as nat,
        )),
    decreases (if v >= 0 { v } else { -v }),
{
    lemma2_to64();
    lemma_fundamental_div_mod(v, 128);
    if sleb_last(v) {
        assert(sleb128(v).drop_first() =~= Seq::<u8>::empty());
        assert(groups_value(sleb128(v)) == (v % 128) + 128 * groups_value(Seq::<u8>::empty()));
    } else {
        lemma_sleb_decreases(v);
        let r = v / 128;
        let low = v % 128;
        let t = sleb128(r);
        lemma_sleb_shape(r);
        let enc = sleb128(v);
        let lt = t.len();
        assert(enc == seq![(128 + low) as u8] + t);
        assert forall|j: int| 0 <= j < enc.len() - 1 implies enc[j] >= 128 by {
            if j > 0 {
                assert(enc[j] == t[j - 1]);
            }
        }
        assert(enc.drop_first() =~= t);
        assert(enc[enc.len() - 1] == t[lt - 1]);
        lemma_pow2_adds(7, 7 * lt);
        lemma_pow2_adds(7, (7 * lt - 1) as nat);
        assert(7 * enc.len() == 7 + 7 * lt);
        assert((7 * enc.len() - 1) as nat == 7 + (7 * lt - 1) as nat);
        let c: int = if t[lt - 1] >= 64 { pow2(7 * lt) as int } else { 0 };
        assert(enc[0] % 128 == low);
        assert(groups_value(enc) == low + 128 * groups_value(t));
        assert(groups_value(t) == r + c);
        assert(128 * (r + c) == 128 * r + 128 * c);
        let pp = pow2((7 * lt - 1) as nat);
        assert(-128 * pp <= 128 * r + low < 128 * pp) by (nonlinear_arith)
            requires
                -pp <= r < pp,
                0 <= low < 128,
        ;
        if lt == 1 {
            assert(7 * (enc.len() - 1) - 1 == 6);
        } else {
            let k = (7 * (lt - 1) - 1) as nat;
            lemma_pow2_adds(7, k);
            assert((7 * (enc.len() - 1) - 1) as nat == 7 + k);
            let pk = pow2(k);
            assert(!(-128 * pk <= 128 * r + low < 128 * pk)) by (nonlinear_arith)
                requires
                    !(-pk <= r < pk),
                    0 <= low < 128,
                    pk >= 1,
            ;
        }
    }
}

/// Decoding the signed encoding of a value that fits gives the value back.
pub proof fn lemma_sleb_round_trip(v: int, bits: nat, rest: Seq<u8>)
    requires
        2 <= bits,
        -pow2((bits - 1) as nat) <= v < pow2((bits - 1) as nat),
    ensures
        sleb_decode(sleb128(v) + rest, bits) == LebOutcome::Value(v, sleb128(v).len()),
{
    lemma2_to64();
    lemma_sleb_shape(v);
    let enc = sleb128(v);
    let s = enc + rest;
    let e = (enc.len() - 1) as nat;
    assert forall|j: int| 0 <= j < e implies s[j] >= 128 by {
        assert(s[j] == enc[j]);
    }
    lemma_last_byte_at(s, e);
    assert(s.take((e + 1) as int) =~= enc);
    assert(s.take(e as int) =~= enc.take(e as int));
    assert(s[e as int] == enc[e as int]);
    if e > 0 && 7 * e >= bits {
        let k = (7 * e - 1) as nat;
        if k > (bits - 1) as nat {
            lemma_pow2_strictly_increases((bits - 1) as nat, k);
        }
    }
    assert(7 * e < bits);
    let m = max_leb_bytes(bits);
    if e == m - 1 {
        lemma_leb_last_group(enc);
        let g = groups_value(enc.take(e as int));
        let low = (enc[e as int] % 128) as nat;
        let kept = (bits - 7 * e) as nat;
        let p = pow2(7 * e);
        let q = pow2(kept);
        let h = pow2((kept - 1) as nat);
        lemma_pow2_pos(7 * e);
        lemma_pow2_adds(kept, 7 * e);
        lemma_pow2_adds((kept - 1) as nat, 7 * e);
        lemma_pow2_adds(7, 7 * e);
        vstd::arithmetic::power2::lemma_pow2_unfold(kept);
        lemma_pow2_adds(kept, (7 - kept) as nat);
        lemma_pow2_pos((7 - kept) as nat);
        lemma_pow2_pos((kept - 1) as nat);
        assert(7 * enc.len() == 7 + 7 * e);
        assert((bits - 1) as nat == (kept - 1) as nat + 7 * e);
        assert(bits == kept + 7 * e);
        if low >= 64 {
            // A negative value: the last group is `low - 128`.
            assert(g + low * p == v + 128 * p);
            let z = (q + low - 128) as int;
            assert(0 <= z < q && low == (pow2((7 - kept) as nat) - 1) * q + z && h <= z) by (nonlinear_arith)
                requires
                    g + low * p == v + 128 * p,
                    -(h * p) <= v,
                    v < h * p,
                    0 <= g < p,
                    q == 2 * h,
                    q * pow2((7 - kept) as nat) == 128,
                    low < 128,
                    p > 0,
                    h > 0,
                    z == q + low - 128,
            ;
            lemma_fundamental_div_mod_converse(low as int, q as int, pow2((7 - kept) as nat) - 1, z);
            assert(g + z * p == v + q * p) by (nonlinear_arith)
                requires
                    g + low * p == v + 128 * p,
                    z == q + low - 128,
                    q * pow2((7 - kept) as nat) == 128,
            ;
            assert(g + z * p >= h * p) by (nonlinear_arith)
                requires
                    g >= 0,
                    z >= h,
                    p > 0,
            ;
        } else {
            assert(g + low * p == v);
            assert(low < h) by (nonlinear_arith)
                requires
                    g + low * p == v,
                    v < h * p,
                    g >= 0,
                    p > 0,
            ;
            lemma_div_small(low, q);
            lemma_small_mod_nat(low, q);
        }
    }
}

/// Types written as LEB128 integers.
pub trait EncodeLeb128 {
    /// The bytes that encoding this value appends.
    spec fn leb128_encoding(&self) -> Seq<u8>;

    /// Append the LEB128 encoding of the value.
    fn encode_leb128(self, bytes: &mut Vec<u8>)
        ensures
            final(bytes)@ == old(bytes)@ + self.leb128_encoding(),
    ;
}

/// Types read from LEB128 integers.
pub trait DecodeLeb128: Sized {
    /// What decoding the front of `bytes` gives.
    spec fn leb128_decoded(bytes: Seq<u8>) -> LebOutcome;

    /// The number this value is.
    spec fn leb128_value(&self) -> int;

    /// Decode a value from the front of `bytes`; the rest of the bytes comes back with it.
    fn decode_leb128(bytes: &[u8]) -> (r: Result<(Self, &[u8]), Error>)
        ensures
            match Self::leb128_decoded(bytes@) {
                LebOutcome::Value(v, n) => n <= bytes@.len() && (r matches Ok((x, rest))
                    && x.leb128_value() == v && rest@ == bytes@.skip(n as int)),
                LebOutcome::Eof => r matches Err(e) && e is Eof,
                LebOutcome::Overflow => r matches Err(e) && e is Leb128Overflow,
            },
    ;
}

impl EncodeLeb128 for u8 {
    open spec fn leb128_encoding(&self) -> Seq<u8> {
        uleb128(*self as nat)
    }

    fn encode_leb128(self, bytes: &mut Vec<u8>) {
        encode_unsigned(self as u128, bytes)
    }
}

impl DecodeLeb128 for u8 {
    open spec fn leb128_decoded(bytes: Seq<u8>) -> LebOutcome {
        uleb_decode(bytes, 8 as nat)
    }

    open spec fn leb128_value(&self) -> int {
        *self as int
    }

    fn decode_leb128(bytes: &[u8]) -> (r: Result<(u8, &[u8]), Error>) {
        proof {
            lemma_width_bounds();
        }
        let (value, n) = match decode_unsigned(bytes, 8) {
            Ok(d) => d,
            Err(e) => return Err(e),
        };
        let (_, rest) = bytes.split_at(n);
        Ok((value as u8, rest))
    }
}

impl EncodeLeb128 for u16 {
    open spec fn leb128_encoding(&self) -> Seq<u8> {
        uleb128(*self as nat)
    }

    fn encode_leb128(self, bytes: &mut Vec<u8>) {
        encode_unsigned(self as u128, bytes)
    }
}

impl DecodeLeb128 for u16 {
    open spec fn leb128_decoded(bytes: Seq<u8>) -> LebOutcome {
        uleb_decode(bytes, 16 as nat)
    }

    open spec fn leb128_value(&self) -> int {
        *self as int
    }

    fn decode_leb128(bytes: &[u8]) -> (r: Result<(u16, &[u8]), Error>) {
        proof {
            lemma_width_bounds();
        }
        let (value, n) = match decode_unsigned(bytes, 16) {
            Ok(d) => d,
            Err(e) => return Err(e),
        };
        let (_, rest) = bytes.split_at(n);
        Ok((value as u16, rest))
    }
}

impl EncodeLeb128 for u32 {
    open spec fn leb128_encoding(&self) -> Seq<u8> {
        uleb128(*self as nat)
    }

    fn encode_leb128(self, bytes: &mut Vec<u8>) {
        encode_unsigned(self as u128, bytes)
    }
}

impl DecodeLeb128 for u32 {
    open spec fn leb128_decoded(bytes: Seq<u8>) -> LebOutcome {
        uleb_decode(bytes, 32 as nat)
    }

    open spec fn leb128_value(&self) -> int {
        *self as int
    }

    fn decode_leb128(bytes: &[u8]) -> (r: Result<(u32, &[u8]), Error>) {
        proof {
            lemma_width_bounds();
        }
        let (value, n) = match decode_unsigned(bytes, 32) {
            Ok(d) => d,
            Err(e) => return Err(e),
        };
        let (_, rest) = bytes.split_at(n);
        Ok((value as u32, rest))
    }
}

impl EncodeLeb128 for u64 {
    open spec fn leb128_encoding(&self) -> Seq<u8> {
        uleb128(*self as nat)
    }

    fn encode_leb128(self, bytes: &mut Vec<u8>) {
        encode_unsigned(self as u128, bytes)
    }
}

impl DecodeLeb128 for u64 {
    open spec fn leb128_decoded(bytes: Seq<u8>) -> LebOutcome {
        uleb_decode(bytes, 64 as nat)
    }

    open spec fn leb128_value(&self) -> int {
        *self as int
    }

    fn decode_leb128(bytes: &[u8]) -> (r: Result<(u64, &[u8]), Error>) {
        proof {
            lemma_width_bounds();
        }
        let (value, n) = match decode_unsigned(bytes, 64) {
            Ok(d) => d,
            Err(e) => return Err(e),
        };
        let (_, rest) = bytes.split_at(n);
        Ok((value as u64, rest))
    }
}

impl EncodeLeb128 for u128 {
    open spec fn leb128_encoding(&self) -> Seq<u8> {
        uleb128(*self as nat)
    }

    fn encode_leb128(self, bytes: &mut Vec<u8>) {
        encode_unsigned(self as u128, bytes)
    }
}

impl DecodeLeb128 for u128 {
    open spec fn leb128_decoded(bytes: Seq<u8>) -> LebOutcome {
        uleb_decode(bytes, 128 as nat)
    }

    open spec fn leb128_value(&self) -> int {
        *self as int
    }

    fn decode_leb128(bytes: &[u8]) -> (r: Result<(u128, &[u8]), Error>) {
        proof {
            lemma_width_bounds();
        }
        let (value, n) = match decode_unsigned(bytes, 128) {
            Ok(d) => d,
            Err(e) => return Err(e),
        };
        let (_, rest) = bytes.split_at(n);
        Ok((value as u128, rest))
    }
}

impl EncodeLeb128 for usize {
    open spec fn leb128_encoding(&self) -> Seq<u8> {
        uleb128(*self as nat)
    }

    fn encode_leb128(self, bytes: &mut Vec<u8>) {
        encode_unsigned(self as u128, bytes)
    }
}

impl DecodeLeb128 for usize {
    open spec fn leb128_decoded(bytes: Seq<u8>) -> LebOutcome {
        uleb_decode(bytes, usize::BITS as nat)
    }

    open spec fn leb128_value(&self) -> int {
        *self as int
    }

    fn decode_leb128(bytes: &[u8]) -> (r: Result<(usize, &[u8]), Error>) {
        proof {
            lemma_width_bounds();
        }
        let (value, n) = match decode_unsigned(bytes, usize::BITS) {
            Ok(d) => d,
            Err(e) => return Err(e),
        };
        let (_, rest) = bytes.split_at(n);
        Ok((value as usize, rest))
    }
}

impl EncodeLeb128 for i8 {
    open spec fn leb128_encoding(&self) -> Seq<u8> {
        sleb128(*self as int)
    }

    fn encode_leb128(self, bytes: &mut Vec<u8>) {
        encode_signed(self as i128, bytes)
    }
}

impl DecodeLeb128 for i8 {
    open spec fn leb128_decoded(bytes: Seq<u8>) -> LebOutcome {
        sleb_decode(bytes, 8 as nat)
    }

    open spec fn leb128_value(&self) -> int {
        *self as int
    }

    fn decode_leb128(bytes: &[u8]) -> (r: Result<(i8, &[u8]), Error>) {
        proof {
            lemma_width_bounds();
        }
        let (value, n) = match decode_signed(bytes, 8) {
            Ok(d) => d,
            Err(e) => return Err(e),
        };
        let (_, rest) = bytes.split_at(n);
        Ok((value as i8, rest))
    }
}

impl EncodeLeb128 for i16 {
    open spec fn leb128_encoding(&self) -> Seq<u8> {
        sleb128(*self as int)
    }

    fn encode_leb128(self, bytes: &mut Vec<u8>) {
        encode_signed(self as i128, bytes)
    }
}

impl DecodeLeb128 for i16 {
    open spec fn leb128_decoded(bytes: Seq<u8>) -> LebOutcome {
        sleb_decode(bytes, 16 as nat)
    }

    open spec fn leb128_value(&self) -> int {
        *self as int
    }

    fn decode_leb128(bytes: &[u8]) -> (r: Result<(i16, &[u8]), Error>) {
        proof {
            lemma_width_bounds();
        }
        let (value, n) = match decode_signed(bytes, 16) {
            Ok(d) => d,
            Err(e) => return Err(e),
        };
        let (_, rest) = bytes.split_at(n);
        Ok((value as i16, rest))
    }
}

impl EncodeLeb128 for i32 {
    open spec fn leb128_encoding(&self) -> Seq<u8> {
        sleb128(*self as int)
    }

    fn encode_leb128(self, bytes: &mut Vec<u8>) {
        encode_signed(self as i128, bytes)
    }
}

impl DecodeLeb128 for i32 {
    open spec fn leb128_decoded(bytes: Seq<u8>) -> LebOutcome {
        sleb_decode(bytes, 32 as nat)
    }

    open spec fn leb128_value(&self) -> int {
        *self as int
    }

    fn decode_leb128(bytes: &[u8]) -> (r: Result<(i32, &[u8]), Error>) {
        proof {
            lemma_width_bounds();
        }
        let (value, n) = match decode_signed(bytes, 32) {
            Ok(d) => d,
            Err(e) => return Err(e),
        };
        let (_, rest) = bytes.split_at(n);
        Ok((value as i32, rest))
    }
}

impl EncodeLeb128 for i64 {
    open spec fn leb128_encoding(&self) -> Seq<u8> {
        sleb128(*self as int)
    }

    fn encode_leb128(self, bytes: &mut Vec<u8>) {
        encode_signed(self as i128, bytes)
    }
}

impl DecodeLeb128 for i64 {
    open spec fn leb128_decoded(bytes: Seq<u8>) -> LebOutcome {
        sleb_decode(bytes, 64 as nat)
    }

    open spec fn leb128_value(&self) -> int {
        *self as int
    }

    fn decode_leb128(bytes: &[u8]) -> (r: Result<(i64, &[u8]), Error>) {
        proof {
            lemma_width_bounds();
        }
        let (value, n) = match decode_signed(bytes, 64) {
            Ok(d) => d,
            Err(e) => return Err(e),
        };
        let (_, rest) = bytes.split_at(n);
        Ok((value as i64, rest))
    }
}

impl EncodeLeb128 for i128 {
    open spec fn leb128_encoding(&self) -> Seq<u8> {
        sleb128(*self as int)
    }

    fn encode_leb128(self, bytes: &mut Vec<u8>) {
        encode_signed(self as i128, bytes)
    }
}

impl DecodeLeb128 for i128 {
    open spec fn leb128_decoded(bytes: Seq<u8>) -> LebOutcome {
        sleb_decode(bytes, 128 as nat)
    }

    open spec fn leb128_value(&self) -> int {
        *self as int
    }

    fn decode_leb128(bytes: &[u8]) -> (r: Result<(i128, &[u8]), Error>) {
        proof {
            lemma_width_bounds();
        }
        let (value, n) = match decode_signed(bytes, 128) {
            Ok(d) => d,
            Err(e) => return Err(e),
        };
        let (_, rest) = bytes.split_at(n);
        Ok((value as i128, rest))
    }
}

impl EncodeLeb128 for isize {
    open spec fn leb128_encoding(&self) -> Seq<u8> {
        sleb128(*self as int)
    }

    fn encode_leb128(self, bytes: &mut Vec<u8>) {
        encode_signed(self as i128, bytes)
    }
}

impl DecodeLeb128 for isize {
    open spec fn leb128_decoded(bytes: Seq<u8>) -> LebOutcome {
        sleb_decode(bytes, usize::BITS as nat)
    }

    open spec fn leb128_value(&self) -> int {
        *self as int
    }

    fn decode_leb128(bytes: &[u8]) -> (r: Result<(isize, &[u8]), Error>) {
        proof {
            lemma_width_bounds();
        }
        let (value, n) = match decode_signed(bytes, usize::BITS) {
            Ok(d) => d,
            Err(e) => return Err(e),
        };
        let (_, rest) = bytes.split_at(n);
        Ok((value as isize, rest))
    }
}

/// The ranges of the integer types, as powers of two.
proof fn lemma_width_bounds()
    ensures
        pow2(8) == 0x100,
        pow2(7) == 0x80,
        pow2(16) == 0x1_0000,
        pow2(15) == 0x8000,
        pow2(32) == 0x1_0000_0000,
        pow2(31) == 0x8000_0000,
        pow2(64) == 0x1_0000_0000_0000_0000,
        pow2(63) == 0x8000_0000_0000_0000,
        pow2(128) == 0x1_0000_0000_0000_0000_0000_0000_0000_0000,
        pow2(127) == 0x8000_0000_0000_0000_0000_0000_0000_0000,
        usize::BITS == 32 || usize::BITS == 64,
        pow2(usize::BITS as nat) == usize::MAX + 1,
        pow2((usize::BITS - 1) as nat) == isize::MAX + 1,
{
    lemma2_to64();
    lemma2_to64_rest();
    lemma_pow2_adds(64, 64);
    lemma_pow2_adds(64, 63);
}

} // verus!
