//! Locating the most significant and the least significant set bit of a
//! 256-bit unsigned integer in a fixed number of halving steps.

use vstd::prelude::*;

verus! {

use crate::error::BitMathError;
use crate::u256::U256;
use vstd::arithmetic::div_mod::lemma_fundamental_div_mod;
use vstd::arithmetic::div_mod::lemma_mod_division_less_than_divisor;
use vstd::arithmetic::div_mod::lemma_mod_multiples_vanish;
use vstd::arithmetic::div_mod::lemma_small_mod;
use vstd::arithmetic::div_mod::lemma_truncate_middle;
use vstd::arithmetic::mul::lemma_mul_inequality;
use vstd::arithmetic::mul::lemma_mul_is_associative;
use vstd::arithmetic::mul::lemma_mul_is_distributive_add;
use vstd::arithmetic::mul::lemma_mul_is_commutative;
use vstd::arithmetic::mul::lemma_mul_is_distributive_add_other_way;
use vstd::arithmetic::power2::lemma2_to64;
use vstd::arithmetic::power2::lemma_pow2_adds;
use vstd::arithmetic::power2::lemma_pow2_pos;
use vstd::arithmetic::power2::lemma_pow2_strictly_increases;
use vstd::arithmetic::power2::lemma_pow2_unfold;
use vstd::arithmetic::power2::pow2;
use vstd::bits::lemma_low_bits_mask_values;
use vstd::bits::lemma_u64_low_bits_mask_is_mod;
use vstd::bits::lemma_u64_shr_is_div;

/// `i` is the index of the highest set bit of `n`: the unique position with
/// `2^i <= n < 2^(i+1)`.
pub open spec fn is_most_significant_bit(n: nat, i: nat) -> bool {
    pow2(i) <= n < pow2(i + 1)
}

/// `i` is the index of the lowest set bit of `n`: bit `i` of `n` is set and
/// every bit below it is clear, i.e. `n` is `2^i` modulo `2^(i+1)`.
pub open spec fn is_least_significant_bit(n: nat, i: nat) -> bool {
    n % pow2(i + 1) == pow2(i)
}

/// The highest set bit of `hi * 2^k + lo` sits `k` positions above the
/// highest set bit of `hi`, as long as `lo` stays below `2^k`.
proof fn lemma_msb_compose(hi: nat, lo: nat, k: nat, i: nat)
    requires
        lo < pow2(k),
        is_most_significant_bit(hi, i),
    ensures
        is_most_significant_bit(hi * pow2(k) + lo, i + k),
{
    lemma_pow2_adds(i, k);
    lemma_pow2_adds(i + 1, k);
    lemma_mul_inequality(pow2(i) as int, hi as int, pow2(k) as int);
    lemma_mul_is_distributive_add_other_way(pow2(k) as int, hi as int, 1);
    lemma_mul_inequality((hi + 1) as int, pow2(i + 1) as int, pow2(k) as int);
}

/// One halving step of the most-significant-bit search: splitting the working
/// value `v` as `vq * 2^w + vr` moves `vq` up into the accumulated scale
/// `2^(s+w)` and folds `vr` into the discarded remainder.
proof fn lemma_msb_step(x: nat, v: nat, s: nat, rem: nat, vq: nat, vr: nat, w: nat)
    requires
        x == v * pow2(s) + rem,
        rem < pow2(s),
        pow2(w) <= v < pow2(w + w),
        v == vq * pow2(w) + vr,
        vr < pow2(w),
    ensures
        x == vq * pow2(s + w) + (vr * pow2(s) + rem),
        vr * pow2(s) + rem < pow2(s + w),
        1 <= vq < pow2(w),
{
    lemma_pow2_pos(w);
    lemma_pow2_pos(s);
    lemma_mul_is_distributive_add_other_way(pow2(s) as int, (vq * pow2(w)) as int, vr as int);
    lemma_mul_is_associative(vq as int, pow2(w) as int, pow2(s) as int);
    lemma_pow2_adds(w, s);
    lemma_pow2_adds(s, w);
    lemma_mul_is_distributive_add_other_way(pow2(s) as int, vr as int, 1);
    lemma_mul_inequality((vr + 1) as int, pow2(w) as int, pow2(s) as int);
    if vq == 0 {
        assert(v == vr);
    }
    if vq >= pow2(w) {
        lemma_mul_inequality(pow2(w) as int, vq as int, pow2(w) as int);
        lemma_pow2_adds(w, w);
    }
}

/// Multiplying by `2^0` changes nothing.
proof fn lemma_mul_pow2_zero(a: nat)
    ensures
        a * pow2(0) == a,
{
    lemma2_to64();
    assert(a * pow2(0) == a) by (nonlinear_arith)
        requires
            pow2(0) == 1,
    ;
}

/// A product with a zero factor is zero.
proof fn lemma_mul_zero_left(a: nat, b: nat)
    requires
        a == 0,
    ensures
        a * b == 0,
        b * a == 0,
{
    assert(a * b == 0 && b * a == 0) by (nonlinear_arith)
        requires
            a == 0,
    ;
}

/// Stacking a limb `hi` above `k` bits of `lo` keeps the value below `2^(k+64)`.
proof fn lemma_pair_bound(hi: nat, lo: nat, k: nat)
    requires
        hi < pow2(64),
        lo < pow2(k),
    ensures
        hi * pow2(k) + lo < pow2(k + 64),
{
    lemma_mul_is_distributive_add_other_way(pow2(k) as int, hi as int, 1);
    lemma_mul_inequality((hi + 1) as int, pow2(64) as int, pow2(k) as int);
    lemma_pow2_adds(64, k);
}

/// Most significant bit of a non-zero 64-bit value: binary-search halving
/// over the window widths 32, 16, 8, 4, 2, 1.
fn msb_u64(x: u64) -> (i: u8)
    requires
        x >= 1,
    ensures
        i < 64,
        is_most_significant_bit(x as nat, i as nat),
{
    let mut v: u64 = x;
    let mut r: u8 = 0;
    let ghost mut s: nat = 0;
    let ghost mut rem: nat = 0;
    proof {
        lemma2_to64();
    }
    // Invariant entering the step of window width w:
    //   x == v * pow2(s) + rem,  rem < pow2(s),  1 <= v < pow2(2 * w),  r == s.
    if v >= 0x1_0000_0000 {
        proof {
            lemma_u64_shr_is_div(v, 32);
            lemma_pow2_pos(32);
            lemma_fundamental_div_mod(v as int, pow2(32) as int);
            lemma_mod_division_less_than_divisor(v as int, pow2(32) as int);
            lemma_mul_is_commutative(pow2(32) as int, (v >> 32u64) as int);
            lemma_msb_step(x as nat, v as nat, s, rem, (v >> 32u64) as nat, v as nat % pow2(32), 32);
            rem = (v as nat % pow2(32)) * pow2(s) + rem;
            s = s + 32;
        }
        v = v >> 32u64;
        r = r + 32;
    }
    assert(x as nat == v as nat * pow2(s) + rem && rem < pow2(s) && 1 <= v < pow2(32) && r == s);
    if v >= 0x1_0000 {
        proof {
            lemma_u64_shr_is_div(v, 16);
            lemma_pow2_pos(16);
            lemma_fundamental_div_mod(v as int, pow2(16) as int);
            lemma_mod_division_less_than_divisor(v as int, pow2(16) as int);
            lemma_mul_is_commutative(pow2(16) as int, (v >> 16u64) as int);
            lemma_msb_step(x as nat, v as nat, s, rem, (v >> 16u64) as nat, v as nat % pow2(16), 16);
            rem = (v as nat % pow2(16)) * pow2(s) + rem;
            s = s + 16;
        }
        v = v >> 16u64;
        r = r + 16;
    }
    assert(x as nat == v as nat * pow2(s) + rem && rem < pow2(s) && 1 <= v < pow2(16) && r == s);
    if v >= 0x100 {
        proof {
            lemma_u64_shr_is_div(v, 8);
            lemma_pow2_pos(8);
            lemma_fundamental_div_mod(v as int, pow2(8) as int);
            lemma_mod_division_less_than_divisor(v as int, pow2(8) as int);
            lemma_mul_is_commutative(pow2(8) as int, (v >> 8u64) as int);
            lemma_msb_step(x as nat, v as nat, s, rem, (v >> 8u64) as nat, v as nat % pow2(8), 8);
            rem = (v as nat % pow2(8)) * pow2(s) + rem;
            s = s + 8;
        }
        v = v >> 8u64;
        r = r + 8;
    }
    assert(x as nat == v as nat * pow2(s) + rem && rem < pow2(s) && 1 <= v < pow2(8) && r == s);
    if v >= 0x10 {
        proof {
            lemma_u64_shr_is_div(v, 4);
            lemma_pow2_pos(4);
            lemma_fundamental_div_mod(v as int, pow2(4) as int);
            lemma_mod_division_less_than_divisor(v as int, pow2(4) as int);
            lemma_mul_is_commutative(pow2(4) as int, (v >> 4u64) as int);
            lemma_msb_step(x as nat, v as nat, s, rem, (v >> 4u64) as nat, v as nat % pow2(4), 4);
            rem = (v as nat % pow2(4)) * pow2(s) + rem;
            s = s + 4;
        }
        v = v >> 4u64;
        r = r + 4;
    }
    assert(x as nat == v as nat * pow2(s) + rem && rem < pow2(s) && 1 <= v < pow2(4) && r == s);
    if v >= 0x4 {
        proof {
            lemma_u64_shr_is_div(v, 2);
            lemma_pow2_pos(2);
            lemma_fundamental_div_mod(v as int, pow2(2) as int);
            lemma_mod_division_less_than_divisor(v as int, pow2(2) as int);
            lemma_mul_is_commutative(pow2(2) as int, (v >> 2u64) as int);
            lemma_msb_step(x as nat, v as nat, s, rem, (v >> 2u64) as nat, v as nat % pow2(2), 2);
            rem = (v as nat % pow2(2)) * pow2(s) + rem;
            s = s + 2;
        }
        v = v >> 2u64;
        r = r + 2;
    }
    assert(x as nat == v as nat * pow2(s) + rem && rem < pow2(s) && 1 <= v < pow2(2) && r == s);
    if v >= 2 {
        proof {
            assert(is_most_significant_bit(v as nat, 1));
            lemma_msb_compose(v as nat, rem, s, 1);
        }
        r + 1
    } else {
        proof {
            assert(v == 1);
            assert(is_most_significant_bit(v as nat, 0));
            lemma_msb_compose(v as nat, rem, s, 0);
        }
        r
    }
}

/// Returns the 0-based index of the highest set bit of `x`: the unique `r`
/// with `2^r <= x < 2^(r+1)`. Fails with `ZeroValue` exactly when `x` is zero.
///
/// Eight binary-search halving steps: the first two select the 64-bit limb
/// that holds the highest set bit, the remaining six narrow the window
/// inside that limb.
pub fn most_significant_bit(x: U256) -> (res: Result<u8, BitMathError>)
    ensures
        match res {
            Ok(i) => x@ != 0 && is_most_significant_bit(x@, i as nat),
            Err(e) => x@ == 0 && e == BitMathError::ZeroValue,
        },
{
    if x.is_zero() {
        return Err(BitMathError::ZeroValue);
    }
    let l0 = x.limbs[0];
    let l1 = x.limbs[1];
    let l2 = x.limbs[2];
    let l3 = x.limbs[3];
    proof {
        lemma2_to64();
    }
    let mut r: u8 = 0;
    let ghost mut k: nat = 0;
    let ghost mut remv: nat = 0;
    // Width-128 halving step: x >= 2^128 exactly when the upper two limbs are
    // not both zero; the matching half becomes the working pair of limbs.
    let (lo, hi): (u64, u64);
    if l2 != 0 || l3 != 0 {
        lo = l2;
        hi = l3;
        r = 128;
        proof {
            lemma_mul_is_distributive_add_other_way(
                pow2(128) as int,
                l2 as int,
                ((l3 as nat) * pow2(64)) as int,
            );
            lemma_mul_is_associative(l3 as int, pow2(64) as int, pow2(128) as int);
            lemma_pow2_adds(64, 128);
            lemma_pair_bound(l1 as nat, l0 as nat, 64);
            k = 128;
            remv = l0 as nat + (l1 as nat) * pow2(64);
        }
    } else {
        lo = l0;
        hi = l1;
        proof {
            lemma_mul_zero_left(l2 as nat, pow2(128));
            lemma_mul_zero_left(l3 as nat, pow2(192));
            lemma_mul_pow2_zero(lo as nat + (hi as nat) * pow2(64));
        }
    }
    assert(x@ == (lo as nat + (hi as nat) * pow2(64)) * pow2(k) + remv);
    assert(remv < pow2(k) && r == k);
    // Width-64 halving step on the selected pair of limbs.
    let v: u64;
    if hi != 0 {
        v = hi;
        r = r + 64;
        proof {
            lemma_mul_is_distributive_add_other_way(
                pow2(k) as int,
                lo as int,
                ((hi as nat) * pow2(64)) as int,
            );
            lemma_mul_is_associative(hi as int, pow2(64) as int, pow2(k) as int);
            lemma_pow2_adds(64, k);
            lemma_pow2_adds(k, 64);
            lemma_pair_bound(lo as nat, remv, k);
            remv = (lo as nat) * pow2(k) + remv;
            k = k + 64;
        }
    } else {
        v = lo;
    }
    assert(x@ == (v as nat) * pow2(k) + remv);
    assert(remv < pow2(k) && r == k);
    assert(v >= 1);
    let i = msb_u64(v);
    proof {
        lemma_msb_compose(v as nat, remv, k, i as nat);
    }
    Ok(r + i)
}

/// One halving step of the least-significant-bit search, shifting branch:
/// when the low `w` bits of the working value `v` are zero, the quotient by
/// `2^w` carries the whole value at scale `s + w`, and the quotient still has
/// a set bit below `w`.
proof fn lemma_lsb_step(x: nat, v: nat, s: nat, vq: nat, w: nat)
    requires
        x == v * pow2(s),
        v == vq * pow2(w),
        v % pow2(w + w) != 0,
    ensures
        x == vq * pow2(s + w),
        vq % pow2(w) != 0,
{
    lemma_pow2_pos(w);
    lemma_pow2_pos(s);
    lemma_mul_is_associative(vq as int, pow2(w) as int, pow2(s) as int);
    lemma_pow2_adds(w, s);
    lemma_pow2_adds(s, w);
    lemma_pow2_adds(w, w);
    lemma_truncate_middle(vq as int, pow2(w) as int, pow2(w) as int);
    lemma_mul_is_commutative(vq as int, pow2(w) as int);
    if vq % pow2(w) == 0 {
        lemma_mul_zero_left((vq % pow2(w)) as nat, pow2(w));
    }
}

/// A value of the form `v * 2^s` with `v` odd has its lowest set bit at `s`.
proof fn lemma_lsb_final(x: nat, v: nat, s: nat)
    requires
        x == v * pow2(s),
        v % 2 == 1,
    ensures
        is_least_significant_bit(x, s),
{
    lemma_pow2_pos(s);
    lemma_pow2_unfold(s + 1);
    lemma_truncate_middle(v as int, pow2(s) as int, 2);
    lemma_mul_is_commutative(v as int, pow2(s) as int);
    lemma_mul_one_right(pow2(s), (v % 2) as nat);
}

/// A product with a factor of one is the other factor.
proof fn lemma_mul_one_right(a: nat, b: nat)
    requires
        b == 1,
    ensures
        a * b == a,
{
    assert(a * b == a) by (nonlinear_arith)
        requires
            b == 1,
    ;
}

/// Adding multiples of `2^k` above `lo` does not move a set bit of `lo` that
/// lies below `k`.
proof fn lemma_lsb_compose_low(hi: nat, lo: nat, k: nat, i: nat)
    requires
        i < k,
        is_least_significant_bit(lo, i),
    ensures
        is_least_significant_bit(hi * pow2(k) + lo, i),
{
    lemma_pow2_pos(i + 1);
    lemma_pow2_adds((k - i - 1) as nat, i + 1);
    lemma_mul_is_associative(hi as int, pow2((k - i - 1) as nat) as int, pow2(i + 1) as int);
    lemma_mul_is_commutative((hi * pow2((k - i - 1) as nat)) as int, pow2(i + 1) as int);
    lemma_mod_multiples_vanish(
        (hi * pow2((k - i - 1) as nat)) as int,
        lo as int,
        pow2(i + 1) as int,
    );
}

/// Scaling by `2^k` moves the lowest set bit up by `k`.
proof fn lemma_lsb_compose_high(hi: nat, k: nat, i: nat)
    requires
        is_least_significant_bit(hi, i),
    ensures
        is_least_significant_bit(hi * pow2(k), i + k),
{
    lemma_pow2_pos(k);
    lemma_pow2_pos(i + 1);
    lemma_truncate_middle(hi as int, pow2(k) as int, pow2(i + 1) as int);
    lemma_mul_is_commutative(hi as int, pow2(k) as int);
    lemma_pow2_adds(k, i + 1);
    lemma_pow2_adds(k, i);
    lemma_pow2_adds(i, k);
}

/// Least significant bit of a non-zero 64-bit value: binary-search halving
/// over the window widths 32, 16, 8, 4, 2, 1, testing the low half of each
/// window through its bit mask.
fn lsb_u64(x: u64) -> (i: u8)
    requires
        x >= 1,
    ensures
        i < 64,
        is_least_significant_bit(x as nat, i as nat),
{
    let mut v: u64 = x;
    let mut r: u8 = 63;
    let ghost mut s: nat = 0;
    proof {
        lemma2_to64();
        lemma_low_bits_mask_values();
        lemma_mul_pow2_zero(x as nat);
        lemma_small_mod(x as nat, pow2(64));
    }
    // Invariant entering the step of window width w:
    //   x == v * pow2(s),  v % pow2(2 * w) != 0,  r == s + 2 * w - 1.
    if v & 0xffff_ffff > 0 {
        r = r - 32;
        proof {
            lemma_u64_low_bits_mask_is_mod(v, 32);
        }
    } else {
        proof {
            lemma_u64_low_bits_mask_is_mod(v, 32);
            lemma_u64_shr_is_div(v, 32);
            lemma_pow2_pos(32);
            lemma_fundamental_div_mod(v as int, pow2(32) as int);
            lemma_mul_is_commutative(pow2(32) as int, (v >> 32u64) as int);
            lemma_lsb_step(x as nat, v as nat, s, (v >> 32u64) as nat, 32);
            s = s + 32;
        }
        v = v >> 32u64;
    }
    assert(x as nat == v as nat * pow2(s) && v as nat % pow2(32) != 0 && r as nat == s + 31);
    if v & 0xffff > 0 {
        r = r - 16;
        proof {
            lemma_u64_low_bits_mask_is_mod(v, 16);
        }
    } else {
        proof {
            lemma_u64_low_bits_mask_is_mod(v, 16);
            lemma_u64_shr_is_div(v, 16);
            lemma_pow2_pos(16);
            lemma_fundamental_div_mod(v as int, pow2(16) as int);
            lemma_mul_is_commutative(pow2(16) as int, (v >> 16u64) as int);
            lemma_lsb_step(x as nat, v as nat, s, (v >> 16u64) as nat, 16);
            s = s + 16;
        }
        v = v >> 16u64;
    }
    assert(x as nat == v as nat * pow2(s) && v as nat % pow2(16) != 0 && r as nat == s + 15);
    if v & 0xff > 0 {
        r = r - 8;
        proof {
            lemma_u64_low_bits_mask_is_mod(v, 8);
        }
    } else {
        proof {
            lemma_u64_low_bits_mask_is_mod(v, 8);
            lemma_u64_shr_is_div(v, 8);
            lemma_pow2_pos(8);
            lemma_fundamental_div_mod(v as int, pow2(8) as int);
            lemma_mul_is_commutative(pow2(8) as int, (v >> 8u64) as int);
            lemma_lsb_step(x as nat, v as nat, s, (v >> 8u64) as nat, 8);
            s = s + 8;
        }
        v = v >> 8u64;
    }
    assert(x as nat == v as nat * pow2(s) && v as nat % pow2(8) != 0 && r as nat == s + 7);
    if v & 0xf > 0 {
        r = r - 4;
        proof {
            lemma_u64_low_bits_mask_is_mod(v, 4);
        }
    } else {
        proof {
            lemma_u64_low_bits_mask_is_mod(v, 4);
            lemma_u64_shr_is_div(v, 4);
            lemma_pow2_pos(4);
            lemma_fundamental_div_mod(v as int, pow2(4) as int);
            lemma_mul_is_commutative(pow2(4) as int, (v >> 4u64) as int);
            lemma_lsb_step(x as nat, v as nat, s, (v >> 4u64) as nat, 4);
            s = s + 4;
        }
        v = v >> 4u64;
    }
    assert(x as nat == v as nat * pow2(s) && v as nat % pow2(4) != 0 && r as nat == s + 3);
    if v & 0x3 > 0 {
        r = r - 2;
        proof {
            lemma_u64_low_bits_mask_is_mod(v, 2);
        }
    } else {
        proof {
            lemma_u64_low_bits_mask_is_mod(v, 2);
            lemma_u64_shr_is_div(v, 2);
            lemma_pow2_pos(2);
            lemma_fundamental_div_mod(v as int, pow2(2) as int);
            lemma_mul_is_commutative(pow2(2) as int, (v >> 2u64) as int);
            lemma_lsb_step(x as nat, v as nat, s, (v >> 2u64) as nat, 2);
            s = s + 2;
        }
        v = v >> 2u64;
    }
    assert(x as nat == v as nat * pow2(s) && v as nat % pow2(2) != 0 && r as nat == s + 1);
    if v & 0x1 > 0 {
        proof {
            lemma_u64_low_bits_mask_is_mod(v, 1);
            lemma_mod_division_less_than_divisor(v as int, 2);
            lemma_lsb_final(x as nat, v as nat, s);
        }
        r - 1
    } else {
        proof {
            lemma_u64_low_bits_mask_is_mod(v, 1);
            lemma_u64_shr_is_div(v, 1);
            lemma_pow2_pos(1);
            lemma_fundamental_div_mod(v as int, pow2(1) as int);
            lemma_mul_is_commutative(pow2(1) as int, (v >> 1u64) as int);
            lemma_lsb_step(x as nat, v as nat, s, (v >> 1u64) as nat, 1);
            lemma_mod_division_less_than_divisor((v >> 1u64) as int, 2);
            lemma_lsb_final(x as nat, (v >> 1u64) as nat, s + 1);
        }
        r
    }
}

/// Returns the 0-based index of the lowest set bit of `x`: the unique `r`
/// such that bit `r` of `x` is set and every bit below it is clear. Fails
/// with `ZeroValue` exactly when `x` is zero.
///
/// The mirror of the most-significant-bit search: eight halving steps from
/// the top down, each testing whether the low half of the current window
/// still holds a set bit.
pub fn least_significant_bit(x: U256) -> (res: Result<u8, BitMathError>)
    ensures
        match res {
            Ok(i) => x@ != 0 && is_least_significant_bit(x@, i as nat),
            Err(e) => x@ == 0 && e == BitMathError::ZeroValue,
        },
{
    if x.is_zero() {
        return Err(BitMathError::ZeroValue);
    }
    let l0 = x.limbs[0];
    let l1 = x.limbs[1];
    let l2 = x.limbs[2];
    let l3 = x.limbs[3];
    proof {
        lemma2_to64();
    }
    let mut r: u8 = 255;
    // Width-128 halving step: the low 128-bit half is non-zero exactly when
    // one of the two lower limbs is non-zero; otherwise the search moves to
    // the upper half.
    let (a, b): (u64, u64);
    if l0 != 0 || l1 != 0 {
        r = r - 128;
        a = l0;
        b = l1;
    } else {
        a = l2;
        b = l3;
    }
    // Width-64 halving step on the selected pair of limbs.
    let v: u64;
    if a != 0 {
        r = r - 64;
        v = a;
    } else {
        v = b;
        proof {
            if l0 == 0 && l1 == 0 && l2 == 0 && l3 == 0 {
                lemma_mul_zero_left(l1 as nat, pow2(64));
                lemma_mul_zero_left(l2 as nat, pow2(128));
                lemma_mul_zero_left(l3 as nat, pow2(192));
                assert(x@ == 0);
            }
        }
    }
    let i = lsb_u64(v);
    proof {
        let iv = i as nat;
        if l0 != 0 || l1 != 0 {
            lemma_split_low(x);
            let rest = l1 as nat + (l2 as nat) * pow2(64) + (l3 as nat) * pow2(128);
            if l0 != 0 {
                lemma_lsb_compose_low(rest, l0 as nat, 64, iv);
            } else {
                let upper = l2 as nat + (l3 as nat) * pow2(64);
                lemma_mul_is_distributive_add_other_way(
                    pow2(64) as int,
                    l2 as int,
                    ((l3 as nat) * pow2(64)) as int,
                );
                lemma_mul_is_associative(l3 as int, pow2(64) as int, pow2(64) as int);
                lemma_pow2_adds(64, 64);
                assert(rest == l1 as nat + upper * pow2(64));
                lemma_lsb_compose_low(upper, l1 as nat, 64, iv);
                lemma_lsb_compose_high(rest, 64, iv);
            }
        } else {
            lemma_mul_zero_left(l1 as nat, pow2(64));
            let upper = l2 as nat + (l3 as nat) * pow2(64);
            lemma_mul_is_distributive_add_other_way(
                pow2(128) as int,
                l2 as int,
                ((l3 as nat) * pow2(64)) as int,
            );
            lemma_mul_is_associative(l3 as int, pow2(64) as int, pow2(128) as int);
            lemma_pow2_adds(64, 128);
            assert(x@ == upper * pow2(128));
            if l2 != 0 {
                lemma_lsb_compose_low(l3 as nat, l2 as nat, 64, iv);
                lemma_lsb_compose_high(upper, 128, iv);
            } else {
                lemma_mul_zero_left(l2 as nat, pow2(128));
                assert(x@ == (l3 as nat) * pow2(192));
                lemma_lsb_compose_high(l3 as nat, 192, iv);
            }
        }
    }
    Ok(r - 63 + i)
}

/// Powers of two are monotone in the exponent.
proof fn lemma_pow2_le(e1: nat, e2: nat)
    requires
        e1 <= e2,
    ensures
        pow2(e1) <= pow2(e2),
{
    if e1 < e2 {
        lemma_pow2_strictly_increases(e1, e2);
    }
}

/// A value has at most one most-significant-bit index: the intervals
/// `[2^i, 2^(i+1))` are disjoint.
pub proof fn lemma_most_significant_bit_unique(n: nat, i: nat, j: nat)
    requires
        is_most_significant_bit(n, i),
        is_most_significant_bit(n, j),
    ensures
        i == j,
{
    if i < j {
        lemma_pow2_le(i + 1, j);
    }
    if j < i {
        lemma_pow2_le(j + 1, i);
    }
}

/// A value has at most one least-significant-bit index: a set bit with all
/// lower bits clear fixes the residue modulo every larger power of two.
pub proof fn lemma_least_significant_bit_unique(n: nat, i: nat, j: nat)
    requires
        is_least_significant_bit(n, i),
        is_least_significant_bit(n, j),
    ensures
        i == j,
{
    if i < j {
        lemma_pow2_pos(i);
        lemma_lsb_multiple_below(n, j, i);
    }
    if j < i {
        lemma_pow2_pos(j);
        lemma_lsb_multiple_below(n, i, j);
    }
}

/// A value whose lowest set bit is at `j` is a multiple of every smaller
/// power of two: no bit below `j` disturbs the residue.
proof fn lemma_lsb_multiple_below(n: nat, j: nat, i: nat)
    requires
        i < j,
        is_least_significant_bit(n, j),
    ensures
        n % pow2(i + 1) == 0,
{
    let m = pow2(i + 1);
    let q = n / pow2(j + 1);
    lemma_pow2_pos(i);
    lemma_pow2_pos(j + 1);
    lemma_fundamental_div_mod(n as int, pow2(j + 1) as int);
    lemma_pow2_adds(i + 1, (j - i) as nat);
    lemma_pow2_adds(i + 1, (j - i - 1) as nat);
    lemma_mul_is_associative(m as int, pow2((j - i) as nat) as int, q as int);
    lemma_mul_is_distributive_add(
        m as int,
        (pow2((j - i) as nat) * q) as int,
        pow2((j - i - 1) as nat) as int,
    );
    lemma_mod_multiples_vanish(
        (pow2((j - i) as nat) * q + pow2((j - i - 1) as nat)) as int,
        0,
        m as int,
    );
    lemma_small_mod(0, m);
}

/// Power-of-two fixed point: `2^i` has both its most significant and its
/// least significant bit exactly at index `i`.
pub proof fn lemma_power_of_two_fixed_point(i: nat)
    ensures
        is_most_significant_bit(pow2(i), i),
        is_least_significant_bit(pow2(i), i),
{
    lemma_pow2_pos(i);
    lemma_pow2_strictly_increases(i, i + 1);
    lemma_small_mod(pow2(i), pow2(i + 1));
}

/// The lowest set bit never sits above the highest one, and they coincide
/// exactly when the value is a power of two.
pub proof fn lemma_least_le_most_significant(n: nat, l: nat, m: nat)
    requires
        is_least_significant_bit(n, l),
        is_most_significant_bit(n, m),
    ensures
        l <= m,
        l == m <==> n == pow2(l),
{
    lemma_pow2_pos(l);
    lemma_pow2_strictly_increases(l, l + 1);
    if n < pow2(l) {
        lemma_small_mod(n, pow2(l + 1));
    }
    assert(pow2(l) <= n);
    if l > m {
        lemma_pow2_le(m + 1, l);
    }
    if l == m {
        lemma_small_mod(n, pow2(l + 1));
    }
    if n == pow2(l) {
        lemma_most_significant_bit_unique(n, l, m);
    }
}

/// Regroups the limb sum around the low limb: the value is the low limb plus
/// `2^64` times the value carried by the upper three limbs.
proof fn lemma_split_low(x: U256)
    ensures
        x.as_nat() == (x.limbs[1] as nat + (x.limbs[2] as nat) * pow2(64) + (x.limbs[3] as nat)
            * pow2(128)) * pow2(64) + x.limbs[0] as nat,
{
    let l1 = x.limbs[1] as nat;
    let l2 = x.limbs[2] as nat;
    let l3 = x.limbs[3] as nat;
    lemma_mul_is_distributive_add_other_way(
        pow2(64) as int,
        (l1 + l2 * pow2(64)) as int,
        (l3 * pow2(128)) as int,
    );
    lemma_mul_is_distributive_add_other_way(pow2(64) as int, l1 as int, (l2 * pow2(64)) as int);
    lemma_mul_is_associative(l2 as int, pow2(64) as int, pow2(64) as int);
    lemma_mul_is_associative(l3 as int, pow2(128) as int, pow2(64) as int);
    lemma_pow2_adds(64, 64);
    lemma_pow2_adds(128, 64);
}

} // verus!
