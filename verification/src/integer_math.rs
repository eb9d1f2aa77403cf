//! Deterministic integer arithmetic for simulation physics: right shifts
//! with the rounding the caller chose, overflow-checked left shifts, and
//! overflow-free means. Every rounding rule is stated exactly over the
//! mathematical integers.

use vstd::prelude::*;

verus! {

/// Two to the `shift`, as a mathematical integer.
pub open spec fn pow2i(shift: nat) -> int
    decreases shift,
{
    if shift == 0 {
        1
    } else {
        2 * pow2i((shift - 1) as nat)
    }
}

/// `x / 2^shift` rounded to the nearest integer, ties to the even neighbor.
pub open spec fn spec_shr_nicely_rounded(x: int, shift: nat) -> int {
    let d = pow2i(shift);
    let q = x / d;
    let rm = x % d;
    if 2 * rm < d {
        q
    } else if 2 * rm > d {
        q + 1
    } else if q % 2 == 0 {
        q
    } else {
        q + 1
    }
}

/// `x / 2^shift` rounded to the lower integer, except that a fractional
/// result moves to the even neighbor.
pub open spec fn spec_shr_round_to_even(x: int, shift: nat) -> int {
    let d = pow2i(shift);
    let q = x / d;
    let rm = x % d;
    if rm == 0 {
        q
    } else if q % 2 == 0 {
        q
    } else {
        q + 1
    }
}

/// `x / 2^shift` rounded towards positive infinity.
pub open spec fn spec_shr_ceil(x: int, shift: nat) -> int {
    let d = pow2i(shift);
    if x % d == 0 {
        x / d
    } else {
        x / d + 1
    }
}

/// `x / 2^shift` rounded towards zero.
pub open spec fn spec_shr_towards_zero(x: int, shift: nat) -> int {
    let d = pow2i(shift);
    if x % d != 0 && x < 0 {
        x / d + 1
    } else {
        x / d
    }
}

/// Two to the `shift`, in an `i64`.
fn two_to(shift: u32) -> (d: i64)
    requires
        shift <= 62,
    ensures
        d == pow2i(shift as nat),
        1 <= d <= 0x4000_0000_0000_0000,
{
    let mut d: i64 = 1;
    let mut i: u32 = 0;
    while i < shift
        invariant
            i <= shift,
            shift <= 62,
            d == pow2i(i as nat),
            1 <= d <= 0x4000_0000_0000_0000,
        decreases shift - i,
    {
        proof {
            lemma_pow2i_bound(shift as nat);
            lemma_pow2i_step((i + 1) as nat);
            lemma_pow2i_mono(i as nat + 1, shift as nat);
        }
        d = d * 2;
        i = i + 1;
    }
    d
}

/// Powers of two grow with the exponent.
proof fn lemma_pow2i_mono(a: nat, b: nat)
    requires
        a <= b,
    ensures
        pow2i(a) <= pow2i(b),
        pow2i(a) >= 1,
    decreases b,
{
    if a < b {
        lemma_pow2i_mono(a, (b - 1) as nat);
    } else if a > 0 {
        lemma_pow2i_mono((a - 1) as nat, (b - 1) as nat);
    }
}

/// One unfolding step of the power.
proof fn lemma_pow2i_step(s: nat)
    requires
        s >= 1,
    ensures
        pow2i(s) == 2 * pow2i((s - 1) as nat),
{
}

/// This power of two agrees with the library's.
proof fn lemma_pow2i_is_pow2(s: nat)
    ensures
        pow2i(s) == vstd::arithmetic::power2::pow2(s),
    decreases s,
{
    if s > 0 {
        lemma_pow2i_is_pow2((s - 1) as nat);
        vstd::arithmetic::power2::lemma_pow2_unfold(s);
    } else {
        assert(vstd::arithmetic::power2::pow2(0) == 1) by {
            vstd::arithmetic::power::lemma_pow0(2);
        }
    }
}

/// Sixty-two doublings stay inside an `i64`.
proof fn lemma_pow2i_bound(s: nat)
    requires
        s <= 62,
    ensures
        pow2i(s) <= 0x4000_0000_0000_0000,
{
    lemma_pow2i_mono(s, 62);
    lemma_pow2i_is_pow2(62);
    vstd::arithmetic::power2::lemma2_to64();
    vstd::arithmetic::power2::lemma2_to64_rest();
}

/// The Euclidean quotient and remainder of `x` by the positive `d`, with the
/// facts later rounding steps need.
fn div_rem(x: i64, d: i64) -> (r: (i64, i64))
    requires
        1 <= d <= 0x4000_0000_0000_0000,
    ensures
        r.0 == x as int / d as int,
        r.1 == x as int % d as int,
        0 <= r.1 < d,
        x == r.0 * d + r.1,
        -0x8000_0000_0000_0000 <= r.0 <= 0x7fff_ffff_ffff_ffff,
{
    proof {
        vstd::arithmetic::div_mod::lemma_fundamental_div_mod(x as int, d as int);
        vstd::arithmetic::div_mod::lemma_mod_bound(x as int, d as int);
        assert(x as int / d as int >= i64::MIN && x as int / d as int <= i64::MAX)
            by (nonlinear_arith)
            requires
                d >= 1,
                i64::MIN <= x <= i64::MAX,
        ;
    }
    let q = match x.checked_div_euclid(d) {
        Some(q) => q,
        None => {
            proof {
                assert(false);
            }
            0
        },
    };
    let rm = match x.checked_rem_euclid(d) {
        Some(rm) => rm,
        None => {
            proof {
                assert(false);
            }
            0
        },
    };
    proof {
        assert(q == x as int / d as int);
        assert(rm == x as int % d as int);
        assert(x as int == d as int * (x as int / d as int) + x as int % d as int);
        assert(q as int * d as int == d as int * q as int) by (nonlinear_arith);
    }
    (q, rm)
}

/// Right-shift an integer, but round to nearest, with ties rounding to even.
///
/// This minimizes error, and avoids a directional bias.
pub fn shr_nicely_rounded(input: i64, shift: u32) -> (r: i64)
    requires
        shift <= 62,
    ensures
        r == spec_shr_nicely_rounded(input as int, shift as nat),
{
    let d = two_to(shift);
    let (q, rm) = div_rem(input, d);
    proof {
        lemma_quotient_headroom(input as int, d as int, q as int, rm as int);
    }
    if 2 * rm < d {
        q
    } else if 2 * rm > d {
        q + 1
    } else if q % 2 == 0 {
        q
    } else {
        q + 1
    }
}

/// Right-shift an integer, but round to even.
///
/// This avoids a directional bias.
pub fn shr_round_to_even(input: i64, shift: u32) -> (r: i64)
    requires
        shift <= 62,
    ensures
        r == spec_shr_round_to_even(input as int, shift as nat),
{
    let d = two_to(shift);
    let (q, rm) = div_rem(input, d);
    proof {
        lemma_quotient_headroom(input as int, d as int, q as int, rm as int);
    }
    if rm == 0 {
        q
    } else if q % 2 == 0 {
        q
    } else {
        q + 1
    }
}

/// Right-shift an integer, but round towards positive infinity.
pub fn shr_ceil(input: i64, shift: u32) -> (r: i64)
    requires
        shift <= 62,
    ensures
        r == spec_shr_ceil(input as int, shift as nat),
{
    let d = two_to(shift);
    let (q, rm) = div_rem(input, d);
    proof {
        lemma_quotient_headroom(input as int, d as int, q as int, rm as int);
    }
    if rm == 0 {
        q
    } else {
        q + 1
    }
}

/// A nonzero remainder forces a divisor of at least two, which leaves the
/// quotient room to round up.
proof fn lemma_quotient_headroom(x: int, d: int, q: int, rm: int)
    requires
        1 <= d,
        q == x / d,
        rm == x % d,
        0 <= rm < d,
        x == q * d + rm,
        -0x8000_0000_0000_0000 <= x <= 0x7fff_ffff_ffff_ffff,
    ensures
        rm >= 1 ==> q < 0x7fff_ffff_ffff_ffff,
{
    if rm >= 1 {
        assert(d >= 2);
        assert(q < 0x7fff_ffff_ffff_ffff) by (nonlinear_arith)
            requires
                x == q * d + rm,
                0 <= rm < d,
                d >= 2,
                x <= 0x7fff_ffff_ffff_ffff,
        ;
    }
}

/// Right-shift an integer, but round towards zero.
pub fn shr_round_towards_zero(input: i64, shift: u32) -> (r: i64)
    requires
        shift <= 62,
    ensures
        r == spec_shr_towards_zero(input as int, shift as nat),
{
    let d = two_to(shift);
    let (q, rm) = div_rem(input, d);
    if rm != 0 && input < 0 {
        proof {
            assert(q < 0 || q == 0) by (nonlinear_arith)
                requires
                    q == input as int / d as int,
                    input < 0,
                    d >= 1,
                    input == q * d + rm,
                    0 <= rm < d,
            ;
        }
        q + 1
    } else {
        q
    }
}

/// Left-shift an integer, returning `Some(input * 2^shift)` if that fits
/// within the type, `None` otherwise.
pub fn overflow_checked_shl(input: i64, shift: u32) -> (r: Option<i64>)
    requires
        shift <= 62,
    ensures
        r matches Some(v) ==> v == input * pow2i(shift as nat),
        r is Some <==> i64::MIN <= input * pow2i(shift as nat) <= i64::MAX,
{
    let d = two_to(shift);
    input.checked_mul(d)
}

/// Compute the arithmetic mean of two integers, rounded towards negative
/// infinity. Never overflows.
pub fn mean_floor(first: i64, second: i64) -> (r: i64)
    ensures
        r == (first + second) / 2,
{
    let s: i128 = first as i128 + second as i128;
    proof {
        vstd::arithmetic::div_mod::lemma_fundamental_div_mod(s as int, 2);
        vstd::arithmetic::div_mod::lemma_mod_bound(s as int, 2);
        assert(i64::MIN <= s as int / 2 <= i64::MAX) by (nonlinear_arith)
            requires
                2 * (i64::MIN as int) <= s <= 2 * (i64::MAX as int),
                s == (s as int / 2) * 2 + s as int % 2,
                0 <= s as int % 2 < 2,
        ;
    }
    let q = match s.checked_div_euclid(2) {
        Some(q) => q,
        None => {
            proof {
                assert(false);
            }
            0
        },
    };
    q as i64
}

/// Compute the arithmetic mean of two integers, rounded towards positive
/// infinity. Never overflows.
pub fn mean_ceil(first: i64, second: i64) -> (r: i64)
    ensures
        r == (first + second + 1) / 2,
{
    let s: i128 = first as i128 + second as i128 + 1;
    proof {
        vstd::arithmetic::div_mod::lemma_fundamental_div_mod(s as int, 2);
        vstd::arithmetic::div_mod::lemma_mod_bound(s as int, 2);
        assert(i64::MIN <= s as int / 2 <= i64::MAX) by (nonlinear_arith)
            requires
                2 * (i64::MIN as int) <= s <= 2 * (i64::MAX as int) + 1,
                s == (s as int / 2) * 2 + s as int % 2,
                0 <= s as int % 2 < 2,
        ;
    }
    let q = match s.checked_div_euclid(2) {
        Some(q) => q,
        None => {
            proof {
                assert(false);
            }
            0
        },
    };
    q as i64
}

} // verus!
