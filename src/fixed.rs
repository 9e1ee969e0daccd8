//! Fixed-point arithmetic for the UCB1 formula.
//!
//! A real number `x` is held as the natural number `x * SCALE` (rounded down),
//! with `SCALE = 2^20`.
use vstd::prelude::*;
use vstd::arithmetic::power2::{pow2, lemma2_to64, lemma_pow2_unfold, lemma_pow2_strictly_increases};

verus! {

/// The fixed-point unit: the number 1.0 is held as `SCALE`.
pub const SCALE: u64 = 1048576;

/// The number of fractional bits of a fixed-point number (`SCALE == 2^FRAC_BITS`).
pub const FRAC_BITS: u64 = 20;

/// `ln 2` in fixed point.
pub const LN_2: u64 = 726817;

/// The unit of the mantissa used while computing a logarithm: `2^32`.
pub const MANTISSA_ONE: u128 = 4294967296;

/// Twice `MANTISSA_ONE`.
pub const MANTISSA_TWO: u128 = 8589934592;

/// The largest `r` with `r * r <= x`.
pub open spec fn sqrt_floor(x: nat) -> nat
    decreases x,
{
    if x == 0 {
        0
    } else {
        let r = sqrt_floor((x - 1) as nat);
        if (r + 1) * (r + 1) <= x {
            r + 1
        } else {
            r
        }
    }
}

proof fn lemma_sqrt_floor_bounds(x: nat)
    ensures
        sqrt_floor(x) * sqrt_floor(x) <= x,
        x < (sqrt_floor(x) + 1) * (sqrt_floor(x) + 1),
    decreases x,
{
    if x == 0 {
        assert(sqrt_floor(0) == 0);
        assert((0 + 1) * (0 + 1) == 1) by (nonlinear_arith);
    } else {
        lemma_sqrt_floor_bounds((x - 1) as nat);
        let r = sqrt_floor((x - 1) as nat);
        if (r + 1) * (r + 1) <= x {
            assert(sqrt_floor(x) == r + 1);
            let s = r + 1;
            assert(x < (s + 1) * (s + 1)) by (nonlinear_arith)
                requires x <= s * s;
        } else {
            assert(sqrt_floor(x) == r);
        }
    }
}

proof fn lemma_sqrt_floor_unique(x: nat, r: nat)
    requires
        r * r <= x,
        x < (r + 1) * (r + 1),
    ensures
        r == sqrt_floor(x),
{
    lemma_sqrt_floor_bounds(x);
    let s = sqrt_floor(x);
    if r < s {
        assert((r + 1) * (r + 1) <= s * s) by (nonlinear_arith)
            requires r + 1 <= s;
    } else if s < r {
        assert((s + 1) * (s + 1) <= r * r) by (nonlinear_arith)
            requires s + 1 <= r;
    }
}

/// A square root is never larger than its radicand.
pub proof fn lemma_sqrt_floor_le(x: nat)
    ensures
        sqrt_floor(x) <= x,
{
    lemma_sqrt_floor_bounds(x);
    let s = sqrt_floor(x);
    if s > x {
        assert(s <= s * s) by (nonlinear_arith)
            requires s >= 1;
    }
}

/// Integer square root, rounded down.
pub fn isqrt(x: u64) -> (r: u64)
    ensures
        r == sqrt_floor(x as nat),
{
    let mut lo: u128 = 0;
    let mut hi: u128 = x as u128 + 1;
    assert(x < hi * hi) by (nonlinear_arith)
        requires hi == x + 1;
    while hi - lo > 1
        invariant
            lo < hi <= x as u128 + 1,
            lo * lo <= x,
            x < hi * hi,
        decreases hi - lo,
    {
        let mid: u128 = lo + (hi - lo) / 2;
        assert(mid * mid <= 0xffff_ffff_ffff_ffffu128 * 0xffff_ffff_ffff_ffffu128) by (nonlinear_arith)
            requires mid <= 0xffff_ffff_ffff_ffffu128;
        if mid * mid <= x as u128 {
            lo = mid;
        } else {
            hi = mid;
        }
    }
    proof {
        assert(hi == lo + 1);
        lemma_sqrt_floor_unique(x as nat, lo as nat);
    }
    lo as u64
}

/// The number of halvings that bring `y` below `MANTISSA_TWO`: the integer
/// part of `log2(y / MANTISSA_ONE)`.
pub open spec fn int_part(y: nat) -> nat
    decreases y,
{
    if y >= MANTISSA_TWO {
        1 + int_part(y / 2)
    } else {
        0
    }
}

/// What is left of `y` after those halvings: a mantissa below `MANTISSA_TWO`.
pub open spec fn mantissa(y: nat) -> nat
    decreases y,
{
    if y >= MANTISSA_TWO {
        mantissa(y / 2)
    } else {
        y
    }
}

/// The binary digits of `log2(y / MANTISSA_ONE)` for a mantissa `y`, most
/// significant first, appended to `acc`: each digit comes from squaring the
/// mantissa; a square of 2 or more gives a 1 and is halved.
pub open spec fn frac_digits(y: nat, bits: nat, acc: nat) -> nat
    decreases bits,
{
    if bits == 0 {
        acc
    } else {
        let z = y * y / (MANTISSA_ONE as nat);
        if z >= MANTISSA_TWO {
            frac_digits(z / 2, (bits - 1) as nat, 2 * acc + 1)
        } else {
            frac_digits(z, (bits - 1) as nat, 2 * acc)
        }
    }
}

/// `log2(n)` in fixed point.
pub open spec fn log2_fixed(n: nat) -> nat {
    let y = n * (MANTISSA_ONE as nat);
    int_part(y) * (SCALE as nat) + frac_digits(mantissa(y), FRAC_BITS as nat, 0)
}

/// The natural logarithm `ln(n)` in fixed point.
pub open spec fn ln_fixed(n: nat) -> nat {
    log2_fixed(n) * (LN_2 as nat) / (SCALE as nat)
}

/// Binary logarithm of `n >= 1` in fixed point.
pub fn log2(n: u64) -> (r: u64)
    requires
        n >= 1,
    ensures
        r == log2_fixed(n as nat),
        r < 64 * SCALE,
        pow2((r / SCALE) as nat) <= n < pow2((r / SCALE + 1) as nat),
{
    let y0: u128 = n as u128 * MANTISSA_ONE;
    let mut y: u128 = y0;
    let mut k: u64 = 0;
    proof {
        lemma2_to64();
        assert(pow2(0) * y == y);
        assert(pow2(0) * (y + 1) == y + 1);
    }
    while y >= MANTISSA_TWO
        invariant
            MANTISSA_ONE <= y <= y0,
            y0 == n as u128 * MANTISSA_ONE,
            k <= 63,
            pow2(k as nat) * y <= y0,
            y0 < pow2(k as nat) * (y + 1),
            int_part(y0 as nat) == k + int_part(y as nat),
            mantissa(y0 as nat) == mantissa(y as nat),
        decreases y,
    {
        proof {
            lemma2_to64();
            let p = pow2(k as nat);
            assert(p * MANTISSA_TWO <= p * y) by (nonlinear_arith)
                requires y >= MANTISSA_TWO;
            assert(y0 < 0x1_0000_0000_0000_0000u128 * MANTISSA_ONE) by (nonlinear_arith)
                requires y0 == n as u128 * MANTISSA_ONE, n <= 0xffff_ffff_ffff_ffffu64;
            if k >= 63 {
                if k > 63 {
                    lemma_pow2_strictly_increases(63, k as nat);
                }
            }
        }
        let ghost p = pow2(k as nat);
        let ghost y_old = y;
        y = y / 2;
        k = k + 1;
        proof {
            lemma_pow2_unfold(k as nat);
            assert(pow2(k as nat) * y <= p * y_old) by (nonlinear_arith)
                requires pow2(k as nat) == 2 * p, y == y_old / 2, p >= 0;
            assert(p * (y_old + 1) <= pow2(k as nat) * (y + 1)) by (nonlinear_arith)
                requires pow2(k as nat) == 2 * p, y == y_old / 2, p >= 0;
        }
    }
    let ghost k_int = k;
    proof {
        let p = pow2(k as nat);
        lemma_pow2_unfold((k + 1) as nat);
        assert(p * MANTISSA_ONE <= y0) by (nonlinear_arith)
            requires p * y <= y0, MANTISSA_ONE <= y, p >= 0;
        assert(y0 < p * MANTISSA_TWO) by (nonlinear_arith)
            requires y0 < p * (y + 1), y < MANTISSA_TWO, p >= 0;
        assert(p <= n && n < 2 * p) by (nonlinear_arith)
            requires p * MANTISSA_ONE <= y0, y0 < p * MANTISSA_TWO, y0 == n * MANTISSA_ONE,
                MANTISSA_TWO == 2 * MANTISSA_ONE, MANTISSA_ONE > 0;
    }
    let mut acc: u64 = 0;
    let mut i: u64 = 0;
    let ghost m0 = y;
    proof {
        lemma2_to64();
    }
    while i < FRAC_BITS
        invariant
            y < MANTISSA_TWO,
            i <= FRAC_BITS,
            acc < pow2(i as nat),
            pow2(i as nat) <= pow2(FRAC_BITS as nat),
            frac_digits(y as nat, (FRAC_BITS - i) as nat, acc as nat)
                == frac_digits(m0 as nat, FRAC_BITS as nat, 0),
        decreases FRAC_BITS - i,
    {
        proof {
            lemma2_to64();
        }
        assert(y * y < MANTISSA_TWO * MANTISSA_TWO) by (nonlinear_arith)
            requires y < MANTISSA_TWO;
        let z: u128 = y * y / MANTISSA_ONE;
        if z >= MANTISSA_TWO {
            y = z / 2;
            acc = 2 * acc + 1;
        } else {
            y = z;
            acc = 2 * acc;
        }
        i = i + 1;
        proof {
            lemma_pow2_unfold(i as nat);
            if i < FRAC_BITS {
                lemma_pow2_strictly_increases(i as nat, FRAC_BITS as nat);
            }
        }
    }
    proof {
        lemma2_to64();
    }
    k * SCALE + acc
}

/// Natural logarithm of `n >= 1` in fixed point.
pub fn ln(n: u64) -> (r: u64)
    requires
        n >= 1,
    ensures
        r == ln_fixed(n as nat),
        r < 45 * SCALE,
{
    let l = log2(n);
    l * LN_2 / SCALE
}

} // verus!
