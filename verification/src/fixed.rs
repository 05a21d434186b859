//! Fixed-point real arithmetic.
//!
//! A real number `x` is represented by the `i64` value `x * SCALE`, truncated
//! toward zero.  Multiplication and division of representations are exact
//! integer computations followed by one truncation, so every operation here
//! has a deterministic mathematical definition (`fmul`, `fdiv`, `fsqrt`)
//! that the executable routines provably implement.

use vstd::prelude::*;

verus! {

use vstd::arithmetic::div_mod::lemma_div_is_ordered;
use vstd::arithmetic::div_mod::lemma_div_multiples_vanish;
use vstd::arithmetic::div_mod::lemma_div_pos_is_pos;
use vstd::arithmetic::div_mod::lemma_fundamental_div_mod_converse;
use vstd::arithmetic::mul::lemma_mul_inequality;
use vstd::arithmetic::mul::lemma_mul_upper_bound;
use vstd::math::abs;

/// Number of quanta in the real number one.
pub const SCALE: i64 = 1_000_000;

/// Division rounding toward zero, the rounding used by all executable
/// routines in this crate; meaningful only for `d != 0`.
pub open spec fn div_tz(n: int, d: int) -> int {
    if n >= 0 {
        if d >= 0 {
            n / d
        } else {
            -(n / -d)
        }
    } else {
        if d >= 0 {
            -(-n / d)
        } else {
            -n / -d
        }
    }
}

/// Product of two fixed-point reals.
pub open spec fn fmul(a: int, b: int) -> int {
    div_tz(a * b, SCALE as int)
}

/// Quotient of two fixed-point reals (`b != 0`).
pub open spec fn fdiv(a: int, b: int) -> int {
    div_tz(a * (SCALE as int), b)
}

/// The greatest `r >= 0` with `r * r <= n`, for `n >= 0`.
pub open spec fn sqrt_floor(n: int) -> int {
    choose|r: int| 0 <= r && #[trigger] (r * r) <= n && n < (r + 1) * (r + 1)
}

/// Square root of a fixed-point real (`x >= 0`): the representation of
/// `sqrt(x / SCALE)` is `floor(sqrt(x * SCALE))`.
pub open spec fn fsqrt(x: int) -> int {
    sqrt_floor(x * (SCALE as int))
}

/// Clamping into `[lo, hi]`.
pub open spec fn clampi(x: int, lo: int, hi: int) -> int {
    if x < lo {
        lo
    } else if x > hi {
        hi
    } else {
        x
    }
}

pub proof fn lemma_abs_mul(a: int, b: int)
    by (nonlinear_arith)
    ensures
        abs(a * b) == abs(a) * abs(b),
{
}

/// For a positive divisor, truncating division agrees with Euclidean
/// division on magnitudes.
pub proof fn lemma_div_tz_mag(n: int, d: int)
    requires
        d > 0,
    ensures
        abs(div_tz(n, d)) == abs(n) as int / d,
        n >= 0 ==> div_tz(n, d) >= 0,
        n < 0 ==> div_tz(n, d) <= 0,
{
    if n >= 0 {
        lemma_div_pos_is_pos(n, d);
    } else {
        lemma_div_pos_is_pos(-n, d);
    }
}

/// The sign of a product follows the signs of its factors.
proof fn lemma_mul_sign(a: int, b: int)
    by (nonlinear_arith)
    ensures
        ((a < 0) != (b < 0)) ==> a * b <= 0,
        ((a < 0) == (b < 0)) ==> a * b >= 0,
{
}

/// Truncating division never increases the magnitude (divisor at least one).
pub proof fn lemma_div_tz_le(n: int, d: int)
    requires
        d >= 1,
    ensures
        abs(div_tz(n, d)) <= abs(n),
{
    lemma_div_tz_mag(n, d);
    vstd::arithmetic::div_mod::lemma_div_nonincreasing(abs(n) as int, d);
    lemma_div_pos_is_pos(abs(n) as int, d);
}

/// Magnitude bound: if `abs(n) <= b * d` then `abs(div_tz(n, d)) <= b`.
pub proof fn lemma_div_tz_bound(n: int, d: int, b: int)
    requires
        d >= 1,
        b >= 0,
        abs(n) <= b * d,
    ensures
        abs(div_tz(n, d)) <= b,
{
    lemma_div_tz_mag(n, d);
    lemma_div_multiples_vanish(b, d);
    vstd::arithmetic::mul::lemma_mul_is_commutative(b, d);
    lemma_div_is_ordered(abs(n) as int, b * d, d);
    assert(abs(n) as int / d <= (b * d) / d);
}

/// Dividing an exact multiple is exact.
pub proof fn lemma_div_tz_exact(a: int, d: int)
    requires
        d >= 1,
    ensures
        div_tz(a * d, d) == a,
{
    lemma_div_multiples_vanish(a, d);
    lemma_div_multiples_vanish(-a, d);
    assert((-a) * d == -(a * d)) by (nonlinear_arith);
    vstd::arithmetic::mul::lemma_mul_is_commutative(a, d);
    vstd::arithmetic::mul::lemma_mul_is_commutative(-a, d);
    lemma_mul_sign(a, d);
    if a >= 0 {
        assert(a * d >= 0);
        assert(div_tz(a * d, d) == (a * d) / d);
    } else {
        assert(a * d <= 0);
        assert(a < 0 ==> a * d < 0) by (nonlinear_arith)
            requires
                d >= 1,
        ;
        assert(div_tz(a * d, d) == -((-(a * d)) / d));
        assert(-(a * d) == (-a) * d);
    }
}

/// Truncating division commutes with negation of the dividend.
pub proof fn lemma_div_tz_neg(n: int, d: int)
    requires
        d >= 1,
    ensures
        div_tz(-n, d) == -div_tz(n, d),
{
    if n == 0 {
        vstd::arithmetic::div_mod::lemma_div_of0(d);
    }
}

/// Multiplying by one, minus one, or zero (in fixed-point terms) is exact.
pub proof fn lemma_fmul_one(c: int)
    ensures
        fmul(c, SCALE as int) == c,
        fmul(SCALE as int, c) == c,
        fmul(c, -(SCALE as int)) == -c,
        fmul(-(SCALE as int), c) == -c,
        fmul(c, 0) == 0,
        fmul(0, c) == 0,
{
    let s = SCALE as int;
    lemma_div_tz_exact(c, s);
    assert(c * s == s * c) by (nonlinear_arith);
    assert(c * (-s) == -(c * s)) by (nonlinear_arith);
    assert((-s) * c == -(c * s)) by (nonlinear_arith);
    assert(c * 0 == 0) by (nonlinear_arith);
    assert(0 * c == 0) by (nonlinear_arith);
    lemma_div_tz_neg(c * s, s);
    vstd::arithmetic::div_mod::lemma_div_of0(s);
}

/// Truncating division of a nonnegative value by a positive divisor is
/// nonnegative.
pub proof fn lemma_div_tz_nonneg(n: int, d: int)
    requires
        n >= 0,
        d >= 1,
    ensures
        div_tz(n, d) >= 0,
{
    lemma_div_pos_is_pos(n, d);
}

/// The product of nonnegative fixed-point reals is nonnegative.
pub proof fn lemma_fmul_nonneg(a: int, b: int)
    requires
        a >= 0,
        b >= 0,
    ensures
        fmul(a, b) >= 0,
{
    assert(a * b >= 0) by (nonlinear_arith)
        requires
            a >= 0,
            b >= 0,
    ;
    lemma_div_pos_is_pos(a * b, SCALE as int);
}

/// The fixed-point square of any real is nonnegative.
pub proof fn lemma_fmul_sq_nonneg(a: int)
    ensures
        fmul(a, a) >= 0,
{
    assert(a * a >= 0) by (nonlinear_arith);
    lemma_div_pos_is_pos(a * a, SCALE as int);
}

/// A product of fixed-point reals in `[0, 1]` stays in `[0, 1]` and below
/// both factors.
pub proof fn lemma_fmul_unit(a: int, b: int)
    requires
        0 <= a <= SCALE as int,
        0 <= b <= SCALE as int,
    ensures
        0 <= fmul(a, b),
        fmul(a, b) <= a,
        fmul(a, b) <= b,
{
    lemma_mul_upper_bound(a, SCALE as int, b, SCALE as int);
    assert(a * b <= a * SCALE) by (nonlinear_arith)
        requires
            0 <= a,
            b <= SCALE as int,
    ;
    assert(a * b <= b * SCALE) by (nonlinear_arith)
        requires
            0 <= b,
            a <= SCALE as int,
    ;
    assert(a * b >= 0) by (nonlinear_arith)
        requires
            0 <= a,
            0 <= b,
    ;
    lemma_div_tz_mag(a * b, SCALE as int);
    lemma_div_tz_bound(a * b, SCALE as int, a);
    lemma_div_tz_bound(a * b, SCALE as int, b);
}

/// General magnitude bound for `fmul`: if `abs(a) <= x` and `abs(b) <= y`
/// with `x * y <= c * SCALE`, then `abs(fmul(a, b)) <= c`.
pub proof fn lemma_fmul_bound(a: int, b: int, x: int, y: int, c: int)
    requires
        0 <= x,
        0 <= y,
        0 <= c,
        abs(a) <= x,
        abs(b) <= y,
        x * y <= c * (SCALE as int),
    ensures
        abs(fmul(a, b)) <= c,
{
    lemma_abs_mul(a, b);
    lemma_mul_upper_bound(abs(a) as int, x, abs(b) as int, y);
    lemma_div_tz_bound(a * b, SCALE as int, c);
}

/// Scaling a positive width by a fraction below one lands strictly inside
/// the width.
pub proof fn lemma_fmul_below(delta: int, d: int)
    requires
        delta >= 1,
        0 <= d < SCALE as int,
    ensures
        0 <= fmul(delta, d) <= delta - 1,
{
    let s = SCALE as int;
    assert(delta * d >= 0) by (nonlinear_arith)
        requires
            delta >= 0,
            d >= 0,
    ;
    assert(delta * d <= delta * s - delta) by (nonlinear_arith)
        requires
            delta >= 1,
            d <= s - 1,
    ;
    assert((delta - 1) * s + (s - 1) == delta * s - 1) by (nonlinear_arith);
    lemma_fundamental_div_mod_converse(delta * s - 1, s, delta - 1, s - 1);
    lemma_div_is_ordered(delta * d, delta * s - 1, s);
    lemma_div_pos_is_pos(delta * d, s);
}

/// A fixed-point real at least one has a square root of at least 0.001.
pub proof fn lemma_fsqrt_pos(x: int)
    requires
        x >= 1,
    ensures
        fsqrt(x) >= 1000,
{
    let s = SCALE as int;
    lemma_sqrt_unique(s, 1000);
    lemma_mul_inequality(1, x, s);
    lemma_sqrt_le(s, x * s);
}

/// The square root of a fixed-point real in `[0, 1]` stays in `[0, 1]`.
pub proof fn lemma_fsqrt_unit(c: int)
    requires
        0 <= c <= SCALE as int,
    ensures
        0 <= fsqrt(c) <= SCALE as int,
{
    let s = SCALE as int;
    lemma_sqrt_unique(s * s, s);
    lemma_mul_inequality(c, s, s);
    assert(c * s >= 0) by (nonlinear_arith)
        requires
            c >= 0,
            s >= 0,
    ;
    lemma_sqrt_le(c * s, s * s);
    lemma_sqrt_floor(c * s);
}

proof fn lemma_sqrt_exists(n: nat)
    ensures
        exists|r: int| 0 <= r && #[trigger] (r * r) <= n && n < (r + 1) * (r + 1),
    decreases n,
{
    if n == 0 {
        assert(0 <= 0int && 0int * 0int <= n && n < (0int + 1) * (0int + 1));
    } else {
        lemma_sqrt_exists((n - 1) as nat);
        let r = choose|r: int| 0 <= r && #[trigger] (r * r) <= n - 1 && n - 1 < (r + 1) * (r + 1);
        if n < (r + 1) * (r + 1) {
            assert(0 <= r && r * r <= n && n < (r + 1) * (r + 1));
        } else {
            // n == (r + 1) * (r + 1): the root steps up by one.
            let s = r + 1;
            assert(s * s <= n);
            assert(n == s * s);
            assert(s * s < (s + 1) * (s + 1)) by (nonlinear_arith)
                requires
                    s >= 0,
            ;
            assert(0 <= s && s * s <= n && n < (s + 1) * (s + 1));
        }
    }
}

/// `sqrt_floor(n)` is characterized by `r * r <= n < (r + 1) * (r + 1)`.
pub proof fn lemma_sqrt_floor(n: int)
    requires
        n >= 0,
    ensures
        0 <= sqrt_floor(n),
        sqrt_floor(n) * sqrt_floor(n) <= n,
        n < (sqrt_floor(n) + 1) * (sqrt_floor(n) + 1),
{
    lemma_sqrt_exists(n as nat);
}

/// Any value meeting the characterization equals `sqrt_floor(n)`.
pub proof fn lemma_sqrt_unique(n: int, r: int)
    requires
        0 <= r,
        r * r <= n,
        n < (r + 1) * (r + 1),
    ensures
        r == sqrt_floor(n),
{
    lemma_sqrt_floor(n);
    let s = sqrt_floor(n);
    if r < s {
        lemma_mul_inequality(r + 1, s, r + 1);
        lemma_mul_inequality(r + 1, s, s);
        assert((r + 1) * (r + 1) <= s * s) by (nonlinear_arith)
            requires
                0 <= r,
                r + 1 <= s,
        ;
    }
    if s < r {
        assert((s + 1) * (s + 1) <= r * r) by (nonlinear_arith)
            requires
                0 <= s,
                s + 1 <= r,
        ;
    }
}

/// `sqrt_floor` is monotone.
pub proof fn lemma_sqrt_le(m: int, n: int)
    requires
        0 <= m <= n,
    ensures
        sqrt_floor(m) <= sqrt_floor(n),
{
    lemma_sqrt_floor(m);
    lemma_sqrt_floor(n);
    let a = sqrt_floor(m);
    let b = sqrt_floor(n);
    if b < a {
        assert((b + 1) * (b + 1) <= a * a) by (nonlinear_arith)
            requires
                0 <= b,
                b + 1 <= a,
        ;
    }
}

/// Magnitude of an `i64`, as a `u64`.
pub fn abs64(a: i64) -> (r: u64)
    ensures
        r == abs(a as int),
{
    if a >= 0 {
        a as u64
    } else {
        (-(a as i128)) as u64
    }
}

/// Fixed-point multiplication: exact product, then one truncation.
pub fn mul_fx(a: i64, b: i64) -> (r: i64)
    requires
        i64::MIN <= fmul(a as int, b as int) <= i64::MAX,
    ensures
        r == fmul(a as int, b as int),
{
    let ghost prod: int = (a as int) * (b as int);
    let ghost res: int = fmul(a as int, b as int);
    let am = abs64(a) as u128;
    let bm = abs64(b) as u128;
    proof {
        lemma_mul_upper_bound(am as int, 0x8000_0000_0000_0000, bm as int, 0x8000_0000_0000_0000);
    }
    let p: u128 = am * bm;
    let q: u128 = p / (SCALE as u128);
    proof {
        lemma_abs_mul(a as int, b as int);
        lemma_div_tz_mag(prod, SCALE as int);
        lemma_mul_sign(a as int, b as int);
        assert(p == abs(prod));
        assert(q == abs(res));
    }
    if (a < 0) != (b < 0) {
        proof {
            assert(prod <= 0);
            assert(res <= 0);
        }
        if q == 0 {
            0
        } else {
            -1 - ((q - 1) as i64)
        }
    } else {
        proof {
            assert(prod >= 0);
            assert(res >= 0);
        }
        q as i64
    }
}

/// Fixed-point division: exact scaled dividend, then one truncation.
pub fn div_fx(a: i64, b: i64) -> (r: i64)
    requires
        b != 0,
        i64::MIN <= fdiv(a as int, b as int) <= i64::MAX,
    ensures
        r == fdiv(a as int, b as int),
{
    let ghost num: int = (a as int) * (SCALE as int);
    let ghost res: int = fdiv(a as int, b as int);
    let ah = abs64(a) as u128;
    proof {
        lemma_mul_upper_bound(ah as int, 0x8000_0000_0000_0000, SCALE as int, SCALE as int);
        lemma_abs_mul(a as int, SCALE as int);
    }
    let am: u128 = ah * (SCALE as u128);
    let bm = abs64(b) as u128;
    let q: u128 = am / bm;
    proof {
        assert(am == abs(num));
        lemma_mul_sign(a as int, SCALE as int);
        if b > 0 {
            lemma_div_tz_mag(num, b as int);
        } else {
            lemma_div_tz_mag(num, -(b as int));
            assert(div_tz(num, b as int) == -div_tz(num, -(b as int)));
        }
        assert(q == abs(res));
        lemma_mul_sign(num, b as int);
    }
    if (a < 0) != (b < 0) {
        proof {
            assert(res <= 0);
        }
        if q == 0 {
            0
        } else {
            -1 - ((q - 1) as i64)
        }
    } else {
        proof {
            assert(res >= 0);
        }
        q as i64
    }
}

/// Division of a fixed-point real by a plain positive integer.
pub fn divi_fx(a: i64, d: i64) -> (r: i64)
    requires
        d >= 1,
    ensures
        r == div_tz(a as int, d as int),
{
    proof {
        lemma_div_tz_mag(a as int, d as int);
        vstd::arithmetic::div_mod::lemma_div_nonincreasing(abs(a as int) as int, d as int);
        lemma_div_pos_is_pos(abs(a as int) as int, d as int);
    }
    let m: u64 = abs64(a);
    let q: u64 = m / (d as u64);
    if a < 0 {
        if q == 0 {
            0
        } else {
            -1 - ((q - 1) as i64)
        }
    } else {
        q as i64
    }
}

/// Fixed-point square root (`x >= 0`), rounded down to the nearest quantum.
pub fn sqrt_fx(x: i64) -> (r: i64)
    requires
        x >= 0,
    ensures
        r == fsqrt(x as int),
        r >= 0,
{
    let n: u128 = (x as u128) * (SCALE as u128);
    proof {
        lemma_mul_upper_bound(x as int, i64::MAX as int, SCALE as int, SCALE as int);
    }
    let mut lo: u128 = 0;
    // 2^43; its square exceeds i64::MAX * SCALE.
    let mut hi: u128 = 8796093022208;
    assert(n < hi * hi) by (nonlinear_arith)
        requires
            n <= 0x7fffffffffffffffu128 * 1000000,
            hi == 8796093022208u128,
    ;
    while lo + 1 < hi
        invariant
            lo < hi <= 8796093022208u128,
            lo * lo <= n,
            n < hi * hi,
        decreases hi - lo,
    {
        let mid = lo + (hi - lo) / 2;
        assert(mid * mid <= 8796093022208u128 * 8796093022208u128) by (nonlinear_arith)
            requires
                mid <= 8796093022208u128,
        ;
        if mid * mid <= n {
            lo = mid;
        } else {
            hi = mid;
        }
    }
    proof {
        assert(hi == lo + 1);
        lemma_sqrt_unique(n as int, lo as int);
    }
    lo as i64
}

/// Truncating division by any nonzero divisor never increases the
/// magnitude.
pub proof fn lemma_div_tz_le_any(n: int, d: int)
    requires
        d != 0,
    ensures
        abs(div_tz(n, d)) <= abs(n),
{
    if d >= 1 {
        lemma_div_tz_le(n, d);
    } else {
        lemma_div_tz_le(n, -d);
        assert(div_tz(n, d) == -div_tz(n, -d));
    }
}

/// Truncating division is monotone in the dividend.
pub proof fn lemma_div_tz_monotone(n1: int, n2: int, d: int)
    requires
        d >= 1,
        n1 <= n2,
    ensures
        div_tz(n1, d) <= div_tz(n2, d),
{
    lemma_div_tz_mag(n1, d);
    lemma_div_tz_mag(n2, d);
    if n1 >= 0 {
        lemma_div_is_ordered(n1, n2, d);
    } else if n2 < 0 {
        lemma_div_is_ordered(-n2, -n1, d);
    }
}

/// Integer square root of a `u128` below `2^126`.
pub fn isqrt_u128(n: u128) -> (r: u128)
    requires
        n < 0x40000000000000000000000000000000u128,
    ensures
        r == sqrt_floor(n as int),
        r * r <= n,
        r <= 0x8000000000000000u128,
{
    let mut lo: u128 = 0;
    // 2^63; its square is 2^126, above any admitted argument.
    let mut hi: u128 = 0x8000000000000000;
    assert(hi * hi == 0x40000000000000000000000000000000u128) by (nonlinear_arith)
        requires
            hi == 0x8000000000000000u128,
    ;
    while lo + 1 < hi
        invariant
            lo < hi <= 0x8000000000000000u128,
            lo * lo <= n,
            n < hi * hi,
        decreases hi - lo,
    {
        let mid = lo + (hi - lo) / 2;
        assert(mid * mid <= 0x8000000000000000u128 * 0x8000000000000000u128) by (nonlinear_arith)
            requires
                mid <= 0x8000000000000000u128,
        ;
        if mid * mid <= n {
            lo = mid;
        } else {
            hi = mid;
        }
    }
    proof {
        assert(hi == lo + 1);
        lemma_sqrt_unique(n as int, lo as int);
    }
    lo
}

/// Truncating division of an `i128` by a positive divisor.
pub fn div_tz_i128(a: i128, d: i128) -> (r: i128)
    requires
        d >= 1,
        a > i128::MIN,
    ensures
        r == div_tz(a as int, d as int),
{
    proof {
        lemma_div_tz_mag(a as int, d as int);
        vstd::arithmetic::div_mod::lemma_div_nonincreasing(abs(a as int) as int, d as int);
        lemma_div_pos_is_pos(abs(a as int) as int, d as int);
    }
    if a >= 0 {
        ((a as u128) / (d as u128)) as i128
    } else {
        let q: u128 = ((-a) as u128) / (d as u128);
        if q == 0 {
            0
        } else {
            -1 - ((q - 1) as i128)
        }
    }
}

/// Clamp into `[lo, hi]`.
pub fn clamp_fx(x: i64, lo: i64, hi: i64) -> (r: i64)
    requires
        lo <= hi,
    ensures
        r == clampi(x as int, lo as int, hi as int),
{
    if x < lo {
        lo
    } else if x > hi {
        hi
    } else {
        x
    }
}

} // verus!
