//! Arithmetic of the IEEE 754 64-bit format on bit patterns.
//!
//! Results are rounded to the nearest value of the format, and of two that are
//! equally near to the one with an even last bit.

use vstd::arithmetic::div_mod::*;
use vstd::arithmetic::mul::*;
use vstd::arithmetic::power2::*;
use vstd::prelude::*;

use crate::number;
use crate::number::{Order, FRACTION_64, SIGN_64};

verus! {

/// The magnitude bits of infinity.
pub const INFINITY: u64 = 0x7FF0_0000_0000_0000;

/// The bits of what stands for no number.
pub const NAN: u64 = 0x7FF8_0000_0000_0000;

/// The distance of neighbouring values of the format round `n / d`, in powers
/// of two of the least: 53 bits hold the number in steps of it.
pub open spec fn spacing(n: int, d: int) -> nat
    decreases n / d,
    when d > 0 && n >= 0
    via spacing_decreases
{
    if n < d * 0x20_0000_0000_0000 {
        0
    } else {
        1 + spacing(n, 2 * d)
    }
}

#[via_fn]
proof fn spacing_decreases(n: int, d: int) {
    if d > 0 && n >= 0 && n >= d * 0x20_0000_0000_0000 {
        assert(n / (2 * d) < n / d) by (nonlinear_arith)
            requires
                d > 0,
                n >= d * 0x20_0000_0000_0000,
        {
            let q = n / d;
            let r = n % d;
            assert(n == d * q + r);
            assert(q >= 1);
            assert(n / (2 * d) <= q / 2);
        }
    }
}

/// The integer nearest to `n / d`, the even one of two.
pub open spec fn half_even(n: int, d: int) -> int {
    let q = n / d;
    let r = n % d;
    if 2 * r < d || (2 * r == d && q % 2 == 0) {
        q
    } else {
        q + 1
    }
}

/// The magnitude bits of the value of the format nearest to `n / d` times
/// 2^-1074.
pub open spec fn rounded(n: int, d: int) -> int {
    let t = spacing(n, d);
    let bits = t * FRACTION_64 + half_even(n, d * pow2(t));
    if bits > INFINITY {
        INFINITY as int
    } else {
        bits
    }
}

/// The spacing is the one at which 53 bits hold the number, and 52 do not.
proof fn lemma_spacing(n: int, d: int, t: nat)
    requires
        d > 0,
        n >= 0,
        n < d * pow2(t + 53),
        t > 0 ==> n >= d * pow2((t + 52) as nat),
    ensures
        spacing(n, d) == t,
    decreases t,
{
    lemma2_to64();
    lemma2_to64_rest();
    if t > 0 {
        let u = (t - 1) as nat;
        lemma_pow2_unfold(t + 53);
        lemma_pow2_unfold((t + 52) as nat);
        let p = pow2((t + 52) as nat) as int;
        let q = pow2((u + 52) as nat) as int;
        assert(d * (2 * p) == (2 * d) * p) by (nonlinear_arith);
        assert(d * (2 * q) == (2 * d) * q) by (nonlinear_arith);
        if t > 1 {
            lemma_pow2_strictly_increases(53, (t + 52) as nat);
        }
        assert(d * 0x20_0000_0000_0000 <= d * p) by (nonlinear_arith)
            requires
                d > 0,
                p >= 0x20_0000_0000_0000,
        ;
        lemma_spacing(n, 2 * d, u);
    }
}

/// A power of two.
fn power(k: u32) -> (r: u128)
    requires
        k < 128,
    ensures
        r == pow2(k as nat),
{
    let mut r: u128 = 1;
    let mut i: u32 = 0;
    proof {
        lemma2_to64();
    }
    while i < k
        invariant
            i <= k < 128,
            r == pow2(i as nat),
        decreases k - i,
    {
        proof {
            lemma_pow2_unfold((i + 1) as nat);
            lemma2_to64();
            lemma2_to64_rest();
            lemma_pow2_adds(64, 63);
            if i + 1 < 127 {
                lemma_pow2_strictly_increases((i + 1) as nat, 127);
            }
        }
        r = r * 2;
        i = i + 1;
    }
    r
}

/// The number of bits of a number.
fn bit_length(m: u128) -> (r: u32)
    ensures
        r <= 128,
        m < pow2(r as nat),
        r > 0 ==> m >= pow2((r - 1) as nat),
{
    let mut x: u128 = m;
    let mut r: u32 = 0;
    proof {
        lemma2_to64();
        lemma_pow2_adds(64, 64);
        assert(m as int / 1 == m);
    }
    while x > 0
        invariant
            r <= 128,
            x == m as int / pow2(r as nat) as int,
            r > 0 ==> m >= pow2((r - 1) as nat),
            m < pow2(128),
        decreases x,
    {
        proof {
            let p = pow2(r as nat) as int;
            lemma_pow2_pos(r as nat);
            lemma_pow2_unfold((r + 1) as nat);
            lemma_div_denominator(m as int, p, 2);
            assert(p * 2 == 2 * p);
            lemma_fundamental_div_mod(m as int, p);
            assert(m >= p) by (nonlinear_arith)
                requires
                    m == p * x + m as int % p,
                    x >= 1,
                    p > 0,
                    m as int % p >= 0,
            ;
            if r >= 128 {
                if r > 128 {
                    lemma_pow2_strictly_increases(128, r as nat);
                }
            }
        }
        x = x / 2;
        r = r + 1;
    }
    proof {
        let p = pow2(r as nat) as int;
        lemma_pow2_pos(r as nat);
        lemma_fundamental_div_mod(m as int, p);
        assert(p * 0 == 0);
    }
    r
}

/// A quotient is rounded alike when both its parts are scaled.
proof fn lemma_half_even_scaled(n: int, d: int, k: int)
    requires
        d > 0,
        k > 0,
    ensures
        half_even(n * k, d * k) == half_even(n, d),
{
    let q = n / d;
    let r = n % d;
    lemma_fundamental_div_mod(n, d);
    assert(n * k == q * (d * k) + r * k) by (nonlinear_arith)
        requires
            n == d * q + r,
    ;
    assert(0 <= r * k < d * k && d * k > 0) by (nonlinear_arith)
        requires
            0 <= r < d,
            k > 0,
    ;
    lemma_fundamental_div_mod_converse(n * k, d * k, q, r * k);
    assert((2 * (r * k) < d * k) == (2 * r < d)) by (nonlinear_arith)
        requires
            k > 0,
    ;
    assert((2 * (r * k) == d * k) == (2 * r == d)) by (nonlinear_arith)
        requires
            k > 0,
    ;
}

/// What is cut off below `big * part` of a number decides its rounding like
/// what is cut off below `part` of its floor, if a rest is not nothing.
proof fn lemma_half_even_floor(n: int, d: int, m: int, p: int, exact: bool)
    requires
        d > 0,
        p > 0,
        p % 2 == 0,
        m >= 0,
        m * d <= n < (m + 1) * d,
        exact == (m * d == n),
    ensures
        half_even(n, d * p) == if 2 * (m % p) < p || (exact && 2 * (m % p) == p && (m / p) % 2
            == 0) {
            m / p
        } else {
            m / p + 1
        },
{
    let q = m / p;
    let r1 = m % p;
    let r0 = n - m * d;
    lemma_fundamental_div_mod(m, p);
    assert((m + 1) * d == m * d + d) by (nonlinear_arith);
    assert(n == q * (d * p) + (d * r1 + r0)) by (nonlinear_arith)
        requires
            m == p * q + r1,
            n == m * d + r0,
    ;
    assert(0 <= d * r1 + r0 < d * p && d * p > 0) by (nonlinear_arith)
        requires
            0 <= r1 < p,
            0 <= r0 < d,
            d > 0,
            p > 0,
    ;
    lemma_fundamental_div_mod_converse(n, d * p, q, d * r1 + r0);
    let h = p / 2;
    assert(p == 2 * h);
    assert(d * p == 2 * (d * h)) by (nonlinear_arith)
        requires
            p == 2 * h,
    ;
    if r1 < h {
        assert(d * r1 + r0 < d * h) by (nonlinear_arith)
            requires
                r1 + 1 <= h,
                0 <= r0 < d,
        ;
    } else if r1 == h {
    } else {
        assert(d * r1 > d * h) by (nonlinear_arith)
            requires
                r1 > h,
                d > 0,
        ;
    }
}

/// The spacing round a number that lies between two neighbouring multiples of
/// `2^up / 2^down`, by the number of bits of the multiple.
proof fn lemma_spacing_of(n: int, d: int, m: int, up: nat, down: nat, bits: nat, t: nat)
    requires
        d > 0,
        n >= 0,
        bits > 0,
        pow2((bits - 1) as nat) <= m < pow2(bits),
        m * (d * pow2(up)) <= n * pow2(down) < (m + 1) * (d * pow2(up)),
        t + 53 + down >= bits + up,
        t > 0 ==> t + 53 + down == bits + up,
    ensures
        spacing(n, d) == t,
{
    let a = pow2(up) as int;
    let b = pow2(down) as int;
    lemma_pow2_pos(up);
    lemma_pow2_pos(down);
    let high = pow2(t + 53) as int;
    let big = pow2(bits) as int;
    assert((m + 1) * (d * a) <= big * (d * a)) by (nonlinear_arith)
        requires
            m + 1 <= big,
            d > 0,
            a > 0,
    ;
    lemma_pow2_adds(bits, up);
    lemma_pow2_adds(t + 53, down);
    if bits + up < t + 53 + down {
        lemma_pow2_strictly_increases(bits + up, t + 53 + down);
    }
    assert(big * (d * a) <= (d * high) * b) by (nonlinear_arith)
        requires
            big * a <= high * b,
            d > 0,
    ;
    assert(n < d * high) by (nonlinear_arith)
        requires
            n * b < (d * high) * b,
            b > 0,
    ;
    if t > 0 {
        let low = pow2((t + 52) as nat) as int;
        let small = pow2((bits - 1) as nat) as int;
        lemma_pow2_adds((bits - 1) as nat, up);
        lemma_pow2_adds((t + 52) as nat, down);
        assert(m * (d * a) >= small * (d * a)) by (nonlinear_arith)
            requires
                m >= small,
                d > 0,
                a > 0,
        ;
        assert(small * (d * a) == (d * low) * b) by (nonlinear_arith)
            requires
                small * a == low * b,
        ;
        assert(n >= d * low) by (nonlinear_arith)
            requires
                n * b >= (d * low) * b,
                b > 0,
        ;
    }
    lemma_spacing(n, d, t);
}

/// The magnitude bits of the value nearest to `n / d` times 2^-1074, where
/// `m` is the floor of `n / d` times `2^down / 2^up`.
fn rounded_bits(m: u128, up: u32, down: u32, exact: bool, n: Ghost<int>, d: Ghost<int>) -> (r: u64)
    requires
        d@ > 0,
        n@ >= 0,
        up <= 0x10000,
        down <= 0x10000,
        m < 0x8000_0000_0000_0000_0000_0000_0000_0000,
        !exact ==> m >= 0x20_0000_0000_0000,
        m * (d@ * pow2(up as nat)) <= n@ * pow2(down as nat) < (m + 1) * (d@ * pow2(up as nat)),
        exact == (m * (d@ * pow2(up as nat)) == n@ * pow2(down as nat)),
    ensures
        r == rounded(n@, d@),
        r <= INFINITY,
{
    let ghost n = n@;
    let ghost d = d@;
    let ghost a = pow2(up as nat) as int;
    let ghost b = pow2(down as nat) as int;
    proof {
        lemma_pow2_pos(up as nat);
        lemma_pow2_pos(down as nat);
        lemma2_to64();
        lemma2_to64_rest();
    }
    if m == 0 {
        proof {
            assert(n == 0) by (nonlinear_arith)
                requires
                    0 * (d * a) == n * b,
                    b > 0,
            ;
            assert(d * pow2(0) == d);
            lemma_small_mod(0, d as nat);
            lemma_basic_div(0, d);
        }
        return 0;
    }
    let bits: u32 = bit_length(m);
    proof {
        lemma_pow2_adds(64, 63);
        if bits > 127 {
            lemma_pow2_strictly_increases(126, (bits - 1) as nat);
        }
        if !exact && bits <= 53 {
            if bits < 53 {
                lemma_pow2_strictly_increases(bits as nat, 53);
            }
        }
    }
    let t: u32 = if bits + up > down + 53 {
        bits + up - down - 53
    } else {
        0
    };
    proof {
        lemma_spacing_of(n, d, m as int, up as nat, down as nat, bits as nat, t as nat);
    }
    let ghost e = pow2(t as nat) as int;
    proof {
        lemma_pow2_pos(t as nat);
    }
    let q: u64 = if t + down <= up {
        // All bits of the number fit.
        let rise: u32 = up - t - down;
        let p: u128 = power(rise);
        proof {
            lemma_pow2_adds(bits as nat, rise as nat);
            lemma_pow2_adds(t as nat, down as nat);
            lemma_pow2_adds((t + down) as nat, rise as nat);
            if bits + rise < 53 {
                lemma_pow2_strictly_increases((bits + rise) as nat, 53);
            }
            let big = pow2(bits as nat) as int;
            assert(m * p < big * p) by (nonlinear_arith)
                requires
                    0 <= m < big,
                    p > 0,
            ;
            assert(n == (m * p) * (d * e)) by (nonlinear_arith)
                requires
                    m * (d * a) == n * b,
                    a == (e * b) * p,
                    b > 0,
            ;
            assert(d * e > 0) by (nonlinear_arith)
                requires
                    d > 0,
                    e > 0,
            ;
            lemma_fundamental_div_mod_converse(n, d * e, m * p, 0);
        }
        (m * p) as u64
    } else {
        let fall: u32 = t + down - up;
        proof {
            lemma_pow2_adds(up as nat, fall as nat);
            lemma_pow2_adds(t as nat, down as nat);
            let p = pow2(fall as nat) as int;
            lemma_pow2_pos(fall as nat);
            lemma_pow2_unfold(fall as nat);
            assert(d * a > 0) by (nonlinear_arith)
                requires
                    d > 0,
                    a > 0,
            ;
            assert(d * e > 0) by (nonlinear_arith)
                requires
                    d > 0,
                    e > 0,
            ;
            lemma_half_even_floor(n * b, d * a, m as int, p, exact);
            lemma_half_even_scaled(n, d * e, b);
            assert((d * a) * p == (d * e) * b) by (nonlinear_arith)
                requires
                    a * p == e * b,
            ;
        }
        if fall > 127 {
            proof {
                let p = pow2(fall as nat) as int;
                lemma_pow2_adds(64, 64);
                if fall > 128 {
                    lemma_pow2_strictly_increases(128, fall as nat);
                }
                lemma_small_mod(m as nat, p as nat);
                lemma_basic_div(m as int, p);
            }
            0
        } else {
            let p: u128 = power(fall);
            let whole: u128 = m / p;
            let rest: u128 = m % p;
            proof {
                if bits > 53 {
                    lemma_pow2_adds(53, (bits - 53) as nat);
                    assert(bits - 53 <= fall);
                    if bits - 53 < fall {
                        lemma_pow2_strictly_increases((bits - 53) as nat, fall as nat);
                    }
                    let low = pow2((bits - 53) as nat) as int;
                    assert(m < 0x20_0000_0000_0000 * p) by (nonlinear_arith)
                        requires
                            m < 0x20_0000_0000_0000 * low,
                            low <= p,
                    ;
                } else {
                    if bits < 53 {
                        lemma_pow2_strictly_increases(bits as nat, 53);
                    }
                    assert(m < 0x20_0000_0000_0000 * p) by (nonlinear_arith)
                        requires
                            m < 0x20_0000_0000_0000,
                            p >= 1,
                    ;
                }
                lemma_multiply_divide_lt(m as int, p as int, 0x20_0000_0000_0000);
            }
            if rest < p - rest || (exact && rest == p - rest && whole % 2 == 0) {
                whole as u64
            } else {
                whole as u64 + 1
            }
        }
    };
    assert(q == half_even(n, d * e));
    if t >= 2047 {
        return INFINITY;
    }
    let all: u64 = t as u64 * FRACTION_64 + q;
    if all > INFINITY {
        INFINITY
    } else {
        all
    }
}

/// Whether the pattern stands for no number.
pub open spec fn is_nan(bits: u64) -> bool {
    number::magnitude_64(bits) > INFINITY
}

/// Whether the pattern stands for one of the infinities.
pub open spec fn is_infinite(bits: u64) -> bool {
    number::magnitude_64(bits) == INFINITY
}

/// The pattern with a sign and magnitude bits.
pub open spec fn signed(negative: bool, magnitude: int) -> u64 {
    if negative {
        (SIGN_64 + magnitude) as u64
    } else {
        magnitude as u64
    }
}

/// The magnitude of a finite pattern, times 2^1074.
pub open spec fn size(bits: u64) -> int {
    number::scaled_64(number::magnitude_64(bits))
}

/// The value of a finite pattern, times 2^1074.
pub open spec fn value(bits: u64) -> int {
    if bits >= SIGN_64 {
        -size(bits)
    } else {
        size(bits)
    }
}

/// The product of two numbers.
pub open spec fn product(a: u64, b: u64) -> u64 {
    let negative = (a >= SIGN_64) != (b >= SIGN_64);
    if is_nan(a) || is_nan(b) {
        NAN
    } else if is_infinite(a) || is_infinite(b) {
        if size(a) == 0 || size(b) == 0 {
            NAN
        } else {
            signed(negative, INFINITY as int)
        }
    } else {
        signed(negative, rounded(size(a) * size(b), pow2(1074) as int))
    }
}

/// The quotient of two numbers.
pub open spec fn quotient(a: u64, b: u64) -> u64 {
    let negative = (a >= SIGN_64) != (b >= SIGN_64);
    if is_nan(a) || is_nan(b) || (is_infinite(a) && is_infinite(b)) || (size(a) == 0 && size(b)
        == 0) {
        NAN
    } else if is_infinite(a) || size(b) == 0 {
        signed(negative, INFINITY as int)
    } else if is_infinite(b) {
        signed(negative, 0)
    } else {
        signed(negative, rounded(size(a) * pow2(1074), size(b)))
    }
}

/// The difference of two numbers. Equal numbers differ by a zero, negative
/// only if the first is and the second is not.
pub open spec fn difference(a: u64, b: u64) -> u64 {
    if is_nan(a) || is_nan(b) || (is_infinite(a) && a == b) {
        NAN
    } else if is_infinite(a) {
        a
    } else if is_infinite(b) {
        signed(b < SIGN_64, INFINITY as int)
    } else {
        let x = value(a) - value(b);
        if x == 0 {
            signed(a >= SIGN_64 && b < SIGN_64, 0)
        } else if x < 0 {
            signed(true, rounded(-x, 1))
        } else {
            signed(false, rounded(x, 1))
        }
    }
}

/// The number nearest to an integer.
pub open spec fn of_int(v: int) -> u64 {
    if v < 0 {
        signed(true, rounded(-v * pow2(1074), 1))
    } else {
        signed(false, rounded(v * pow2(1074), 1))
    }
}

/// A number moved into a range; what is no number stays as it is.
pub open spec fn clamped(x: u64, low: u64, high: u64) -> u64 {
    if number::num_order(number::num_64(x), number::num_64(low)) == Some(Order::Less) {
        low
    } else if number::num_order(number::num_64(x), number::num_64(high)) == Some(Order::Greater) {
        high
    } else {
        x
    }
}

/// The nearest natural number, halves up, as far as 64 bits hold it. Zero for
/// what is negative or no number.
pub open spec fn nearest_natural(x: u64) -> int {
    if is_nan(x) || x >= SIGN_64 {
        0
    } else if is_infinite(x) {
        u64::MAX as int
    } else {
        let n = (2 * size(x) + pow2(1074)) / (2 * pow2(1074)) as int;
        if n > u64::MAX {
            u64::MAX as int
        } else {
            n
        }
    }
}

/// A value of the format is rounded to itself.
proof fn lemma_rounded_self(m: int)
    requires
        0 <= m < INFINITY,
    ensures
        rounded(number::scaled_64(m), 1) == m,
{
    lemma2_to64();
    lemma2_to64_rest();
    let e = number::exponent_64(m);
    let f = number::fraction_64(m);
    let n = number::scaled_64(m);
    assert(m == e * FRACTION_64 + f);
    if e <= 0 {
        lemma_spacing(n, 1, 0);
        lemma_div_basics(n);
        assert(n % 1 == 0);
        assert(1 * pow2(0) == 1);
    } else {
        let t = (e - 1) as nat;
        let p = pow2(t) as int;
        lemma_pow2_pos(t);
        lemma_pow2_adds(t, 53);
        lemma_pow2_adds(t, 52);
        let s = FRACTION_64 + f;
        assert(s * p < p * 0x20_0000_0000_0000) by (nonlinear_arith)
            requires
                s < 0x20_0000_0000_0000,
                p > 0,
        ;
        assert(s * p >= p * 0x10_0000_0000_0000) by (nonlinear_arith)
            requires
                s >= 0x10_0000_0000_0000,
                p > 0,
        ;
        lemma_spacing(n, 1, t);
        lemma_fundamental_div_mod_converse(n, p, s, 0);
        assert(1 * p == p);
    }
}

/// A significand of 53 bits and an exponent of a positive finite magnitude.
fn parts(m: u64) -> (r: (u64, u32))
    requires
        0 < m < INFINITY,
    ensures
        FRACTION_64 <= r.0 < 2 * FRACTION_64,
        12 <= r.1 <= 2110,
        number::scaled_64(m as int) * pow2(64) == r.0 * pow2(r.1 as nat),
{
    let e: u64 = m / FRACTION_64;
    let f: u64 = m % FRACTION_64;
    proof {
        lemma2_to64();
        lemma2_to64_rest();
    }
    if e == 0 {
        let bits: u32 = bit_length(f as u128);
        proof {
            if bits > 53 {
                lemma_pow2_strictly_increases(52, (bits - 1) as nat);
            }
        }
        let lift: u32 = 53 - bits;
        let p: u128 = power(lift);
        let s: u128 = f as u128;
        proof {
            lemma_pow2_adds(bits as nat, lift as nat);
            lemma_pow2_adds((bits - 1) as nat, lift as nat);
            lemma_pow2_adds((64 - lift) as nat, lift as nat);
            let high = pow2(bits as nat) as int;
            let low = pow2((bits - 1) as nat) as int;
            assert(low * p <= s * p < high * p) by (nonlinear_arith)
                requires
                    low <= s < high,
                    p > 0,
            ;
            let w = pow2((64 - lift) as nat) as int;
            assert(f * (w * p) == (s * p) * w) by (nonlinear_arith)
                requires
                    f == s,
            ;
        }
        ((s * p) as u64, 64 - lift)
    } else {
        proof {
            lemma_pow2_adds((e - 1) as nat, 64);
            let p = pow2((e - 1) as nat) as int;
            let s = FRACTION_64 + f;
            let w = pow2(64) as int;
            assert((s * p) * w == s * (p * w)) by (nonlinear_arith);
        }
        (FRACTION_64 + f, (e - 1) as u32 + 64)
    }
}

/// The magnitude bits of the product of two positive finite magnitudes.
fn product_of(a: u64, b: u64) -> (r: u64)
    requires
        0 < a < INFINITY,
        0 < b < INFINITY,
    ensures
        r == rounded(
            number::scaled_64(a as int) * number::scaled_64(b as int),
            pow2(1074) as int,
        ),
        r <= INFINITY,
{
    let (sa, ua) = parts(a);
    let (sb, ub) = parts(b);
    let ghost x = number::scaled_64(a as int);
    let ghost y = number::scaled_64(b as int);
    let ghost d = pow2(1074) as int;
    let ghost m = sa as int * sb as int;
    let wide_a: u128 = sa as u128;
    let wide_b: u128 = sb as u128;
    proof {
        lemma_pow2_pos(1074);
        number::lemma_scaled_64_zero(a as int);
        number::lemma_scaled_64_zero(b as int);
        assert(x * y >= 0) by (nonlinear_arith)
            requires
                x >= 0,
                y >= 0,
        ;
        assert(0 < m < 0x20_0000_0000_0000 * 0x20_0000_0000_0000) by (nonlinear_arith)
            requires
                0 < sa < 0x20_0000_0000_0000,
                0 < sb < 0x20_0000_0000_0000,
                m == sa * sb,
        ;
        lemma_pow2_adds(ua as nat, ub as nat);
        lemma_pow2_pos((ua + ub) as nat);
        lemma_pow2_adds(64, 64);
        lemma_pow2_adds(128, 1074);
        let w = pow2(64) as int;
        let pa = pow2(ua as nat) as int;
        let pb = pow2(ub as nat) as int;
        assert((x * y) * (w * w) == (sa * sb) * (pa * pb)) by (nonlinear_arith)
            requires
                x * w == sa * pa,
                y * w == sb * pb,
        ;
        let up = pow2((ua + ub) as nat) as int;
        let down = pow2(1202) as int;
        assert(m * (d * up) == (x * y) * down) by (nonlinear_arith)
            requires
                (x * y) * (w * w) == m * up,
                down == (w * w) * d,
        ;
        assert((m + 1) * (d * up) > m * (d * up)) by (nonlinear_arith)
            requires
                d > 0,
                up > 0,
        ;
    }
    rounded_bits(wide_a * wide_b, ua + ub, 1202, true, Ghost(x * y), Ghost(d))
}

/// The magnitude bits of the quotient of two positive finite magnitudes.
fn quotient_of(a: u64, b: u64) -> (r: u64)
    requires
        0 < a < INFINITY,
        0 < b < INFINITY,
    ensures
        r == rounded(
            number::scaled_64(a as int) * pow2(1074),
            number::scaled_64(b as int),
        ),
        r <= INFINITY,
{
    let (sa, ua) = parts(a);
    let (sb, ub) = parts(b);
    let ghost x = number::scaled_64(a as int);
    let ghost d = number::scaled_64(b as int);
    let ghost k = pow2(1074) as int;
    let ghost n = x * k;
    let c: u128 = power(74);
    proof {
        lemma2_to64();
        lemma2_to64_rest();
        lemma_pow2_adds(64, 10);
        number::lemma_scaled_64_zero(a as int);
        number::lemma_scaled_64_zero(b as int);
        lemma_pow2_pos(1074);
        assert(n >= 0) by (nonlinear_arith)
            requires
                n == x * k,
                x >= 0,
                k > 0,
        ;
    }
    let top: u128 = sa as u128 * c;
    let m: u128 = top / sb as u128;
    let rest: u128 = top % sb as u128;
    proof {
        let w = pow2(64) as int;
        let pa = pow2(ua as nat) as int;
        let pb = pow2(ub as nat) as int;
        lemma_pow2_pos(ua as nat);
        lemma_pow2_pos(ub as nat);
        lemma_pow2_adds(ub as nat, 74);
        lemma_pow2_adds(ua as nat, 1074);
        let up = pow2((ua + 1074) as nat) as int;
        let down = pow2((ub + 74) as nat) as int;
        let g = pa * pb * k;
        let big_n = n * down;
        let big_d = d * up;
        let cc = c as int;
        assert(g > 0) by (nonlinear_arith)
            requires
                g == pa * pb * k,
                pa > 0,
                pb > 0,
                k > 0,
        ;
        assert(big_n * w == top * g) by (nonlinear_arith)
            requires
                big_n == (x * k) * (pb * cc),
                x * w == sa * pa,
                top == sa * cc,
                g == pa * pb * k,
        ;
        assert(big_d * w == sb * g) by (nonlinear_arith)
            requires
                big_d == d * (pa * k),
                d * w == sb * pb,
                g == pa * pb * k,
        ;
        lemma_fundamental_div_mod(top as int, sb as int);
        let mm = m as int;
        let ss = sb as int;
        let tt = top as int;
        let rr = rest as int;
        assert((mm * big_d) * w == (mm * ss) * g) by (nonlinear_arith)
            requires
                big_d * w == ss * g,
        ;
        assert(((mm + 1) * big_d) * w == (mm * ss + ss) * g) by (nonlinear_arith)
            requires
                big_d * w == ss * g,
        ;
        assert(tt == mm * ss + rr) by (nonlinear_arith)
            requires
                tt == ss * mm + rr,
        ;
        assert(mm * big_d <= big_n && (rr == 0 ==> mm * big_d == big_n) && (rr > 0 ==> mm * big_d
            < big_n)) by (nonlinear_arith)
            requires
                (mm * big_d) * w == (mm * ss) * g,
                big_n * w == tt * g,
                tt == mm * ss + rr,
                rr >= 0,
                g > 0,
                w > 0,
        ;
        assert(big_n < (mm + 1) * big_d) by (nonlinear_arith)
            requires
                ((mm + 1) * big_d) * w == (mm * ss + ss) * g,
                big_n * w == tt * g,
                tt == mm * ss + rr,
                rr < ss,
                g > 0,
                w > 0,
        ;
        assert(mm <= tt) by (nonlinear_arith)
            requires
                tt == mm * ss + rr,
                rr >= 0,
                ss >= 1,
                mm >= 0,
        ;
        if mm < 0x20_0000_0000_0000 {
            assert(mm * ss <= 0x20_0000_0000_0000 * 0x20_0000_0000_0000) by (nonlinear_arith)
                requires
                    0 <= mm < 0x20_0000_0000_0000,
                    0 <= ss < 0x20_0000_0000_0000,
            ;
        }
    }
    rounded_bits(m, ua + 1074, ub + 74, rest == 0, Ghost(n), Ghost(d))
}

/// The magnitude bits of the sum of two positive finite magnitudes, or of the
/// difference. The first is not the smaller one.
fn combined_of(a: u64, b: u64, minus: bool) -> (r: u64)
    requires
        0 < b <= a < INFINITY,
    ensures
        r == rounded(
            if minus {
                number::scaled_64(a as int) - number::scaled_64(b as int)
            } else {
                number::scaled_64(a as int) + number::scaled_64(b as int)
            },
            1,
        ),
        r <= INFINITY,
{
    let (sa, ua) = parts(a);
    let (sb, ub) = parts(b);
    let ghost x = number::scaled_64(a as int);
    let ghost y = number::scaled_64(b as int);
    let ghost n: int = if minus {
        x - y
    } else {
        x + y
    };
    let ghost w = pow2(64) as int;
    let ghost pa = pow2(ua as nat) as int;
    let ghost pb = pow2(ub as nat) as int;
    proof {
        lemma2_to64();
        lemma2_to64_rest();
        lemma_pow2_adds(64, 10);
        lemma_pow2_pos(ua as nat);
        lemma_pow2_pos(ub as nat);
        number::lemma_scaled_64_zero(b as int);
        if b < a {
            number::lemma_scaled_64_increases(b as int, a as int);
        }
        if ua < ub {
            lemma_pow2_adds(ua as nat, (ub - ua) as nat);
            let p = pow2((ub - ua) as nat) as int;
            lemma_pow2_unfold((ub - ua) as nat);
            lemma_pow2_pos((ub - ua - 1) as nat);
            assert(p >= 2);
            assert(y * w > x * w) by (nonlinear_arith)
                requires
                    x * w == sa * pa,
                    y * w == sb * pb,
                    pb == pa * p,
                    p >= 2,
                    pa > 0,
                    sa < 2 * sb,
                    sb > 0,
            ;
            assert(x * w >= y * w) by (nonlinear_arith)
                requires
                    x >= y,
                    w > 0,
            ;
        }
    }
    let delta: u32 = ua - ub;
    if delta <= 74 {
        let p: u128 = power(delta);
        proof {
            lemma_pow2_adds(ub as nat, delta as nat);
            if delta < 74 {
                lemma_pow2_strictly_increases(delta as nat, 74);
            }
            assert(sa * p <= 0x1f_ffff_ffff_ffff * 0x400_0000_0000_0000_0000) by (nonlinear_arith)
                requires
                    0 <= sa <= 0x1f_ffff_ffff_ffff,
                    0 <= p <= 0x400_0000_0000_0000_0000,
            ;
            assert((sa * p) * pb == x * w) by (nonlinear_arith)
                requires
                    x * w == sa * pa,
                    pa == pb * p,
            ;
            assert(sa * p >= sb) by (nonlinear_arith)
                requires
                    (sa * p) * pb >= sb * pb,
                    pb > 0,
            ;
        }
        let top: u128 = sa as u128 * p;
        let m: u128 = if minus {
            top - sb as u128
        } else {
            top + sb as u128
        };
        proof {
            assert(1 * pb == pb);
            assert(m * pb == n * w) by (nonlinear_arith)
                requires
                    top * pb == x * w,
                    sb * pb == y * w,
                    minus ==> m == top - sb && n == x - y,
                    !minus ==> m == top + sb && n == x + y,
            ;
            assert((m + 1) * pb > m * pb) by (nonlinear_arith)
                requires
                    pb > 0,
            ;
        }
        rounded_bits(m, ub, 64, true, Ghost(n), Ghost(1))
    } else {
        let k: u32 = delta - 74;
        let c: u128 = power(74);
        let ghost q = pow2(k as nat) as int;
        proof {
            lemma_pow2_pos(k as nat);
            lemma_pow2_adds(74, k as nat);
            lemma_pow2_adds(ub as nat, delta as nat);
            lemma_fundamental_div_mod(sb as int, q);
        }
        let (low, rest): (u64, bool) = if k >= 64 {
            proof {
                if k > 64 {
                    lemma_pow2_strictly_increases(64, k as nat);
                }
                lemma_small_mod(sb as nat, q as nat);
                lemma_basic_div(sb as int, q);
            }
            (0, true)
        } else {
            let p: u128 = power(k);
            proof {
                if k < 64 {
                    lemma_pow2_strictly_increases(k as nat, 64);
                }
                lemma_div_nonincreasing(sb as int, q);
            }
            ((sb as u128 / p) as u64, sb as u128 % p != 0)
        };
        assert(low == sb as int / q);
        assert(rest == (sb as int % q != 0));
        assert(low <= sb) by (nonlinear_arith)
            requires
                sb == q * low + sb as int % q,
                sb as int % q >= 0,
                q >= 1,
                low >= 0,
        ;
        let top: u128 = sa as u128 * c;
        let m: u128 = if minus {
            if rest {
                top - low as u128 - 1
            } else {
                top - low as u128
            }
        } else {
            top + low as u128
        };
        let ghost rr: int = sb as int % q;
        let ghost over: int = if minus {
            if rest {
                q - rr
            } else {
                0
            }
        } else {
            rr
        };
        proof {
            let down = pow2(138) as int;
            let cc = c as int;
            lemma_pow2_adds(64, 74);
            let tt = top as int;
            let ll = low as int;
            let ss = sb as int;
            let mm = m as int;
            // What the two amount to in steps of the smaller exponent.
            assert((x * w) == (tt * q) * pb) by (nonlinear_arith)
                requires
                    x * w == sa * pa,
                    pa == pb * (cc * q),
                    tt == sa * cc,
            ;
            let sum: int = if minus {
                tt * q - ss
            } else {
                tt * q + ss
            };
            assert(n * w == sum * pb) by (nonlinear_arith)
                requires
                    x * w == (tt * q) * pb,
                    y * w == ss * pb,
                    minus ==> sum == tt * q - ss && n == x - y,
                    !minus ==> sum == tt * q + ss && n == x + y,
            ;
            assert(sum == mm * q + over) by (nonlinear_arith)
                requires
                    ss == q * ll + rr,
                    minus ==> sum == tt * q - ss,
                    !minus ==> sum == tt * q + ss,
                    minus && rest ==> mm == tt - ll - 1 && over == q - rr,
                    minus && !rest ==> mm == tt - ll && over == 0 && rr == 0,
                    !minus ==> mm == tt + ll && over == rr,
            ;
            assert(n * down == sum * (pb * cc)) by (nonlinear_arith)
                requires
                    n * w == sum * pb,
                    down == w * cc,
            ;
            let step = pb * cc;
            assert(pa == q * step) by (nonlinear_arith)
                requires
                    pa == pb * (cc * q),
                    step == pb * cc,
            ;
            assert(step > 0) by (nonlinear_arith)
                requires
                    step == pb * cc,
                    pb > 0,
                    cc > 0,
            ;
            assert(n * down == mm * pa + over * step) by (nonlinear_arith)
                requires
                    n * down == sum * step,
                    sum == mm * q + over,
                    pa == q * step,
            ;
            assert(0 <= over * step < pa && (over == 0) == (over * step == 0)) by (nonlinear_arith)
                requires
                    0 <= over < q,
                    pa == q * step,
                    step > 0,
            ;
            assert((mm + 1) * pa == mm * pa + pa) by (nonlinear_arith);
            assert(1 * pa == pa);
            assert(n >= 0);
        }
        rounded_bits(m, ua, 138, !rest, Ghost(n), Ghost(1))
    }
}

/// The pattern with a sign and magnitude bits.
fn with_sign(negative: bool, magnitude: u64) -> (r: u64)
    requires
        magnitude < SIGN_64,
    ensures
        r == signed(negative, magnitude as int),
{
    if negative {
        SIGN_64 + magnitude
    } else {
        magnitude
    }
}

/// The product of two numbers.
pub fn multiply(a: u64, b: u64) -> (r: u64)
    ensures
        r == product(a, b),
{
    let ma: u64 = a % SIGN_64;
    let mb: u64 = b % SIGN_64;
    let negative: bool = (a >= SIGN_64) != (b >= SIGN_64);
    proof {
        number::lemma_scaled_64_zero(ma as int);
        number::lemma_scaled_64_zero(mb as int);
    }
    if ma > INFINITY || mb > INFINITY {
        return NAN;
    }
    if ma == INFINITY || mb == INFINITY {
        if ma == 0 || mb == 0 {
            return NAN;
        }
        return with_sign(negative, INFINITY);
    }
    if ma == 0 || mb == 0 {
        proof {
            assert(size(a) * size(b) == 0) by (nonlinear_arith)
                requires
                    size(a) == 0 || size(b) == 0,
            ;
            lemma_pow2_pos(1074);
            lemma_rounded_zero(pow2(1074) as int);
        }
        return with_sign(negative, 0);
    }
    with_sign(negative, product_of(ma, mb))
}

/// Nothing is rounded to zero.
proof fn lemma_rounded_zero(d: int)
    requires
        d > 0,
    ensures
        rounded(0, d) == 0,
{
    lemma2_to64();
    assert(d * pow2(0) == d);
    lemma_small_mod(0, d as nat);
    lemma_basic_div(0, d);
    assert(spacing(0, d) == 0);
}

/// The quotient of two numbers.
pub fn divide(a: u64, b: u64) -> (r: u64)
    ensures
        r == quotient(a, b),
{
    let ma: u64 = a % SIGN_64;
    let mb: u64 = b % SIGN_64;
    let negative: bool = (a >= SIGN_64) != (b >= SIGN_64);
    proof {
        number::lemma_scaled_64_zero(ma as int);
        number::lemma_scaled_64_zero(mb as int);
    }
    if ma > INFINITY || mb > INFINITY || (ma == INFINITY && mb == INFINITY) || (ma == 0 && mb
        == 0) {
        return NAN;
    }
    if ma == INFINITY || mb == 0 {
        return with_sign(negative, INFINITY);
    }
    if mb == INFINITY {
        return with_sign(negative, 0);
    }
    if ma == 0 {
        proof {
            assert(0 * pow2(1074) == 0);
            lemma_rounded_zero(size(b));
        }
        return with_sign(negative, 0);
    }
    with_sign(negative, quotient_of(ma, mb))
}

/// The difference of two numbers.
pub fn subtract(a: u64, b: u64) -> (r: u64)
    ensures
        r == difference(a, b),
{
    let ma: u64 = a % SIGN_64;
    let mb: u64 = b % SIGN_64;
    proof {
        number::lemma_scaled_64_zero(ma as int);
        number::lemma_scaled_64_zero(mb as int);
        if ma < mb {
            number::lemma_scaled_64_increases(ma as int, mb as int);
        }
        if mb < ma {
            number::lemma_scaled_64_increases(mb as int, ma as int);
        }
        if ma < INFINITY {
            lemma_rounded_self(ma as int);
        }
        if mb < INFINITY {
            lemma_rounded_self(mb as int);
        }
    }
    if ma > INFINITY || mb > INFINITY || (ma == INFINITY && a == b) {
        return NAN;
    }
    if ma == INFINITY {
        return a;
    }
    if mb == INFINITY {
        return with_sign(b < SIGN_64, INFINITY);
    }
    let first: bool = a >= SIGN_64;
    let second: bool = b >= SIGN_64;
    if mb == 0 {
        if ma == 0 {
            with_sign(first && !second, 0)
        } else {
            with_sign(first, ma)
        }
    } else if ma == 0 {
        with_sign(!second, mb)
    } else if first != second {
        if ma >= mb {
            with_sign(first, combined_of(ma, mb, false))
        } else {
            with_sign(first, combined_of(mb, ma, false))
        }
    } else if ma == mb {
        with_sign(false, 0)
    } else if ma > mb {
        with_sign(first, combined_of(ma, mb, true))
    } else {
        with_sign(!first, combined_of(mb, ma, true))
    }
}

/// The magnitude bits of the number nearest to a natural number.
fn natural_bits(v: u64) -> (r: u64)
    ensures
        r == rounded(v * pow2(1074), 1),
        r <= INFINITY,
{
    let ghost k = pow2(1074) as int;
    proof {
        lemma2_to64();
        lemma_pow2_pos(1074);
        assert(v * k >= 0) by (nonlinear_arith)
            requires
                k > 0,
                v >= 0,
        ;
        assert((v + 1) * k > v * k) by (nonlinear_arith)
            requires
                k > 0,
        ;
        assert(1 * k == k);
        assert((v * k) * 1 == v * k);
    }
    rounded_bits(v as u128, 1074, 0, true, Ghost(v * k), Ghost(1))
}

/// The number nearest to a natural number.
pub fn from_natural(v: u64) -> (r: u64)
    ensures
        r == of_int(v as int),
{
    natural_bits(v)
}

/// The number nearest to an integer.
pub fn from_integer(v: i64) -> (r: u64)
    ensures
        r == of_int(v as int),
{
    if v < 0 {
        let size: u64 = (-(v + 1)) as u64 + 1;
        with_sign(true, natural_bits(size))
    } else {
        natural_bits(v as u64)
    }
}

/// A number moved into a range.
pub fn clamp(x: u64, low: u64, high: u64) -> (r: u64)
    ensures
        r == clamped(x, low, high),
{
    if number::order_64(x, low) == Some(Order::Less) {
        low
    } else if number::order_64(x, high) == Some(Order::Greater) {
        high
    } else {
        x
    }
}

/// The nearest natural number, halves up.
pub fn round(x: u64) -> (r: u64)
    ensures
        r == nearest_natural(x),
{
    if x > INFINITY {
        return 0;
    }
    if x == INFINITY {
        return u64::MAX;
    }
    let e: u64 = x / FRACTION_64;
    let f: u64 = x % FRACTION_64;
    let ghost one = pow2(1074) as int;
    proof {
        lemma2_to64();
        lemma2_to64_rest();
        lemma_pow2_pos(1074);
    }
    if e == 0 {
        proof {
            lemma_pow2_strictly_increases(53, 1074);
            lemma_small_div_of(2 * f + one, 2 * one);
        }
        return 0;
    }
    let s: u64 = FRACTION_64 + f;
    let ghost p = pow2((e - 1) as nat) as int;
    proof {
        lemma_pow2_pos((e - 1) as nat);
    }
    if e >= 1075 {
        let rise: u32 = (e - 1075) as u32;
        proof {
            let q = pow2(rise as nat) as int;
            lemma_pow2_adds(1074, rise as nat);
            assert(2 * (s * p) + one == (s * q) * (2 * one) + one) by (nonlinear_arith)
                requires
                    p == one * q,
            ;
            lemma_fundamental_div_mod_converse(2 * (s * p) + one, 2 * one, s * q, one);
        }
        if rise >= 12 {
            proof {
                let q = pow2(rise as nat) as int;
                if rise > 12 {
                    lemma_pow2_strictly_increases(12, rise as nat);
                }
                assert(s * q >= 0x10_0000_0000_0000 * 0x1000) by (nonlinear_arith)
                    requires
                        s >= 0x10_0000_0000_0000,
                        q >= 0x1000,
                ;
            }
            return u64::MAX;
        }
        let q: u128 = power(rise);
        proof {
            if rise < 11 {
                lemma_pow2_strictly_increases(rise as nat, 11);
            }
            assert(s * q <= 0x1f_ffff_ffff_ffff * 0x800) by (nonlinear_arith)
                requires
                    0 <= s <= 0x1f_ffff_ffff_ffff,
                    0 <= q <= 0x800,
            ;
        }
        return s * q as u64;
    }
    let fall: u32 = (1075 - e) as u32;
    let ghost q = pow2(fall as nat) as int;
    proof {
        lemma_pow2_pos(fall as nat);
        lemma_pow2_unfold(fall as nat);
        lemma_pow2_adds((e - 1) as nat, fall as nat);
        let top = 2 * s + q;
        let m = top / (2 * q);
        let r = top % (2 * q);
        lemma_fundamental_div_mod(top, 2 * q);
        assert(2 * (s * p) + one == m * (2 * one) + r * p) by (nonlinear_arith)
            requires
                2 * s + q == (2 * q) * m + r,
                one == p * q,
        ;
        assert(0 <= r * p < 2 * one) by (nonlinear_arith)
            requires
                0 <= r < 2 * q,
                p > 0,
                one == p * q,
        ;
        lemma_fundamental_div_mod_converse(2 * (s * p) + one, 2 * one, m, r * p);
    }
    if fall >= 54 {
        proof {
            if fall > 54 {
                lemma_pow2_strictly_increases(54, fall as nat);
            }
            lemma_small_div_of(2 * s + q, 2 * q);
        }
        return 0;
    }
    let half: u128 = power(fall - 1);
    let whole: u128 = power(fall);
    proof {
        if fall < 53 {
            lemma_pow2_strictly_increases(fall as nat, 53);
        }
        let a = s + half;
        assert((2 * s + q) == a * 2);
        lemma_div_multiples_vanish_of(a, q);
        lemma_div_nonincreasing(a, q);
    }
    ((s as u128 + half) / whole) as u64
}

/// A quotient below one.
proof fn lemma_small_div_of(a: int, b: int)
    requires
        0 <= a < b,
    ensures
        a / b == 0,
{
    lemma_basic_div(a, b);
}

/// A common factor of two leaves the quotient.
proof fn lemma_div_multiples_vanish_of(a: int, q: int)
    requires
        a >= 0,
        q > 0,
    ensures
        (a * 2) / (2 * q) == a / q,
{
    lemma_fundamental_div_mod(a, q);
    let m = a / q;
    let r = a % q;
    assert(a * 2 == m * (2 * q) + 2 * r) by (nonlinear_arith)
        requires
            a == q * m + r,
    ;
    lemma_fundamental_div_mod_converse(a * 2, 2 * q, m, 2 * r);
}

} // verus!
