//! What arithmetic on the bits of 64-bit floating-point numbers gives.

use vstd::arithmetic::div_mod::*;
use vstd::arithmetic::power2::*;
use vstd::prelude::*;

use crate::data::DataValue;
use crate::float;
use crate::laws::values;
use crate::number;

verus! {

/// The distance of two integers.
pub open spec fn gap(x: int, y: int) -> int {
    if x < y {
        y - x
    } else {
        x - y
    }
}

/// The number, times 2^1074, whose bits these are. It is finite, and not below zero.
pub open spec fn amount(bits: int) -> int {
    values::exact(DataValue::Float64(bits as u64))->0
}

/// The least bits of an infinity.
pub open spec fn infinity() -> int {
    0x7ff0_0000_0000_0000
}

/// The bits of the number that is nearest to `n / d` times 2^-1074: no other number
/// of the format is nearer, and where another is as near, these bits are even. They
/// are those of an infinity where the number is nearer to 2^1024 than to the
/// greatest one of the format, or as near.
pub open spec fn nearest(bits: int, n: int, d: int) -> bool {
    &&& 0 <= bits <= infinity()
    &&& bits == infinity() <==> n >= d * ((0x40_0000_0000_0000 - 1) * pow2(2044))
    &&& bits < infinity() ==> forall|other: int|
        0 <= other < infinity() ==> {
            &&& gap(amount(bits) * d, n) <= gap(#[trigger] amount(other) * d, n)
            &&& other != bits && gap(amount(bits) * d, n) == gap(amount(other) * d, n) ==> bits % 2
                == 0
        }
}

proof fn lemma_amount(bits: int)
    requires
        0 <= bits < infinity(),
    ensures
        amount(bits) == number::scaled_64(bits),
        values::exact(DataValue::Float64(bits as u64)) is Some,
{
    let u = bits as u64;
    assert(u as int == bits);
    assert(bits % 0x8000_0000_0000_0000 == bits);
}

proof fn lemma_spacing_bounds(n: int, d: int)
    requires
        d > 0,
        n >= 0,
    ensures
        n < d * pow2(float::spacing(n, d) + 53),
        float::spacing(n, d) > 0 ==> n >= d * pow2((float::spacing(n, d) + 52) as nat),
    decreases n / d,
{
    lemma2_to64();
    lemma2_to64_rest();
    let t = float::spacing(n, d);
    if n >= d * 0x20_0000_0000_0000 {
        assert(n / (2 * d) < n / d) by (nonlinear_arith)
            requires
                d > 0,
                n >= d * 0x20_0000_0000_0000,
        {
            let q = n / d;
            let r = n % d;
            assert(n == d * q + r);
            assert(q >= 1);
            assert(n / (2 * d) <= q / 2);
        }
        lemma_spacing_bounds(n, 2 * d);
        let s = float::spacing(n, 2 * d);
        assert(t == s + 1);
        lemma_pow2_unfold((t + 53) as nat);
        lemma_pow2_unfold((t + 52) as nat);
        let p = pow2((s + 53) as nat) as int;
        assert((2 * d) * p == d * (2 * p)) by (nonlinear_arith);
        let w = pow2((s + 52) as nat) as int;
        assert((2 * d) * w == d * (2 * w)) by (nonlinear_arith);
    }
}

/// The value with `h` steps of 2^t, by its bits.
proof fn lemma_steps(t: nat, h: int)
    requires
        0 <= h <= 0x20_0000_0000_0000,
        t > 0 ==> h >= 0x10_0000_0000_0000,
    ensures
        number::scaled_64(t * 0x10_0000_0000_0000 + h) == h * pow2(t),
{
    lemma2_to64();
    let f: int = 0x10_0000_0000_0000;
    let m = t * f + h;
    if h == 2 * f {
        assert(m == (t + 2) * f);
        assert(m / f == t + 2 && m % f == 0);
        lemma_pow2_unfold((t + 1) as nat);
        let p = pow2(t) as int;
        assert(f * (2 * p) == (2 * f) * p) by (nonlinear_arith);
    } else if h >= f {
        assert(m == (t + 1) * f + (h - f));
        assert(m / f == t + 1 && m % f == h - f);
    } else {
        assert(m / f == 0 && m % f == h);
        assert(h * 1 == h);
    }
}

/// The next value up is at least one step above.
proof fn lemma_step_up(t: nat, h: int)
    requires
        0 <= h <= 0x20_0000_0000_0000,
        t > 0 ==> h >= 0x10_0000_0000_0000,
    ensures
        number::scaled_64(t * 0x10_0000_0000_0000 + h + 1) >= (h + 1) * pow2(t),
{
    lemma_pow2_pos(t);
    if h < 0x20_0000_0000_0000 {
        lemma_steps(t, h + 1);
    } else {
        lemma_steps((t + 1) as nat, 0x10_0000_0000_0001);
        lemma_pow2_unfold((t + 1) as nat);
        let p = pow2(t) as int;
        assert(0x10_0000_0000_0001 * (2 * p) >= 0x20_0000_0000_0001 * p) by (nonlinear_arith)
            requires
                p > 0,
        ;
    }
}

/// The next value down is one step below, or half a step where the steps get
/// smaller.
proof fn lemma_step_down(t: nat, h: int)
    requires
        0 < h <= 0x20_0000_0000_0000,
        t > 0 ==> h >= 0x10_0000_0000_0000,
    ensures
        !(t > 0 && h == 0x10_0000_0000_0000) ==> number::scaled_64(
            t * 0x10_0000_0000_0000 + h - 1,
        ) == (h - 1) * pow2(t),
        number::scaled_64(t * 0x10_0000_0000_0000 + h - 1) < h * pow2(t),
{
    lemma_steps(t, h);
    number::lemma_scaled_64_increases(
        t * 0x10_0000_0000_0000 + h - 1,
        t * 0x10_0000_0000_0000 + h,
    );
    if !(t > 0 && h == 0x10_0000_0000_0000) {
        lemma_steps(t, h - 1);
    }
}

proof fn lemma_half_even(n: int, d: int)
    requires
        d > 0,
        n >= 0,
    ensures
        ({
            let h = float::half_even(n, d);
            &&& n / d <= h <= n / d + 1
            &&& h >= 0
            &&& 2 * gap(h * d, n) <= d
            &&& 2 * gap(h * d, n) == d ==> h % 2 == 0
            &&& n / d * d <= n
        }),
{
    lemma_fundamental_div_mod(n, d);
    lemma_div_pos_is_pos(n, d);
    let q = n / d;
    let r = n % d;
    assert(q * d == d * q) by (nonlinear_arith);
    assert((q + 1) * d == d * q + d) by (nonlinear_arith);
}

/// Rounding gives the nearest number of the format.
pub proof fn law_rounding(n: int, d: int)
    requires
        n >= 0,
        d > 0,
    ensures
        nearest(float::rounded(n, d), n, d),
{
    let f: int = 0x10_0000_0000_0000;
    let t = float::spacing(n, d);
    let step = pow2(t) as int;
    lemma2_to64();
    lemma2_to64_rest();
    lemma_pow2_pos(t);
    lemma_spacing_bounds(n, d);
    let dd = d * step;
    assert(dd > 0) by (nonlinear_arith)
        requires
            d > 0,
            step > 0,
            dd == d * step,
    ;
    lemma_half_even(n, dd);
    let q = n / dd;
    let h = float::half_even(n, dd);
    // The steps are such that 53 bits hold them, and 52 do not unless they are the
    // smallest.
    lemma_pow2_adds(t, 53);
    lemma_pow2_adds(t, 52);
    assert(d * pow2((t + 53) as nat) == dd * (2 * f)) by (nonlinear_arith)
        requires
            pow2((t + 53) as nat) == step * (2 * f),
            dd == d * step,
    ;
    assert(d * pow2((t + 52) as nat) == dd * f) by (nonlinear_arith)
        requires
            pow2((t + 52) as nat) == step * f,
            dd == d * step,
    ;
    assert(0 <= q < 2 * f) by (nonlinear_arith)
        requires
            n >= 0,
            dd > 0,
            n < dd * (2 * f),
            q == n / dd,
    ;
    if t > 0 {
        assert(q >= f) by (nonlinear_arith)
            requires
                dd > 0,
                n >= dd * f,
                q == n / dd,
        ;
    }
    let bits = t * f + h;
    assert(bits >= 0);
    lemma_steps(t, h);
    lemma_overflow(n, d, t, q, h);
    if bits < infinity() {
        assert(float::rounded(n, d) == bits);
        lemma_amount(bits);
        assert(amount(bits) * d == h * dd) by (nonlinear_arith)
            requires
                amount(bits) == h * step,
                dd == d * step,
        ;
        assert forall|other: int| 0 <= other < infinity() implies {
            &&& gap(amount(bits) * d, n) <= gap(#[trigger] amount(other) * d, n)
            &&& other != bits && gap(amount(bits) * d, n) == gap(amount(other) * d, n) ==> bits % 2
                == 0
        } by {
            lemma_amount(other);
            lemma_other(n, d, t, q, h, other);
        }
    } else {
        assert(float::rounded(n, d) == infinity());
    }
}

proof fn lemma_other(n: int, d: int, t: nat, q: int, h: int, other: int)
    requires
        n >= 0,
        d > 0,
        0 <= q <= h <= q + 1,
        h <= 0x20_0000_0000_0000,
        t > 0 ==> q >= 0x10_0000_0000_0000,
        2 * gap(h * (d * pow2(t)), n) <= d * pow2(t),
        2 * gap(h * (d * pow2(t)), n) == d * pow2(t) ==> h % 2 == 0,
        q * (d * pow2(t)) <= n,
        0 <= other,
    ensures
        ({
            let near = gap(h * (d * pow2(t)), n);
            let far = gap(number::scaled_64(other) * d, n);
            let bits = t * 0x10_0000_0000_0000 + h;
            &&& near <= far
            &&& other != bits && near == far ==> bits % 2 == 0
        }),
{
    let f: int = 0x10_0000_0000_0000;
    let step = pow2(t) as int;
    let dd = d * step;
    let bits = t * f + h;
    let s = number::scaled_64(other);
    lemma_pow2_pos(t);
    lemma_steps(t, h);
    assert((t * f + h) % 2 == h % 2);
    assert(h * step * d == h * dd) by (nonlinear_arith)
        requires
            dd == d * step,
    ;
    assert(dd > 0) by (nonlinear_arith)
        requires
            d > 0,
            step > 0,
            dd == d * step,
    ;
    if other > bits {
        lemma_step_up(t, h);
        if other > bits + 1 {
            number::lemma_scaled_64_increases(bits + 1, other);
        }
        assert(s >= (h + 1) * step);
        assert(s * d >= h * dd + dd) by (nonlinear_arith)
            requires
                s >= (h + 1) * step,
                d > 0,
                dd == d * step,
        ;
    } else if other < bits {
        if h == 0 {
            assert(t == 0);
        }
        lemma_step_down(t, h);
        if other < bits - 1 {
            number::lemma_scaled_64_increases(other, bits - 1);
        }
        if t > 0 && h == f {
            assert(q == h);
            assert(s < h * step);
            assert(s * d < h * dd) by (nonlinear_arith)
                requires
                    s < h * step,
                    d > 0,
                    dd == d * step,
            ;
        } else {
            assert(s <= (h - 1) * step);
            assert(s * d <= h * dd - dd) by (nonlinear_arith)
                requires
                    s <= (h - 1) * step,
                    d > 0,
                    dd == d * step,
            ;
        }
    } else {
        assert(s * d == h * dd);
    }
}

proof fn lemma_overflow(n: int, d: int, t: nat, q: int, h: int)
    requires
        n >= 0,
        d > 0,
        0 <= q <= h <= q + 1,
        q < 0x20_0000_0000_0000,
        t > 0 ==> q >= 0x10_0000_0000_0000,
        q == n / (d * pow2(t)),
        h == float::half_even(n, d * pow2(t)),
        d * pow2(t) > 0,
        n < (d * pow2(t)) * 0x20_0000_0000_0000,
        t > 0 ==> n >= (d * pow2(t)) * 0x10_0000_0000_0000,
    ensures
        t * 0x10_0000_0000_0000 + h >= infinity() <==> n >= d * ((0x40_0000_0000_0000 - 1) * pow2(
            2044,
        )),
{
    let f: int = 0x10_0000_0000_0000;
    let base = pow2(2044) as int;
    let dd = d * pow2(t);
    let limit = d * ((4 * f - 1) * base);
    lemma_pow2_pos(2044);
    lemma_pow2_pos(t);
    lemma_fundamental_div_mod(n, dd);
    if t >= 2046 {
        if t > 2046 {
            lemma_pow2_strictly_increases(2046, t);
        }
        lemma_pow2_unfold(2046);
        lemma_pow2_unfold(2045);
        let p = pow2(t) as int;
        assert(dd * f >= limit) by (nonlinear_arith)
            requires
                dd == d * p,
                p >= 4 * base,
                d > 0,
                base > 0,
                f == 0x10_0000_0000_0000,
                limit == d * ((4 * f - 1) * base),
        ;
        assert(t * f + h >= infinity());
    } else if t == 2045 {
        lemma_pow2_unfold(2045);
        let r = n % dd;
        assert(dd == 2 * (d * base)) by (nonlinear_arith)
            requires
                dd == d * (2 * base),
        ;
        let half = d * base;
        assert(limit == (4 * f - 1) * half) by (nonlinear_arith)
            requires
                limit == d * ((4 * f - 1) * base),
                half == d * base,
        ;
        assert(n == dd * q + r);
        assert(dd * q == 2 * (q * half)) by (nonlinear_arith)
            requires
                dd == 2 * half,
        ;
        if h == 2 * f {
            assert(q == 2 * f - 1);
        } else {
            assert(t * f + h < infinity());
            if q == 2 * f - 1 {
                assert(h == q);
                assert(2 * r < dd || (2 * r == dd && q % 2 == 0));
                assert(q % 2 == 1);
                assert(2 * (q * half) == (4 * f - 2) * half) by (nonlinear_arith)
                    requires
                        q == 2 * f - 1,
                ;
            } else {
                assert(2 * (q * half) <= (4 * f - 4) * half) by (nonlinear_arith)
                    requires
                        q <= 2 * f - 2,
                        half > 0,
                ;
            }
        }
        if h == 2 * f {
            assert(2 * (q * half) == (4 * f - 2) * half) by (nonlinear_arith)
                requires
                    q == 2 * f - 1,
            ;
            assert(h == q + 1);
            assert(2 * r >= dd);
        }
    } else {
        if t < 2044 {
            lemma_pow2_strictly_increases(t, 2044);
        }
        let p = pow2(t) as int;
        assert(dd * (2 * f) < limit) by (nonlinear_arith)
            requires
                dd == d * p,
                p <= base,
                d > 0,
                base > 0,
                f == 0x10_0000_0000_0000,
                limit == d * ((4 * f - 1) * base),
        ;
        assert(t * f + h < infinity());
    }
}

/// The number, times 2^1074, that finite bits stand for.
pub open spec fn worth(bits: u64) -> int {
    values::exact(DataValue::Float64(bits))->0
}

/// The bits are those of a finite number.
pub open spec fn finite(bits: u64) -> bool {
    values::exact(DataValue::Float64(bits)) is Some
}

/// The bits without that of the sign.
pub open spec fn unsigned(bits: u64) -> int {
    bits as int % 0x8000_0000_0000_0000
}

/// The bit of the sign is set.
pub open spec fn minus(bits: u64) -> bool {
    bits >= 0x8000_0000_0000_0000
}

/// The bits are those of a NaN.
pub open spec fn none(bits: u64) -> bool {
    values::nan(DataValue::Float64(bits))
}

/// The bits are those of an infinity.
pub open spec fn endless(bits: u64) -> bool {
    values::infinite(DataValue::Float64(bits))
}

proof fn lemma_worth(bits: u64)
    ensures
        none(bits) <==> float::is_nan(bits),
        endless(bits) <==> float::is_infinite(bits),
        finite(bits) <==> !none(bits) && !endless(bits),
        finite(bits) ==> {
            &&& worth(bits) == float::value(bits)
            &&& gap(worth(bits), 0) == float::size(bits)
            &&& worth(bits) == 0 <==> float::size(bits) == 0
            &&& float::size(bits) >= 0
        },
        endless(bits) ==> float::size(bits) > 0,
{
    let m = number::magnitude_64(bits);
    assert(m % 0x10_0000_0000_0000 == bits as int % 0x10_0000_0000_0000);
    number::lemma_scaled_64_increases(m, m + 1);
    if m > 0 {
        number::lemma_scaled_64_increases(0, m);
    }
}

proof fn lemma_signed(negative: bool, m: int)
    requires
        0 <= m < 0x8000_0000_0000_0000,
    ensures
        unsigned(float::signed(negative, m)) == m,
        minus(float::signed(negative, m)) == negative,
{
}

/// The product of two finite numbers is the nearest number to it, and negative
/// where just one of them is. A NaN makes a NaN, and so do an infinity and a zero.
pub proof fn law_products(a: u64, b: u64)
    ensures
        ({
            let r = float::product(a, b);
            &&& none(a) || none(b) ==> none(r)
            &&& endless(a) && finite(b) && worth(b) == 0 ==> none(r)
            &&& endless(b) && finite(a) && worth(a) == 0 ==> none(r)
            &&& (endless(a) && !none(b) && (finite(b) ==> worth(b) != 0)) || (endless(b) && !none(a)
                && (finite(a) ==> worth(a) != 0)) ==> endless(r) && minus(r) == (minus(a)
                != minus(b))
            &&& finite(a) && finite(b) ==> {
                &&& nearest(unsigned(r), gap(worth(a), 0) * gap(worth(b), 0), pow2(1074) as int)
                &&& minus(r) == (minus(a) != minus(b))
            }
        }),
{
    lemma_worth(a);
    lemma_worth(b);
    if finite(a) && finite(b) {
        let (x, y) = (float::size(a), float::size(b));
        assert(x * y >= 0) by (nonlinear_arith)
            requires
                x >= 0,
                y >= 0,
        ;
        lemma_pow2_pos(1074);
        law_rounding(x * y, pow2(1074) as int);
        lemma_signed(minus(a) != minus(b), float::rounded(x * y, pow2(1074) as int));
    }
}

/// The quotient of two finite numbers is the nearest number to it, and negative
/// where just one of them is.
pub proof fn law_quotients(a: u64, b: u64)
    ensures
        ({
            let r = float::quotient(a, b);
            &&& none(a) || none(b) ==> none(r)
            &&& endless(a) && endless(b) ==> none(r)
            &&& finite(a) && finite(b) && worth(a) == 0 && worth(b) == 0 ==> none(r)
            &&& endless(a) && finite(b) ==> endless(r) && minus(r) == (minus(a) != minus(b))
            &&& finite(a) && worth(a) != 0 && finite(b) && worth(b) == 0 ==> endless(r) && minus(r)
                == (minus(a) != minus(b))
            &&& finite(a) && endless(b) ==> unsigned(r) == 0 && minus(r) == (minus(a) != minus(b))
            &&& finite(a) && finite(b) && worth(b) != 0 ==> {
                &&& nearest(unsigned(r), gap(worth(a), 0) * pow2(1074), gap(worth(b), 0))
                &&& minus(r) == (minus(a) != minus(b))
            }
        }),
{
    lemma_worth(a);
    lemma_worth(b);
    if finite(a) && finite(b) && worth(b) != 0 {
        let (x, y) = (float::size(a), float::size(b));
        lemma_pow2_pos(1074);
        let p = pow2(1074) as int;
        assert(x * p >= 0) by (nonlinear_arith)
            requires
                x >= 0,
                p > 0,
        ;
        law_rounding(x * p, y);
        lemma_signed(minus(a) != minus(b), float::rounded(x * p, y));
    }
}

/// The difference of two finite numbers is the nearest number to it, and negative
/// where the first is the smaller.
pub proof fn law_differences(a: u64, b: u64)
    ensures
        ({
            let r = float::difference(a, b);
            &&& none(a) || none(b) || (endless(a) && endless(b) && minus(a) == minus(b)) ==> none(r)
            &&& endless(a) && !none(b) && !(endless(b) && minus(a) == minus(b)) ==> endless(r)
                && minus(r) == minus(a)
            &&& endless(b) && finite(a) ==> endless(r) && minus(r) == !minus(b)
            &&& finite(a) && finite(b) ==> {
                &&& nearest(unsigned(r), gap(worth(a), worth(b)), 1)
                &&& worth(a) < worth(b) ==> minus(r)
                &&& worth(a) > worth(b) ==> !minus(r)
            }
        }),
{
    lemma_worth(a);
    lemma_worth(b);
    if finite(a) && finite(b) {
        let x = gap(worth(a), worth(b));
        law_rounding(x, 1);
        lemma_signed(true, float::rounded(x, 1));
        lemma_signed(false, float::rounded(x, 1));
        if x == 0 {
            lemma_signed(minus(a) && !minus(b), 0);
            lemma_nearest_zero();
        }
    }
}

proof fn lemma_nearest_zero()
    ensures
        nearest(0, 0, 1),
{
    lemma_amount(0);
    lemma_pow2_pos(2044);
    assert(number::scaled_64(0) == 0);
    assert forall|other: int| 0 <= other < infinity() implies {
        &&& gap(amount(0) * 1, 0) <= gap(#[trigger] amount(other) * 1, 0)
        &&& other != 0 && gap(amount(0) * 1, 0) == gap(amount(other) * 1, 0) ==> 0int % 2 == 0
    } by {}
}

/// An integer becomes the number that is nearest to it, with its sign.
pub proof fn law_integers_as_numbers(v: int)
    ensures
        nearest(unsigned(float::of_int(v)), gap(v, 0) * pow2(1074), 1),
        minus(float::of_int(v)) <==> v < 0,
{
    lemma_pow2_pos(1074);
    let p = pow2(1074) as int;
    let x = gap(v, 0);
    assert(x * p >= 0) by (nonlinear_arith)
        requires
            x >= 0,
            p > 0,
    ;
    law_rounding(x * p, 1);
    lemma_signed(v < 0, float::rounded(x * p, 1));
}

/// A number is moved to the nearer bound of a range, and left as it is in it.
pub proof fn law_clamped_numbers(x: u64, low: u64, high: u64)
    requires
        finite(x),
        finite(low),
        finite(high),
        worth(low) <= worth(high),
    ensures
        worth(x) < worth(low) ==> float::clamped(x, low, high) == low,
        worth(x) > worth(high) ==> float::clamped(x, low, high) == high,
        worth(low) <= worth(x) <= worth(high) ==> float::clamped(x, low, high) == x,
{
    values::law_exact_numbers(DataValue::Float64(x));
    values::law_exact_numbers(DataValue::Float64(low));
    values::law_exact_numbers(DataValue::Float64(high));
}

/// A number becomes the natural number that is nearest to it, the upper one of two,
/// as far as 64 bits hold it, and zero where it is negative or none.
pub proof fn law_nearest_naturals(x: u64)
    ensures
        ({
            let n = float::nearest_natural(x);
            let one = pow2(1074) as int;
            &&& 0 <= n <= u64::MAX
            &&& none(x) || minus(x) ==> n == 0
            &&& endless(x) && !minus(x) ==> n == u64::MAX
            &&& finite(x) && !minus(x) ==> {
                &&& n < u64::MAX ==> (2 * n - 1) * one <= 2 * worth(x) < (2 * n + 1) * one
                &&& n == u64::MAX ==> (2 * n - 1) * one <= 2 * worth(x)
            }
        }),
{
    lemma_worth(x);
    lemma_pow2_pos(1074);
    if finite(x) && !minus(x) {
        let one = pow2(1074) as int;
        let a = 2 * float::size(x) + one;
        let n = a / (2 * one);
        lemma_fundamental_div_mod(a, 2 * one);
        lemma_div_pos_is_pos(a, 2 * one);
        let r = a % (2 * one);
        assert((2 * n - 1) * one == (2 * one) * n - one) by (nonlinear_arith);
        assert((2 * n + 1) * one == (2 * one) * n + one) by (nonlinear_arith);
        if n > u64::MAX {
            let top = u64::MAX as int;
            assert((2 * top - 1) * one <= (2 * n - 1) * one) by (nonlinear_arith)
                requires
                    top <= n,
                    one > 0,
            ;
        }
    }
}

/// A 32-bit number is the same number with 64 bits.
pub proof fn law_widened_numbers(bits: u32)
    ensures
        0 <= number::widened(bits) <= u64::MAX,
        ({
            let wide = DataValue::Float64(number::widened(bits) as u64);
            let v = DataValue::Float32(bits);
            &&& values::exact(wide) == values::exact(v)
            &&& values::nan(wide) == values::nan(v)
            &&& values::infinite(wide) == values::infinite(v)
            &&& values::infinite(v) ==> values::negative(wide) == values::negative(v)
        }),
{
    number::lemma_widened(bits);
    values::law_exact_numbers(DataValue::Float64(number::widened(bits) as u64));
    values::law_exact_numbers(DataValue::Float32(bits));
}

} // verus!
