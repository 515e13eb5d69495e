//! Numbers in IEEE 754 binary formats, taken apart by their bit patterns.
//!
//! Every finite value of the 64-bit format is a whole multiple of 2^-1074, so
//! it is described here by an integer: the value times 2^1074. The same scale
//! holds integers and values of the 32-bit format, which makes comparison of
//! any two of them a comparison of integers.

use vstd::arithmetic::power2::*;
use vstd::prelude::*;

verus! {

/// A number on the extended number line, or none at all. A finite number is
/// given times 2^1074.
pub enum Num {
    NaN,
    NegativeInfinity,
    Finite(int),
    PositiveInfinity,
}

/// The outcome of a comparison.
#[derive(Debug, Clone, Copy, PartialEq, Eq, Structural)]
pub enum Order {
    Less,
    Equal,
    Greater,
}

impl Order {
    /// The outcome with the two sides exchanged.
    pub open spec fn reversed(self) -> Order {
        match self {
            Order::Less => Order::Greater,
            Order::Equal => Order::Equal,
            Order::Greater => Order::Less,
        }
    }

    /// The outcome with the two sides exchanged.
    pub fn reverse(self) -> (r: Order)
        ensures
            r == self.reversed(),
    {
        match self {
            Order::Less => Order::Greater,
            Order::Equal => Order::Equal,
            Order::Greater => Order::Less,
        }
    }
}

/// The order of two integers.
pub open spec fn int_order(a: int, b: int) -> Order {
    if a < b {
        Order::Less
    } else if a == b {
        Order::Equal
    } else {
        Order::Greater
    }
}

/// The order of two numbers, of which a NaN has none.
pub open spec fn num_order(a: Num, b: Num) -> Option<Order> {
    match (a, b) {
        (Num::NaN, _) => None,
        (_, Num::NaN) => None,
        (Num::Finite(x), Num::Finite(y)) => Some(int_order(x, y)),
        (Num::NegativeInfinity, Num::NegativeInfinity) => Some(Order::Equal),
        (Num::PositiveInfinity, Num::PositiveInfinity) => Some(Order::Equal),
        (Num::NegativeInfinity, _) => Some(Order::Less),
        (_, Num::PositiveInfinity) => Some(Order::Less),
        (Num::PositiveInfinity, _) => Some(Order::Greater),
        (_, Num::NegativeInfinity) => Some(Order::Greater),
    }
}

/// 2^52, the number of values that the fraction of the 64-bit format takes.
pub const FRACTION_64: u64 = 0x10_0000_0000_0000;

/// 2^63, the weight of the sign bit of the 64-bit format.
pub const SIGN_64: u64 = 0x8000_0000_0000_0000;

/// 2^23, the number of values that the fraction of the 32-bit format takes.
pub const FRACTION_32: u32 = 0x80_0000;

/// 2^31, the weight of the sign bit of the 32-bit format.
pub const SIGN_32: u32 = 0x8000_0000;

/// The magnitude bits of a 64-bit pattern.
pub open spec fn magnitude_64(bits: u64) -> int {
    bits as int % SIGN_64 as int
}

/// The biased exponent in the magnitude bits of the 64-bit format.
pub open spec fn exponent_64(magnitude: int) -> int {
    magnitude / FRACTION_64 as int
}

/// The fraction in the magnitude bits of the 64-bit format.
pub open spec fn fraction_64(magnitude: int) -> int {
    magnitude % FRACTION_64 as int
}

/// The magnitude, times 2^1074, of the finite value with these magnitude bits.
pub open spec fn scaled_64(magnitude: int) -> int {
    if exponent_64(magnitude) <= 0 {
        fraction_64(magnitude)
    } else {
        (FRACTION_64 + fraction_64(magnitude)) * pow2((exponent_64(magnitude) - 1) as nat)
    }
}

/// The number that a 64-bit pattern stands for.
pub open spec fn num_64(bits: u64) -> Num {
    let m = magnitude_64(bits);
    if exponent_64(m) == 2047 {
        if fraction_64(m) != 0 {
            Num::NaN
        } else if bits >= SIGN_64 {
            Num::NegativeInfinity
        } else {
            Num::PositiveInfinity
        }
    } else if bits >= SIGN_64 {
        Num::Finite(-scaled_64(m))
    } else {
        Num::Finite(scaled_64(m))
    }
}

/// The magnitude bits of a 32-bit pattern.
pub open spec fn magnitude_32(bits: u32) -> int {
    bits as int % SIGN_32 as int
}

/// The biased exponent in the magnitude bits of the 32-bit format.
pub open spec fn exponent_32(magnitude: int) -> int {
    magnitude / FRACTION_32 as int
}

/// The fraction in the magnitude bits of the 32-bit format.
pub open spec fn fraction_32(magnitude: int) -> int {
    magnitude % FRACTION_32 as int
}

/// The magnitude, times 2^1074, of the finite value with these magnitude bits.
pub open spec fn scaled_32(magnitude: int) -> int {
    if exponent_32(magnitude) <= 0 {
        fraction_32(magnitude) * pow2(925)
    } else {
        (FRACTION_32 + fraction_32(magnitude)) * pow2((exponent_32(magnitude) + 924) as nat)
    }
}

/// The number that a 32-bit pattern stands for.
pub open spec fn num_32(bits: u32) -> Num {
    let m = magnitude_32(bits);
    if exponent_32(m) == 255 {
        if fraction_32(m) != 0 {
            Num::NaN
        } else if bits >= SIGN_32 {
            Num::NegativeInfinity
        } else {
            Num::PositiveInfinity
        }
    } else if bits >= SIGN_32 {
        Num::Finite(-scaled_32(m))
    } else {
        Num::Finite(scaled_32(m))
    }
}

/// The number that an integer is.
pub open spec fn num_int(v: int) -> Num {
    Num::Finite(v * pow2(1074))
}

/// Larger magnitude bits stand for a larger magnitude.
pub proof fn lemma_scaled_64_increases(a: int, b: int)
    requires
        0 <= a < b,
    ensures
        0 <= scaled_64(a) < scaled_64(b),
{
    let f = FRACTION_64 as int;
    let (ea, eb) = (exponent_64(a), exponent_64(b));
    let (fa, fb) = (fraction_64(a), fraction_64(b));
    assert(a == ea * f + fa && 0 <= fa < f);
    assert(b == eb * f + fb && 0 <= fb < f);
    assert(0 <= ea <= eb);
    lemma_pow2_pos((ea - 1) as nat);
    lemma_pow2_pos((eb - 1) as nat);
    let pa = pow2((ea - 1) as nat) as int;
    let pb = pow2((eb - 1) as nat) as int;
    if ea == eb {
        assert(fa < fb);
        if ea > 0 {
            assert((f + fa) * pa < (f + fb) * pa) by (nonlinear_arith)
                requires
                    fa < fb,
                    pa > 0,
            ;
            assert(0 <= (f + fa) * pa) by (nonlinear_arith)
                requires
                    0 <= fa,
                    f > 0,
                    pa > 0,
            ;
        }
    } else {
        assert(f * pb <= (f + fb) * pb) by (nonlinear_arith)
            requires
                fb >= 0,
                pb > 0,
        ;
        if ea <= 0 {
            assert(f <= f * pb) by (nonlinear_arith)
                requires
                    pb >= 1,
                    f > 0,
            ;
        } else {
            lemma_pow2_unfold(ea as nat);
            if ea < eb - 1 {
                lemma_pow2_strictly_increases(ea as nat, (eb - 1) as nat);
            }
            assert(2 * pa <= pb);
            assert((f + fa) * pa < (2 * f) * pa) by (nonlinear_arith)
                requires
                    fa < f,
                    pa > 0,
            ;
            assert((2 * f) * pa == f * (2 * pa)) by (nonlinear_arith);
            assert(f * (2 * pa) <= f * pb) by (nonlinear_arith)
                requires
                    2 * pa <= pb,
                    f > 0,
            ;
            assert(0 <= (f + fa) * pa) by (nonlinear_arith)
                requires
                    0 <= fa,
                    f > 0,
                    pa > 0,
            ;
        }
    }
}

/// Only the bits of a zero stand for zero.
pub proof fn lemma_scaled_64_zero(m: int)
    requires
        0 <= m,
    ensures
        scaled_64(0) == 0,
        scaled_64(m) >= 0,
        scaled_64(m) == 0 <==> m == 0,
{
    assert(scaled_64(0) == 0);
    if m > 0 {
        lemma_scaled_64_increases(0, m);
    }
}

/// The order of two numbers of the 64-bit format.
pub fn order_64(a: u64, b: u64) -> (r: Option<Order>)
    ensures
        r == num_order(num_64(a), num_64(b)),
{
    let infinity: u64 = 0x7FF0_0000_0000_0000;
    let ma: u64 = a % SIGN_64;
    let mb: u64 = b % SIGN_64;
    proof {
        assert(infinity == 2047 * FRACTION_64);
        lemma_scaled_64_zero(ma as int);
        lemma_scaled_64_zero(mb as int);
        if ma < mb {
            lemma_scaled_64_increases(ma as int, mb as int);
        }
        if mb < ma {
            lemma_scaled_64_increases(mb as int, ma as int);
        }
    }
    if ma > infinity || mb > infinity {
        return None;
    }
    if ma == 0 && mb == 0 {
        return Some(Order::Equal);
    }
    let a_negative: bool = a >= SIGN_64;
    let b_negative: bool = b >= SIGN_64;
    if a_negative != b_negative {
        if a_negative {
            Some(Order::Less)
        } else {
            Some(Order::Greater)
        }
    } else if ma == mb {
        Some(Order::Equal)
    } else if (ma < mb) != a_negative {
        Some(Order::Less)
    } else {
        Some(Order::Greater)
    }
}

/// A fraction below the normal range, doubled into it.
pub open spec fn normal_significand(f: int) -> int
    decreases 0x100_0000 - f,
{
    if f <= 0 || f >= 0x80_0000 {
        f
    } else {
        normal_significand(2 * f)
    }
}

/// How often a fraction below the normal range is doubled to come into it.
pub open spec fn doublings(f: int) -> int
    decreases 0x100_0000 - f,
{
    if f <= 0 || f >= 0x80_0000 {
        0
    } else {
        1 + doublings(2 * f)
    }
}

/// The 64-bit pattern of the number that a 32-bit pattern stands for. The
/// payload of a NaN is kept.
pub open spec fn widened(bits: u32) -> int {
    let m = magnitude_32(bits);
    let e = exponent_32(m);
    let f = fraction_32(m);
    let sign: int = if bits >= SIGN_32 {
        SIGN_64 as int
    } else {
        0
    };
    if e == 255 {
        sign + 2047 * FRACTION_64 + f * 0x2000_0000
    } else if e > 0 {
        sign + (e + 896) * FRACTION_64 + f * 0x2000_0000
    } else if f == 0 {
        sign
    } else {
        sign + (897 - doublings(f)) * FRACTION_64 + (normal_significand(f) - 0x80_0000)
            * 0x2000_0000
    }
}

/// The 64-bit pattern of the number that a 32-bit pattern stands for.
pub fn widen(bits: u32) -> (r: u64)
    ensures
        num_64(r) == num_32(bits),
        r == widened(bits),
{
    let magnitude: u32 = bits % SIGN_32;
    let exponent: u32 = magnitude / FRACTION_32;
    let fraction: u32 = magnitude % FRACTION_32;
    let sign: u64 = if bits >= SIGN_32 {
        SIGN_64
    } else {
        0
    };
    let two_29: u64 = 0x2000_0000;
    if exponent == 255 {
        let m: u64 = 0x7FF0_0000_0000_0000 + (fraction as u64) * two_29;
        proof {
            assert(m < SIGN_64);
            assert(exponent_64(m as int) == 2047);
            assert(fraction_64(m as int) == fraction * two_29);
            assert(magnitude_64((sign + m) as u64) == m);
        }
        return sign + m;
    }
    if exponent == 0 {
        if fraction == 0 {
            proof {
                assert(magnitude_64(sign) == 0);
                lemma_scaled_64_zero(0);
                assert(0 * pow2(925) == 0);
            }
            return sign;
        }
        // A value below the normal range of the short format is a normal one
        // of the long format.
        let mut significand: u64 = fraction as u64;
        let mut shifts: u64 = 0;
        assert(pow2(0) == 1) by {
            lemma2_to64();
        }
        assert(significand * 1 == fraction);
        while significand < 0x80_0000
            invariant
                0 < significand < 0x100_0000,
                shifts <= 23,
                significand == fraction * pow2(shifts as nat),
                0 < fraction,
                normal_significand(significand as int) == normal_significand(fraction as int),
                shifts + doublings(significand as int) == doublings(fraction as int),
            decreases 0x100_0000 - significand,
        {
            proof {
                lemma_pow2_unfold((shifts + 1) as nat);
                let p = pow2(shifts as nat) as int;
                assert(fraction as int * (2 * p) == 2 * (fraction as int * p)) by (nonlinear_arith);
                if shifts >= 23 {
                    lemma_pow2_strictly_increases(22, shifts as nat);
                    lemma2_to64();
                    assert(p >= 0x80_0000);
                    assert(fraction as int * p >= p) by (nonlinear_arith)
                        requires
                            fraction >= 1,
                            p > 0,
                    ;
                }
            }
            significand = significand * 2;
            shifts = shifts + 1;
        }
        let e: u64 = 897 - shifts;
        let f: u64 = (significand - 0x80_0000) * two_29;
        let m: u64 = e * FRACTION_64 + f;
        proof {
            assert(f < FRACTION_64);
            assert(m < SIGN_64);
            assert(exponent_64(m as int) == e);
            assert(fraction_64(m as int) == f);
            assert(magnitude_64((sign + m) as u64) == m);
            lemma_pow2_adds(29, (e - 1) as nat);
            lemma_pow2_adds(shifts as nat, (e + 28) as nat);
            lemma2_to64();
            let q = pow2((e - 1) as nat) as int;
            let s = significand as int;
            let w = pow2((e + 28) as nat) as int;
            assert((s * 0x2000_0000) * q == s * (0x2000_0000 * q)) by (nonlinear_arith);
            let fr = fraction as int;
            let ps = pow2(shifts as nat) as int;
            assert((fr * ps) * w == fr * (ps * w)) by (nonlinear_arith);
            assert(scaled_64(m as int) == scaled_32(magnitude as int));
        }
        return sign + m;
    }
    let e: u64 = exponent as u64 + 896;
    let f: u64 = (fraction as u64) * two_29;
    let m: u64 = e * FRACTION_64 + f;
    proof {
        assert(f < FRACTION_64);
        assert(m < SIGN_64);
        assert(exponent_64(m as int) == e);
        assert(fraction_64(m as int) == f);
        assert(magnitude_64((sign + m) as u64) == m);
        lemma_pow2_adds(29, (e - 1) as nat);
        lemma2_to64();
        let q = pow2((e - 1) as nat) as int;
        let s = FRACTION_32 + fraction as int;
        assert((s * 0x2000_0000) * q == s * (0x2000_0000 * q)) by (nonlinear_arith);
        assert(scaled_64(m as int) == scaled_32(magnitude as int));
    }
    sign + m
}

/// The wider pattern stands for the same number.
pub proof fn lemma_widened(bits: u32)
    ensures
        0 <= widened(bits) <= u64::MAX,
        num_64(widened(bits) as u64) == num_32(bits),
{
    let magnitude = magnitude_32(bits);
    let exponent = exponent_32(magnitude);
    let fraction = fraction_32(magnitude);
    let sign: int = if bits >= SIGN_32 {
        SIGN_64 as int
    } else {
        0
    };
    if exponent == 255 {
        let m = 2047 * FRACTION_64 + fraction * 0x2000_0000;
        assert(exponent_64(m) == 2047);
        assert(fraction_64(m) == fraction * 0x2000_0000);
        assert(magnitude_64((sign + m) as u64) == m);
    } else if exponent > 0 {
        let e = exponent + 896;
        let f = fraction * 0x2000_0000;
        let m = e * FRACTION_64 + f;
        assert(f < FRACTION_64);
        assert(m < SIGN_64);
        assert(exponent_64(m) == e);
        assert(fraction_64(m) == f);
        assert(magnitude_64((sign + m) as u64) == m);
        lemma_pow2_adds(29, (e - 1) as nat);
        lemma2_to64();
        let q = pow2((e - 1) as nat) as int;
        let s = FRACTION_32 + fraction;
        assert((s * 0x2000_0000) * q == s * (0x2000_0000 * q)) by (nonlinear_arith);
        assert(scaled_64(m) == scaled_32(magnitude));
    } else if fraction == 0 {
        assert(magnitude_64(sign as u64) == 0);
        lemma_scaled_64_zero(0);
        assert(0 * pow2(925) == 0);
    } else {
        lemma2_to64();
        lemma_doublings(fraction, 0);
        let shifts = doublings(fraction);
        let s = normal_significand(fraction);
        let e = 897 - shifts;
        let f = (s - 0x80_0000) * 0x2000_0000;
        let m = e * FRACTION_64 + f;
        assert(f < FRACTION_64);
        assert(m < SIGN_64);
        assert(exponent_64(m) == e);
        assert(fraction_64(m) == f);
        assert(magnitude_64((sign + m) as u64) == m);
        lemma_pow2_adds(29, (e - 1) as nat);
        lemma_pow2_adds(shifts as nat, (e + 28) as nat);
        let q = pow2((e - 1) as nat) as int;
        let w = pow2((e + 28) as nat) as int;
        assert((s * 0x2000_0000) * q == s * (0x2000_0000 * q)) by (nonlinear_arith);
        let ps = pow2(shifts as nat) as int;
        assert((fraction * ps) * w == fraction * (ps * w)) by (nonlinear_arith);
        assert(scaled_64(m) == scaled_32(magnitude));
    }
}

proof fn lemma_doublings(f: int, done: nat)
    requires
        0 < f < 0x100_0000,
        f >= pow2(done),
    ensures
        0x80_0000 <= normal_significand(f) < 0x100_0000,
        0 <= doublings(f),
        done + doublings(f) <= 23,
        normal_significand(f) == f * pow2(doublings(f) as nat),
    decreases 0x100_0000 - f,
{
    lemma2_to64();
    if f >= 0x80_0000 {
        assert(f * 1 == f);
        if done > 23 {
            lemma_pow2_strictly_increases(23, done);
            if done > 24 {
                lemma_pow2_strictly_increases(24, done);
            }
        }
    } else {
        lemma_pow2_unfold(done + 1);
        lemma_doublings(2 * f, done + 1);
        let d = doublings(2 * f) as nat;
        lemma_pow2_unfold(d + 1);
        let p = pow2(d) as int;
        assert((2 * f) * p == f * (2 * p)) by (nonlinear_arith);
    }
}

} // verus!
