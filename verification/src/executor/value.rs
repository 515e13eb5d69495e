//! Comparison of column values.

use vstd::arithmetic::power2::*;
use vstd::prelude::*;

use crate::data::{Data, DataValue};
use crate::error::DbError;
use crate::executor;
use crate::executor::CompiledSortSpec;
use crate::number;
use crate::number::{Num, Order, FRACTION_64, SIGN_64};
use crate::query::ComparisionOperator;
use crate::row::Row;
use crate::semantics;

verus! {

/// The number that a value is; a text is none.
pub open spec fn number_of(v: DataValue) -> Option<Num> {
    match v {
        DataValue::Int32(x) => Some(number::num_int(x as int)),
        DataValue::Int64(x) => Some(number::num_int(x as int)),
        DataValue::Float32(bits) => Some(number::num_32(bits)),
        DataValue::Float64(bits) => Some(number::num_64(bits)),
        DataValue::Text(_) => None,
    }
}

/// The lexicographic order of two byte strings.
pub open spec fn bytes_order(a: Seq<u8>, b: Seq<u8>) -> Order
    decreases a.len(),
{
    if a.len() == 0 || b.len() == 0 {
        number::int_order(a.len() as int, b.len() as int)
    } else if a[0] != b[0] {
        number::int_order(a[0] as int, b[0] as int)
    } else {
        bytes_order(a.skip(1), b.skip(1))
    }
}

/// The order of two values: numbers by their exact values, whatever their
/// types, and texts by their bytes. A NaN, and a text beside a number, have
/// no order.
pub open spec fn order(a: DataValue, b: DataValue) -> Option<Order> {
    match (a, b) {
        (DataValue::Text(x), DataValue::Text(y)) => Some(
            bytes_order(vstd::utf8::encode_utf8(x), vstd::utf8::encode_utf8(y)),
        ),
        _ => match (number_of(a), number_of(b)) {
            (Some(x), Some(y)) => number::num_order(x, y),
            _ => None,
        },
    }
}

/// Whether an outcome is one that the operator asks for.
pub open spec fn meets(o: Order, op: ComparisionOperator) -> bool {
    match op {
        ComparisionOperator::EQ => o is Equal,
        ComparisionOperator::NE => !(o is Equal),
        ComparisionOperator::GT => o is Greater,
        ComparisionOperator::GTE => !(o is Less),
        ComparisionOperator::LT => o is Less,
        ComparisionOperator::LTE => !(o is Greater),
    }
}

/// What a comparison with an operator answers.
pub open spec fn comparison(a: DataValue, op: ComparisionOperator, b: DataValue) -> Result<
    bool,
    DbError,
> {
    match order(a, b) {
        Some(o) => Ok(meets(o, op)),
        None => Err(DbError::Incomparable),
    }
}

/// The order of two values, or [`DbError::Incomparable`] where they have none.
pub fn compare_values(left: &Data, right: &Data) -> (r: Result<Order, DbError>)
    ensures
        r == match order(left@, right@) {
            Some(o) => Ok::<Order, DbError>(o),
            None => Err(DbError::Incomparable),
        },
{
    match compare_data_order(left, right) {
        Some(o) => Ok(o),
        None => Err(DbError::Incomparable),
    }
}

/// Whether `left op right` holds, or [`DbError::Incomparable`] where the two
/// values have no order.
pub fn compare_data(left: &Data, op: ComparisionOperator, right: &Data) -> (r: Result<bool, DbError>)
    ensures
        r == comparison(left@, op, right@),
{
    let outcome = compare_values(left, right)?;
    Ok(
        match op {
            ComparisionOperator::EQ => outcome == Order::Equal,
            ComparisionOperator::NE => outcome != Order::Equal,
            ComparisionOperator::GT => outcome == Order::Greater,
            ComparisionOperator::GTE => outcome != Order::Less,
            ComparisionOperator::LT => outcome == Order::Less,
            ComparisionOperator::LTE => outcome != Order::Greater,
        },
    )
}

/// The order of two values, if they have one.
pub fn compare_data_order(left: &Data, right: &Data) -> (r: Option<Order>)
    ensures
        r == order(left@, right@),
{
    match (left, right) {
        (Data::String(a), Data::String(b)) => Some(compare_text(a.as_str(), b.as_str())),
        _ => compare_numeric_order(left, right),
    }
}

/// The order of two texts by their bytes.
pub fn compare_text(a: &str, b: &str) -> (r: Order)
    ensures
        r == bytes_order(vstd::utf8::encode_utf8(a@), vstd::utf8::encode_utf8(b@)),
{
    let x = a.as_bytes();
    let y = b.as_bytes();
    let mut i: usize = 0;
    assert(x@.skip(0) == x@);
    assert(y@.skip(0) == y@);
    while i < x.len() && i < y.len()
        invariant
            i <= x@.len(),
            i <= y@.len(),
            x@ == vstd::utf8::encode_utf8(a@),
            y@ == vstd::utf8::encode_utf8(b@),
            bytes_order(x@, y@) == bytes_order(x@.skip(i as int), y@.skip(i as int)),
        decreases x@.len() - i,
    {
        if x[i] < y[i] {
            return Order::Less;
        }
        if x[i] > y[i] {
            return Order::Greater;
        }
        assert(x@.skip(i as int).skip(1) == x@.skip(i + 1));
        assert(y@.skip(i as int).skip(1) == y@.skip(i + 1));
        i = i + 1;
    }
    if i < y.len() {
        Order::Less
    } else if i < x.len() {
        Order::Greater
    } else {
        Order::Equal
    }
}

/// A number: an integer, or the bit pattern of a 64-bit float.
#[derive(Copy, Clone)]
pub enum NumericKind {
    Int(i64),
    Float(u64),
}

impl NumericKind {
    /// The number.
    pub open spec fn num(self) -> Num {
        match self {
            NumericKind::Int(v) => number::num_int(v as int),
            NumericKind::Float(bits) => number::num_64(bits),
        }
    }
}

/// The number that a value is, if it is one.
pub fn numeric_kind(value: &Data) -> (r: Option<NumericKind>)
    ensures
        match number_of(value@) {
            Some(n) => r matches Some(k) && k.num() == n,
            None => r is None,
        },
{
    match value {
        Data::Int32(v) => Some(NumericKind::Int(*v as i64)),
        Data::Int64(v) => Some(NumericKind::Int(*v)),
        Data::Float32(v) => Some(NumericKind::Float(number::widen(*v))),
        Data::Float64(v) => Some(NumericKind::Float(*v)),
        Data::String(_) => None,
    }
}

/// The order of two integers.
pub fn compare_ints(a: i64, b: i64) -> (r: Order)
    ensures
        r == number::int_order(a as int, b as int),
{
    if a < b {
        Order::Less
    } else if a == b {
        Order::Equal
    } else {
        Order::Greater
    }
}

fn compare_numeric_order(left: &Data, right: &Data) -> (r: Option<Order>)
    ensures
        r == match (number_of(left@), number_of(right@)) {
            (Some(x), Some(y)) => number::num_order(x, y),
            _ => None,
        },
{
    match (numeric_kind(left), numeric_kind(right)) {
        (Some(NumericKind::Int(a)), Some(NumericKind::Int(b))) => {
            proof {
                lemma_pow2_pos(1074);
                lemma_scale_order(a as int, b as int, pow2(1074) as int);
            }
            Some(compare_ints(a, b))
        },
        (Some(NumericKind::Int(a)), Some(NumericKind::Float(b))) => compare_int_to_float(a, b),
        (Some(NumericKind::Float(a)), Some(NumericKind::Int(b))) => {
            match compare_int_to_float(b, a) {
                Some(o) => Some(o.reverse()),
                None => None,
            }
        },
        (Some(NumericKind::Float(a)), Some(NumericKind::Float(b))) => number::order_64(a, b),
        _ => None,
    }
}

proof fn lemma_scale_order(a: int, b: int, p: int)
    requires
        p > 0,
    ensures
        number::int_order(a * p, b * p) == number::int_order(a, b),
{
    if a < b {
        assert(a * p < b * p) by (nonlinear_arith)
            requires
                a < b,
                p > 0,
        ;
    } else if a > b {
        assert(a * p > b * p) by (nonlinear_arith)
            requires
                a > b,
                p > 0,
        ;
    }
}

/// The order of an integer and the number of a 64-bit pattern.
pub fn compare_int_to_float(int_value: i64, bits: u64) -> (r: Option<Order>)
    ensures
        r == number::num_order(number::num_int(int_value as int), number::num_64(bits)),
{
    let magnitude: u64 = bits % SIGN_64;
    let negative: bool = bits >= SIGN_64;
    let exponent: u64 = magnitude / FRACTION_64;
    let fraction: u64 = magnitude % FRACTION_64;
    if exponent == 2047 {
        if fraction != 0 {
            return None;
        }
        return Some(
            if negative {
                Order::Greater
            } else {
                Order::Less
            },
        );
    }
    let ghost p = pow2(1074) as int;
    let ghost v = int_value as int;
    proof {
        lemma_pow2_pos(1074);
        number::lemma_scaled_64_zero(magnitude as int);
    }
    if magnitude == 0 {
        proof {
            lemma_scale_order(v, 0, p);
        }
        return Some(compare_ints(int_value, 0));
    }
    let int_negative: bool = int_value < 0;
    if int_negative != negative {
        proof {
            assert(v < 0 ==> v * p < 0) by (nonlinear_arith)
                requires
                    p > 0,
            ;
            assert(v >= 0 ==> v * p >= 0) by (nonlinear_arith)
                requires
                    p > 0,
            ;
        }
        return Some(
            if int_negative {
                Order::Less
            } else {
                Order::Greater
            },
        );
    }
    if int_negative {
        let size: u64 = ((-(int_value + 1)) as u64) + 1;
        let o = compare_positive_int_to_positive_float(size, magnitude);
        assert((-v) * p == -(v * p)) by (nonlinear_arith);
        Some(o.reverse())
    } else {
        Some(compare_positive_int_to_positive_float(int_value as u64, magnitude))
    }
}

/// A finite value as a whole number times a power of two.
#[derive(Copy, Clone)]
pub struct BinaryFloat {
    pub significand: u64,
    pub exponent: i32,
}

impl BinaryFloat {
    /// The parts of the positive finite value with these magnitude bits.
    pub fn from_f64(magnitude: u64) -> (r: BinaryFloat)
        requires
            0 < magnitude < 2047 * FRACTION_64,
        ensures
            0 < r.significand < 2 * FRACTION_64,
            -1074 <= r.exponent <= 971,
            r.exponent > -1074 ==> r.significand >= FRACTION_64,
            r.exponent == if number::exponent_64(magnitude as int) == 0 {
                -1074
            } else {
                number::exponent_64(magnitude as int) - 1075
            },
            r.significand * pow2((r.exponent + 1074) as nat) == number::scaled_64(magnitude as int),
    {
        let exponent: u64 = magnitude / FRACTION_64;
        let fraction: u64 = magnitude % FRACTION_64;
        proof {
            lemma2_to64();
        }
        if exponent == 0 {
            assert(fraction * 1 == fraction);
            BinaryFloat { significand: fraction, exponent: -1074 }
        } else {
            BinaryFloat {
                significand: FRACTION_64 + fraction,
                exponent: exponent as i32 - 1075,
            }
        }
    }
}

/// The order of an integer and the positive finite value with these magnitude
/// bits.
fn compare_positive_int_to_positive_float(int_value: u64, magnitude: u64) -> (r: Order)
    requires
        0 < magnitude < 2047 * FRACTION_64,
    ensures
        r == number::int_order(int_value * pow2(1074), number::scaled_64(magnitude as int)),
{
    let binary = BinaryFloat::from_f64(magnitude);
    let ghost s = binary.significand as int;
    let ghost v = int_value as int;
    let ghost p = pow2(1074) as int;
    proof {
        lemma_pow2_pos(1074);
    }
    if binary.exponent >= 0 {
        let shift: u64 = binary.exponent as u64;
        proof {
            lemma_pow2_adds(shift as nat, 1074);
            let q = pow2(shift as nat) as int;
            assert(s * (q * p) == (s * q) * p) by (nonlinear_arith);
            lemma_scale_order(v, s * q, p);
        }
        if shift > 11 {
            proof {
                lemma_pow2_strictly_increases(11, shift as nat);
                lemma2_to64();
                let q = pow2(shift as nat) as int;
                assert(q >= 4096) by {
                    if shift > 12 {
                        lemma_pow2_strictly_increases(12, shift as nat);
                    }
                }
                assert(s * q >= 0x10_0000_0000_0000 * 4096) by (nonlinear_arith)
                    requires
                        s >= 0x10_0000_0000_0000,
                        q >= 4096,
                ;
            }
            return Order::Less;
        }
        let factor: u64 = 1u64 << shift;
        proof {
            vstd::bits::lemma_u64_pow2_no_overflow(shift as nat);
            assert(1 * pow2(shift as nat) <= u64::MAX);
            vstd::bits::lemma_u64_shl_is_mul(1, shift);
            if shift < 11 {
                lemma_pow2_strictly_increases(shift as nat, 11);
            }
            lemma2_to64();
            assert(binary.significand * factor <= 0x20_0000_0000_0000 * 2048) by (nonlinear_arith)
                requires
                    binary.significand <= 0x20_0000_0000_0000,
                    factor <= 2048,
            ;
        }
        let float_integer: u128 = binary.significand as u128 * factor as u128;
        let wide: u128 = int_value as u128;
        return if wide < float_integer {
            Order::Less
        } else if wide == float_integer {
            Order::Equal
        } else {
            Order::Greater
        };
    }
    let shift: u64 = (-binary.exponent) as u64;
    let ghost u = pow2((binary.exponent + 1074) as nat) as int;
    proof {
        lemma_pow2_adds(shift as nat, (binary.exponent + 1074) as nat);
        lemma_pow2_pos((binary.exponent + 1074) as nat);
        let q = pow2(shift as nat) as int;
        assert(v * (q * u) == (v * q) * u) by (nonlinear_arith);
        lemma_scale_order(v * q, s, u);
    }
    if shift >= 64 {
        proof {
            let q = pow2(shift as nat) as int;
            lemma2_to64_rest();
            lemma_pow2_strictly_increases(54, shift as nat);
            assert(q > 0x20_0000_0000_0000);
            if v > 0 {
                assert(v * q >= q) by (nonlinear_arith)
                    requires
                        v >= 1,
                        q > 0,
                ;
            }
            assert(0 * q == 0);
        }
        return if int_value == 0 {
            Order::Less
        } else {
            Order::Greater
        };
    }
    let factor: u64 = 1u64 << shift;
    proof {
        vstd::bits::lemma_u64_pow2_no_overflow(shift as nat);
        assert(1 * pow2(shift as nat) <= u64::MAX);
        vstd::bits::lemma_u64_shl_is_mul(1, shift);
        assert(int_value * factor <= 0xFFFF_FFFF_FFFF_FFFF * 0xFFFF_FFFF_FFFF_FFFF)
            by (nonlinear_arith)
            requires
                int_value <= 0xFFFF_FFFF_FFFF_FFFF,
                factor <= 0xFFFF_FFFF_FFFF_FFFF,
        ;
    }
    let wide: u128 = int_value as u128 * factor as u128;
    let significand: u128 = binary.significand as u128;
    if wide < significand {
        Order::Less
    } else if wide == significand {
        Order::Equal
    } else {
        Order::Greater
    }
}

/// The magnitude of a value that is a whole number, cut to 128 bits.
///
/// The cut only shows from 2^128 on, where a value that is a multiple of
/// 2^128 is taken for zero.
pub open spec fn whole_magnitude(magnitude: int) -> Option<int> {
    let p = pow2(1074) as int;
    let n = number::scaled_64(magnitude);
    if n % p != 0 || number::exponent_64(magnitude) - 1075 >= 128 {
        None
    } else {
        Some((n / p) % (pow2(128) as int))
    }
}

/// The integer that stands for a 64-bit pattern among join keys, if one does.
pub open spec fn integral_value(bits: u64) -> Option<int> {
    let m = number::magnitude_64(bits);
    if number::exponent_64(m) == 2047 {
        None
    } else {
        match whole_magnitude(m) {
            None => None,
            Some(n) => {
                let v = if bits >= SIGN_64 {
                    -n
                } else {
                    n
                };
                if i64::MIN <= v <= i64::MAX {
                    Some(v)
                } else {
                    None
                }
            },
        }
    }
}

/// The integer that stands for a 64-bit pattern among join keys, if one does:
/// the value itself, where it is whole and fits.
pub fn exact_integral_i64_from_f64(bits: u64) -> (r: Option<i64>)
    ensures
        match integral_value(bits) {
            Some(v) => r == Some(v as i64),
            None => r is None,
        },
{
    let magnitude: u64 = bits % SIGN_64;
    let negative: bool = bits >= SIGN_64;
    let ghost p = pow2(1074) as int;
    proof {
        lemma_pow2_pos(1074);
        number::lemma_scaled_64_zero(magnitude as int);
    }
    if magnitude >= 2047 * FRACTION_64 {
        return None;
    }
    if magnitude == 0 {
        proof {
            lemma_whole_parts(0, 1, p, 1);
            lemma_pow2_pos(128);
            vstd::arithmetic::div_mod::lemma_small_mod(0, pow2(128));
        }
        return Some(0);
    }
    let binary = BinaryFloat::from_f64(magnitude);
    let ghost s = binary.significand as int;
    let ghost n = number::scaled_64(magnitude as int);
    assert(binary.exponent == -1074 || binary.exponent == number::exponent_64(magnitude as int)
        - 1075);
    if binary.exponent >= 0 {
        let shift: u64 = binary.exponent as u64;
        let ghost q = pow2(shift as nat) as int;
        proof {
            lemma_pow2_adds(shift as nat, 1074);
            lemma_pow2_pos(shift as nat);
            assert(s * (q * p) == (s * q) * p) by (nonlinear_arith);
            lemma_whole_parts(s * q, 1, p, 1);
        }
        if shift >= 128 {
            return None;
        }
        if shift <= 11 {
            let factor: u64 = 1u64 << shift;
            proof {
                vstd::bits::lemma_u64_pow2_no_overflow(shift as nat);
                assert(1 * pow2(shift as nat) <= u64::MAX);
                vstd::bits::lemma_u64_shl_is_mul(1, shift);
                if shift < 11 {
                    lemma_pow2_strictly_increases(shift as nat, 11);
                }
                lemma2_to64();
                assert(binary.significand * factor <= 0x1F_FFFF_FFFF_FFFF * 2048)
                    by (nonlinear_arith)
                    requires
                        binary.significand <= 0x1F_FFFF_FFFF_FFFF,
                        factor <= 2048,
                ;
                lemma_pow2_strictly_increases(64, 128);
                lemma2_to64_rest();
                assert(0 <= s * q) by (nonlinear_arith)
                    requires
                        s >= 0,
                        q >= 0,
                ;
                vstd::arithmetic::div_mod::lemma_small_mod((s * q) as nat, pow2(128));
            }
            return signed_i64(binary.significand * factor, negative);
        }
        if shift < 76 {
            proof {
                lemma2_to64();
                lemma2_to64_rest();
                lemma_pow2_adds(53, shift as nat);
                lemma_pow2_adds(52, shift as nat);
                if shift + 53 < 128 {
                    lemma_pow2_strictly_increases((shift + 53) as nat, 128);
                }
                if 64 < shift + 52 {
                    lemma_pow2_strictly_increases(64, (shift + 52) as nat);
                }
                assert(s * q < 0x20_0000_0000_0000 * q) by (nonlinear_arith)
                    requires
                        s < 0x20_0000_0000_0000,
                        q > 0,
                ;
                assert(s * q >= 0x10_0000_0000_0000 * q) by (nonlinear_arith)
                    requires
                        s >= 0x10_0000_0000_0000,
                        q > 0,
                ;
                vstd::arithmetic::div_mod::lemma_small_mod((s * q) as nat, pow2(128));
            }
            return None;
        }
        let low: u64 = 128 - shift;
        let factor: u64 = 1u64 << low;
        proof {
            vstd::bits::lemma_u64_pow2_no_overflow(low as nat);
            assert(1 * pow2(low as nat) <= u64::MAX);
            vstd::bits::lemma_u64_shl_is_mul(1, low);
            lemma_pow2_pos(low as nat);
            lemma_pow2_adds(shift as nat, low as nat);
            vstd::arithmetic::div_mod::lemma_truncate_middle(s, q, factor as int);
            assert(q * s == s * q) by (nonlinear_arith);
            assert((s * q) % (pow2(128) as int) == q * (s % factor as int));
            lemma2_to64_rest();
            lemma_pow2_strictly_increases(64, shift as nat);
            let rest = s % factor as int;
            assert(rest >= 1 ==> q * rest >= q) by (nonlinear_arith)
                requires
                    q > 0,
            ;
            assert(rest == 0 ==> q * rest == 0) by (nonlinear_arith);
        }
        return if binary.significand % factor == 0 {
            Some(0)
        } else {
            None
        };
    }
    let shift: u64 = (-binary.exponent) as u64;
    let ghost q = pow2(shift as nat) as int;
    let ghost u = pow2((binary.exponent + 1074) as nat) as int;
    proof {
        lemma_pow2_adds(shift as nat, (binary.exponent + 1074) as nat);
        lemma_pow2_pos((binary.exponent + 1074) as nat);
        lemma_pow2_pos(shift as nat);
        lemma_whole_parts(s, q, p, u);
        lemma2_to64_rest();
    }
    if shift >= 64 {
        proof {
            lemma_pow2_strictly_increases(63, shift as nat);
            vstd::arithmetic::div_mod::lemma_small_mod(s as nat, q as nat);
            assert(s % q != 0);
        }
        return None;
    }
    let factor: u64 = 1u64 << shift;
    proof {
        vstd::bits::lemma_u64_pow2_no_overflow(shift as nat);
        assert(1 * pow2(shift as nat) <= u64::MAX);
        vstd::bits::lemma_u64_shl_is_mul(1, shift);
    }
    if binary.significand % factor != 0 {
        return None;
    }
    let whole: u64 = binary.significand / factor;
    proof {
        lemma_pow2_strictly_increases(64, 128);
        assert(whole <= s) by (nonlinear_arith)
            requires
                whole == s / q,
                q >= 1,
                s >= 0,
        ;
        vstd::arithmetic::div_mod::lemma_small_mod(whole as nat, pow2(128));
    }
    signed_i64(whole, negative)
}

/// Of a number `x * u` over `p == q * u`: it is whole where `q` divides `x`.
proof fn lemma_whole_parts(x: int, q: int, p: int, u: int)
    requires
        0 <= x,
        q > 0,
        u > 0,
        p > 0,
        p == q * u || (q == 1 && u == 1),
    ensures
        p == q * u ==> ((x * u) % p == 0 <==> x % q == 0) && (x * u) / p == x / q,
        q == 1 && u == 1 ==> (x * p) % p == 0 && (x * p) / p == x,
{
    if p == q * u {
        vstd::arithmetic::div_mod::lemma_truncate_middle(x, u, q);
        vstd::arithmetic::div_mod::lemma_div_multiples_vanish_quotient(u, x, q);
        assert(u * x == x * u && u * q == q * u) by (nonlinear_arith);
        let rest = x % q;
        assert(rest != 0 ==> u * rest != 0) by (nonlinear_arith)
            requires
                u > 0,
        ;
        assert(rest == 0 ==> u * rest == 0) by (nonlinear_arith);
    }
    if q == 1 && u == 1 {
        vstd::arithmetic::div_mod::lemma_mod_multiples_basic(x, p);
        vstd::arithmetic::div_mod::lemma_div_multiples_vanish(x, p);
        assert(p * x == x * p) by (nonlinear_arith);
    }
}

fn signed_i64(magnitude: u64, negative: bool) -> (r: Option<i64>)
    ensures
        ({
            let v = if negative {
                -(magnitude as int)
            } else {
                magnitude as int
            };
            if i64::MIN <= v <= i64::MAX {
                r == Some(v as i64)
            } else {
                r is None
            }
        }),
{
    if negative {
        if magnitude > SIGN_64 {
            None
        } else if magnitude == SIGN_64 {
            Some(i64::MIN)
        } else {
            Some(-(magnitude as i64))
        }
    } else if magnitude >= SIGN_64 {
        None
    } else {
        Some(magnitude as i64)
    }
}

/// The bit pattern, with one pattern for both zeros.
pub open spec fn normalized(bits: u64) -> u64 {
    if bits == SIGN_64 {
        0
    } else {
        bits
    }
}

/// The bit pattern, with one pattern for both zeros.
pub fn normalized_f64_bits(bits: u64) -> (r: u64)
    ensures
        r == normalized(bits),
{
    if bits == SIGN_64 {
        0
    } else {
        bits
    }
}

/// The first of two values does not come after the second.
pub open spec fn at_most(a: DataValue, b: DataValue) -> bool {
    order(a, b) == Some(Order::Less) || order(a, b) == Some(Order::Equal)
}

/// Exchanging the sides of a comparison reverses its outcome.
pub proof fn lemma_bytes_order_reverse(a: Seq<u8>, b: Seq<u8>)
    ensures
        bytes_order(b, a) == bytes_order(a, b).reversed(),
    decreases a.len(),
{
    if a.len() > 0 && b.len() > 0 && a[0] == b[0] {
        lemma_bytes_order_reverse(a.skip(1), b.skip(1));
    }
}

/// Byte strings are equal in order only where they are the same.
pub proof fn lemma_bytes_order_equal(a: Seq<u8>, b: Seq<u8>)
    ensures
        bytes_order(a, b) is Equal <==> a == b,
    decreases a.len(),
{
    if a.len() > 0 && b.len() > 0 {
        if a[0] == b[0] {
            lemma_bytes_order_equal(a.skip(1), b.skip(1));
            if a.skip(1) == b.skip(1) {
                assert(a == seq![a[0]] + a.skip(1));
                assert(b == seq![b[0]] + b.skip(1));
            }
        }
    } else if a.len() == b.len() {
        assert(a == b);
    }
}

/// The order of byte strings is transitive.
pub proof fn lemma_bytes_order_transitive(a: Seq<u8>, b: Seq<u8>, c: Seq<u8>)
    requires
        !(bytes_order(a, b) is Greater),
        !(bytes_order(b, c) is Greater),
    ensures
        !(bytes_order(a, c) is Greater),
        bytes_order(a, b) is Less || bytes_order(b, c) is Less ==> bytes_order(a, c) is Less,
    decreases a.len(),
{
    if a.len() > 0 && b.len() > 0 && c.len() > 0 && a[0] == b[0] && b[0] == c[0] {
        lemma_bytes_order_transitive(a.skip(1), b.skip(1), c.skip(1));
    }
}

/// Exchanging the sides of a comparison reverses its outcome.
pub proof fn lemma_order_reverse(a: DataValue, b: DataValue)
    ensures
        match order(a, b) {
            Some(o) => order(b, a) == Some(o.reversed()),
            None => order(b, a) is None,
        },
{
    match (a, b) {
        (DataValue::Text(x), DataValue::Text(y)) => {
            lemma_bytes_order_reverse(vstd::utf8::encode_utf8(x), vstd::utf8::encode_utf8(y));
        },
        _ => {},
    }
}

/// The order of values is transitive, across the numeric types too.
pub proof fn lemma_order_transitive(a: DataValue, b: DataValue, c: DataValue)
    requires
        at_most(a, b),
        at_most(b, c),
    ensures
        at_most(a, c),
        order(a, b) == Some(Order::Less) || order(b, c) == Some(Order::Less) ==> order(a, c)
            == Some(Order::Less),
{
    match (a, b, c) {
        (DataValue::Text(x), DataValue::Text(y), DataValue::Text(z)) => {
            lemma_bytes_order_transitive(
                vstd::utf8::encode_utf8(x),
                vstd::utf8::encode_utf8(y),
                vstd::utf8::encode_utf8(z),
            );
        },
        _ => {},
    }
}

/// Two bit patterns stand for the same number only where they are the same,
/// but for the two zeros.
pub proof fn lemma_same_number_same_bits(a: u64, b: u64)
    requires
        number::num_order(number::num_64(a), number::num_64(b)) == Some(Order::Equal),
    ensures
        normalized(a) == normalized(b),
{
    let ma = number::magnitude_64(a);
    let mb = number::magnitude_64(b);
    number::lemma_scaled_64_zero(ma);
    number::lemma_scaled_64_zero(mb);
    if ma < mb {
        number::lemma_scaled_64_increases(ma, mb);
    }
    if mb < ma {
        number::lemma_scaled_64_increases(mb, ma);
    }
}

/// An integer that equals the number of a bit pattern is its join key.
pub proof fn lemma_equal_int_is_integral(v: int, bits: u64)
    requires
        i64::MIN <= v <= i64::MAX,
        number::num_order(number::num_int(v), number::num_64(bits)) == Some(Order::Equal),
    ensures
        integral_value(bits) == Some(v),
{
    let m = number::magnitude_64(bits);
    let n = number::scaled_64(m);
    let p = pow2(1074) as int;
    lemma_pow2_pos(1074);
    number::lemma_scaled_64_zero(m);
    let k = if bits >= SIGN_64 {
        -v
    } else {
        v
    };
    assert((-v) * p == -(v * p)) by (nonlinear_arith);
    assert(n == k * p);
    assert(k >= 0) by (nonlinear_arith)
        requires
            n == k * p,
            n >= 0,
            p > 0,
    ;
    lemma_whole_parts(k, 1, p, 1);
    lemma2_to64_rest();
    lemma_pow2_strictly_increases(64, 128);
    vstd::arithmetic::div_mod::lemma_small_mod(k as nat, pow2(128));
    if number::exponent_64(m) - 1075 >= 128 {
        let e = number::exponent_64(m);
        lemma_pow2_adds((e - 1075) as nat, 1074);
        let q = pow2((e - 1075) as nat) as int;
        lemma_pow2_strictly_increases(64, (e - 1075) as nat);
        let s = FRACTION_64 + number::fraction_64(m);
        assert(s * (q * p) == (s * q) * p) by (nonlinear_arith);
        assert(k == s * q) by (nonlinear_arith)
            requires
                k * p == (s * q) * p,
                p > 0,
        ;
        assert(s * q >= q) by (nonlinear_arith)
            requires
                s >= 1,
                q > 0,
        ;
    }
}

/// The order of two rows on the sort columns. Values without an order count as
/// equal.
pub fn compare_rows(left: &Row, right: &Row, specs: &Vec<CompiledSortSpec>) -> (r: Order)
    requires
        forall|i: int|
            0 <= i < specs@.len() ==> (#[trigger] specs@[i]).index < left@.len() && specs@[i].index
                < right@.len(),
    ensures
        r == semantics::row_order(left@, right@, executor::key_views(specs@)),
{
    let ghost keys = executor::key_views(specs@);
    let mut i: usize = 0;
    assert(keys.skip(0) =~= keys);
    while i < specs.len()
        invariant
            i <= specs@.len(),
            keys == executor::key_views(specs@),
            forall|i: int|
                0 <= i < specs@.len() ==> (#[trigger] specs@[i]).index < left@.len()
                    && specs@[i].index < right@.len(),
            semantics::row_order(left@, right@, keys) == semantics::row_order(
                left@,
                right@,
                keys.skip(i as int),
            ),
        decreases specs@.len() - i,
    {
        let spec = specs[i];
        assert(keys.skip(i as int)[0] == spec@);
        assert(keys.skip(i as int).skip(1) =~= keys.skip(i + 1));
        let outcome = match compare_values(&left.values()[spec.index], &right.values()[spec.index]) {
            Ok(o) => o,
            Err(_) => Order::Equal,
        };
        let outcome = if spec.ascending {
            outcome
        } else {
            outcome.reverse()
        };
        if outcome != Order::Equal {
            return outcome;
        }
        i = i + 1;
    }
    Order::Equal
}

} // verus!
