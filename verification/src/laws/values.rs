//! What comparisons of values answer.

use vstd::arithmetic::power2::*;
use vstd::prelude::*;

use crate::data;
use crate::data::{Data, DataValue};
use crate::error::DbError;
use crate::executor::value;
use crate::number::{Num, Order};
use crate::query::ComparisionOperator;
use crate::semantics;
use crate::semantics::{CompiledView, RightView, RowView, SortKey};

verus! {

/// The comparison of two values has the answer.
pub open spec fn answers(a: DataValue, op: ComparisionOperator, b: DataValue, yes: bool) -> bool {
    value::comparison(a, op, b) == Ok::<bool, DbError>(yes)
}

/// The six comparisons of two values answer as those of two integers do.
pub open spec fn compare_as(a: DataValue, b: DataValue, x: int, y: int) -> bool {
    &&& answers(a, ComparisionOperator::EQ, b, x == y)
    &&& answers(a, ComparisionOperator::NE, b, x != y)
    &&& answers(a, ComparisionOperator::LT, b, x < y)
    &&& answers(a, ComparisionOperator::LTE, b, x <= y)
    &&& answers(a, ComparisionOperator::GT, b, x > y)
    &&& answers(a, ComparisionOperator::GTE, b, x >= y)
}

/// No comparison of two values has an answer.
pub open spec fn no_answer(a: DataValue, b: DataValue) -> bool {
    forall|op: ComparisionOperator| #[trigger]
        value::comparison(a, op, b) == Err::<bool, DbError>(DbError::Incomparable)
}

/// The integer that a value of an integer type is.
pub open spec fn whole(v: DataValue) -> Option<int> {
    match v {
        DataValue::Int32(x) => Some(x as int),
        DataValue::Int64(x) => Some(x as int),
        _ => None,
    }
}

/// A magnitude times 2^1074, by the sign bit of its format.
pub open spec fn with_sign(negative: bool, magnitude: int) -> int {
    if negative {
        -magnitude
    } else {
        magnitude
    }
}

/// The number that an integer or a finite binary floating-point value is, times
/// 2^1074: by IEEE 754, the bits of a float are those of its sign, of its biased
/// exponent and of its fraction, before which a one stands unless the exponent is
/// zero.
pub open spec fn exact(v: DataValue) -> Option<int> {
    match v {
        DataValue::Int32(x) => Some(x * pow2(1074)),
        DataValue::Int64(x) => Some(x * pow2(1074)),
        DataValue::Float32(bits) => {
            let e = bits as int % 0x8000_0000 / 0x80_0000;
            let f = bits as int % 0x80_0000;
            if e == 255 {
                None
            } else if e == 0 {
                Some(with_sign(bits >= 0x8000_0000, f * pow2(925)))
            } else {
                Some(with_sign(bits >= 0x8000_0000, (0x80_0000 + f) * pow2((e + 924) as nat)))
            }
        },
        DataValue::Float64(bits) => {
            let e = bits as int % 0x8000_0000_0000_0000 / 0x10_0000_0000_0000;
            let f = bits as int % 0x10_0000_0000_0000;
            if e == 2047 {
                None
            } else if e == 0 {
                Some(with_sign(bits >= 0x8000_0000_0000_0000, f))
            } else {
                Some(
                    with_sign(
                        bits >= 0x8000_0000_0000_0000,
                        (0x10_0000_0000_0000 + f) * pow2((e - 1) as nat),
                    ),
                )
            }
        },
        DataValue::Text(_) => None,
    }
}

/// The bits of a NaN: all those of the exponent, and some of the fraction.
pub open spec fn nan(v: DataValue) -> bool {
    match v {
        DataValue::Float32(bits) => bits as int % 0x8000_0000 > 0x7f80_0000,
        DataValue::Float64(bits) => bits as int % 0x8000_0000_0000_0000 > 0x7ff0_0000_0000_0000,
        _ => false,
    }
}

/// The bits of an infinity: all those of the exponent, and none of the fraction.
pub open spec fn infinite(v: DataValue) -> bool {
    match v {
        DataValue::Float32(bits) => bits as int % 0x8000_0000 == 0x7f80_0000,
        DataValue::Float64(bits) => bits as int % 0x8000_0000_0000_0000 == 0x7ff0_0000_0000_0000,
        _ => false,
    }
}

/// Below zero, by the bit of the sign.
pub open spec fn negative(v: DataValue) -> bool {
    match v {
        DataValue::Int32(x) => x < 0,
        DataValue::Int64(x) => x < 0,
        DataValue::Float32(bits) => bits >= 0x8000_0000,
        DataValue::Float64(bits) => bits >= 0x8000_0000_0000_0000,
        DataValue::Text(_) => false,
    }
}

proof fn lemma_scaled(x: int, y: int, p: int)
    requires
        p > 0,
    ensures
        x < y <==> x * p < y * p,
        x == y <==> x * p == y * p,
{
    assert(x < y ==> x * p < y * p) by (nonlinear_arith)
        requires
            p > 0,
    ;
    assert(x > y ==> x * p > y * p) by (nonlinear_arith)
        requires
            p > 0,
    ;
}

proof fn lemma_exact(v: DataValue)
    ensures
        match exact(v) {
            Some(n) => value::number_of(v) == Some(Num::Finite(n)),
            None => value::number_of(v) matches Some(n) ==> !(n is Finite),
        },
        nan(v) <==> value::number_of(v) == Some(Num::NaN),
        infinite(v) && negative(v) <==> value::number_of(v) == Some(Num::NegativeInfinity),
        infinite(v) && !negative(v) <==> value::number_of(v) == Some(Num::PositiveInfinity),
        v is Text <==> value::number_of(v) is None,
        !(v is Text) ==> (exact(v) is Some || nan(v) || infinite(v)),
        exact(v) is Some ==> !nan(v) && !infinite(v),
{
    match v {
        DataValue::Float32(bits) => {
            let m = bits as int % 0x8000_0000;
            assert(m % 0x80_0000 == bits as int % 0x80_0000);
        },
        DataValue::Float64(bits) => {
            let m = bits as int % 0x8000_0000_0000_0000;
            assert(m % 0x10_0000_0000_0000 == bits as int % 0x10_0000_0000_0000);
        },
        _ => {},
    }
}

/// A value is the one that it is made with, of the type that it is made with, and
/// the values of a row are so one by one.
pub proof fn law_values_of_data(d: Data, row: Seq<Data>, i: int)
    ensures
        d matches Data::Int32(x) ==> d@ == DataValue::Int32(x) && d@.data_type() is Int32,
        d matches Data::Int64(x) ==> d@ == DataValue::Int64(x) && d@.data_type() is Int64,
        d matches Data::Float32(x) ==> d@ == DataValue::Float32(x) && d@.data_type() is Float32,
        d matches Data::Float64(x) ==> d@ == DataValue::Float64(x) && d@.data_type() is Float64,
        d matches Data::String(x) ==> d@ == DataValue::Text(x@) && d@.data_type() is String,
        data::views(row).len() == row.len(),
        0 <= i < row.len() ==> data::views(row)[i] == row[i]@,
{
}

/// The number that a value stands for is the one of its bits.
pub proof fn law_exact_numbers(v: DataValue)
    ensures
        match exact(v) {
            Some(n) => value::number_of(v) == Some(Num::Finite(n)),
            None => value::number_of(v) matches Some(n) ==> !(n is Finite),
        },
        nan(v) <==> value::number_of(v) == Some(Num::NaN),
        infinite(v) && negative(v) <==> value::number_of(v) == Some(Num::NegativeInfinity),
        infinite(v) && !negative(v) <==> value::number_of(v) == Some(Num::PositiveInfinity),
{
    lemma_exact(v);
}

/// The numbers that have no order are those with the bits of a NaN, and a text is
/// no number.
pub proof fn law_nan_values(v: DataValue)
    ensures
        nan(v) <==> value::number_of(v) == Some(Num::NaN),
        v is Text <==> value::number_of(v) is None,
{
    lemma_exact(v);
}

/// Integers compare as integers do, whatever their types: each of the six
/// operators answers as the mathematical relation does that it is named after.
pub proof fn law_integers_compare(a: DataValue, b: DataValue)
    requires
        whole(a) is Some,
        whole(b) is Some,
    ensures
        compare_as(a, b, whole(a)->0, whole(b)->0),
        value::order(a, b) == Some(
            if whole(a)->0 < whole(b)->0 {
                Order::Less
            } else if whole(a)->0 == whole(b)->0 {
                Order::Equal
            } else {
                Order::Greater
            },
        ),
{
    lemma_pow2_pos(1074);
    lemma_scaled(whole(a)->0, whole(b)->0, pow2(1074) as int);
}

/// Integers and finite floating-point values compare as the numbers do that they
/// are, exactly, whatever their types.
pub proof fn law_numbers_compare(a: DataValue, b: DataValue)
    requires
        exact(a) is Some,
        exact(b) is Some,
    ensures
        compare_as(a, b, exact(a)->0, exact(b)->0),
{
    lemma_exact(a);
    lemma_exact(b);
}

/// An infinity is above or below every finite number and the other infinity, by
/// its sign, and equals one with its sign.
pub proof fn law_infinities_compare(a: DataValue, b: DataValue)
    requires
        infinite(a),
        infinite(b) || exact(b) is Some,
    ensures
        infinite(b) && negative(a) == negative(b) ==> compare_as(a, b, 0, 0)
            && compare_as(b, a, 0, 0),
        !(infinite(b) && negative(a) == negative(b)) ==> if negative(a) {
            compare_as(a, b, 0, 1) && compare_as(b, a, 1, 0)
        } else {
            compare_as(a, b, 1, 0) && compare_as(b, a, 0, 1)
        },
{
    lemma_exact(a);
    lemma_exact(b);
}

/// A NaN has no order with anything, itself among that, and a text none with a
/// number.
pub proof fn law_incomparable_values(a: DataValue, b: DataValue)
    ensures
        nan(a) || nan(b) || (a is Text) != (b is Text) ==> no_answer(a, b) && value::order(a, b)
            is None,
        !(nan(a) || nan(b) || (a is Text) != (b is Text)) ==> value::order(a, b) is Some,
{
    lemma_exact(a);
    lemma_exact(b);
}

/// The bytes come before others: where they first differ theirs is smaller, or
/// they end before the others do.
pub open spec fn bytes_before(u: Seq<u8>, v: Seq<u8>) -> bool {
    exists|i: int|
        {
            &&& 0 <= i <= u.len()
            &&& i < v.len()
            &&& #[trigger] u.take(i) == v.take(i)
            &&& i == u.len() || u[i] < v[i]
        }
}

proof fn lemma_bytes_before(u: Seq<u8>, v: Seq<u8>)
    ensures
        value::bytes_order(u, v) is Less <==> bytes_before(u, v),
        value::bytes_order(u, v) is Greater <==> bytes_before(v, u),
        value::bytes_order(u, v) is Equal <==> u == v,
    decreases u.len(),
{
    assert(u.take(0) =~= v.take(0));
    if u.len() == 0 || v.len() == 0 || u[0] != v[0] {
        if bytes_before(u, v) {
            let i = choose|i: int|
                {
                    &&& 0 <= i <= u.len()
                    &&& i < v.len()
                    &&& #[trigger] u.take(i) == v.take(i)
                    &&& i == u.len() || u[i] < v[i]
                };
            if i > 0 {
                assert(u.take(i)[0] == v.take(i)[0]);
            }
        }
        if bytes_before(v, u) {
            let i = choose|i: int|
                {
                    &&& 0 <= i <= v.len()
                    &&& i < u.len()
                    &&& #[trigger] v.take(i) == u.take(i)
                    &&& i == v.len() || v[i] < u[i]
                };
            if i > 0 {
                assert(v.take(i)[0] == u.take(i)[0]);
            }
        }
        if u.len() == 0 && v.len() == 0 {
            assert(u =~= v);
        }
    } else {
        let (a, b) = (u.skip(1), v.skip(1));
        lemma_bytes_before(a, b);
        lemma_before_step(u, v);
        lemma_before_step(v, u);
        if a == b {
            assert(u =~= seq![u[0]] + a);
            assert(v =~= seq![v[0]] + b);
        }
    }
}

proof fn lemma_before_step(u: Seq<u8>, v: Seq<u8>)
    requires
        u.len() > 0,
        v.len() > 0,
        u[0] == v[0],
    ensures
        bytes_before(u, v) <==> bytes_before(u.skip(1), v.skip(1)),
{
    let (a, b) = (u.skip(1), v.skip(1));
    if bytes_before(u, v) {
        let i = choose|i: int|
            {
                &&& 0 <= i <= u.len()
                &&& i < v.len()
                &&& #[trigger] u.take(i) == v.take(i)
                &&& i == u.len() || u[i] < v[i]
            };
        assert(i > 0);
        assert(a.take(i - 1) =~= b.take(i - 1)) by {
            assert forall|k: int| 0 <= k < i - 1 implies a[k] == b[k] by {
                assert(u.take(i)[k + 1] == v.take(i)[k + 1]);
            }
        }
    }
    if bytes_before(a, b) {
        let i = choose|i: int|
            {
                &&& 0 <= i <= a.len()
                &&& i < b.len()
                &&& #[trigger] a.take(i) == b.take(i)
                &&& i == a.len() || a[i] < b[i]
            };
        assert(u.take(i + 1) =~= v.take(i + 1)) by {
            assert forall|k: int| 0 <= k < i + 1 implies u[k] == v[k] by {
                if k > 0 {
                    assert(a.take(i)[k - 1] == b.take(i)[k - 1]);
                }
            }
        }
    }
}

/// Bytes are ordered as a dictionary orders words.
pub proof fn law_orders_of_bytes(u: Seq<u8>, v: Seq<u8>)
    ensures
        value::bytes_order(u, v) is Less <==> bytes_before(u, v),
        value::bytes_order(u, v) is Greater <==> bytes_before(v, u),
        value::bytes_order(u, v) is Equal <==> u == v,
{
    lemma_bytes_before(u, v);
}

/// Of three byte strings that come one before the other, the first comes before the
/// last.
pub proof fn law_bytes_in_turn(u: Seq<u8>, v: Seq<u8>, w: Seq<u8>)
    requires
        bytes_before(u, v),
        bytes_before(v, w),
    ensures
        bytes_before(u, w),
    decreases u.len(),
{
    lemma_bytes_before(u, v);
    lemma_bytes_before(v, w);
    lemma_bytes_before(u, w);
    if u.len() > 0 && v.len() > 0 && w.len() > 0 && u[0] == v[0] && v[0] == w[0] {
        lemma_before_step(u, v);
        lemma_before_step(v, w);
        lemma_before_step(u, w);
        law_bytes_in_turn(u.skip(1), v.skip(1), w.skip(1));
    }
}

/// Texts compare by their UTF-8 bytes, as a dictionary orders words, and are equal
/// only where they are the same.
pub proof fn law_texts_compare(x: Seq<char>, y: Seq<char>)
    ensures
        ({
            let (a, b) = (DataValue::Text(x), DataValue::Text(y));
            let (u, v) = (vstd::utf8::encode_utf8(x), vstd::utf8::encode_utf8(y));
            if x == y {
                compare_as(a, b, 0, 0)
            } else if bytes_before(u, v) {
                compare_as(a, b, 0, 1)
            } else {
                bytes_before(v, u) && compare_as(a, b, 1, 0)
            }
        }),
{
    vstd::utf8::encode_utf8_decode_utf8(x);
    vstd::utf8::encode_utf8_decode_utf8(y);
    lemma_bytes_before(vstd::utf8::encode_utf8(x), vstd::utf8::encode_utf8(y));
}

/// Where two values have an order, just one of the first being less, equal and
/// greater holds, and the other three operators answer the opposite of one of
/// these. Exchanging the values exchanges less and greater.
pub proof fn law_operators_agree(a: DataValue, b: DataValue)
    ensures
        value::order(a, b) is Some ==> exists|less: bool, equal: bool, greater: bool|
            {
                &&& (less && !equal && !greater) || (!less && equal && !greater) || (!less
                    && !equal && greater)
                &&& #[trigger] answers(a, ComparisionOperator::LT, b, less)
                &&& #[trigger] answers(a, ComparisionOperator::EQ, b, equal)
                &&& #[trigger] answers(a, ComparisionOperator::GT, b, greater)
                &&& answers(a, ComparisionOperator::GTE, b, !less)
                &&& answers(a, ComparisionOperator::NE, b, !equal)
                &&& answers(a, ComparisionOperator::LTE, b, !greater)
                &&& answers(b, ComparisionOperator::GT, a, less)
                &&& answers(b, ComparisionOperator::EQ, a, equal)
                &&& answers(b, ComparisionOperator::LT, a, greater)
            },
        value::order(a, b) is None ==> no_answer(a, b) && no_answer(b, a),
{
    value::lemma_order_reverse(a, b);
    if let Some(o) = value::order(a, b) {
        assert(answers(a, ComparisionOperator::LT, b, o is Less));
        assert(answers(a, ComparisionOperator::EQ, b, o is Equal));
        assert(answers(a, ComparisionOperator::GT, b, o is Greater));
    }
}

/// The order of two values by a sort column: ascending it is that of the values,
/// and descending the reverse, whatever their types. Values without an order
/// count as equal.
pub proof fn law_sort_directions(a: DataValue, b: DataValue)
    ensures
        semantics::key_order(a, b, true) is Less <==> answers(a, ComparisionOperator::LT, b, true),
        semantics::key_order(a, b, true) is Greater <==> answers(
            a,
            ComparisionOperator::GT,
            b,
            true,
        ),
        semantics::key_order(a, b, false) is Less <==> answers(a, ComparisionOperator::GT, b, true),
        semantics::key_order(a, b, false) is Greater <==> answers(
            a,
            ComparisionOperator::LT,
            b,
            true,
        ),
        value::order(a, b) matches Some(o) ==> {
            &&& semantics::key_order(a, b, true) == o
            &&& semantics::key_order(a, b, false) == match o {
                Order::Less => Order::Greater,
                Order::Equal => Order::Equal,
                Order::Greater => Order::Less,
            }
        },
        value::order(a, b) is None ==> forall|ascending: bool| #[trigger]
            semantics::key_order(a, b, ascending) is Equal,
{
}

/// On a sort column, the first of two values is to come before the second.
pub open spec fn goes_first(a: DataValue, b: DataValue, ascending: bool) -> bool {
    if ascending {
        answers(a, ComparisionOperator::LT, b, true)
    } else {
        answers(a, ComparisionOperator::GT, b, true)
    }
}

/// Of two rows, the first is to come before the second: it is so on some sort
/// column, and on no earlier one is either of them to come before the other.
pub open spec fn row_goes_first(a: RowView, b: RowView, keys: Seq<SortKey>) -> bool {
    exists|k: int|
        {
            &&& 0 <= k < keys.len()
            &&& goes_first(
                a[(#[trigger] keys[k]).index],
                b[keys[k].index],
                keys[k].ascending,
            )
            &&& forall|m: int|
                0 <= m < k ==> !goes_first(
                    a[(#[trigger] keys[m]).index],
                    b[keys[m].index],
                    keys[m].ascending,
                ) && !goes_first(b[keys[m].index], a[keys[m].index], keys[m].ascending)
        }
}

/// Rows are ordered by the first sort column on which one of them is to come
/// before the other.
pub proof fn law_rows_are_ordered(a: RowView, b: RowView, keys: Seq<SortKey>)
    ensures
        semantics::row_order(a, b, keys) is Less <==> row_goes_first(a, b, keys),
        semantics::row_order(a, b, keys) is Greater <==> row_goes_first(b, a, keys),
    decreases keys.len(),
{
    if keys.len() > 0 {
        let rest = keys.skip(1);
        law_rows_are_ordered(a, b, rest);
        let (x, y) = (a[keys[0].index], b[keys[0].index]);
        value::lemma_order_reverse(x, y);
        law_sort_directions(x, y);
        law_sort_directions(y, x);
        lemma_first_step(a, b, keys);
        lemma_first_step(b, a, keys);
    }
}

proof fn lemma_first_step(a: RowView, b: RowView, keys: Seq<SortKey>)
    requires
        keys.len() > 0,
    ensures
        row_goes_first(a, b, keys) <==> {
            let (x, y) = (a[keys[0].index], b[keys[0].index]);
            let up = keys[0].ascending;
            goes_first(x, y, up) || (!goes_first(y, x, up) && row_goes_first(a, b, keys.skip(1)))
        },
{
    let rest = keys.skip(1);
    let (x, y) = (a[keys[0].index], b[keys[0].index]);
    let up = keys[0].ascending;
    if row_goes_first(a, b, keys) {
        let k = choose|k: int|
            {
                &&& 0 <= k < keys.len()
                &&& goes_first(
                    a[(#[trigger] keys[k]).index],
                    b[keys[k].index],
                    keys[k].ascending,
                )
                &&& forall|m: int|
                    0 <= m < k ==> !goes_first(
                        a[(#[trigger] keys[m]).index],
                        b[keys[m].index],
                        keys[m].ascending,
                    ) && !goes_first(b[keys[m].index], a[keys[m].index], keys[m].ascending)
            };
        if k > 0 {
            assert(!goes_first(a[keys[0].index], b[keys[0].index], keys[0].ascending));
            assert(rest[k - 1] == keys[k]);
            assert forall|m: int| 0 <= m < k - 1 implies !goes_first(
                a[(#[trigger] rest[m]).index],
                b[rest[m].index],
                rest[m].ascending,
            ) && !goes_first(b[rest[m].index], a[rest[m].index], rest[m].ascending) by {
                assert(rest[m] == keys[m + 1]);
            }
        }
    }
    if goes_first(x, y, up) {
        assert(goes_first(a[keys[0].index], b[keys[0].index], keys[0].ascending));
    } else if !goes_first(y, x, up) && row_goes_first(a, b, rest) {
        let k = choose|k: int|
            {
                &&& 0 <= k < rest.len()
                &&& goes_first(
                    a[(#[trigger] rest[k]).index],
                    b[rest[k].index],
                    rest[k].ascending,
                )
                &&& forall|m: int|
                    0 <= m < k ==> !goes_first(
                        a[(#[trigger] rest[m]).index],
                        b[rest[m].index],
                        rest[m].ascending,
                    ) && !goes_first(b[rest[m].index], a[rest[m].index], rest[m].ascending)
            };
        assert(keys[k + 1] == rest[k]);
        assert forall|m: int| 0 <= m < k + 1 implies !goes_first(
            a[(#[trigger] keys[m]).index],
            b[keys[m].index],
            keys[m].ascending,
        ) && !goes_first(b[keys[m].index], a[keys[m].index], keys[m].ascending) by {
            if m > 0 {
                assert(rest[m - 1] == keys[m]);
            }
        }
    }
}

/// A predicate compares the value of its column with its literal, or with the
/// value of its other column, in this order.
pub proof fn law_predicate_compares(
    row: RowView,
    left: int,
    right: int,
    op: ComparisionOperator,
    literal: DataValue,
)
    requires
        0 <= left < row.len(),
        0 <= right < row.len(),
    ensures
        semantics::predicate_result(
            row,
            (CompiledView { left, operator: op, right: RightView::Literal(literal) }),
        ) == value::comparison(row[left], op, literal),
        semantics::predicate_result(
            row,
            (CompiledView { left, operator: op, right: RightView::Column(right) }),
        ) == value::comparison(row[left], op, row[right]),
{
}

/// Predicates say yes to a row just where each of them does.
pub proof fn law_predicates_are_all_met(row: RowView, ps: Seq<CompiledView>)
    ensures
        semantics::predicates_result(row, ps) == Ok::<bool, DbError>(true) <==> forall|i: int|
            0 <= i < ps.len() ==> semantics::predicate_result(row, #[trigger] ps[i]) == Ok::<
                bool,
                DbError,
            >(true),
        semantics::holds(row, ps) <==> forall|i: int|
            0 <= i < ps.len() ==> semantics::predicate_result(row, #[trigger] ps[i]) == Ok::<
                bool,
                DbError,
            >(true),
        (exists|i: int|
            0 <= i < ps.len() && semantics::predicate_result(row, #[trigger] ps[i]) == Ok::<
                bool,
                DbError,
            >(false)) && (forall|i: int|
            0 <= i < ps.len() ==> semantics::predicate_result(row, #[trigger] ps[i]) is Ok)
            ==> semantics::predicates_result(row, ps) == Ok::<bool, DbError>(false),
    decreases ps.len(),
{
    semantics::lemma_predicates_result(row, ps);
    if semantics::holds(row, ps) {
        assert forall|i: int| 0 <= i < ps.len() implies semantics::predicate_result(
            row,
            #[trigger] ps[i],
        ) == Ok::<bool, DbError>(true) by {
            assert(semantics::meets(row, ps[i]));
        }
    }
    if ps.len() > 0 {
        let rest = ps.skip(1);
        law_predicates_are_all_met(row, rest);
        assert forall|i: int| 0 <= i < rest.len() implies rest[i] == ps[i + 1] by {}
        if semantics::predicate_result(row, ps[0]) == Ok::<bool, DbError>(true) && (exists|i: int|
            0 <= i < ps.len() && semantics::predicate_result(row, #[trigger] ps[i]) == Ok::<
                bool,
                DbError,
            >(false)) {
            let i = choose|i: int|
                0 <= i < ps.len() && semantics::predicate_result(row, #[trigger] ps[i]) == Ok::<
                    bool,
                    DbError,
                >(false);
            assert(rest[i - 1] == ps[i]);
        }
    }
}

} // verus!
