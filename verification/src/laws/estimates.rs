//! What is guessed of rows before they are read.

use vstd::arithmetic::power2::*;
use vstd::prelude::*;

use crate::catalog::statistics::ColumnStat;
use crate::catalog::table::{ColumnSpec, TableSpec};
use crate::data::{Data, DataValue};
use crate::executor::value;
use crate::float;
use crate::laws::catalog;
use crate::laws::catalog::first_named;
use crate::laws::numbers;
use crate::laws::numbers::{finite, gap, minus, unsigned, worth};
use crate::laws::values;
use crate::number;
use crate::query::{ComparisionOperator, OperandView, PredicateView};
use crate::selectivity;

verus! {

/// The first statistic of its sort counts, and nothing is told where there is
/// none.
pub proof fn law_first_statistics(stats: Seq<ColumnStat>, i: int)
    ensures
        0 <= i < stats.len() && (forall|j: int|
            0 <= j < i ==> !((#[trigger] stats[j]) is CardinalityStat)) ==> (stats[i]
            matches ColumnStat::CardinalityStat(n) ==> selectivity::cardinality_in(stats) == Some(
            n,
        )),
        0 <= i < stats.len() && (forall|j: int|
            0 <= j < i ==> !((#[trigger] stats[j]) is DensityStat)) ==> (stats[i]
            matches ColumnStat::DensityStat(d) ==> selectivity::density_in(stats) == Some(d)),
        0 <= i < stats.len() && (forall|j: int|
            0 <= j < i ==> !((#[trigger] stats[j]) is RangeStat)) ==> (stats[i]
            matches ColumnStat::RangeStat(r) ==> selectivity::range_in(stats) == Some(
            (r.lower_bound@, r.upper_bound@),
        )),
        0 <= i < stats.len() && (forall|j: int|
            0 <= j < i ==> !((#[trigger] stats[j]) is HistogramStat)) ==> (stats[i]
            matches ColumnStat::HistogramStat(h) ==> selectivity::histogram_in(stats) == Some(
            counted(h.frequency_points@) % 0x1_0000_0000_0000_0000,
        )),
        (forall|j: int| 0 <= j < stats.len() ==> !((#[trigger] stats[j]) is CardinalityStat))
            ==> selectivity::cardinality_in(stats) is None,
        (forall|j: int| 0 <= j < stats.len() ==> !((#[trigger] stats[j]) is DensityStat))
            ==> selectivity::density_in(stats) is None,
        (forall|j: int| 0 <= j < stats.len() ==> !((#[trigger] stats[j]) is RangeStat))
            ==> selectivity::range_in(stats) is None,
        (forall|j: int| 0 <= j < stats.len() ==> !((#[trigger] stats[j]) is HistogramStat))
            ==> selectivity::histogram_in(stats) is None,
    decreases stats.len(),
{
    if stats.len() > 0 {
        let front = stats.drop_last();
        law_first_statistics(front, i);
        assert forall|j: int| 0 <= j < front.len() implies #[trigger] front[j] == stats[j] by {}
        if 0 <= i < stats.len() {
            if let ColumnStat::HistogramStat(h) = stats[i] {
                law_counted_rows(h.frequency_points@);
            }
        }
    }
}

/// The rows of all points of a histogram.
pub open spec fn counted(points: Seq<(Data, u64)>) -> int
    decreases points.len(),
{
    if points.len() == 0 {
        0
    } else {
        points[0].1 + counted(points.skip(1))
    }
}

proof fn lemma_counted(points: Seq<(Data, u64)>)
    requires
        points.len() > 0,
    ensures
        counted(points) == counted(points.drop_last()) + points.last().1,
    decreases points.len(),
{
    let rest = points.skip(1);
    if points.len() == 1 {
        assert(points.drop_last() =~= rest);
        assert(counted(rest) == 0);
    } else {
        lemma_counted(rest);
        assert(rest.drop_last() =~= points.drop_last().skip(1));
        assert(rest.last() == points.last());
    }
}

/// A histogram counts the rows of its points, modulo 2^64.
pub proof fn law_counted_rows(points: Seq<(Data, u64)>)
    ensures
        selectivity::frequency_total(points) == counted(points) % 0x1_0000_0000_0000_0000,
    decreases points.len(),
{
    if points.len() > 0 {
        law_counted_rows(points.drop_last());
        lemma_counted(points);
    }
}

/// The rows that the statistics of a column speak for: those that a histogram
/// counts, otherwise the distinct values over their number per row, and the
/// distinct values themselves where that number is not there or not positive.
pub proof fn law_rows_of_a_column(stats: Seq<ColumnStat>)
    ensures
        selectivity::histogram_in(stats) matches Some(n) ==> selectivity::rows_in(stats) == Some(n),
        selectivity::histogram_in(stats) is None ==> {
            &&& selectivity::cardinality_in(stats) is None ==> selectivity::rows_in(stats) is None
            &&& selectivity::cardinality_in(stats) matches Some(n) ==> {
                &&& selectivity::density_in(stats) is None ==> selectivity::rows_in(stats) == Some(
                    n as int,
                )
                &&& selectivity::density_in(stats) matches Some(d) ==> {
                    let share = DataValue::Float32(d);
                    let positive = values::answers(
                        share,
                        ComparisionOperator::GT,
                        DataValue::Int32(0),
                        true,
                    );
                    &&& positive ==> selectivity::rows_in(stats) == Some(
                        float::nearest_natural(
                            float::quotient(float::of_int(n as int), number::widened(d) as u64),
                        ),
                    )
                    &&& !positive ==> selectivity::rows_in(stats) == Some(n as int)
                }
            }
        },
{
    if let Some(d) = selectivity::density_in(stats) {
        values::law_exact_numbers(DataValue::Float32(d));
        values::law_exact_numbers(DataValue::Int32(0));
        values::law_exact_numbers(DataValue::Float64(0));
        assert(0 * pow2(1074) == 0);
    }
}

/// The statistics of the column speak for that many rows.
pub open spec fn speaks_for(column: ColumnSpec, n: int) -> bool {
    column.stats matches Some(stats) && selectivity::rows_in(stats@) == Some(n)
}

/// The greatest number of rows that the statistics of a column speak for: no column
/// speaks for more, and one speaks for as many.
pub proof fn law_greatest_rows(columns: Seq<ColumnSpec>)
    ensures
        match selectivity::greatest_rows(columns) {
            Some(n) => {
                &&& exists|c: int| 0 <= c < columns.len() && speaks_for(#[trigger] columns[c], n)
                &&& forall|c: int, m: int|
                    0 <= c < columns.len() && #[trigger] speaks_for(columns[c], m) ==> m <= n
            },
            None => forall|c: int, m: int|
                0 <= c < columns.len() ==> !#[trigger] speaks_for(columns[c], m),
        },
    decreases columns.len(),
{
    if columns.len() > 0 {
        let front = columns.drop_last();
        law_greatest_rows(front);
        let last = columns.len() - 1;
        assert forall|c: int| 0 <= c < last implies #[trigger] columns[c] == front[c] by {}
        assert forall|c: int, m: int|
            0 <= c < last && #[trigger] speaks_for(columns[c], m) implies speaks_for(
            front[c],
            m,
        ) by {}
        match selectivity::greatest_rows(columns) {
            Some(n) => {
                if selectivity::greatest_rows(front) == Some(n) {
                    let c = choose|c: int|
                        0 <= c < front.len() && speaks_for(#[trigger] front[c], n);
                    assert(speaks_for(columns[c], n));
                } else {
                    assert(speaks_for(columns[last as int], n));
                }
            },
            None => {},
        }
    }
}

/// The statistics of the column tell that many distinct values.
pub open spec fn tells(column: ColumnSpec, n: int) -> bool {
    column.stats matches Some(stats) && (selectivity::cardinality_in(stats@) matches Some(m) && m
        == n)
}

/// The greatest number of distinct values of a column: none has more, and one has
/// as many.
pub proof fn law_greatest_distinct(columns: Seq<ColumnSpec>)
    ensures
        match selectivity::greatest_distinct(columns) {
            Some(n) => {
                &&& exists|c: int| 0 <= c < columns.len() && tells(#[trigger] columns[c], n)
                &&& forall|c: int, m: int|
                    0 <= c < columns.len() && #[trigger] tells(columns[c], m) ==> m <= n
            },
            None => forall|c: int, m: int|
                0 <= c < columns.len() ==> !#[trigger] tells(columns[c], m),
        },
    decreases columns.len(),
{
    if columns.len() > 0 {
        let front = columns.drop_last();
        law_greatest_distinct(front);
        let last = columns.len() - 1;
        assert forall|c: int| 0 <= c < last implies #[trigger] columns[c] == front[c] by {}
        assert forall|c: int, m: int| 0 <= c < last && #[trigger] tells(columns[c], m) implies tells(
            front[c],
            m,
        ) by {}
        match selectivity::greatest_distinct(columns) {
            Some(n) => {
                if selectivity::greatest_distinct(front) == Some(n) {
                    let c = choose|c: int| 0 <= c < front.len() && tells(#[trigger] front[c], n);
                    assert(tells(columns[c], n));
                } else {
                    assert(tells(columns[last as int], n));
                }
            },
            None => {},
        }
    }
}

/// A table is held to have the rows that its statistics speak for, otherwise as
/// many as it has distinct values, and otherwise a quarter of what 64 bits hold.
pub proof fn law_rows_of_a_table(table: TableSpec)
    ensures
        selectivity::greatest_rows(table.column_specs@) matches Some(n) ==> selectivity::table_rows(
            table,
        ) == n,
        selectivity::greatest_rows(table.column_specs@) is None ==> {
            &&& selectivity::greatest_distinct(table.column_specs@) matches Some(n)
                ==> selectivity::table_rows(table) == n
            &&& selectivity::greatest_distinct(table.column_specs@) is None
                ==> selectivity::table_rows(table) == u64::MAX / 4
        },
{
}

proof fn lemma_constant(bits: u64, e: nat, f: int)
    requires
        bits == (e + 1) * 0x10_0000_0000_0000 + f,
        0 <= f < 0x10_0000_0000_0000,
        e < 2046,
    ensures
        finite(bits),
        worth(bits) == (0x10_0000_0000_0000 + f) * pow2(e),
        unsigned(bits) == bits,
{
    let b = bits as int;
    assert(b % 0x8000_0000_0000_0000 == b);
    assert(b / 0x10_0000_0000_0000 == e + 1);
    assert(b % 0x10_0000_0000_0000 == f);
}

/// An equality is held to let one row in ten through, its opposite nine in ten, and
/// any other comparison one in two. The last is exact, and the others are to within
/// 2^-52.
pub proof fn law_usual_shares(operator: ComparisionOperator)
    ensures
        ({
            let share = selectivity::usual_share(operator);
            let one = pow2(1074) as int;
            &&& finite(share) && !minus(share)
            &&& operator is EQ ==> gap(10 * worth(share), one) * pow2(52) <= one
            &&& operator is NE ==> gap(10 * worth(share), 9 * one) * pow2(52) <= one
            &&& !(operator is EQ) && !(operator is NE) ==> 2 * worth(share) == one
        }),
        selectivity::upward(operator) <==> operator is GT || operator is GTE,
{
    lemma2_to64();
    lemma2_to64_rest();
    lemma_pow2_adds(1022, 52);
    lemma_pow2_adds(1018, 56);
    lemma_pow2_adds(1018, 54);
    lemma_pow2_adds(1021, 53);
    lemma_pow2_adds(1020, 52);
    lemma_pow2_unfold(1022);
    lemma_pow2_adds(1020, 54);
    lemma_pow2_adds(1018, 2);
    lemma_constant(selectivity::TENTH, 1018, 0x9_9999_9999_999A);
    lemma_constant(selectivity::NINE_TENTHS, 1021, 0xC_CCCC_CCCC_CCCD);
    lemma_constant(selectivity::HALF, 1021, 0);
    lemma_pow2_pos(1018);
    let a = pow2(1018) as int;
    let b = pow2(1021) as int;
    assert(0x19_9999_9999_999A * a * 10 == 0x100_0000_0000_0004 * a) by (nonlinear_arith);
    assert(0x1C_CCCC_CCCC_CCCD * b * 10 == 0x120_0000_0000_0002 * b) by (nonlinear_arith);
    assert(gap(10 * worth(selectivity::TENTH), pow2(1074) as int) == 4 * a);
    assert(gap(10 * worth(selectivity::NINE_TENTHS), 9 * pow2(1074) as int) == 2 * b);
    let k = pow2(52) as int;
    assert(4 * a * k <= pow2(1074)) by (nonlinear_arith)
        requires
            pow2(1074) == a * 0x100_0000_0000_0000,
            k == 0x10_0000_0000_0000,
            a > 0,
    ;
    assert(2 * b * k == pow2(1074)) by (nonlinear_arith)
        requires
            pow2(1074) == b * 0x20_0000_0000_0000,
            k == 0x10_0000_0000_0000,
    ;
}

/// The other shares: a quarter for each predicate on two tables, and between a
/// twentieth and nineteen twentieths for a bound, to within 2^-48.
pub proof fn law_other_shares()
    ensures
        ({
            let one = pow2(1074) as int;
            &&& finite(selectivity::ONE) && worth(selectivity::ONE) == one
            &&& finite(selectivity::QUARTER) && 4 * worth(selectivity::QUARTER) == one
            &&& finite(selectivity::FEW) && gap(20 * worth(selectivity::FEW), one) * pow2(48) <= one
            &&& finite(selectivity::MOST) && gap(20 * worth(selectivity::MOST), 19 * one) * pow2(48)
                <= one
        }),
{
    lemma2_to64();
    lemma2_to64_rest();
    lemma_pow2_adds(1022, 52);
    lemma_pow2_adds(1020, 54);
    lemma_pow2_adds(1017, 57);
    lemma_pow2_adds(1021, 53);
    lemma_pow2_pos(1017);
    lemma_pow2_pos(1021);
    lemma_constant(selectivity::ONE, 1022, 0);
    lemma_constant(selectivity::QUARTER, 1020, 0);
    lemma_constant(selectivity::FEW, 1017, 0x9_9999_9999_999A);
    lemma_constant(selectivity::MOST, 1021, 0xE_6666_6666_6666);
    let a = pow2(1017) as int;
    let b = pow2(1021) as int;
    assert(0x19_9999_9999_999A * a * 20 == 0x200_0000_0000_0008 * a) by (nonlinear_arith);
    assert(0x1E_6666_6666_6666 * b * 20 == 0x25F_FFFF_FFFF_FFF8 * b) by (nonlinear_arith);
    assert(gap(20 * worth(selectivity::FEW), pow2(1074) as int) == 8 * a);
    assert(gap(20 * worth(selectivity::MOST), 19 * pow2(1074) as int) == 8 * b);
    let k = pow2(48) as int;
    assert(8 * a * k <= pow2(1074)) by (nonlinear_arith)
        requires
            pow2(1074) == a * 0x200_0000_0000_0000,
            k == 0x1_0000_0000_0000,
            a > 0,
    ;
    assert(8 * b * k <= pow2(1074)) by (nonlinear_arith)
        requires
            pow2(1074) == b * 0x20_0000_0000_0000,
            k == 0x1_0000_0000_0000,
            b > 0,
    ;
}

/// A share of rows is the natural number nearest to the product, and one row at
/// least.
pub proof fn law_share_of_rows(rows: int, share: u64)
    ensures
        ({
            let n = float::nearest_natural(float::product(float::of_int(rows), share));
            &&& selectivity::share_of(rows, share) >= 1
            &&& n >= 1 ==> selectivity::share_of(rows, share) == n
            &&& n < 1 ==> selectivity::share_of(rows, share) == 1
        }),
{
}

/// Predicates let through the product of what each of them does.
pub proof fn law_share_of_predicates(table: TableSpec, ps: Seq<PredicateView>, p: PredicateView)
    ensures
        selectivity::predicates_share(table, Seq::empty()) == selectivity::ONE,
        selectivity::predicates_share(table, ps.push(p)) == float::product(
            selectivity::predicates_share(table, ps),
            selectivity::predicate_share(table, p),
        ),
{
    assert(ps.push(p).drop_last() =~= ps);
}

/// A share is held to be no less than that of one row, and no more than all.
pub open spec fn bounded(share: u64, rows: int) -> u64 {
    float::clamped(
        share,
        float::quotient(selectivity::ONE, float::of_int(rows)),
        selectivity::ONE,
    )
}

/// The rows that the table is held to have, one where that is not known.
pub open spec fn some_rows(table: TableSpec, rows: int) -> bool {
    match selectivity::greatest_rows(table.column_specs@) {
        Some(n) => rows == (if n > 0 {
            n
        } else {
            1
        }),
        None => rows == 1,
    }
}

/// What a predicate on a column of a table lets through: what its operator does
/// where the column or its statistics are not there, or it compares two columns; one
/// of the distinct values or all but one of them for an equality and its opposite;
/// and a part of the range of the column for the others.
pub proof fn law_share_of_a_predicate(table: TableSpec, p: PredicateView, c: int, rows: int)
    requires
        some_rows(table, rows),
    ensures
        ({
            let usual = selectivity::usual_share(p.operator);
            let share = selectivity::predicate_share(table, p);
            &&& (forall|k: int|
                0 <= k < table.columns().len() ==> (#[trigger] table.columns()[k]).name != p.column)
                ==> share == usual
            &&& first_named(table.columns(), p.column, c) ==> {
                &&& table.column_specs@[c].stats is None ==> share == usual
                &&& table.column_specs@[c].stats matches Some(stats) ==> {
                    &&& p.value is Column ==> share == bounded(usual, rows)
                    &&& p.value matches OperandView::Literal(v) ==> {
                        let one_value = selectivity::equal_share(stats@);
                        let part = selectivity::bound_share(
                            stats@,
                            v,
                            p.operator is GT || p.operator is GTE,
                        );
                        &&& p.operator is EQ ==> {
                            &&& one_value matches Some(x) ==> share == bounded(x, rows)
                            &&& one_value is None ==> share == bounded(usual, rows)
                        }
                        &&& p.operator is NE && (one_value matches Some(x)) ==> share == bounded(
                            float::difference(selectivity::ONE, one_value->0),
                            rows,
                        )
                        &&& p.operator is NE && one_value is None ==> share == bounded(
                            float::difference(
                                selectivity::ONE,
                                float::difference(selectivity::ONE, usual),
                            ),
                            rows,
                        )
                        &&& !(p.operator is EQ) && !(p.operator is NE) ==> {
                            &&& part matches Some(x) ==> share == bounded(x, rows)
                            &&& part is None ==> share == bounded(usual, rows)
                        }
                    }
                }
            }
        }),
{
    catalog::law_names_of_columns(table.columns(), p.column, c);
    let n = selectivity::greatest_rows(table.column_specs@);
    law_greatest_rows(table.column_specs@);
    if let Some(k) = n {
        lemma_rows_not_negative(table.column_specs@, k);
    }
}

proof fn lemma_rows_not_negative(columns: Seq<ColumnSpec>, n: int)
    requires
        selectivity::greatest_rows(columns) == Some(n),
    ensures
        n >= 0,
{
    law_greatest_rows(columns);
    let c = choose|c: int| 0 <= c < columns.len() && speaks_for(#[trigger] columns[c], n);
    let stats = columns[c].stats->0@;
    if let Some(m) = selectivity::histogram_in(stats) {
        lemma_histogram(stats, m);
    } else {
        let k = selectivity::cardinality_in(stats)->0;
        if let Some(d) = selectivity::density_in(stats) {
            numbers::law_nearest_naturals(
                float::quotient(float::of_int(k as int), number::widened(d) as u64),
            );
        }
    }
}

proof fn lemma_histogram(stats: Seq<ColumnStat>, n: int)
    requires
        selectivity::histogram_in(stats) == Some(n),
    ensures
        n >= 0,
    decreases stats.len(),
{
    if stats.len() > 0 {
        if selectivity::histogram_in(stats.drop_last()) is Some {
            lemma_histogram(stats.drop_last(), n);
        } else if let ColumnStat::HistogramStat(h) = stats.last() {
            law_counted_rows(h.frequency_points@);
        }
    }
}

/// One of as many values as there are has the share of one over their number.
pub proof fn law_share_of_a_value(stats: Seq<ColumnStat>)
    ensures
        selectivity::cardinality_in(stats) is None ==> selectivity::equal_share(stats) is None,
        selectivity::cardinality_in(stats) matches Some(n) ==> selectivity::equal_share(stats)
            == Some(
            float::quotient(
                selectivity::ONE,
                float::of_int(
                    if n > 1 {
                        n as int
                    } else {
                        1
                    },
                ),
            ),
        ),
{
}

/// Where a bound lies in a range is told of texts among texts and of numbers among
/// numbers, whatever their types, and of nothing else.
pub proof fn law_bounds(stats: Seq<ColumnStat>, literal: DataValue, up: bool)
    ensures
        selectivity::range_in(stats) is None ==> selectivity::bound_share(stats, literal, up)
            is None,
        selectivity::range_in(stats) matches Some((lower, upper)) ==> {
            &&& lower is Text && upper is Text && literal is Text ==> selectivity::bound_share(
                stats,
                literal,
                up,
            ) == Some(
                selectivity::text_share(lower->Text_0, upper->Text_0, literal->Text_0, up),
            )
            &&& !(lower is Text) && !(upper is Text) && !(literal is Text)
                ==> selectivity::bound_share(stats, literal, up) == Some(
                selectivity::number_share(
                    selectivity::numeric(lower)->0,
                    selectivity::numeric(upper)->0,
                    selectivity::numeric(literal)->0,
                    up,
                ),
            )
            &&& !(lower is Text && upper is Text && literal is Text) && (lower is Text || upper
                is Text || literal is Text) ==> selectivity::bound_share(stats, literal, up) is None
        },
{
}

/// A number is taken as the nearest 64-bit one, and a text as none.
pub proof fn law_numeric_values(v: DataValue)
    ensures
        v matches DataValue::Int32(x) ==> selectivity::numeric(v) == Some(float::of_int(x as int)),
        v matches DataValue::Int64(x) ==> selectivity::numeric(v) == Some(float::of_int(x as int)),
        v matches DataValue::Float32(_) ==> (selectivity::numeric(v) matches Some(bits)
            && values::exact(DataValue::Float64(bits)) == values::exact(v)),
        v matches DataValue::Float64(bits) ==> selectivity::numeric(v) == Some(bits),
        v is Text ==> selectivity::numeric(v) is None,
{
    if let DataValue::Float32(bits) = v {
        numbers::law_widened_numbers(bits);
    }
}

/// Of a range without an extent half is on either side. Otherwise the part below a
/// number is where it lies between the bounds, as a share of their distance, and the
/// part above is the rest.
pub proof fn law_share_of_numbers(lower: u64, upper: u64, literal: u64)
    requires
        finite(lower),
        finite(upper),
    ensures
        worth(upper) <= worth(lower) ==> forall|up: bool| #[trigger]
            selectivity::number_share(lower, upper, literal, up) == selectivity::HALF,
        worth(lower) < worth(upper) ==> {
            let place = float::clamped(
                float::quotient(float::difference(literal, lower), float::difference(upper, lower)),
                0,
                selectivity::ONE,
            );
            &&& selectivity::number_share(lower, upper, literal, false) == float::clamped(
                place,
                selectivity::FEW,
                selectivity::MOST,
            )
            &&& selectivity::number_share(lower, upper, literal, true) == float::clamped(
                float::difference(selectivity::ONE, place),
                selectivity::FEW,
                selectivity::MOST,
            )
        },
{
    values::law_exact_numbers(DataValue::Float64(lower));
    values::law_exact_numbers(DataValue::Float64(upper));
}

/// Of a range of texts without an extent half is on either side. Little is above
/// what is not below its upper bound or below what is not above its lower one, and
/// most is on the other side.
pub proof fn law_share_of_texts(lower: Seq<char>, upper: Seq<char>, text: Seq<char>)
    ensures
        ({
            let l = vstd::utf8::encode_utf8(lower);
            let u = vstd::utf8::encode_utf8(upper);
            let t = vstd::utf8::encode_utf8(text);
            let above = selectivity::text_share(lower, upper, text, true);
            let below = selectivity::text_share(lower, upper, text, false);
            &&& !values::bytes_before(l, u) ==> above == selectivity::HALF && below
                == selectivity::HALF
            &&& values::bytes_before(l, u) && !values::bytes_before(l, t) ==> above
                == selectivity::MOST && below == selectivity::FEW
            &&& values::bytes_before(l, u) && values::bytes_before(l, t) && !values::bytes_before(
                t,
                u,
            ) ==> above == selectivity::FEW && below == selectivity::MOST
            &&& values::bytes_before(l, t) && values::bytes_before(t, u) ==> {
                let n = longest(l.len(), u.len(), t.len());
                let low = first_bytes(l, n);
                let span = if first_bytes(u, n) > low {
                    first_bytes(u, n) - low
                } else {
                    1
                };
                let at = if first_bytes(t, n) > low {
                    first_bytes(t, n) - low
                } else {
                    0
                };
                let place = float::clamped(
                    float::quotient(float::of_int(at), float::of_int(span)),
                    0,
                    selectivity::ONE,
                );
                &&& below == float::clamped(place, selectivity::FEW, selectivity::MOST)
                &&& above == float::clamped(
                    float::difference(selectivity::ONE, place),
                    selectivity::FEW,
                    selectivity::MOST,
                )
            }
        }),
{
    let l = vstd::utf8::encode_utf8(lower);
    let u = vstd::utf8::encode_utf8(upper);
    let t = vstd::utf8::encode_utf8(text);
    values::law_orders_of_bytes(u, l);
    values::law_orders_of_bytes(t, l);
    values::law_orders_of_bytes(t, u);
    if values::bytes_before(l, t) && values::bytes_before(t, u) {
        values::law_bytes_in_turn(l, t, u);
        let n = longest(l.len(), u.len(), t.len());
        lemma_first_bytes(l, n);
        lemma_first_bytes(u, n);
        lemma_first_bytes(t, n);
    }
}

/// The greatest of three lengths, but eight at most.
pub open spec fn longest(a: nat, b: nat, c: nat) -> nat {
    let most = if a >= b && a >= c {
        a
    } else if b >= c {
        b
    } else {
        c
    };
    if most > 8 {
        8
    } else {
        most
    }
}

/// The first bytes as a number, the first one as its highest, and missing ones as
/// zeros.
pub open spec fn first_bytes(s: Seq<u8>, n: nat) -> int
    decreases n,
{
    if n == 0 {
        0
    } else {
        (if s.len() > 0 {
            s[0] as int
        } else {
            0
        }) * vstd::arithmetic::power::pow(256, (n - 1) as nat) + first_bytes(
            if s.len() > 0 {
                s.skip(1)
            } else {
                s
            },
            (n - 1) as nat,
        )
    }
}

proof fn lemma_first_bytes(s: Seq<u8>, n: nat)
    ensures
        selectivity::leading_number(s, n) == first_bytes(s, n),
    decreases n,
{
    if n > 0 {
        lemma_first_bytes(s, (n - 1) as nat);
        lemma_last_byte(s, n);
    }
}

proof fn lemma_last_byte(s: Seq<u8>, n: nat)
    requires
        n > 0,
    ensures
        first_bytes(s, n) == first_bytes(s, (n - 1) as nat) * 256 + (if n <= s.len() {
            s[n - 1] as int
        } else {
            0
        }),
    decreases n,
{
    vstd::arithmetic::power::lemma_pow0(256);
    let rest = if s.len() > 0 {
        s.skip(1)
    } else {
        s
    };
    if n == 1 {
        assert(first_bytes(rest, 0) == 0);
    } else {
        lemma_last_byte(rest, (n - 1) as nat);
        vstd::arithmetic::power::lemma_pow_adds(256, (n - 2) as nat, 1);
        vstd::arithmetic::power::lemma_pow1(256);
        let p = vstd::arithmetic::power::pow(256, (n - 2) as nat);
        let b: int = if s.len() > 0 {
            s[0] as int
        } else {
            0
        };
        assert(b * (p * 256) == (b * p) * 256) by (nonlinear_arith);
        let r = first_bytes(rest, (n - 2) as nat);
        assert((b * p + r) * 256 == (b * p) * 256 + r * 256) by (nonlinear_arith);
    }
}

} // verus!
