//! What the statistics of a table say of its rows, and of the share of them
//! that meets a predicate. Shares are numbers of the 64-bit floating-point
//! format, held as their bit patterns.

use vstd::prelude::*;

use crate::catalog::statistics::ColumnStat;
use crate::catalog::table::{ColumnSpec, TableSpec};
use crate::data::{Data, DataValue};
use crate::executor::value;
use crate::executor::value::compare_text;
use crate::float;
use crate::number;
use crate::number::Order;
use crate::query;
use crate::query::{ComparisionOperator, OperandView, Predicate, PredicateView};
use crate::row;
use crate::text::same_text;

verus! {

/// One.
pub const ONE: u64 = 0x3FF0_0000_0000_0000;

/// The share of rows that an equality is held to let through.
pub const TENTH: u64 = 0x3FB9_9999_9999_999A;

/// The share of rows that an inequality is held to let through.
pub const NINE_TENTHS: u64 = 0x3FEC_CCCC_CCCC_CCCD;

/// The share of rows that a bound is held to let through.
pub const HALF: u64 = 0x3FE0_0000_0000_0000;

/// The share of rows that a predicate on columns of two tables is held to let
/// through.
pub const QUARTER: u64 = 0x3FD0_0000_0000_0000;

/// The least share that a bound within a range is held to let through.
pub const FEW: u64 = 0x3FA9_9999_9999_999A;

/// The greatest share that a bound within a range is held to let through.
pub const MOST: u64 = 0x3FEE_6666_6666_6666;

/// The number of distinct values that the statistics give.
pub open spec fn cardinality_in(stats: Seq<ColumnStat>) -> Option<u64>
    decreases stats.len(),
{
    if stats.len() == 0 {
        None
    } else {
        match cardinality_in(stats.drop_last()) {
            Some(n) => Some(n),
            None => match stats.last() {
                ColumnStat::CardinalityStat(n) => Some(n),
                _ => None,
            },
        }
    }
}

/// The number of distinct values per row that the statistics give.
pub open spec fn density_in(stats: Seq<ColumnStat>) -> Option<u32>
    decreases stats.len(),
{
    if stats.len() == 0 {
        None
    } else {
        match density_in(stats.drop_last()) {
            Some(d) => Some(d),
            None => match stats.last() {
                ColumnStat::DensityStat(d) => Some(d),
                _ => None,
            },
        }
    }
}

/// The least and the greatest value that the statistics give.
pub open spec fn range_in(stats: Seq<ColumnStat>) -> Option<(DataValue, DataValue)>
    decreases stats.len(),
{
    if stats.len() == 0 {
        None
    } else {
        match range_in(stats.drop_last()) {
            Some(r) => Some(r),
            None => match stats.last() {
                ColumnStat::RangeStat(r) => Some((r.lower_bound@, r.upper_bound@)),
                _ => None,
            },
        }
    }
}

/// The rows of all points together, in arithmetic of 64 bits.
pub open spec fn frequency_total(points: Seq<(Data, u64)>) -> int
    decreases points.len(),
{
    if points.len() == 0 {
        0
    } else {
        (frequency_total(points.drop_last()) + points.last().1) % 0x1_0000_0000_0000_0000
    }
}

/// The number of rows that a histogram counts.
pub open spec fn histogram_in(stats: Seq<ColumnStat>) -> Option<int>
    decreases stats.len(),
{
    if stats.len() == 0 {
        None
    } else {
        match histogram_in(stats.drop_last()) {
            Some(n) => Some(n),
            None => match stats.last() {
                ColumnStat::HistogramStat(h) => Some(frequency_total(h.frequency_points@)),
                _ => None,
            },
        }
    }
}

/// The number of rows that the statistics of a column speak for: what its
/// histogram counts, else the distinct values over their density, else the
/// distinct values.
pub open spec fn rows_in(stats: Seq<ColumnStat>) -> Option<int> {
    match histogram_in(stats) {
        Some(n) => Some(n),
        None => match cardinality_in(stats) {
            None => None,
            Some(n) => match density_in(stats) {
                None => Some(n as int),
                Some(d) => if number::num_order(number::num_32(d), number::num_64(0)) == Some(
                    Order::Greater,
                ) {
                    Some(
                        float::nearest_natural(
                            float::quotient(float::of_int(n as int), number::widened(d) as u64),
                        ),
                    )
                } else {
                    Some(n as int)
                },
            },
        },
    }
}

/// The number of distinct values of a column, if its statistics give it.
pub open spec fn distinct_in(column: ColumnSpec) -> Option<u64> {
    match column.stats {
        Some(stats) => cardinality_in(stats@),
        None => None,
    }
}

/// The greatest number of distinct values of a column.
pub open spec fn greatest_distinct(columns: Seq<ColumnSpec>) -> Option<int>
    decreases columns.len(),
{
    if columns.len() == 0 {
        None
    } else {
        let front = greatest_distinct(columns.drop_last());
        match (front, distinct_in(columns.last())) {
            (Some(a), Some(b)) => Some(if b >= a {
                b as int
            } else {
                a
            }),
            (None, Some(b)) => Some(b as int),
            _ => front,
        }
    }
}

/// The greatest number of rows that the statistics of a column speak for.
pub open spec fn greatest_rows(columns: Seq<ColumnSpec>) -> Option<int>
    decreases columns.len(),
{
    if columns.len() == 0 {
        None
    } else {
        let front = greatest_rows(columns.drop_last());
        match columns.last().stats {
            None => front,
            Some(stats) => match (front, rows_in(stats@)) {
                (Some(a), Some(b)) => Some(if b >= a {
                    b
                } else {
                    a
                }),
                (None, Some(b)) => Some(b),
                _ => front,
            },
        }
    }
}

/// The number of rows that a table without statistics is held to have.
pub const UNKNOWN_ROWS: u64 = 0x3FFF_FFFF_FFFF_FFFF;

/// The number of rows of a table, by its statistics.
pub open spec fn table_rows(table: TableSpec) -> int {
    match greatest_rows(table.column_specs@) {
        Some(n) => n,
        None => match greatest_distinct(table.column_specs@) {
            Some(n) => n,
            None => UNKNOWN_ROWS as int,
        },
    }
}

/// The share of rows that a predicate lets through, by its operator alone.
pub open spec fn usual_share(operator: ComparisionOperator) -> u64 {
    match operator {
        ComparisionOperator::EQ => TENTH,
        ComparisionOperator::NE => NINE_TENTHS,
        _ => HALF,
    }
}

/// Whether the operator asks for what is above a bound.
pub open spec fn upward(operator: ComparisionOperator) -> bool {
    operator is GT || operator is GTE
}

/// The share of one of the distinct values.
pub open spec fn equal_share(stats: Seq<ColumnStat>) -> Option<u64> {
    match cardinality_in(stats) {
        None => None,
        Some(n) => Some(
            float::quotient(
                ONE,
                float::of_int(if n == 0 {
                    1
                } else {
                    n as int
                }),
            ),
        ),
    }
}

/// A number, as the nearest value of the 64-bit format.
pub open spec fn numeric(v: DataValue) -> Option<u64> {
    match v {
        DataValue::Int32(x) => Some(float::of_int(x as int)),
        DataValue::Int64(x) => Some(float::of_int(x as int)),
        DataValue::Float32(bits) => Some(number::widened(bits) as u64),
        DataValue::Float64(bits) => Some(bits),
        DataValue::Text(_) => None,
    }
}

/// The first `n` bytes as the digits of a number, missing ones as zeros.
pub open spec fn leading_number(bytes: Seq<u8>, n: nat) -> int
    decreases n,
{
    if n == 0 {
        0
    } else {
        leading_number(bytes, (n - 1) as nat) * 256 + (if n <= bytes.len() {
            bytes[n - 1] as int
        } else {
            0
        })
    }
}

/// The number of bytes by which texts are placed between two others.
pub open spec fn leading_count(a: Seq<u8>, b: Seq<u8>, c: Seq<u8>) -> nat {
    if a.len() >= 8 || b.len() >= 8 || c.len() >= 8 {
        8
    } else if a.len() >= b.len() && a.len() >= c.len() {
        a.len()
    } else if b.len() >= c.len() {
        b.len()
    } else {
        c.len()
    }
}

/// `a - b`, or 0.
pub open spec fn above(a: int, b: int) -> int {
    if a > b {
        a - b
    } else {
        0
    }
}

/// The share of a range on one side of a position in it.
pub open spec fn side_share(position: u64, up: bool) -> u64 {
    float::clamped(
        if up {
            float::difference(ONE, position)
        } else {
            position
        },
        FEW,
        MOST,
    )
}

/// The share of texts between two bounds that is above, or below, a text.
pub open spec fn text_share(lower: Seq<char>, upper: Seq<char>, text: Seq<char>, up: bool) -> u64 {
    let l = vstd::utf8::encode_utf8(lower);
    let u = vstd::utf8::encode_utf8(upper);
    let t = vstd::utf8::encode_utf8(text);
    if !(value::bytes_order(u, l) is Greater) {
        HALF
    } else if !(value::bytes_order(t, l) is Greater) {
        if up {
            MOST
        } else {
            FEW
        }
    } else if !(value::bytes_order(t, u) is Less) {
        if up {
            FEW
        } else {
            MOST
        }
    } else {
        let n = leading_count(l, u, t);
        let low = leading_number(l, n);
        let span = above(leading_number(u, n), low);
        let position = float::clamped(
            float::quotient(
                float::of_int(above(leading_number(t, n), low)),
                float::of_int(if span == 0 {
                    1
                } else {
                    span
                }),
            ),
            0,
            ONE,
        );
        side_share(position, up)
    }
}

/// The share of numbers between two bounds that is above, or below, a number.
pub open spec fn number_share(lower: u64, upper: u64, literal: u64, up: bool) -> u64 {
    let o = number::num_order(number::num_64(upper), number::num_64(lower));
    if o == Some(Order::Less) || o == Some(Order::Equal) {
        HALF
    } else {
        side_share(
            float::clamped(
                float::quotient(float::difference(literal, lower), float::difference(upper, lower)),
                0,
                ONE,
            ),
            up,
        )
    }
}

/// The share of the values of a column that is above, or below, a literal.
pub open spec fn bound_share(stats: Seq<ColumnStat>, literal: DataValue, up: bool) -> Option<u64> {
    match range_in(stats) {
        None => None,
        Some((lower, upper)) => match (lower, upper, literal) {
            (DataValue::Text(l), DataValue::Text(u), DataValue::Text(t)) => Some(
                text_share(l, u, t, up),
            ),
            _ => match (numeric(lower), numeric(upper), numeric(literal)) {
                (Some(l), Some(u), Some(x)) => Some(number_share(l, u, x, up)),
                _ => None,
            },
        },
    }
}

/// What is there, or else `other`.
pub open spec fn or_else(a: Option<u64>, other: u64) -> u64 {
    match a {
        Some(x) => x,
        None => other,
    }
}

/// The share of the rows of a table that meets a predicate.
pub open spec fn predicate_share(table: TableSpec, p: PredicateView) -> u64 {
    let usual = usual_share(p.operator);
    match row::column_index(table.columns(), p.column) {
        None => usual,
        Some(i) => match table.column_specs@[i].stats {
            None => usual,
            Some(stats) => {
                let share = match p.value {
                    OperandView::Column(_) => usual,
                    OperandView::Literal(v) => match p.operator {
                        ComparisionOperator::EQ => or_else(equal_share(stats@), usual),
                        ComparisionOperator::NE => float::difference(
                            ONE,
                            or_else(equal_share(stats@), float::difference(ONE, usual)),
                        ),
                        _ => or_else(bound_share(stats@, v, upward(p.operator)), usual),
                    },
                };
                let rows = match greatest_rows(table.column_specs@) {
                    Some(n) => if n == 0 {
                        1
                    } else {
                        n
                    },
                    None => 1,
                };
                float::clamped(share, float::quotient(ONE, float::of_int(rows)), ONE)
            },
        },
    }
}

/// The share of the rows of a table that meets every predicate.
pub open spec fn predicates_share(table: TableSpec, ps: Seq<PredicateView>) -> u64
    decreases ps.len(),
{
    if ps.len() == 0 {
        ONE
    } else {
        float::product(predicates_share(table, ps.drop_last()), predicate_share(table, ps.last()))
    }
}

/// A share of rows, at least one row.
pub open spec fn share_of(rows: int, share: u64) -> int {
    let n = float::nearest_natural(float::product(float::of_int(rows), share));
    if n < 1 {
        1
    } else {
        n
    }
}

/// The share that predicates on columns of two tables let through.
pub open spec fn penalty(count: nat) -> u64
    decreases count,
{
    if count == 0 {
        ONE
    } else {
        float::product(penalty((count - 1) as nat), QUARTER)
    }
}

/// The rows that are left of `rows` by predicates on columns of two tables, of
/// which no more than four count.
pub open spec fn penalized(rows: int, count: nat) -> int {
    share_of(
        if rows < 1 {
            1
        } else {
            rows
        },
        penalty(if count > 4 {
            4
        } else {
            count
        }),
    )
}

/// The number of distinct values that the statistics give.
pub fn stats_cardinality(stats: &Vec<ColumnStat>) -> (r: Option<u64>)
    ensures
        r == cardinality_in(stats@),
{
    let mut i: usize = 0;
    assert(stats@.take(0) =~= Seq::<ColumnStat>::empty());
    while i < stats.len()
        invariant
            i <= stats@.len(),
            cardinality_in(stats@.take(i as int)) is None,
        decreases stats@.len() - i,
    {
        assert(stats@.take(i + 1).drop_last() =~= stats@.take(i as int));
        if let ColumnStat::CardinalityStat(n) = &stats[i] {
            proof {
                lemma_cardinality_kept(stats@, i + 1);
            }
            return Some(*n);
        }
        i = i + 1;
    }
    assert(stats@.take(i as int) =~= stats@);
    None
}

/// What the first statistics give, all give.
proof fn lemma_cardinality_kept(stats: Seq<ColumnStat>, n: int)
    requires
        0 <= n <= stats.len(),
        cardinality_in(stats.take(n)) is Some,
    ensures
        cardinality_in(stats) == cardinality_in(stats.take(n)),
    decreases stats.len() - n,
{
    if n == stats.len() {
        assert(stats.take(n) =~= stats);
    } else {
        assert(stats.take(n + 1).drop_last() =~= stats.take(n));
        lemma_cardinality_kept(stats, n + 1);
    }
}

/// What the first statistics give, all give.
proof fn lemma_density_kept(stats: Seq<ColumnStat>, n: int)
    requires
        0 <= n <= stats.len(),
        density_in(stats.take(n)) is Some,
    ensures
        density_in(stats) == density_in(stats.take(n)),
    decreases stats.len() - n,
{
    if n == stats.len() {
        assert(stats.take(n) =~= stats);
    } else {
        assert(stats.take(n + 1).drop_last() =~= stats.take(n));
        lemma_density_kept(stats, n + 1);
    }
}

/// What the first statistics give, all give.
proof fn lemma_range_kept(stats: Seq<ColumnStat>, n: int)
    requires
        0 <= n <= stats.len(),
        range_in(stats.take(n)) is Some,
    ensures
        range_in(stats) == range_in(stats.take(n)),
    decreases stats.len() - n,
{
    if n == stats.len() {
        assert(stats.take(n) =~= stats);
    } else {
        assert(stats.take(n + 1).drop_last() =~= stats.take(n));
        lemma_range_kept(stats, n + 1);
    }
}

/// What the first statistics give, all give.
proof fn lemma_histogram_kept(stats: Seq<ColumnStat>, n: int)
    requires
        0 <= n <= stats.len(),
        histogram_in(stats.take(n)) is Some,
    ensures
        histogram_in(stats) == histogram_in(stats.take(n)),
    decreases stats.len() - n,
{
    if n == stats.len() {
        assert(stats.take(n) =~= stats);
    } else {
        assert(stats.take(n + 1).drop_last() =~= stats.take(n));
        lemma_histogram_kept(stats, n + 1);
    }
}

/// The number of distinct values per row that the statistics give.
pub fn stats_density(stats: &Vec<ColumnStat>) -> (r: Option<u32>)
    ensures
        r == density_in(stats@),
{
    let mut i: usize = 0;
    assert(stats@.take(0) =~= Seq::<ColumnStat>::empty());
    while i < stats.len()
        invariant
            i <= stats@.len(),
            density_in(stats@.take(i as int)) is None,
        decreases stats@.len() - i,
    {
        assert(stats@.take(i + 1).drop_last() =~= stats@.take(i as int));
        if let ColumnStat::DensityStat(d) = &stats[i] {
            proof {
                lemma_density_kept(stats@, i + 1);
            }
            return Some(*d);
        }
        i = i + 1;
    }
    assert(stats@.take(i as int) =~= stats@);
    None
}

/// The least and the greatest value that the statistics give.
pub fn stats_range(stats: &Vec<ColumnStat>) -> (r: Option<(&Data, &Data)>)
    ensures
        match r {
            Some((lower, upper)) => range_in(stats@) == Some((lower@, upper@)),
            None => range_in(stats@) is None,
        },
{
    let mut i: usize = 0;
    assert(stats@.take(0) =~= Seq::<ColumnStat>::empty());
    while i < stats.len()
        invariant
            i <= stats@.len(),
            range_in(stats@.take(i as int)) is None,
        decreases stats@.len() - i,
    {
        assert(stats@.take(i + 1).drop_last() =~= stats@.take(i as int));
        if let ColumnStat::RangeStat(range) = &stats[i] {
            proof {
                lemma_range_kept(stats@, i + 1);
            }
            return Some((&range.lower_bound, &range.upper_bound));
        }
        i = i + 1;
    }
    assert(stats@.take(i as int) =~= stats@);
    None
}

/// The rows of all points together.
fn total_frequency(points: &Vec<(Data, u64)>) -> (r: u64)
    ensures
        r == frequency_total(points@),
{
    let mut total: u64 = 0;
    let mut i: usize = 0;
    assert(points@.take(0) =~= Seq::<(Data, u64)>::empty());
    while i < points.len()
        invariant
            i <= points@.len(),
            total == frequency_total(points@.take(i as int)),
        decreases points@.len() - i,
    {
        assert(points@.take(i + 1).drop_last() =~= points@.take(i as int));
        total = total.wrapping_add(points[i].1);
        i = i + 1;
    }
    assert(points@.take(i as int) =~= points@);
    total
}

/// The number of rows that a histogram counts.
pub fn histogram_row_count(stats: &Vec<ColumnStat>) -> (r: Option<u64>)
    ensures
        match r {
            Some(n) => histogram_in(stats@) == Some(n as int),
            None => histogram_in(stats@) is None,
        },
{
    let mut i: usize = 0;
    assert(stats@.take(0) =~= Seq::<ColumnStat>::empty());
    while i < stats.len()
        invariant
            i <= stats@.len(),
            histogram_in(stats@.take(i as int)) is None,
        decreases stats@.len() - i,
    {
        assert(stats@.take(i + 1).drop_last() =~= stats@.take(i as int));
        if let ColumnStat::HistogramStat(histogram) = &stats[i] {
            proof {
                lemma_histogram_kept(stats@, i + 1);
            }
            return Some(total_frequency(&histogram.frequency_points));
        }
        i = i + 1;
    }
    assert(stats@.take(i as int) =~= stats@);
    None
}

/// The number of rows that the statistics of a column speak for.
pub fn stats_row_count(stats: &Vec<ColumnStat>) -> (r: Option<u64>)
    ensures
        match r {
            Some(n) => rows_in(stats@) == Some(n as int),
            None => rows_in(stats@) is None,
        },
{
    if let Some(n) = histogram_row_count(stats) {
        return Some(n);
    }
    let cardinality: u64 = match stats_cardinality(stats) {
        Some(n) => n,
        None => {
            return None;
        },
    };
    match stats_density(stats) {
        None => Some(cardinality),
        Some(density) => {
            let wide: u64 = number::widen(density);
            if number::order_64(wide, 0) == Some(Order::Greater) {
                Some(float::round(float::divide(float::from_natural(cardinality), wide)))
            } else {
                Some(cardinality)
            }
        },
    }
}

/// The number of distinct values of a column.
pub fn column_distinct_values(column: &ColumnSpec) -> (r: Option<u64>)
    ensures
        r == distinct_in(*column),
{
    match &column.stats {
        Some(stats) => stats_cardinality(stats),
        None => None,
    }
}

/// The greatest number of rows that the statistics of a column speak for.
pub fn table_row_count(table: &TableSpec) -> (r: Option<u64>)
    ensures
        match r {
            Some(n) => greatest_rows(table.column_specs@) == Some(n as int),
            None => greatest_rows(table.column_specs@) is None,
        },
{
    let columns = &table.column_specs;
    let mut best: Option<u64> = None;
    let mut i: usize = 0;
    assert(columns@.take(0) =~= Seq::<ColumnSpec>::empty());
    while i < columns.len()
        invariant
            i <= columns@.len(),
            match best {
                Some(n) => greatest_rows(columns@.take(i as int)) == Some(n as int),
                None => greatest_rows(columns@.take(i as int)) is None,
            },
        decreases columns@.len() - i,
    {
        assert(columns@.take(i + 1).drop_last() =~= columns@.take(i as int));
        if let Some(stats) = &columns[i].stats {
            if let Some(n) = stats_row_count(stats) {
                best = match best {
                    Some(m) => if n >= m {
                        Some(n)
                    } else {
                        Some(m)
                    },
                    None => Some(n),
                };
            }
        }
        i = i + 1;
    }
    assert(columns@.take(i as int) =~= columns@);
    best
}

/// The number of rows of a table, by its statistics.
pub fn estimated_table_rows(table: &TableSpec) -> (r: u64)
    ensures
        r == table_rows(*table),
{
    if let Some(n) = table_row_count(table) {
        return n;
    }
    let columns = &table.column_specs;
    let mut best: Option<u64> = None;
    let mut i: usize = 0;
    assert(columns@.take(0) =~= Seq::<ColumnSpec>::empty());
    while i < columns.len()
        invariant
            i <= columns@.len(),
            match best {
                Some(n) => greatest_distinct(columns@.take(i as int)) == Some(n as int),
                None => greatest_distinct(columns@.take(i as int)) is None,
            },
        decreases columns@.len() - i,
    {
        assert(columns@.take(i + 1).drop_last() =~= columns@.take(i as int));
        if let Some(n) = column_distinct_values(&columns[i]) {
            best = match best {
                Some(m) => if n >= m {
                    Some(n)
                } else {
                    Some(m)
                },
                None => Some(n),
            };
        }
        i = i + 1;
    }
    assert(columns@.take(i as int) =~= columns@);
    match best {
        Some(n) => n,
        None => UNKNOWN_ROWS,
    }
}

/// The first column of a table with the name.
pub fn find_column(table: &TableSpec, name: &str) -> (r: Option<usize>)
    ensures
        match r {
            Some(i) => i < table.column_specs@.len() && row::column_index(table.columns(), name@)
                == Some(i as int),
            None => row::column_index(table.columns(), name@) is None,
        },
{
    let ghost columns = table.columns();
    proof {
        row::lemma_column_index(columns, name@);
    }
    let mut i: usize = 0;
    while i < table.column_specs.len()
        invariant
            i <= table.column_specs@.len(),
            columns == table.columns(),
            forall|j: int| 0 <= j < i ==> (#[trigger] columns[j]).name != name@,
        decreases table.column_specs@.len() - i,
    {
        assert(columns[i as int].name == table.column_specs@[i as int].column_name@);
        if same_text(table.column_specs[i].column_name.as_str(), name) {
            proof {
                row::lemma_column_index_is(columns, name@, i as int);
            }
            return Some(i);
        }
        i = i + 1;
    }
    None
}

/// The share of rows that a predicate lets through, by its operator alone.
pub fn default_selectivity(operator: ComparisionOperator) -> (r: u64)
    ensures
        r == usual_share(operator),
{
    match operator {
        ComparisionOperator::EQ => TENTH,
        ComparisionOperator::NE => NINE_TENTHS,
        _ => HALF,
    }
}

/// The share of one of the distinct values.
pub fn equality_selectivity(stats: &Vec<ColumnStat>) -> (r: Option<u64>)
    ensures
        r == equal_share(stats@),
{
    match stats_cardinality(stats) {
        None => None,
        Some(n) => {
            let n: u64 = if n == 0 {
                1
            } else {
                n
            };
            Some(float::divide(ONE, float::from_natural(n)))
        },
    }
}

/// A number, as the nearest value of the 64-bit format.
pub fn numeric_data_value(value: &Data) -> (r: Option<u64>)
    ensures
        r == numeric(value@),
{
    match value {
        Data::Int32(v) => Some(float::from_integer(*v as i64)),
        Data::Int64(v) => Some(float::from_integer(*v)),
        Data::Float32(bits) => Some(number::widen(*bits)),
        Data::Float64(bits) => Some(*bits),
        Data::String(_) => None,
    }
}

/// The share of a range on one side of a position in it.
fn share_beside(position: u64, up: bool) -> (r: u64)
    ensures
        r == side_share(position, up),
{
    if up {
        float::clamp(float::subtract(ONE, position), FEW, MOST)
    } else {
        float::clamp(position, FEW, MOST)
    }
}

/// The first bytes as the digits of a number.
fn leading(bytes: &[u8], n: usize) -> (r: u64)
    requires
        n <= 8,
    ensures
        r == leading_number(bytes@, n as nat),
{
    let mut total: u64 = 0;
    let mut i: usize = 0;
    let ghost mut bound: int = 1;
    proof {
        vstd::arithmetic::power2::lemma2_to64();
    }
    while i < n
        invariant
            i <= n <= 8,
            total == leading_number(bytes@, i as nat),
            total < bound,
            bound == vstd::arithmetic::power2::pow2((8 * i) as nat),
        decreases n - i,
    {
        let digit: u64 = if i < bytes.len() {
            bytes[i] as u64
        } else {
            0
        };
        proof {
            vstd::arithmetic::power2::lemma2_to64();
            vstd::arithmetic::power2::lemma_pow2_adds((8 * i) as nat, 8);
            if 8 * i < 56 {
                vstd::arithmetic::power2::lemma_pow2_strictly_increases((8 * i) as nat, 56);
            }
            vstd::arithmetic::power2::lemma2_to64_rest();
            bound = bound * 256;
        }
        total = total * 256 + digit;
        i = i + 1;
    }
    total
}

/// The share of texts between two bounds that is above, or below, a text.
pub fn string_inequality_selectivity(lower: &str, upper: &str, literal: &str, greater_than: bool)
    -> (r: u64)
    ensures
        r == text_share(lower@, upper@, literal@, greater_than),
{
    if compare_text(upper, lower) != Order::Greater {
        return HALF;
    }
    if compare_text(literal, lower) != Order::Greater {
        return if greater_than {
            MOST
        } else {
            FEW
        };
    }
    if compare_text(literal, upper) != Order::Less {
        return if greater_than {
            FEW
        } else {
            MOST
        };
    }
    let l = lower.as_bytes();
    let u = upper.as_bytes();
    let t = literal.as_bytes();
    let mut n: usize = l.len();
    if u.len() > n {
        n = u.len();
    }
    if t.len() > n {
        n = t.len();
    }
    if n > 8 {
        n = 8;
    }
    let low: u64 = leading(l, n);
    let high: u64 = leading(u, n);
    let at: u64 = leading(t, n);
    let span: u64 = if high > low {
        high - low
    } else {
        1
    };
    let offset: u64 = if at > low {
        at - low
    } else {
        0
    };
    let position: u64 = float::clamp(
        float::divide(float::from_natural(offset), float::from_natural(span)),
        0,
        ONE,
    );
    share_beside(position, greater_than)
}

/// The share of the values of a column that is above, or below, a literal.
pub fn inequality_selectivity(stats: &Vec<ColumnStat>, literal: &Data, greater_than: bool) -> (r:
    Option<u64>)
    ensures
        r == bound_share(stats@, literal@, greater_than),
{
    let (lower, upper) = match stats_range(stats) {
        Some(range) => range,
        None => {
            return None;
        },
    };
    if let (Data::String(l), Data::String(u), Data::String(t)) = (lower, upper, literal) {
        return Some(
            string_inequality_selectivity(l.as_str(), u.as_str(), t.as_str(), greater_than),
        );
    }
    let low: u64 = match numeric_data_value(lower) {
        Some(x) => x,
        None => {
            return None;
        },
    };
    let high: u64 = match numeric_data_value(upper) {
        Some(x) => x,
        None => {
            return None;
        },
    };
    let at: u64 = match numeric_data_value(literal) {
        Some(x) => x,
        None => {
            return None;
        },
    };
    match number::order_64(high, low) {
        Some(Order::Less) => {
            return Some(HALF);
        },
        Some(Order::Equal) => {
            return Some(HALF);
        },
        _ => {},
    }
    let position: u64 = float::clamp(
        float::divide(float::subtract(at, low), float::subtract(high, low)),
        0,
        ONE,
    );
    Some(share_beside(position, greater_than))
}

/// The share of the rows of a table that meets a predicate.
pub fn estimate_scan_predicate_selectivity(table: &TableSpec, predicate: &Predicate) -> (r: u64)
    ensures
        r == predicate_share(*table, predicate@),
{
    let usual: u64 = default_selectivity(predicate.operator);
    let index: usize = match find_column(table, predicate.column_name.as_str()) {
        Some(i) => i,
        None => {
            return usual;
        },
    };
    let stats = match &table.column_specs[index].stats {
        Some(stats) => stats,
        None => {
            return usual;
        },
    };
    let share: u64 = match predicate.value.literal() {
        None => usual,
        Some(literal) => match predicate.operator {
            ComparisionOperator::EQ => match equality_selectivity(stats) {
                Some(x) => x,
                None => usual,
            },
            ComparisionOperator::NE => match equality_selectivity(stats) {
                Some(x) => float::subtract(ONE, x),
                None => float::subtract(ONE, float::subtract(ONE, usual)),
            },
            ComparisionOperator::GT => match inequality_selectivity(stats, &literal, true) {
                Some(x) => x,
                None => usual,
            },
            ComparisionOperator::GTE => match inequality_selectivity(stats, &literal, true) {
                Some(x) => x,
                None => usual,
            },
            ComparisionOperator::LT => match inequality_selectivity(stats, &literal, false) {
                Some(x) => x,
                None => usual,
            },
            ComparisionOperator::LTE => match inequality_selectivity(stats, &literal, false) {
                Some(x) => x,
                None => usual,
            },
        },
    };
    let rows: u64 = match table_row_count(table) {
        Some(n) => if n == 0 {
            1
        } else {
            n
        },
        None => 1,
    };
    float::clamp(share, float::divide(ONE, float::from_natural(rows)), ONE)
}

/// A share of rows, at least one row.
pub fn apply_selectivity(rows: u64, share: u64) -> (r: u64)
    ensures
        r == share_of(rows as int, share),
        r >= 1,
{
    let n: u64 = float::round(float::multiply(float::from_natural(rows), share));
    if n < 1 {
        1
    } else {
        n
    }
}

/// The rows that are left of `rows` by predicates on columns of two tables.
pub fn apply_generic_predicate_penalty(rows: u64, predicate_count: usize) -> (r: u64)
    ensures
        r == penalized(rows as int, predicate_count as nat),
        r >= 1,
{
    let count: usize = if predicate_count > 4 {
        4
    } else {
        predicate_count
    };
    let mut share: u64 = ONE;
    let mut i: usize = 0;
    while i < count
        invariant
            i <= count,
            share == penalty(i as nat),
        decreases count - i,
    {
        share = float::multiply(share, QUARTER);
        i = i + 1;
    }
    apply_selectivity(
        if rows < 1 {
            1
        } else {
            rows
        },
        share,
    )
}

/// The rows of a table that meet every predicate, at least one.
pub fn estimated_filtered_rows(table: &TableSpec, predicates: &Vec<Predicate>) -> (r: u64)
    ensures
        r == share_of(
            table_rows(*table),
            predicates_share(*table, query::predicate_views(predicates@)),
        ),
{
    let ghost all = query::predicate_views(predicates@);
    let mut share: u64 = ONE;
    let mut i: usize = 0;
    assert(all.take(0) =~= Seq::<PredicateView>::empty());
    while i < predicates.len()
        invariant
            i <= predicates@.len(),
            all == query::predicate_views(predicates@),
            share == predicates_share(*table, all.take(i as int)),
        decreases predicates@.len() - i,
    {
        assert(all.take(i + 1).drop_last() =~= all.take(i as int));
        share = float::multiply(share, estimate_scan_predicate_selectivity(table, &predicates[i]));
        i = i + 1;
    }
    assert(all.take(i as int) =~= all);
    apply_selectivity(estimated_table_rows(table), share)
}

} // verus!
