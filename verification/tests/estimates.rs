//! Floating-point arithmetic on bit patterns, and the estimates made with it.

use database::catalog::db_context::DbContext;
use database::catalog::statistics::{ColumnStat, HistogramStat, RangeStat};
use database::catalog::table::{ColumnSpec, TableSpec};
use database::data::{Data, DataType};
use database::estimation::{
    estimate_distinct_values, estimate_query_rows, estimate_query_rows_with_predicates,
    estimated_schema_row_bytes,
};
use database::float;
use database::query::{
    ComparisionOperator, ComparisionValue, CrossData, FilterData, Predicate, ProjectData, QueryOp,
    ScanData,
};
use database::row::{Row, Schema};
use database::selectivity::{
    apply_generic_predicate_penalty, apply_selectivity, default_selectivity, equality_selectivity,
    estimate_scan_predicate_selectivity, inequality_selectivity, stats_row_count,
    string_inequality_selectivity,
};

fn samples() -> Vec<f64> {
    let mut out = vec![
        0.0,
        -0.0,
        1.0,
        -1.0,
        0.1,
        0.9,
        1.5,
        3.0,
        f64::MAX,
        f64::MIN,
        f64::MIN_POSITIVE,
        5e-324,
        -5e-324,
        1.7e308,
        2.2250738585072011e-308,
        9007199254740993.0,
        1e22,
        1e-22,
        f64::INFINITY,
        f64::NEG_INFINITY,
    ];
    let mut state = 42u64;
    for _ in 0..220 {
        state = state.wrapping_mul(6364136223846793005).wrapping_add(1442695040888963407);
        let v = f64::from_bits(state);
        if !v.is_nan() {
            out.push(v);
        }
        out.push((state >> 40) as f64 / 1000.0);
    }
    out
}

fn same(bits: u64, v: f64) -> bool {
    if v.is_nan() {
        f64::from_bits(bits).is_nan()
    } else {
        bits == v.to_bits()
    }
}

#[test]
fn products_are_those_of_the_format() {
    for a in samples() {
        for b in samples() {
            let r = float::multiply(a.to_bits(), b.to_bits());
            assert!(same(r, a * b), "{a:e} * {b:e}");
        }
    }
}

#[test]
fn quotients_are_those_of_the_format() {
    for a in samples() {
        for b in samples() {
            let r = float::divide(a.to_bits(), b.to_bits());
            assert!(same(r, a / b), "{a:e} / {b:e}");
        }
    }
}

#[test]
fn differences_are_those_of_the_format() {
    for a in samples() {
        for b in samples() {
            let r = float::subtract(a.to_bits(), b.to_bits());
            assert!(same(r, a - b), "{a:e} - {b:e}");
        }
    }
}

#[test]
fn what_is_no_number_stays_none() {
    let nan = f64::NAN.to_bits();
    let one = 1f64.to_bits();
    for r in [
        float::multiply(nan, one),
        float::divide(one, nan),
        float::subtract(nan, nan),
        float::divide(0, 0),
        float::clamp(nan, 0, one),
    ] {
        assert!(f64::from_bits(r).is_nan());
    }
    assert_eq!(float::round(nan), 0);
}

#[test]
fn integers_are_rounded_to_the_nearest_number() {
    for v in [0u64, 1, 2, 3, 1 << 53, (1 << 53) + 1, (1 << 53) + 3, u64::MAX, u64::MAX - 1024] {
        assert_eq!(float::from_natural(v), (v as f64).to_bits());
    }
    for v in [0i64, -1, 7, i64::MIN, i64::MAX, -(1 << 53) - 1] {
        assert_eq!(float::from_integer(v), (v as f64).to_bits());
    }
}

#[test]
fn rounding_to_natural_numbers() {
    for v in samples() {
        assert_eq!(float::round(v.to_bits()), v.round() as u64, "{v:e}");
    }
    for v in [0.49, 0.5, 0.50000000001, 1.5, 2.5, 1e19, 2e19, 4503599627370497.5, 0.49999999999999994]
    {
        assert_eq!(float::round(f64::to_bits(v)), v.round() as u64, "{v:e}");
    }
}

#[test]
fn clamping_moves_numbers_into_a_range() {
    let clamp = |x: f64| f64::from_bits(float::clamp(x.to_bits(), 0.05f64.to_bits(), 0.95f64.to_bits()));
    assert_eq!(clamp(0.5), 0.5);
    assert_eq!(clamp(-3.0), 0.05);
    assert_eq!(clamp(f64::INFINITY), 0.95);
}

fn column(name: &str, data_type: DataType, stats: Vec<ColumnStat>) -> ColumnSpec {
    ColumnSpec { column_name: name.to_string(), data_type, stats: Some(stats) }
}

fn orders() -> TableSpec {
    TableSpec {
        name: "orders".to_string(),
        file_id: "orders.bin".to_string(),
        column_specs: vec![
            column(
                "id",
                DataType::Int32,
                vec![
                    ColumnStat::CardinalityStat(1000),
                    ColumnStat::RangeStat(RangeStat {
                        lower_bound: Data::Int32(0),
                        upper_bound: Data::Int32(1000),
                    }),
                ],
            ),
            column(
                "kind",
                DataType::String,
                vec![
                    ColumnStat::CardinalityStat(4),
                    ColumnStat::DensityStat(0.002f32.to_bits()),
                    ColumnStat::RangeStat(RangeStat {
                        lower_bound: Data::String("a".to_string()),
                        upper_bound: Data::String("e".to_string()),
                    }),
                ],
            ),
            ColumnSpec { column_name: "rest".to_string(), data_type: DataType::Float64, stats: None },
        ],
    }
}

fn parts() -> TableSpec {
    TableSpec {
        name: "parts".to_string(),
        file_id: "parts.bin".to_string(),
        column_specs: vec![column(
            "part",
            DataType::Int64,
            vec![
                ColumnStat::CardinalityStat(50),
                ColumnStat::HistogramStat(HistogramStat {
                    frequency_points: vec![(Data::Int64(1), 30), (Data::Int64(2), 70)],
                }),
            ],
        )],
    }
}

fn ctx() -> DbContext {
    DbContext::from(vec![orders(), parts()]).unwrap()
}

fn scan(table: &str) -> QueryOp {
    QueryOp::Scan(ScanData { table_id: table.to_string() })
}

fn by(column: &str, operator: ComparisionOperator, value: ComparisionValue) -> Predicate {
    Predicate { column_name: column.to_string(), operator, value }
}

#[test]
fn rows_of_tables_come_from_their_statistics() {
    let ctx = ctx();
    // Four distinct values, 0.002 of them per row, against a thousand ids.
    let dense = (4f64 / 0.002f32 as f64).round() as u64;
    assert_eq!(dense, 2000);
    assert_eq!(estimate_query_rows(&scan("orders"), &ctx), 2000);
    assert_eq!(estimate_query_rows(&scan("parts"), &ctx), 100);
    assert_eq!(estimate_query_rows(&scan("nothing"), &ctx), u64::MAX / 4);
}

#[test]
fn statistics_of_a_column_by_precedence() {
    assert_eq!(stats_row_count(&vec![]), None);
    assert_eq!(stats_row_count(&vec![ColumnStat::CardinalityStat(5)]), Some(5));
    assert_eq!(
        stats_row_count(&vec![
            ColumnStat::CardinalityStat(5),
            ColumnStat::DensityStat(0.5f32.to_bits())
        ]),
        Some(10)
    );
    assert_eq!(
        stats_row_count(&vec![
            ColumnStat::DensityStat((-1f32).to_bits()),
            ColumnStat::CardinalityStat(5)
        ]),
        Some(5)
    );
    assert_eq!(stats_row_count(&vec![ColumnStat::DensityStat(0.5f32.to_bits())]), None);
}

#[test]
fn shares_of_predicates() {
    let table = orders();
    let share = |p: Predicate| f64::from_bits(estimate_scan_predicate_selectivity(&table, &p));
    assert_eq!(share(by("id", ComparisionOperator::EQ, ComparisionValue::I32(3))), 1.0 / 1000.0);
    assert_eq!(
        share(by("id", ComparisionOperator::NE, ComparisionValue::I32(3))),
        1.0 - 1.0 / 1000.0
    );
    assert_eq!(share(by("id", ComparisionOperator::LT, ComparisionValue::I32(250))), 0.25);
    assert_eq!(share(by("id", ComparisionOperator::GT, ComparisionValue::I32(250))), 0.75);
    assert_eq!(share(by("id", ComparisionOperator::GT, ComparisionValue::I32(2000))), 0.05);
    assert_eq!(share(by("rest", ComparisionOperator::EQ, ComparisionValue::I32(3))), 0.1);
    assert_eq!(share(by("rest", ComparisionOperator::NE, ComparisionValue::I32(3))), 0.9);
    assert_eq!(share(by("nothing", ComparisionOperator::LTE, ComparisionValue::I32(3))), 0.5);
    assert_eq!(
        share(by("id", ComparisionOperator::EQ, ComparisionValue::Column("kind".to_string()))),
        0.1
    );
    assert_eq!(f64::from_bits(default_selectivity(ComparisionOperator::GTE)), 0.5);
}

#[test]
fn shares_of_texts_between_bounds() {
    let share = |l: &str, u: &str, t: &str, up: bool| {
        f64::from_bits(string_inequality_selectivity(l, u, t, up))
    };
    assert_eq!(share("a", "e", "c", false), 0.5);
    assert_eq!(share("a", "e", "b", true), 1.0 - 0.25);
    assert_eq!(share("b", "b", "b", true), 0.5);
    assert_eq!(share("b", "d", "a", true), 0.95);
    assert_eq!(share("b", "d", "a", false), 0.05);
    assert_eq!(share("b", "d", "x", true), 0.05);
    assert_eq!(share("b", "d", "x", false), 0.95);
    // Beyond the first eight bytes the texts look alike.
    assert_eq!(share("aaaaaaaab", "aaaaaaaad", "aaaaaaaac", false), 0.05);
}

#[test]
fn shares_without_statistics_are_missing() {
    let text = Data::String("x".to_string());
    let range = vec![ColumnStat::RangeStat(RangeStat {
        lower_bound: Data::Int32(5),
        upper_bound: Data::Int32(5),
    })];
    assert_eq!(equality_selectivity(&vec![]), None);
    assert_eq!(inequality_selectivity(&vec![], &text, true), None);
    assert_eq!(inequality_selectivity(&range, &text, true), None);
    assert_eq!(
        inequality_selectivity(&range, &Data::Int32(1), true),
        Some(0.5f64.to_bits())
    );
}

#[test]
fn filtered_rows() {
    let ctx = ctx();
    let ps = vec![
        by("id", ComparisionOperator::LT, ComparisionValue::I32(250)),
        by("kind", ComparisionOperator::EQ, ComparisionValue::String("b".to_string())),
    ];
    // 2000 rows, a quarter of them twice over.
    assert_eq!(estimate_query_rows_with_predicates(&scan("orders"), &ps, &ctx), 125);
    let filtered = QueryOp::Filter(FilterData { predicates: ps, underlying: Box::new(scan("orders")) });
    assert_eq!(estimate_query_rows(&filtered, &ctx), 125);
    assert_eq!(estimate_distinct_values(&filtered, "id", &ctx), Some(63));
    assert_eq!(estimate_distinct_values(&filtered, "kind", &ctx), Some(1));
    assert_eq!(estimate_distinct_values(&filtered, "nothing", &ctx), None);
}

#[test]
fn joined_rows() {
    let ctx = ctx();
    let product = QueryOp::Cross(CrossData {
        left: Box::new(scan("orders")),
        right: Box::new(QueryOp::Project(ProjectData {
            column_name_map: vec![("part".to_string(), "p".to_string())],
            underlying: Box::new(scan("parts")),
        })),
    });
    assert_eq!(estimate_query_rows(&product, &ctx), 200_000);
    let key = vec![by("id", ComparisionOperator::EQ, ComparisionValue::Column("p".to_string()))];
    assert_eq!(estimate_query_rows_with_predicates(&product, &key, &ctx), 200);
    let bound = vec![by("id", ComparisionOperator::LT, ComparisionValue::Column("p".to_string()))];
    assert_eq!(estimate_query_rows_with_predicates(&product, &bound, &ctx), 50_000);
    assert_eq!(estimate_distinct_values(&product, "p", &ctx), Some(50));
}

#[test]
fn penalties_and_shares_leave_a_row() {
    assert_eq!(apply_selectivity(10, 0.26f64.to_bits()), 3);
    assert_eq!(apply_selectivity(0, 1f64.to_bits()), 1);
    assert_eq!(apply_selectivity(u64::MAX, 1f64.to_bits()), u64::MAX);
    assert_eq!(apply_selectivity(7, f64::NAN.to_bits()), 1);
    assert_eq!(apply_generic_predicate_penalty(1024, 0), 1024);
    assert_eq!(apply_generic_predicate_penalty(1024, 2), 64);
    assert_eq!(apply_generic_predicate_penalty(1024, 9), 4);
}

#[test]
fn bytes_of_a_row() {
    let schema = Schema::from_table_spec(&orders());
    let expected = std::mem::size_of::<Row>() + 3 * std::mem::size_of::<Data>() + 4 + 64 + 8;
    assert_eq!(estimated_schema_row_bytes(&schema), expected);
}

#[test]
fn many_filters_leave_a_row_and_a_value() {
    let ctx = ctx();
    let mut op = scan("orders");
    let mut values = estimate_distinct_values(&op, "id", &ctx).unwrap();
    assert_eq!(values, 1000);
    for i in 0..6 {
        let p = by("id", ComparisionOperator::EQ, ComparisionValue::I32(i));
        op = QueryOp::Filter(FilterData { predicates: vec![p], underlying: Box::new(op) });
        let rows = estimate_query_rows(&op, &ctx);
        let fewer = estimate_distinct_values(&op, "id", &ctx).unwrap();
        assert!(1 <= fewer && fewer <= values && fewer <= rows);
        values = fewer;
    }
    assert_eq!(values, 1);
}
