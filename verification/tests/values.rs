//! Comparison, hashing and sorting of values and rows.

use database::catalog::table::{ColumnSpec, TableSpec};
use database::data::{Data, DataType};
use database::error::DbError;
use database::executor::compact::CompactSortState;
use database::executor::hash::join_key_digest_for_row;
use database::executor::merge::emit_compact_rows;
use database::executor::sink::RowSink;
use database::executor::value::{
    compare_data, compare_data_order, compare_rows, compare_text, compare_values,
};
use database::executor::CompiledSortSpec;
use database::io::{MemoryInput, MemoryOutput};
use database::number::Order;
use database::query::ComparisionOperator;
use database::row::{Row, Schema};
use database::storage::block_allocator::ScratchSpace;
use database::storage::disk_client::DiskClient;
use database::storage::scratch_run::RowCollector;

fn float(v: f64) -> Data {
    Data::Float64(v.to_bits())
}

fn schema(columns: &[(&str, DataType)]) -> Schema {
    Schema::from_table_spec(&TableSpec {
        name: "t".to_string(),
        file_id: "t".to_string(),
        column_specs: columns
            .iter()
            .map(|(name, data_type)| ColumnSpec {
                column_name: (*name).to_string(),
                data_type: *data_type,
                stats: None,
            })
            .collect(),
    })
}

fn sorted_rows(rows: Vec<Row>, schema: &Schema, specs: &Vec<CompiledSortSpec>) -> Vec<Row> {
    let mut compact = CompactSortState::with_capacity(1024 * 1024);
    for row in &rows {
        assert!(compact.try_push_row(row).unwrap());
    }
    let mut disk = DiskClient::new(MemoryInput::new(Vec::new()), MemoryOutput::new());
    let mut scratch = ScratchSpace::new(4096, 0);
    let sink = RowSink::to_output(RowCollector::new(), schema);
    let done = emit_compact_rows(compact, schema, specs, sink, &mut disk, &mut scratch).unwrap();
    let out = done.into_output().unwrap();
    out.rows().iter().map(|r| Row::new(r.values().clone())).collect()
}

#[test]
fn join_key_digests_treat_integral_floats_like_matching_ints() {
    let int_row = Row::new(vec![Data::Int64(42)]);
    let float_row = Row::new(vec![float(42.0)]);
    assert_eq!(
        join_key_digest_for_row(&int_row, &vec![0]).unwrap(),
        join_key_digest_for_row(&float_row, &vec![0]).unwrap()
    );

    let zero_row = Row::new(vec![Data::Int32(0)]);
    let neg_zero_row = Row::new(vec![float(-0.0)]);
    assert_eq!(
        join_key_digest_for_row(&zero_row, &vec![0]).unwrap(),
        join_key_digest_for_row(&neg_zero_row, &vec![0]).unwrap()
    );
}

#[test]
fn join_key_digests_keep_large_ints_distinct_from_rounded_floats() {
    let int_row = Row::new(vec![Data::Int64(9_007_199_254_740_993)]);
    let float_row = Row::new(vec![float(9_007_199_254_740_992.0)]);
    assert_ne!(
        join_key_digest_for_row(&int_row, &vec![0]).unwrap(),
        join_key_digest_for_row(&float_row, &vec![0]).unwrap(),
    );
}

#[test]
fn join_key_digests_of_missing_columns_are_errors() {
    let row = Row::new(vec![Data::Int64(1)]);
    assert_eq!(join_key_digest_for_row(&row, &vec![1]), Err(DbError::BadIndex));
}

#[test]
fn emit_compact_rows_orders_simple_rows() {
    let schema = schema(&[("n_name", DataType::String), ("n_nationkey", DataType::Int32)]);
    let specs = vec![
        CompiledSortSpec { index: 0, ascending: true },
        CompiledSortSpec { index: 1, ascending: true },
    ];
    let rows = sorted_rows(
        vec![
            Row::new(vec![Data::String("BRAZIL".to_string()), Data::Int32(2)]),
            Row::new(vec![Data::String("ALGERIA".to_string()), Data::Int32(0)]),
            Row::new(vec![Data::String("ARGENTINA".to_string()), Data::Int32(1)]),
        ],
        &schema,
        &specs,
    );
    assert_eq!(rows.len(), 3);
    assert_eq!(rows[0].get(0), Some(&Data::String("ALGERIA".to_string())));
    assert_eq!(rows[1].get(0), Some(&Data::String("ARGENTINA".to_string())));
    assert_eq!(rows[2].get(0), Some(&Data::String("BRAZIL".to_string())));
}

#[test]
fn emit_compact_rows_respects_sort_spec_order_not_schema_order() {
    let schema =
        schema(&[("a", DataType::Int32), ("b", DataType::Int32), ("c", DataType::Int32)]);
    let specs = vec![
        CompiledSortSpec { index: 2, ascending: true },
        CompiledSortSpec { index: 0, ascending: true },
    ];
    let rows = sorted_rows(
        vec![
            Row::new(vec![Data::Int32(2), Data::Int32(0), Data::Int32(1)]),
            Row::new(vec![Data::Int32(1), Data::Int32(0), Data::Int32(2)]),
        ],
        &schema,
        &specs,
    );
    assert_eq!(rows.len(), 2);
    assert_eq!(rows[0].get(2), Some(&Data::Int32(1)));
    assert_eq!(rows[1].get(2), Some(&Data::Int32(2)));
}

#[test]
fn stored_rows_are_taken_only_within_the_budget() {
    let row = Row::new(vec![Data::String("x".repeat(100))]);
    let mut none = CompactSortState::with_capacity(50);
    assert_eq!(none.try_push_row(&row), Ok(false));
    assert!(none.is_empty());
    let mut some = CompactSortState::with_capacity(1 << 20);
    assert_eq!(some.try_push_row(&row), Ok(true));
    assert!(!some.is_empty());
}

#[test]
fn compares_large_int_and_float_without_f64_rounding_loss() {
    assert!(compare_data(
        &Data::Int64(9_007_199_254_740_993),
        ComparisionOperator::GT,
        &float(9_007_199_254_740_992.0),
    )
    .unwrap());
}

#[test]
fn compares_integral_float_and_int_as_equal() {
    assert!(compare_data(&Data::Int64(42), ComparisionOperator::EQ, &float(42.0)).unwrap());
}

#[test]
fn compare_rows_uses_same_numeric_policy_as_predicates() {
    let left = Row::new(vec![Data::Int64(42)]);
    let right = Row::new(vec![float(42.5)]);
    let specs = vec![CompiledSortSpec { index: 0, ascending: true }];
    assert_eq!(compare_rows(&left, &right, &specs), Order::Less);
}

#[test]
fn values_without_an_order_are_incomparable() {
    let text = Data::String("1".to_string());
    assert_eq!(compare_values(&text, &Data::Int32(1)), Err(DbError::Incomparable));
    assert_eq!(compare_data_order(&float(f64::NAN), &Data::Int32(1)), None);
    assert_eq!(
        compare_data(&float(f64::NAN), ComparisionOperator::EQ, &float(f64::NAN)),
        Err(DbError::Incomparable)
    );
}

#[test]
fn texts_are_compared_by_their_bytes() {
    assert_eq!(compare_text("abc", "abd"), Order::Less);
    assert_eq!(compare_text("abc", "ab"), Order::Greater);
    assert_eq!(compare_text("", ""), Order::Equal);
    assert_eq!(compare_text("\u{e9}", "z"), Order::Greater);
}

#[test]
fn numbers_of_all_types_compare_by_value() {
    let half = Data::Float32(0.5f32.to_bits());
    assert_eq!(compare_values(&half, &float(0.5)), Ok(Order::Equal));
    assert_eq!(compare_values(&Data::Int32(-3), &Data::Int64(-3)), Ok(Order::Equal));
    assert_eq!(compare_values(&Data::Int64(i64::MAX), &float(9.3e18)), Ok(Order::Less));
    assert_eq!(compare_values(&float(f64::NEG_INFINITY), &Data::Int64(i64::MIN)), Ok(Order::Less));
    assert_eq!(compare_values(&float(-0.0), &Data::Int32(0)), Ok(Order::Equal));
}
