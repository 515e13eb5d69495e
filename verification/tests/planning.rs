//! The rewriting of queries.

use database::catalog::db_context::DbContext;
use database::catalog::statistics::ColumnStat;
use database::catalog::table::{ColumnSpec, TableSpec};
use database::data::DataType;
use database::error::DbError;
use database::optimizer::duplicates::{dedup_predicates, dedup_sort_specs, predicate_key};
use database::optimizer::optimize_query;
use database::optimizer::projections::is_identity;
use database::optimizer::reorder::{
    flatten_cross_inputs, rebuild_left_deep_cross, reorder_cross_tree,
};
use database::optimizer::rules::{sort_redundant, trace_to_scan};
use database::query::{
    ComparisionOperator, ComparisionValue, CrossData, FilterData, Predicate, ProjectData, Query,
    QueryOp, ScanData, SortData, SortSpec,
};
use database::query_support::{
    classify_predicate, extract_join_keys, find_table_spec, infer_schema, predicate_columns,
    split_cross_predicates, PredicateSide,
};

fn table(name: &str, columns: &[&str], rows: u64) -> TableSpec {
    TableSpec {
        name: name.to_string(),
        file_id: format!("{name}.bin"),
        column_specs: columns
            .iter()
            .enumerate()
            .map(|(i, c)| ColumnSpec {
                column_name: c.to_string(),
                data_type: DataType::Int32,
                stats: Some(if i == 0 {
                    vec![ColumnStat::CardinalityStat(rows), ColumnStat::IsPhysicallyOrdered]
                } else {
                    vec![]
                }),
            })
            .collect(),
    }
}

fn ctx() -> DbContext {
    DbContext::from(vec![
        table("large", &["l1", "l2", "l3"], 1_000_000),
        table("middle", &["m1", "m2"], 10_000),
        table("small", &["s1", "s2"], 10),
    ])
    .unwrap()
}

fn scan(table: &str) -> QueryOp {
    QueryOp::Scan(ScanData { table_id: table.to_string() })
}

fn filter(predicates: Vec<Predicate>, underlying: QueryOp) -> QueryOp {
    QueryOp::Filter(FilterData { predicates, underlying: Box::new(underlying) })
}

fn project(map: &[(&str, &str)], underlying: QueryOp) -> QueryOp {
    QueryOp::Project(ProjectData {
        column_name_map: map.iter().map(|(a, b)| (a.to_string(), b.to_string())).collect(),
        underlying: Box::new(underlying),
    })
}

fn cross(left: QueryOp, right: QueryOp) -> QueryOp {
    QueryOp::Cross(CrossData { left: Box::new(left), right: Box::new(right) })
}

fn sort(specs: &[(&str, bool)], underlying: QueryOp) -> QueryOp {
    QueryOp::Sort(SortData {
        sort_specs: specs
            .iter()
            .map(|(c, a)| SortSpec { column_name: c.to_string(), ascending: *a })
            .collect(),
        underlying: Box::new(underlying),
    })
}

fn is(column: &str, v: i32) -> Predicate {
    Predicate {
        column_name: column.to_string(),
        operator: ComparisionOperator::EQ,
        value: ComparisionValue::I32(v),
    }
}

fn same(a: &str, b: &str) -> Predicate {
    Predicate {
        column_name: a.to_string(),
        operator: ComparisionOperator::EQ,
        value: ComparisionValue::Column(b.to_string()),
    }
}

fn optimized(op: QueryOp) -> QueryOp {
    optimize_query(&Query { root: op }, &ctx()).unwrap().root
}

#[test]
fn filters_are_merged_without_duplicates() {
    let op = filter(vec![is("s1", 1), is("s2", 2)], filter(vec![is("s1", 1)], scan("small")));
    assert_eq!(optimized(op), filter(vec![is("s1", 1), is("s2", 2)], scan("small")));
}

#[test]
fn filters_move_below_projections() {
    let op = filter(vec![is("x", 1)], project(&[("s2", "x")], scan("small")));
    assert_eq!(
        optimized(op),
        project(
            &[("s2", "x")],
            filter(vec![is("s2", 1)], project(&[("s2", "s2")], scan("small")))
        )
    );
}

#[test]
fn projections_keep_what_filters_below_need() {
    let op = project(&[("l3", "x")], filter(vec![is("l2", 1)], scan("large")));
    assert_eq!(
        optimized(op),
        project(
            &[("l3", "x")],
            filter(vec![is("l2", 1)], project(&[("l3", "l3"), ("l2", "l2")], scan("large")))
        )
    );
}

#[test]
fn filters_move_to_the_sides_of_joins_and_the_smaller_side_goes_right() {
    let op = filter(vec![same("s1", "m1"), is("s2", 4)], cross(scan("small"), scan("middle")));
    assert_eq!(
        optimized(op),
        filter(
            vec![same("s1", "m1")],
            cross(scan("middle"), filter(vec![is("s2", 4)], scan("small")))
        )
    );
}

#[test]
fn joins_take_in_connected_inputs_first() {
    let op = filter(
        vec![same("l1", "m1"), same("m2", "s1")],
        cross(cross(scan("large"), scan("small")), scan("middle")),
    );
    let plan = optimized(op);
    let mut names = tables_of(&plan);
    names.sort();
    assert_eq!(names, vec!["large", "middle", "small"]);
    // Nothing joins large and small, so each of them is joined with middle.
    let inner = innermost_product(&plan).unwrap();
    assert!(tables_of(inner).contains(&"middle".to_string()), "{plan:?}");
}

fn tables_of(op: &QueryOp) -> Vec<String> {
    match op {
        QueryOp::Scan(s) => vec![s.table_id.clone()],
        QueryOp::Filter(f) => tables_of(&f.underlying),
        QueryOp::Project(p) => tables_of(&p.underlying),
        QueryOp::Sort(s) => tables_of(&s.underlying),
        QueryOp::Cross(c) => {
            let mut names = tables_of(&c.left);
            names.extend(tables_of(&c.right));
            names
        }
    }
}

fn innermost_product(op: &QueryOp) -> Option<&QueryOp> {
    match op {
        QueryOp::Scan(_) => None,
        QueryOp::Filter(f) => innermost_product(&f.underlying),
        QueryOp::Project(p) => innermost_product(&p.underlying),
        QueryOp::Sort(s) => innermost_product(&s.underlying),
        QueryOp::Cross(c) => {
            Some(innermost_product(&c.left).or(innermost_product(&c.right)).unwrap_or(op))
        }
    }
}

#[test]
fn projections_are_composed_and_dropped() {
    let op = project(&[("x", "y")], project(&[("s2", "x"), ("s1", "z")], scan("small")));
    assert_eq!(optimized(op), project(&[("s2", "y")], scan("small")));
    let same = project(&[("s1", "s1"), ("s2", "s2")], scan("small"));
    assert_eq!(optimized(same), scan("small"));
    let turned = project(&[("s2", "s2"), ("s1", "s1")], scan("small"));
    assert_eq!(optimized(turned.clone()), turned);
}

#[test]
fn projections_keep_of_each_side_of_a_product_what_they_need() {
    let op = project(&[("m2", "a"), ("s1", "b")], cross(scan("middle"), scan("small")));
    assert_eq!(
        optimized(op),
        project(
            &[("m2", "a"), ("s1", "b")],
            cross(
                project(&[("m2", "m2")], scan("middle")),
                project(&[("s1", "s1")], scan("small"))
            )
        )
    );
}

#[test]
fn sorts_by_a_column_in_order_are_dropped() {
    assert_eq!(optimized(sort(&[("m1", true)], scan("middle"))), scan("middle"));
    let down = sort(&[("m1", false)], scan("middle"));
    assert_eq!(optimized(down.clone()), down);
    let other = sort(&[("m2", true)], scan("middle"));
    assert_eq!(optimized(other.clone()), other);
    assert_eq!(optimized(sort(&[], scan("middle"))), scan("middle"));
    assert_eq!(
        optimized(sort(&[("m2", true), ("m2", false)], scan("middle"))),
        sort(&[("m2", true)], scan("middle"))
    );
}

#[test]
fn filters_and_projections_move_below_sorts() {
    let op = project(&[("m1", "m1")], filter(vec![is("m1", 1)], sort(&[("m2", true)], scan("middle"))));
    assert_eq!(
        optimized(op),
        project(
            &[("m1", "m1")],
            sort(&[("m2", true)], filter(vec![is("m1", 1)], scan("middle")))
        )
    );
}

#[test]
fn names_that_are_not_there_are_errors() {
    let unknown = |op: QueryOp| optimize_query(&Query { root: op }, &ctx()).map(|_| ());
    assert_eq!(unknown(project(&[("x", "y")], scan("nothing"))), Err(DbError::UnknownTable));
    assert_eq!(
        unknown(project(&[("x", "y")], project(&[("s1", "z")], scan("small")))),
        Err(DbError::UnknownColumn)
    );
    assert_eq!(
        unknown(filter(vec![is("x", 1)], project(&[("s1", "z")], scan("small")))),
        Err(DbError::UnknownColumn)
    );
    assert_eq!(unknown(sort(&[("x", true)], scan("nothing"))), Err(DbError::UnknownTable));
}

#[test]
fn duplicates_are_told_by_their_keys() {
    assert_eq!(predicate_key(&is("s1", -4)), b"s1|EQ|I32:-4".to_vec());
    assert_eq!(predicate_key(&same("a", "b")), b"a|EQ|C:b".to_vec());
    let mut text = is("s1", 0);
    text.operator = ComparisionOperator::GTE;
    text.value = ComparisionValue::String("-4".to_string());
    assert_eq!(predicate_key(&text), b"s1|GTE|S:-4".to_vec());
    let kept = dedup_predicates(&vec![is("a", 1), is("b", 1), is("a", 1), is("a", 2)]);
    assert_eq!(kept, vec![is("a", 1), is("b", 1), is("a", 2)]);
    let spec = |c: &str, ascending: bool| SortSpec { column_name: c.to_string(), ascending };
    let specs = dedup_sort_specs(&vec![spec("a", true), spec("b", true), spec("a", false)]);
    assert_eq!(specs, vec![spec("a", true), spec("b", true)]);
}

#[test]
fn columns_are_traced_to_their_tables() {
    let op = filter(vec![is("x", 1)], project(&[("m2", "x")], scan("middle")));
    assert_eq!(trace_to_scan(&op, "x"), Some(("middle".to_string(), "m2".to_string())));
    assert_eq!(trace_to_scan(&op, "m2"), None);
    assert_eq!(trace_to_scan(&cross(scan("small"), scan("middle")), "s1"), None);
    let by = |c: &str| vec![SortSpec { column_name: c.to_string(), ascending: true }];
    assert_eq!(sort_redundant(&by("m1"), &scan("middle"), &ctx()), Ok(true));
    assert_eq!(sort_redundant(&by("m2"), &scan("middle"), &ctx()), Ok(false));
    assert_eq!(sort_redundant(&by("m2"), &scan("nothing"), &ctx()), Err(DbError::UnknownTable));
}

#[test]
fn trees_of_products_are_flattened_and_rebuilt() {
    let op = cross(scan("large"), cross(scan("middle"), scan("small")));
    let mut inputs = Vec::new();
    flatten_cross_inputs(op, &mut inputs);
    assert_eq!(inputs, vec![scan("large"), scan("middle"), scan("small")]);
    assert_eq!(
        rebuild_left_deep_cross(&inputs),
        cross(cross(scan("large"), scan("middle")), scan("small"))
    );
}

#[test]
fn identity_maps() {
    let schema = infer_schema(&scan("small"), &ctx()).unwrap();
    let map = |list: &[(&str, &str)]| -> Vec<(String, String)> {
        list.iter().map(|(a, b)| (a.to_string(), b.to_string())).collect()
    };
    assert!(is_identity(&map(&[("s1", "s1"), ("s2", "s2")]), &schema));
    assert!(!is_identity(&map(&[("s1", "s1"), ("s2", "x")]), &schema));
    assert!(!is_identity(&map(&[("s1", "s1")]), &schema));
}

#[test]
fn predicates_belong_to_sides() {
    let ctx = ctx();
    let left = infer_schema(&scan("small"), &ctx).unwrap();
    let right = infer_schema(&scan("middle"), &ctx).unwrap();
    assert_eq!(classify_predicate(&is("s1", 1), &left, &right), PredicateSide::Left);
    assert_eq!(classify_predicate(&is("m1", 1), &left, &right), PredicateSide::Right);
    assert_eq!(classify_predicate(&same("m1", "s2"), &left, &right), PredicateSide::Cross);
    assert_eq!(classify_predicate(&is("x", 1), &left, &right), PredicateSide::Cross);
    assert_eq!(predicate_columns(&same("m1", "s2")), vec!["m1", "s2"]);
    let all = vec![is("s1", 1), same("m1", "s2"), is("m2", 3)];
    let (l, r, c) = split_cross_predicates(&all, &left, &right);
    assert_eq!((l, r, c), (vec![is("s1", 1)], vec![is("m2", 3)], vec![same("m1", "s2")]));
    assert_eq!(extract_join_keys(&all, &left, &right), Some((vec![1], vec![0])));
    assert_eq!(extract_join_keys(&vec![is("s1", 1)], &left, &right), None);
}

#[test]
fn schemas_of_operators() {
    let ctx = ctx();
    let op = project(&[("s2", "b"), ("m1", "a")], cross(scan("small"), scan("middle")));
    let schema = infer_schema(&op, &ctx).unwrap();
    let names: Vec<&str> = schema.columns().iter().map(|c| c.name.as_str()).collect();
    assert_eq!(names, vec!["b", "a"]);
    assert_eq!(schema.index_of("a"), Some(1));
    assert_eq!(infer_schema(&scan("x"), &ctx).map(|_| ()), Err(DbError::UnknownTable));
    assert_eq!(
        infer_schema(&project(&[("x", "y")], scan("small")), &ctx).map(|_| ()),
        Err(DbError::UnknownColumn)
    );
    assert_eq!(find_table_spec(&ctx, "small.bin").unwrap().name, "small");
}

#[test]
fn a_filter_above_a_projection_in_order_may_exchange_the_sides() {
    let names = [("l1", "l1"), ("l2", "l2"), ("l3", "l3"), ("m1", "m1"), ("m2", "m2")];
    let op = project(&names, cross(scan("middle"), scan("large")));
    assert_eq!(optimized(op.clone()), cross(scan("large"), scan("middle")));
    assert_eq!(
        optimized(filter(vec![is("l1", 5)], op)),
        cross(scan("middle"), filter(vec![is("l1", 5)], scan("large")))
    );
}

#[test]
fn a_filter_above_a_projection_with_other_names_keeps_the_columns() {
    let names = [("l1", "key"), ("l2", "l2"), ("l3", "l3"), ("m1", "m1"), ("m2", "m2")];
    let op = filter(vec![is("key", 5)], project(&names, cross(scan("middle"), scan("large"))));
    let schema = infer_schema(&optimized(op), &ctx()).unwrap();
    let kept: Vec<&str> = schema.columns().iter().map(|c| c.name.as_str()).collect();
    assert_eq!(kept, vec!["key", "l2", "l3", "m1", "m2"]);
}

#[test]
fn predicates_on_any_nan_are_the_same() {
    let by = |value: ComparisionValue| {
        let mut p = is("a", 0);
        p.value = value;
        p
    };
    let single = |bits: u32| {
        by(ComparisionValue::F32(bits, format!("{:?}", f32::from_bits(bits))))
    };
    let double = |bits: u64| {
        by(ComparisionValue::F64(bits, format!("{:?}", f64::from_bits(bits))))
    };
    assert_eq!(predicate_key(&single(0x7f80_0001)), b"a|EQ|F32:NaN".to_vec());
    assert_eq!(predicate_key(&single(0.5f32.to_bits())), b"a|EQ|F32:0.5".to_vec());
    assert_eq!(predicate_key(&double(1e300f64.to_bits())), b"a|EQ|F64:1e300".to_vec());
    let kept = dedup_predicates(&vec![
        single(0x7fc0_0000),
        single(0xffc0_0001),
        single(f32::INFINITY.to_bits()),
        single(f32::NEG_INFINITY.to_bits()),
        double(0x7ff0_0000_0000_0001),
        double(f64::NAN.to_bits()),
        double(f64::INFINITY.to_bits()),
        single(0),
        single(0x8000_0000),
    ]);
    assert_eq!(
        kept,
        vec![
            single(0x7fc0_0000),
            single(f32::INFINITY.to_bits()),
            single(f32::NEG_INFINITY.to_bits()),
            double(0x7ff0_0000_0000_0001),
            double(f64::INFINITY.to_bits()),
            single(0),
            single(0x8000_0000),
        ]
    );
}

#[test]
fn a_name_with_an_operator_between_bars_can_hide_a_predicate() {
    let kept = dedup_predicates(&vec![same("a", "x|EQ|I32:5"), is("a|EQ|C:x", 5)]);
    assert_eq!(kept, vec![same("a", "x|EQ|I32:5")]);
    let both = vec![is("a|b", 5), is("a", 5)];
    assert_eq!(dedup_predicates(&both), both);
}

#[test]
fn a_name_with_the_text_of_a_float_can_hide_a_predicate() {
    let mut half = is("a|EQ|C:x", 0);
    half.value = ComparisionValue::F32(0.5f32.to_bits(), "0.5".to_string());
    assert_eq!(predicate_key(&half), predicate_key(&same("a", "x|EQ|F32:0.5")));
    let kept = dedup_predicates(&vec![same("a", "x|EQ|F32:0.5"), half]);
    assert_eq!(kept, vec![same("a", "x|EQ|F32:0.5")]);
}

#[test]
fn joins_of_many_inputs_keep_their_order() {
    let chain = |tables: &[&str]| {
        let inputs: Vec<QueryOp> = tables.iter().map(|t| scan(t)).collect();
        rebuild_left_deep_cross(&inputs)
    };
    let many = usize::BITS as usize;
    let known = vec!["small"; many];
    assert_eq!(reorder_cross_tree(chain(&known), &vec![], &ctx()), Ok(chain(&known)));
    let mut faulty = known.clone();
    faulty[many - 1] = "nothing";
    assert_eq!(
        reorder_cross_tree(chain(&faulty), &vec![], &ctx()),
        Err(DbError::UnknownTable)
    );
}

#[test]
fn putting_inputs_in_order_keeps_them() {
    let tree =
        || cross(scan("large"), cross(cross(scan("middle"), scan("small")), scan("small")));
    let ps = vec![same("l1", "m1"), same("m2", "s1")];
    let plan = |op: QueryOp| reorder_cross_tree(op, &ps, &ctx()).unwrap();
    let mut inputs = Vec::new();
    flatten_cross_inputs(plan(tree()), &mut inputs);
    assert_eq!(rebuild_left_deep_cross(&inputs), plan(tree()));
    let mut names: Vec<String> = inputs
        .iter()
        .map(|op| match op {
            QueryOp::Scan(data) => data.table_id.clone(),
            _ => String::new(),
        })
        .collect();
    names.sort();
    assert_eq!(names, vec!["large", "middle", "small", "small"]);
}
