//! Estimates of how many rows an operator has, and of how many distinct values
//! its columns hold.

use vstd::prelude::*;

use crate::catalog::db_context;
use crate::catalog::db_context::DbContext;
use crate::catalog::table::{ColumnView, TableSpec};
use crate::data::{Data, DataType};
use crate::executor;
use crate::executor::rewrite;
use crate::executor::rewrite::{remap_project_column, remap_project_predicate};
use crate::query;
use crate::query::{CrossData, OpView, Predicate, PredicateView, ProjectData, QueryOp};
use crate::query_support;
use crate::query_support::{extract_join_keys, find_table_spec, infer_schema, split_cross_predicates, PredicateSide};
use crate::row;
use crate::row::{Row, Schema};
use crate::selectivity;
use crate::selectivity::{apply_generic_predicate_penalty, column_distinct_values, estimated_filtered_rows, estimated_table_rows, find_column, UNKNOWN_ROWS};

verus! {

/// `n`, as far as 64 bits hold it.
pub open spec fn capped(n: int) -> int {
    if n > u64::MAX {
        u64::MAX as int
    } else {
        n
    }
}

/// The predicates on the result of a projection that can be moved below it.
pub open spec fn moved_predicates(
    ps: Seq<PredicateView>,
    map: Seq<(Seq<char>, Seq<char>)>,
) -> Seq<PredicateView>
    decreases ps.len(),
{
    if ps.len() == 0 {
        Seq::empty()
    } else {
        let front = moved_predicates(ps.drop_last(), map);
        match rewrite::remapped_predicate(ps.last(), map) {
            Some(p) => front.push(p),
            None => front,
        }
    }
}

/// The number of rows of a table, by its statistics.
pub open spec fn scan_rows(id: Seq<char>, tables: Seq<TableSpec>) -> int {
    match db_context::table_index(tables, id) {
        Some(i) => selectivity::table_rows(tables[i]),
        None => UNKNOWN_ROWS as int,
    }
}

/// The estimate of the rows of an operator.
pub open spec fn rows_estimate(op: OpView, tables: Seq<TableSpec>) -> int
    decreases op.size(), 2nat,
{
    match op {
        OpView::Scan(id) => scan_rows(id, tables),
        OpView::Filter(ps, u) => filtered_estimate(*u, ps, tables),
        OpView::Project(_, u) => rows_estimate(*u, tables),
        OpView::Sort(_, u) => rows_estimate(*u, tables),
        OpView::Cross(l, r) => cross_estimate(*l, *r, Seq::empty(), tables),
    }
}

/// The estimate of the rows of an operator that meet every predicate.
pub open spec fn filtered_estimate(
    op: OpView,
    ps: Seq<PredicateView>,
    tables: Seq<TableSpec>,
) -> int
    decreases op.size(), 2nat,
{
    match op {
        OpView::Scan(id) => match db_context::table_index(tables, id) {
            Some(i) => selectivity::share_of(
                selectivity::table_rows(tables[i]),
                selectivity::predicates_share(tables[i], ps),
            ),
            None => selectivity::penalized(UNKNOWN_ROWS as int, ps.len()),
        },
        OpView::Filter(inner, u) => filtered_estimate(*u, inner + ps, tables),
        OpView::Project(map, u) => filtered_estimate(*u, moved_predicates(ps, map), tables),
        OpView::Sort(_, u) => filtered_estimate(*u, ps, tables),
        OpView::Cross(l, r) => cross_estimate(*l, *r, ps, tables),
    }
}

/// The estimate of the pairs of rows of two operators that meet every
/// predicate.
pub open spec fn cross_estimate(
    l: OpView,
    r: OpView,
    ps: Seq<PredicateView>,
    tables: Seq<TableSpec>,
) -> int
    decreases l.size() + r.size() + 1, 1nat,
{
    match (query_support::schema_of(l, tables), query_support::schema_of(r, tables)) {
        (Ok(a), Ok(b)) => {
            let left = filtered_estimate(
                l,
                query_support::side_predicates(ps, a, b, PredicateSide::Left),
                tables,
            );
            let right = filtered_estimate(
                r,
                query_support::side_predicates(ps, a, b, PredicateSide::Right),
                tables,
            );
            let both = query_support::side_predicates(ps, a, b, PredicateSide::Cross);
            let keys = query_support::key_pairs(both, a, b);
            if keys.len() == 0 {
                selectivity::penalized(capped(left * right), both.len())
            } else {
                let rows = executor::larger(
                    joined_estimate(l, r, a, b, left, right, keys, tables),
                    1,
                );
                if both.len() > keys.len() {
                    selectivity::penalized(rows, (both.len() - keys.len()) as nat)
                } else {
                    rows
                }
            }
        },
        _ => executor::larger(capped(rows_estimate(l, tables) * rows_estimate(r, tables)), 1),
    }
}

/// The estimate of the pairs of `left` and `right` rows that agree on key
/// columns: each key leaves one pair in as many as it has distinct values.
pub open spec fn joined_estimate(
    l: OpView,
    r: OpView,
    a: Seq<ColumnView>,
    b: Seq<ColumnView>,
    left: int,
    right: int,
    keys: Seq<(int, int)>,
    tables: Seq<TableSpec>,
) -> int
    decreases l.size() + r.size(), 3 + keys.len(),
{
    if keys.len() == 0 {
        capped(left * right)
    } else {
        let rows = joined_estimate(l, r, a, b, left, right, keys.drop_last(), tables);
        let of_left = match distinct_estimate(l, a[keys.last().0].name, tables) {
            Some(n) => n,
            None => left,
        };
        let of_right = match distinct_estimate(r, b[keys.last().1].name, tables) {
            Some(n) => n,
            None => right,
        };
        rows / executor::larger(
            executor::larger(executor::smaller(of_left, executor::larger(left, 1)), executor::smaller(of_right, executor::larger(right, 1))),
            1,
        )
    }
}

/// The estimate of the distinct values of a column, if the operator has it.
pub open spec fn distinct_estimate(op: OpView, name: Seq<char>, tables: Seq<TableSpec>) -> Option<
    int,
>
    decreases op.size(), 0nat,
{
    match op {
        OpView::Scan(id) => match db_context::table_index(tables, id) {
            None => None,
            Some(t) => match row::column_index(tables[t].columns(), name) {
                None => None,
                Some(i) => {
                    let rows = executor::larger(selectivity::table_rows(tables[t]), 1);
                    match selectivity::distinct_in(tables[t].column_specs@[i]) {
                        Some(n) => Some(executor::larger(executor::smaller(n as int, rows), 1)),
                        None => Some(rows),
                    }
                },
            },
        },
        OpView::Filter(ps, u) => match distinct_estimate(*u, name, tables) {
            None => None,
            Some(n) => {
                let all = executor::larger(rows_estimate(*u, tables), 1);
                let some = executor::larger(filtered_estimate(*u, ps, tables), 1);
                let scaled = ((n * some + all - 1) / all) % 0x1_0000_0000_0000_0000;
                Some(executor::larger(executor::smaller(executor::smaller(scaled, n), some), 1))
            },
        },
        OpView::Project(map, u) => match rewrite::source_of(map, name) {
            None => None,
            Some(from) => distinct_estimate(*u, from, tables),
        },
        OpView::Sort(_, u) => distinct_estimate(*u, name, tables),
        OpView::Cross(l, r) => match query_support::schema_of(*l, tables) {
            Err(_) => None,
            Ok(a) => if query_support::has_column(a, name) {
                distinct_estimate(*l, name, tables)
            } else {
                distinct_estimate(*r, name, tables)
            },
        },
    }
}

/// The bytes that a value of a type is held to take.
pub open spec fn type_bytes(t: DataType) -> nat {
    match t {
        DataType::Int32 => 4,
        DataType::Int64 => 8,
        DataType::Float32 => 4,
        DataType::Float64 => 8,
        DataType::String => 64,
    }
}

/// The bytes that the values of columns are held to take.
pub open spec fn types_bytes(types: Seq<DataType>) -> nat
    decreases types.len(),
{
    if types.len() == 0 {
        0
    } else {
        types_bytes(types.drop_last()) + type_bytes(types.last())
    }
}

/// The bytes that a row in memory is held to take.
pub open spec fn row_bytes(types: Seq<DataType>) -> nat {
    let n = row::saturated(
        (vstd::layout::size_of::<Row>() + types.len() * vstd::layout::size_of::<Data>()
            + types_bytes(types)) as nat,
    );
    if n == 0 {
        1
    } else {
        n
    }
}

/// The estimate of the rows of an operator.
pub fn estimate_query_rows(op: &QueryOp, ctx: &DbContext) -> (r: u64)
    ensures
        r == rows_estimate(op@, ctx.tables()),
    decreases op@.size(), 2nat,
{
    match op {
        QueryOp::Scan(scan) => estimate_scan_rows(scan.table_id.as_str(), ctx),
        QueryOp::Filter(filter) => estimate_query_rows_with_predicates(
            &filter.underlying,
            &filter.predicates,
            ctx,
        ),
        QueryOp::Project(project) => estimate_query_rows(&project.underlying, ctx),
        QueryOp::Sort(sort) => estimate_query_rows(&sort.underlying, ctx),
        QueryOp::Cross(cross) => {
            let none: Vec<Predicate> = Vec::new();
            assert(query::predicate_views(none@) =~= Seq::<PredicateView>::empty());
            estimate_cross_rows(cross, &none, ctx)
        },
    }
}

/// The number of rows of a table, by its statistics.
fn estimate_scan_rows(table_id: &str, ctx: &DbContext) -> (r: u64)
    ensures
        r == scan_rows(table_id@, ctx.tables()),
{
    match find_table_spec(ctx, table_id) {
        Ok(table) => estimated_table_rows(table),
        Err(_) => UNKNOWN_ROWS,
    }
}

/// The estimate of the rows of an operator that meet every predicate.
pub fn estimate_query_rows_with_predicates(
    op: &QueryOp,
    predicates: &Vec<Predicate>,
    ctx: &DbContext,
) -> (r: u64)
    ensures
        r == filtered_estimate(op@, query::predicate_views(predicates@), ctx.tables()),
    decreases op@.size(), 2nat,
{
    match op {
        QueryOp::Scan(scan) => match find_table_spec(ctx, scan.table_id.as_str()) {
            Ok(table) => estimated_filtered_rows(table, predicates),
            Err(_) => apply_generic_predicate_penalty(UNKNOWN_ROWS, predicates.len()),
        },
        QueryOp::Filter(filter) => {
            let merged = query::joined_predicates(&filter.predicates, predicates);
            estimate_query_rows_with_predicates(&filter.underlying, &merged, ctx)
        },
        QueryOp::Project(project) => {
            let moved = remap_project_predicates(predicates, project);
            estimate_query_rows_with_predicates(&project.underlying, &moved, ctx)
        },
        QueryOp::Sort(sort) => estimate_query_rows_with_predicates(
            &sort.underlying,
            predicates,
            ctx,
        ),
        QueryOp::Cross(cross) => estimate_cross_rows(cross, predicates, ctx),
    }
}

/// The predicates on the result of a projection that can be moved below it.
fn remap_project_predicates(predicates: &Vec<Predicate>, project: &ProjectData) -> (r: Vec<
    Predicate,
>)
    ensures
        query::predicate_views(r@) == moved_predicates(
            query::predicate_views(predicates@),
            query::map_views(project.column_name_map@),
        ),
{
    let ghost all = query::predicate_views(predicates@);
    let ghost map = query::map_views(project.column_name_map@);
    let mut out: Vec<Predicate> = Vec::new();
    let mut i: usize = 0;
    assert(all.take(0) =~= Seq::<PredicateView>::empty());
    assert(query::predicate_views(out@) =~= Seq::<PredicateView>::empty());
    while i < predicates.len()
        invariant
            i <= predicates@.len(),
            all == query::predicate_views(predicates@),
            map == query::map_views(project.column_name_map@),
            query::predicate_views(out@) == moved_predicates(all.take(i as int), map),
        decreases predicates@.len() - i,
    {
        assert(all.take(i + 1).drop_last() =~= all.take(i as int));
        let ghost before = out@;
        if let Some(p) = remap_project_predicate(&predicates[i], &project.column_name_map) {
            out.push(p);
            assert(query::predicate_views(out@) =~= query::predicate_views(before).push(p@));
        }
        i = i + 1;
    }
    assert(all.take(i as int) =~= all);
    out
}

/// The product of two counts, as far as 64 bits hold it.
fn capped_product(a: u64, b: u64) -> (r: u64)
    ensures
        r == capped(a * b),
{
    match a.checked_mul(b) {
        Some(n) => n,
        None => u64::MAX,
    }
}

/// The estimate of the pairs of rows that meet every predicate.
fn estimate_cross_rows(cross: &CrossData, predicates: &Vec<Predicate>, ctx: &DbContext) -> (r: u64)
    ensures
        r == cross_estimate(
            cross.left@,
            cross.right@,
            query::predicate_views(predicates@),
            ctx.tables(),
        ),
    decreases cross.left@.size() + cross.right@.size() + 1, 1nat,
{
    let left_schema = match infer_schema(&cross.left, ctx) {
        Ok(schema) => schema,
        Err(_) => {
            let rows: u64 = capped_product(
                estimate_query_rows(&cross.left, ctx),
                estimate_query_rows(&cross.right, ctx),
            );
            return if rows < 1 {
                1
            } else {
                rows
            };
        },
    };
    let right_schema = match infer_schema(&cross.right, ctx) {
        Ok(schema) => schema,
        Err(_) => {
            let rows: u64 = capped_product(
                estimate_query_rows(&cross.left, ctx),
                estimate_query_rows(&cross.right, ctx),
            );
            return if rows < 1 {
                1
            } else {
                rows
            };
        },
    };
    let (left_preds, right_preds, cross_preds) = split_cross_predicates(
        predicates,
        &left_schema,
        &right_schema,
    );
    let left_rows: u64 = estimate_query_rows_with_predicates(&cross.left, &left_preds, ctx);
    let right_rows: u64 = estimate_query_rows_with_predicates(&cross.right, &right_preds, ctx);
    match extract_join_keys(&cross_preds, &left_schema, &right_schema) {
        Some((left_keys, right_keys)) => {
            let ghost keys = query_support::key_pairs(
                query::predicate_views(cross_preds@),
                left_schema@,
                right_schema@,
            );
            let rows: u64 = estimate_join_rows(
                &cross.left,
                &cross.right,
                &left_schema,
                &right_schema,
                left_rows,
                right_rows,
                &left_keys,
                &right_keys,
                ctx,
                Ghost(keys),
            );
            if cross_preds.len() > left_keys.len() {
                apply_generic_predicate_penalty(rows, cross_preds.len() - left_keys.len())
            } else {
                rows
            }
        },
        None => apply_generic_predicate_penalty(
            capped_product(left_rows, right_rows),
            cross_preds.len(),
        ),
    }
}

/// The estimate of the pairs of rows that agree on key columns, at least one.
fn estimate_join_rows(
    left_op: &QueryOp,
    right_op: &QueryOp,
    left_schema: &Schema,
    right_schema: &Schema,
    left_rows: u64,
    right_rows: u64,
    left_keys: &Vec<usize>,
    right_keys: &Vec<usize>,
    ctx: &DbContext,
    keys: Ghost<Seq<(int, int)>>,
) -> (r: u64)
    requires
        left_keys@.len() == keys@.len(),
        right_keys@.len() == keys@.len(),
        forall|i: int|
            0 <= i < keys@.len() ==> {
                &&& #[trigger] left_keys@[i] == keys@[i].0
                &&& left_keys@[i] < left_schema@.len()
            },
        forall|i: int|
            0 <= i < keys@.len() ==> {
                &&& #[trigger] right_keys@[i] == keys@[i].1
                &&& right_keys@[i] < right_schema@.len()
            },
    ensures
        r == executor::larger(
            joined_estimate(
                left_op@,
                right_op@,
                left_schema@,
                right_schema@,
                left_rows as int,
                right_rows as int,
                keys@,
                ctx.tables(),
            ),
            1,
        ),
    decreases left_op@.size() + right_op@.size(), 3nat,
{
    let mut rows: u64 = capped_product(left_rows, right_rows);
    let mut i: usize = 0;
    let left_limit: u64 = if left_rows < 1 {
        1
    } else {
        left_rows
    };
    let right_limit: u64 = if right_rows < 1 {
        1
    } else {
        right_rows
    };
    assert(keys@.take(0) =~= Seq::<(int, int)>::empty());
    while i < left_keys.len()
        invariant
            i <= keys@.len(),
            left_keys@.len() == keys@.len(),
            right_keys@.len() == keys@.len(),
            forall|i: int|
                0 <= i < keys@.len() ==> {
                    &&& #[trigger] left_keys@[i] == keys@[i].0
                    &&& left_keys@[i] < left_schema@.len()
                },
            forall|i: int|
                0 <= i < keys@.len() ==> {
                    &&& #[trigger] right_keys@[i] == keys@[i].1
                    &&& right_keys@[i] < right_schema@.len()
                },
            left_limit == executor::larger(left_rows as int, 1),
            right_limit == executor::larger(right_rows as int, 1),
            rows == joined_estimate(
                left_op@,
                right_op@,
                left_schema@,
                right_schema@,
                left_rows as int,
                right_rows as int,
                keys@.take(i as int),
                ctx.tables(),
            ),
        decreases keys@.len() - i,
    {
        proof {
            assert(keys@.take(i + 1).drop_last() =~= keys@.take(i as int));
            assert(left_keys@[i as int] == keys@[i as int].0);
            assert(right_keys@[i as int] == keys@[i as int].1);
        }
        let left_name = &left_schema.columns()[left_keys[i]].name;
        let right_name = &right_schema.columns()[right_keys[i]].name;
        let of_left: u64 = match estimate_distinct_values(left_op, left_name.as_str(), ctx) {
            Some(n) => n,
            None => left_rows,
        };
        let of_left: u64 = if left_limit < of_left {
            left_limit
        } else {
            of_left
        };
        let of_right: u64 = match estimate_distinct_values(right_op, right_name.as_str(), ctx) {
            Some(n) => n,
            None => right_rows,
        };
        let of_right: u64 = if right_limit < of_right {
            right_limit
        } else {
            of_right
        };
        let most: u64 = if of_right > of_left {
            of_right
        } else {
            of_left
        };
        let divisor: u64 = if most < 1 {
            1
        } else {
            most
        };
        rows = rows / divisor;
        i = i + 1;
    }
    assert(keys@.take(i as int) =~= keys@);
    if rows < 1 {
        1
    } else {
        rows
    }
}

/// The estimate of the distinct values of a column; none where the operator
/// does not have it.
pub fn estimate_distinct_values(op: &QueryOp, column_name: &str, ctx: &DbContext) -> (r: Option<
    u64,
>)
    ensures
        match r {
            Some(n) => distinct_estimate(op@, column_name@, ctx.tables()) == Some(n as int),
            None => distinct_estimate(op@, column_name@, ctx.tables()) is None,
        },
    decreases op@.size(), 0nat,
{
    match op {
        QueryOp::Scan(scan) => {
            let table = match find_table_spec(ctx, scan.table_id.as_str()) {
                Ok(table) => table,
                Err(_) => {
                    return None;
                },
            };
            let counted: u64 = estimated_table_rows(table);
            let rows: u64 = if counted < 1 {
                1
            } else {
                counted
            };
            let index: usize = match find_column(table, column_name) {
                Some(i) => i,
                None => {
                    return None;
                },
            };
            match column_distinct_values(&table.column_specs[index]) {
                Some(n) => {
                    let n: u64 = if rows < n {
                        rows
                    } else {
                        n
                    };
                    Some(
                        if n < 1 {
                            1
                        } else {
                            n
                        },
                    )
                },
                None => Some(rows),
            }
        },
        QueryOp::Filter(filter) => {
            let distinct: u64 = match estimate_distinct_values(
                &filter.underlying,
                column_name,
                ctx,
            ) {
                Some(n) => n,
                None => {
                    return None;
                },
            };
            let counted: u64 = estimate_query_rows(&filter.underlying, ctx);
            let all: u64 = if counted < 1 {
                1
            } else {
                counted
            };
            let kept: u64 = estimate_query_rows_with_predicates(
                &filter.underlying,
                &filter.predicates,
                ctx,
            );
            let some: u64 = if kept < 1 {
                1
            } else {
                kept
            };
            proof {
                assert(distinct * some <= 0xFFFF_FFFF_FFFF_FFFF * 0xFFFF_FFFF_FFFF_FFFF)
                    by (nonlinear_arith)
                    requires
                        0 <= distinct <= 0xFFFF_FFFF_FFFF_FFFF,
                        0 <= some <= 0xFFFF_FFFF_FFFF_FFFF,
                ;
            }
            let scaled: u64 = (((distinct as u128 * some as u128 + (all as u128 - 1)) / all as u128)
                % 0x1_0000_0000_0000_0000) as u64;
            let least: u64 = if distinct < scaled {
                distinct
            } else {
                scaled
            };
            let least: u64 = if some < least {
                some
            } else {
                least
            };
            Some(
                if least < 1 {
                    1
                } else {
                    least
                },
            )
        },
        QueryOp::Project(project) => match remap_project_column(
            column_name,
            &project.column_name_map,
        ) {
            Some(source) => estimate_distinct_values(&project.underlying, source.as_str(), ctx),
            None => None,
        },
        QueryOp::Sort(sort) => estimate_distinct_values(&sort.underlying, column_name, ctx),
        QueryOp::Cross(cross) => match infer_schema(&cross.left, ctx) {
            Err(_) => None,
            Ok(left_schema) => if left_schema.index_of(column_name).is_some() {
                estimate_distinct_values(&cross.left, column_name, ctx)
            } else {
                estimate_distinct_values(&cross.right, column_name, ctx)
            },
        },
    }
}

/// The bytes that a row in memory is held to take.
pub fn estimated_schema_row_bytes(schema: &Schema) -> (r: usize)
    ensures
        r == row_bytes(schema.types()),
{
    let ghost types = schema.types();
    let ghost base: nat = (vstd::layout::size_of::<Row>() + types.len()
        * vstd::layout::size_of::<Data>()) as nat;
    let mut size: usize = core::mem::size_of::<Row>().saturating_add(
        row::saturating_product(schema.len(), core::mem::size_of::<Data>()),
    );
    let mut i: usize = 0;
    assert(types.take(0) =~= Seq::<DataType>::empty());
    while i < schema.len()
        invariant
            i <= types.len(),
            types == schema.types(),
            types.len() == schema@.len(),
            size == row::saturated(base + types_bytes(types.take(i as int))),
        decreases types.len() - i,
    {
        assert(types.take(i + 1).drop_last() =~= types.take(i as int));
        let more: usize = match schema.type_at(i) {
            DataType::Int32 => 4,
            DataType::Int64 => 8,
            DataType::Float32 => 4,
            DataType::Float64 => 8,
            DataType::String => 64,
        };
        size = size.saturating_add(more);
        i = i + 1;
    }
    assert(types.take(i as int) =~= types);
    if size < 1 {
        1
    } else {
        size
    }
}

/// By the estimate, predicates leave a row at least.
pub proof fn law_filter_leaves_a_row(op: OpView, ps: Seq<PredicateView>, tables: Seq<TableSpec>)
    ensures
        filtered_estimate(op, ps, tables) >= 1,
    decreases op,
{
    match op {
        OpView::Scan(_) => {},
        OpView::Filter(inner, u) => law_filter_leaves_a_row(*u, inner + ps, tables),
        OpView::Project(map, u) => law_filter_leaves_a_row(*u, moved_predicates(ps, map), tables),
        OpView::Sort(_, u) => law_filter_leaves_a_row(*u, ps, tables),
        OpView::Cross(l, r) => {
            assert(cross_estimate(*l, *r, ps, tables) >= 1);
        },
    }
}

/// By the estimate, a column has a value at least.
pub proof fn law_column_has_a_value(op: OpView, name: Seq<char>, tables: Seq<TableSpec>)
    ensures
        distinct_estimate(op, name, tables) matches Some(n) ==> n >= 1,
    decreases op,
{
    match op {
        OpView::Scan(_) => {},
        OpView::Filter(_, u) => law_column_has_a_value(*u, name, tables),
        OpView::Project(map, u) => {
            if let Some(from) = rewrite::source_of(map, name) {
                law_column_has_a_value(*u, from, tables);
            }
        },
        OpView::Sort(_, u) => law_column_has_a_value(*u, name, tables),
        OpView::Cross(l, r) => {
            law_column_has_a_value(*l, name, tables);
            law_column_has_a_value(*r, name, tables);
        },
    }
}

/// By the estimate, a column has no more values under a filter than without
/// it, and no more than the filter leaves rows.
pub proof fn law_filter_adds_no_value(
    ps: Seq<PredicateView>,
    op: OpView,
    name: Seq<char>,
    tables: Seq<TableSpec>,
)
    ensures
        match distinct_estimate(OpView::Filter(ps, Box::new(op)), name, tables) {
            Some(n) => {
                &&& distinct_estimate(op, name, tables) matches Some(all) && n <= all
                &&& n <= filtered_estimate(op, ps, tables)
            },
            None => distinct_estimate(op, name, tables) is None,
        },
{
    law_column_has_a_value(op, name, tables);
    law_filter_leaves_a_row(op, ps, tables);
}

} // verus!
