//! What it is held to cost to take an input into a join.

use vstd::prelude::*;

use crate::bag;
use crate::catalog::db_context::DbContext;
use crate::catalog::table::{ColumnView, TableSpec};
use crate::error::DbError;
use crate::estimation;
use crate::estimation::{estimate_distinct_values, estimate_query_rows, estimate_query_rows_with_predicates, estimated_schema_row_bytes};
use crate::executor;
use crate::executor::equality_join::product;
use crate::executor::rewrite;
use crate::executor::rewrite::wrap_filter_if_needed;
use crate::query;
use crate::query::{ComparisionValue, CrossData, OpView, OperandView, Predicate, PredicateView, QueryOp};
use crate::query_support;
use crate::query_support::{extract_join_keys, PredicateSide};
use crate::row;
use crate::row::Schema;
use crate::scan_pipeline;
use crate::scan_pipeline::try_compile_scan_pipeline;
use crate::semantics;

verus! {

/// The bytes of a table in memory up to which a join need not write any.
pub const DIRECT_HASH_BUILD_BUDGET_BYTES: u128 = 25_165_824;

/// How many times cheaper a row is held to be in a merge than in a hash join.
pub const ORDERED_MERGE_JOIN_BONUS_FACTOR: u128 = 8;

/// `n`, as far as 128 bits hold it.
pub open spec fn within(n: int) -> int {
    if n > u128::MAX {
        u128::MAX as int
    } else {
        n
    }
}

/// The predicates all of whose columns are there.
pub open spec fn local_predicates(ps: Seq<PredicateView>, columns: Seq<ColumnView>) -> Seq<
    PredicateView,
> {
    bag::select(ps, |p: PredicateView| semantics::predicate_known(columns, p))
}

/// Whether a predicate compares a column of one side with one of the other.
pub open spec fn connects(
    p: PredicateView,
    left: Seq<ColumnView>,
    right: Seq<ColumnView>,
) -> bool {
    match p.value {
        OperandView::Literal(_) => false,
        OperandView::Column(other) => {
            let a = query_support::name_side(p.column, left, right);
            let b = query_support::name_side(other, left, right);
            (a is Left && b is Right) || (a is Right && b is Left)
        },
    }
}

/// The predicates that compare a column of one side with one of the other.
pub open spec fn connecting(
    ps: Seq<PredicateView>,
    left: Seq<ColumnView>,
    right: Seq<ColumnView>,
) -> Seq<PredicateView> {
    bag::select(ps, |p: PredicateView| connects(p, left, right))
}

/// The estimate of the rows of an input that meet the predicates on it alone.
pub open spec fn local_rows(
    input: OpView,
    columns: Seq<ColumnView>,
    ps: Seq<PredicateView>,
    tables: Seq<TableSpec>,
) -> int {
    let own = local_predicates(ps, columns);
    if own.len() == 0 {
        estimation::rows_estimate(input, tables)
    } else {
        estimation::filtered_estimate(input, own, tables)
    }
}

/// The bytes that a row of columns is held to take.
pub open spec fn width(columns: Seq<ColumnView>) -> int {
    estimation::row_bytes(row::types_of(columns)) as int
}

/// The cost of a merge of two inputs that come in the order of their key.
pub open spec fn merge_cost(
    plan_rows: int,
    plan_width: int,
    input_rows: int,
    input_width: int,
) -> int {
    let smaller_bytes = executor::larger(
        executor::smaller(plan_rows * plan_width, input_rows * input_width),
        1,
    );
    let spill = executor::larger(smaller_bytes / DIRECT_HASH_BUILD_BUDGET_BYTES as int, 1);
    executor::larger(
        within((plan_rows + input_rows) * (plan_width + input_width))
            / (ORDERED_MERGE_JOIN_BONUS_FACTOR * spill),
        1,
    )
}

/// The cost of joining a plan and an input by a merge: none where they are not
/// joined by one key, do not come in its order, or may both hold it twice.
pub open spec fn merge_score(
    plan: OpView,
    pc: Seq<ColumnView>,
    input: OpView,
    ic: Seq<ColumnView>,
    ps: Seq<PredicateView>,
    tables: Seq<TableSpec>,
) -> Result<Option<int>, DbError> {
    let keys = query_support::key_pairs(connecting(ps, pc, ic), pc, ic);
    let a = rewrite::wrapped(local_predicates(ps, pc), plan);
    let b = rewrite::wrapped(local_predicates(ps, ic), input);
    if keys.len() != 1 || !semantics::is_pipeline(a) {
        Ok(None)
    } else if scan_pipeline::pipeline_error(a, tables) is Some {
        Err(scan_pipeline::pipeline_error(a, tables)->0)
    } else if !semantics::is_pipeline(b) {
        Ok(None)
    } else if scan_pipeline::pipeline_error(b, tables) is Some {
        Err(scan_pipeline::pipeline_error(b, tables)->0)
    } else if !scan_pipeline::output_ordered(a, tables, keys[0].0)
        || !scan_pipeline::output_ordered(b, tables, keys[0].1) {
        Ok(None)
    } else {
        let plan_rows = executor::larger(estimation::rows_estimate(a, tables), 1);
        let input_rows = executor::larger(estimation::rows_estimate(b, tables), 1);
        let plan_distinct = match estimation::distinct_estimate(a, pc[keys[0].0].name, tables) {
            Some(n) => n,
            None => 0,
        };
        let input_distinct = match estimation::distinct_estimate(b, ic[keys[0].1].name, tables) {
            Some(n) => n,
            None => 0,
        };
        if plan_distinct < plan_rows && input_distinct < input_rows {
            Ok(None)
        } else {
            Ok(Some(merge_cost(plan_rows, width(pc), input_rows, width(ic))))
        }
    }
}

/// The cost of joining a plan and an input that predicates connect: the bytes
/// that the input adds to the rows of the join, less by the number of such
/// predicates, or the cost of a merge where it is lower.
pub open spec fn extension_score(
    plan: OpView,
    pc: Seq<ColumnView>,
    input: OpView,
    ic: Seq<ColumnView>,
    ps: Seq<PredicateView>,
    tables: Seq<TableSpec>,
) -> Result<int, DbError> {
    let rows = estimation::filtered_estimate(
        OpView::Cross(Box::new(plan), Box::new(input)),
        local_predicates(ps, pc + ic),
        tables,
    );
    let base = (rows * width(ic)) / executor::larger(connecting(ps, pc, ic).len() as int, 1);
    match merge_score(plan, pc, input, ic, ps, tables) {
        Err(e) => Err(e),
        Ok(None) => Ok(base),
        Ok(Some(merge)) => Ok(executor::smaller(base, merge)),
    }
}

/// The cost of taking in an input that no predicate connects.
pub open spec fn unconnected_score(
    input: OpView,
    ic: Seq<ColumnView>,
    ps: Seq<PredicateView>,
    tables: Seq<TableSpec>,
) -> int {
    within(local_rows(input, ic, ps, tables) * width(ic) * 100)
}

/// Whether all columns of a predicate are there.
pub fn predicate_belongs_to_schema(predicate: &Predicate, schema: &Schema) -> (r: bool)
    ensures
        r == semantics::predicate_known(schema@, predicate@),
{
    if schema.index_of(predicate.column_name.as_str()).is_none() {
        return false;
    }
    match &predicate.value {
        ComparisionValue::Column(other) => schema.index_of(other.as_str()).is_some(),
        _ => true,
    }
}

/// The side of two schemas that alone has a column of the name.
fn side_of(name: &str, left: &Schema, right: &Schema) -> (r: PredicateSide)
    ensures
        r == query_support::name_side(name@, left@, right@),
{
    match (left.index_of(name).is_some(), right.index_of(name).is_some()) {
        (true, false) => PredicateSide::Left,
        (false, true) => PredicateSide::Right,
        _ => PredicateSide::Cross,
    }
}

/// Whether a predicate compares a column of one side with one of the other.
pub fn predicate_connects_schemas(predicate: &Predicate, left: &Schema, right: &Schema) -> (r: bool)
    ensures
        r == connects(predicate@, left@, right@),
{
    match &predicate.value {
        ComparisionValue::Column(other) => {
            let a = side_of(predicate.column_name.as_str(), left, right);
            let b = side_of(other.as_str(), left, right);
            (a == PredicateSide::Left && b == PredicateSide::Right) || (a == PredicateSide::Right
                && b == PredicateSide::Left)
        },
        _ => false,
    }
}

/// The predicates all of whose columns are there.
fn predicates_of_schema(predicates: &Vec<Predicate>, schema: &Schema) -> (r: Vec<Predicate>)
    ensures
        query::predicate_views(r@) == local_predicates(
            query::predicate_views(predicates@),
            schema@,
        ),
{
    let ghost all = query::predicate_views(predicates@);
    let ghost pick = |p: PredicateView| semantics::predicate_known(schema@, p);
    let mut out: Vec<Predicate> = Vec::new();
    let mut i: usize = 0;
    assert(query::predicate_views(out@) =~= bag::select(all.take(0), pick));
    while i < predicates.len()
        invariant
            i <= predicates@.len(),
            all == query::predicate_views(predicates@),
            pick == (|p: PredicateView| semantics::predicate_known(schema@, p)),
            query::predicate_views(out@) == bag::select(all.take(i as int), pick),
        decreases predicates@.len() - i,
    {
        let ghost before = out@;
        proof {
            assert(all.take(i + 1) =~= all.take(i as int).push(all[i as int]));
            bag::lemma_select_push(all.take(i as int), all[i as int], pick);
        }
        if predicate_belongs_to_schema(&predicates[i], schema) {
            let copy = predicates[i].clone();
            out.push(copy);
            assert(query::predicate_views(out@) =~= query::predicate_views(before).push(copy@));
        }
        i = i + 1;
    }
    assert(all.take(i as int) =~= all);
    out
}

/// The predicates that compare a column of one side with one of the other.
fn predicates_between(predicates: &Vec<Predicate>, left: &Schema, right: &Schema) -> (r: Vec<
    Predicate,
>)
    ensures
        query::predicate_views(r@) == connecting(
            query::predicate_views(predicates@),
            left@,
            right@,
        ),
{
    let ghost all = query::predicate_views(predicates@);
    let ghost pick = |p: PredicateView| connects(p, left@, right@);
    let mut out: Vec<Predicate> = Vec::new();
    let mut i: usize = 0;
    assert(query::predicate_views(out@) =~= bag::select(all.take(0), pick));
    while i < predicates.len()
        invariant
            i <= predicates@.len(),
            all == query::predicate_views(predicates@),
            pick == (|p: PredicateView| connects(p, left@, right@)),
            query::predicate_views(out@) == bag::select(all.take(i as int), pick),
        decreases predicates@.len() - i,
    {
        let ghost before = out@;
        proof {
            assert(all.take(i + 1) =~= all.take(i as int).push(all[i as int]));
            bag::lemma_select_push(all.take(i as int), all[i as int], pick);
        }
        if predicate_connects_schemas(&predicates[i], left, right) {
            let copy = predicates[i].clone();
            out.push(copy);
            assert(query::predicate_views(out@) =~= query::predicate_views(before).push(copy@));
        }
        i = i + 1;
    }
    assert(all.take(i as int) =~= all);
    out
}

/// The number of predicates that compare a column of one side with one of the
/// other.
pub fn count_connecting_predicates(predicates: &Vec<Predicate>, left: &Schema, right: &Schema) -> (r:
    usize)
    ensures
        r == connecting(query::predicate_views(predicates@), left@, right@).len(),
{
    let ghost all = query::predicate_views(predicates@);
    let ghost pick = |p: PredicateView| connects(p, left@, right@);
    let mut count: usize = 0;
    let mut i: usize = 0;
    assert(bag::select(all.take(0), pick).len() == 0);
    while i < predicates.len()
        invariant
            i <= predicates@.len(),
            count <= i,
            all == query::predicate_views(predicates@),
            pick == (|p: PredicateView| connects(p, left@, right@)),
            count == bag::select(all.take(i as int), pick).len(),
        decreases predicates@.len() - i,
    {
        proof {
            assert(all.take(i + 1) =~= all.take(i as int).push(all[i as int]));
            bag::lemma_select_push(all.take(i as int), all[i as int], pick);
        }
        if predicate_connects_schemas(&predicates[i], left, right) {
            count = count + 1;
        }
        i = i + 1;
    }
    assert(all.take(i as int) =~= all);
    count
}

/// The estimate of the rows of an input that meet the predicates on it alone.
pub fn estimate_input_with_local_filters(
    input: &QueryOp,
    schema: &Schema,
    predicates: &Vec<Predicate>,
    ctx: &DbContext,
) -> (r: u64)
    ensures
        r == local_rows(
            input@,
            schema@,
            query::predicate_views(predicates@),
            ctx.tables(),
        ),
{
    let own = predicates_of_schema(predicates, schema);
    assert(query::predicate_views(own@).len() == own@.len());
    if own.len() == 0 {
        estimate_query_rows(input, ctx)
    } else {
        estimate_query_rows_with_predicates(input, &own, ctx)
    }
}

/// The larger of a number and 1.
fn at_least_one(n: u64) -> (r: u64)
    ensures
        r == executor::larger(n as int, 1),
        r >= 1,
{
    if n >= 1 {
        n
    } else {
        1
    }
}

/// The bytes that a row of the schema is held to take.
fn schema_width(schema: &Schema) -> (r: usize)
    ensures
        r == width(schema@),
        r >= 1,
{
    assert(schema.types() =~= row::types_of(schema@));
    estimated_schema_row_bytes(schema)
}

/// The product of two numbers, as far as 128 bits hold it.
fn within_product(a: u128, b: u128) -> (r: u128)
    ensures
        r == within(a * b),
{
    match a.checked_mul(b) {
        Some(n) => n,
        None => u128::MAX,
    }
}

/// The cost of a merge of two inputs that come in the order of their key.
fn cost_of_merge(plan_rows: u64, plan_width: usize, input_rows: u64, input_width: usize) -> (r: u128)
    requires
        plan_width >= 1,
        input_width >= 1,
    ensures
        r == merge_cost(
            plan_rows as int,
            plan_width as int,
            input_rows as int,
            input_width as int,
        ),
{
    let plan_bytes: u128 = product(plan_rows, plan_width);
    let input_bytes: u128 = product(input_rows, input_width);
    let smaller: u128 = if plan_bytes <= input_bytes {
        plan_bytes
    } else {
        input_bytes
    };
    let smaller: u128 = if smaller >= 1 {
        smaller
    } else {
        1
    };
    let spill: u128 = smaller / DIRECT_HASH_BUILD_BUDGET_BYTES;
    let spill: u128 = if spill >= 1 {
        spill
    } else {
        1
    };
    let cost: u128 = within_product(
        plan_rows as u128 + input_rows as u128,
        plan_width as u128 + input_width as u128,
    ) / (ORDERED_MERGE_JOIN_BONUS_FACTOR * spill);
    if cost >= 1 {
        cost
    } else {
        1
    }
}

/// The cost of joining a plan and an input by a merge.
#[verifier::rlimit(40)]
pub fn estimate_ordered_merge_join_score(
    plan: &QueryOp,
    plan_schema: &Schema,
    input: &QueryOp,
    input_schema: &Schema,
    predicates: &Vec<Predicate>,
    ctx: &DbContext,
) -> (r: Result<Option<u128>, DbError>)
    ensures
        match merge_score(
            plan@,
            plan_schema@,
            input@,
            input_schema@,
            query::predicate_views(predicates@),
            ctx.tables(),
        ) {
            Ok(Some(n)) => r matches Ok(Some(m)) && m == n,
            Ok(None) => r matches Ok(None),
            Err(e) => r matches Err(f) && f == e,
        },
{
    let plan_local = predicates_of_schema(predicates, plan_schema);
    let input_local = predicates_of_schema(predicates, input_schema);
    let between = predicates_between(predicates, plan_schema, input_schema);
    let (plan_keys, input_keys) = match extract_join_keys(&between, plan_schema, input_schema) {
        Some(keys) => keys,
        None => {
            return Ok(None);
        },
    };
    if plan_keys.len() != 1 || input_keys.len() != 1 {
        return Ok(None);
    }
    let plan_key: usize = plan_keys[0];
    let input_key: usize = input_keys[0];
    let ghost keys = query_support::key_pairs(
        query::predicate_views(between@),
        plan_schema@,
        input_schema@,
    );
    assert(plan_key == keys[0].0 && input_key == keys[0].1);
    let wrapped_plan = wrap_filter_if_needed(plan_local, plan.clone());
    let wrapped_input = wrap_filter_if_needed(input_local, input.clone());
    let plan_pipeline = match try_compile_scan_pipeline(&wrapped_plan, ctx)? {
        Some(pipeline) => pipeline,
        None => {
            return Ok(None);
        },
    };
    let input_pipeline = match try_compile_scan_pipeline(&wrapped_input, ctx)? {
        Some(pipeline) => pipeline,
        None => {
            return Ok(None);
        },
    };
    if !plan_pipeline.output_physically_ordered(plan_key)
        || !input_pipeline.output_physically_ordered(input_key) {
        assert(!plan_pipeline.ordered(plan_key as int) || plan_key >= plan_pipeline.output().len()
            || !input_pipeline.ordered(input_key as int) || input_key
            >= input_pipeline.output().len());
        return Ok(None);
    }
    assert(plan_pipeline.ordered(plan_key as int));
    assert(input_pipeline.ordered(input_key as int));
    let plan_rows: u64 = at_least_one(estimate_query_rows(&wrapped_plan, ctx));
    let input_rows: u64 = at_least_one(estimate_query_rows(&wrapped_input, ctx));
    let plan_distinct: u64 = match estimate_distinct_values(
        &wrapped_plan,
        plan_schema.columns()[plan_key].name.as_str(),
        ctx,
    ) {
        Some(n) => n,
        None => 0,
    };
    let input_distinct: u64 = match estimate_distinct_values(
        &wrapped_input,
        input_schema.columns()[input_key].name.as_str(),
        ctx,
    ) {
        Some(n) => n,
        None => 0,
    };
    if plan_distinct < plan_rows && input_distinct < input_rows {
        return Ok(None);
    }
    Ok(
        Some(
            cost_of_merge(
                plan_rows,
                schema_width(plan_schema),
                input_rows,
                schema_width(input_schema),
            ),
        ),
    )
}

/// The cost of joining a plan and an input that predicates connect.
pub fn estimate_join_extension_score(
    plan: &QueryOp,
    plan_schema: &Schema,
    input: &QueryOp,
    input_schema: &Schema,
    predicates: &Vec<Predicate>,
    ctx: &DbContext,
) -> (r: Result<u128, DbError>)
    ensures
        match extension_score(
            plan@,
            plan_schema@,
            input@,
            input_schema@,
            query::predicate_views(predicates@),
            ctx.tables(),
        ) {
            Ok(n) => r matches Ok(m) && m == n,
            Err(e) => r matches Err(f) && f == e,
        },
{
    let joined = QueryOp::Cross(
        CrossData { left: Box::new(plan.clone()), right: Box::new(input.clone()) },
    );
    let combined = Schema::combine(plan_schema, input_schema);
    let relevant = predicates_of_schema(predicates, &combined);
    let joined_rows: u64 = estimate_query_rows_with_predicates(&joined, &relevant, ctx);
    let connectivity: usize = count_connecting_predicates(predicates, plan_schema, input_schema);
    let connectivity: usize = if connectivity >= 1 {
        connectivity
    } else {
        1
    };
    let base_cost: u128 = product(joined_rows, schema_width(input_schema)) / connectivity as u128;
    match estimate_ordered_merge_join_score(
        plan,
        plan_schema,
        input,
        input_schema,
        predicates,
        ctx,
    )? {
        Some(merge) => Ok(
            if base_cost <= merge {
                base_cost
            } else {
                merge
            },
        ),
        None => Ok(base_cost),
    }
}

/// The cost of taking in an input that no predicate connects.
pub fn estimate_unconnected_score(
    input: &QueryOp,
    schema: &Schema,
    predicates: &Vec<Predicate>,
    ctx: &DbContext,
) -> (r: u128)
    ensures
        r == unconnected_score(
            input@,
            schema@,
            query::predicate_views(predicates@),
            ctx.tables(),
        ),
{
    let rows: u64 = estimate_input_with_local_filters(input, schema, predicates, ctx);
    within_product(product(rows, schema_width(schema)), 100)
}

} // verus!
