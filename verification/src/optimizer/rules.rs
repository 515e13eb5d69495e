//! The rewriting of operators: filters and projections move towards the
//! tables, inputs of joins are put in order, and what does nothing is left out.

use vstd::prelude::*;

use crate::catalog::db_context;
use crate::catalog::db_context::DbContext;
use crate::catalog::statistics;
use crate::catalog::statistics::is_physically_ordered;
use crate::catalog::table::TableSpec;
use crate::error::DbError;
use crate::estimation;
use crate::estimation::estimate_query_rows;
use crate::executor::project;
use crate::executor::project::reduced_projection;
use crate::executor::rewrite;
use crate::executor::rewrite::{remap_project_column, remap_project_predicates, wrap_filter_if_needed};
use crate::optimizer::duplicates;
use crate::optimizer::duplicates::{dedup_predicates, dedup_sort_specs};
use crate::optimizer::projections;
use crate::optimizer::projections::{compose_projects, projection_for_filter, projection_for_side, simplify_project, wrap_project_if_needed};
use crate::optimizer::reorder;
use crate::optimizer::reorder::reorder_cross_tree;
use crate::query;
use crate::query::{CrossData, FilterData, OpView, Predicate, PredicateView, ProjectData, QueryOp, ScanData, SortData, SortSpec, SortSpecView};
use crate::query_support;
use crate::query_support::{find_table_spec, infer_schema, split_cross_predicates, PredicateSide};
use crate::row;
use crate::selectivity::find_column;

verus! {

/// The table and the column of it that a column of a chain of operators is, if
/// it is one.
pub open spec fn traced(op: OpView, name: Seq<char>) -> Option<(Seq<char>, Seq<char>)>
    decreases op,
{
    match op {
        OpView::Scan(id) => Some((id, name)),
        OpView::Filter(_, u) => traced(*u, name),
        OpView::Project(map, u) => match rewrite::source_of(map, name) {
            Some(from) => traced(*u, from),
            None => None,
        },
        _ => None,
    }
}

/// Whether rows come in the order of sort columns without being sorted: there
/// is one, ascending, and it is a column of a table that is in order on the
/// device.
pub open spec fn in_order(specs: Seq<SortSpecView>, op: OpView, tables: Seq<TableSpec>) -> Result<
    bool,
    DbError,
> {
    if specs.len() != 1 || !specs[0].ascending {
        Ok(false)
    } else {
        match traced(op, specs[0].column) {
            None => Ok(false),
            Some((id, name)) => match db_context::table_index(tables, id) {
                None => Err(DbError::UnknownTable),
                Some(t) => match row::column_index(tables[t].columns(), name) {
                    None => Ok(false),
                    Some(c) => Ok(statistics::ordered_on_disk(tables[t].column_specs@[c].stats)),
                },
            },
        }
    }
}

/// The cross product of two operators, the one that is held to have fewer rows
/// on the right.
pub open spec fn larger_first(l: OpView, r: OpView, tables: Seq<TableSpec>) -> OpView {
    if estimation::rows_estimate(l, tables) < estimation::rows_estimate(r, tables) {
        OpView::Cross(Box::new(r), Box::new(l))
    } else {
        OpView::Cross(Box::new(l), Box::new(r))
    }
}

/// Predicates on the result of a projection, on the columns that are picked.
pub open spec fn moved(ps: Seq<PredicateView>, map: Seq<(Seq<char>, Seq<char>)>) -> Seq<
    PredicateView,
> {
    Seq::new(ps.len(), |i: int| rewrite::remapped_predicate(ps[i], map)->0)
}

/// The rewritten operator. Rewriting is nested at most `depth` times; an
/// operator below that is left as it is.
pub open spec fn optimized(op: OpView, tables: Seq<TableSpec>, depth: nat) -> Result<
    OpView,
    DbError,
>
    decreases depth, 0nat,
{
    if depth == 0 {
        Ok(op)
    } else {
        let d = (depth - 1) as nat;
        match op {
            OpView::Scan(_) => Ok(op),
            OpView::Project(map, u) => optimized_project(map, *u, tables, d),
            OpView::Sort(specs, u) => optimized_sort(specs, *u, tables, d),
            OpView::Cross(l, r) => optimized_cross(*l, *r, tables, d),
            OpView::Filter(ps, u) => optimized_filter(ps, *u, tables, d),
        }
    }
}

/// The rewritten projection: below it, only the columns that are needed are
/// kept.
pub open spec fn optimized_project(
    map: Seq<(Seq<char>, Seq<char>)>,
    u: OpView,
    tables: Seq<TableSpec>,
    depth: nat,
) -> Result<OpView, DbError>
    decreases depth, 1nat,
{
    match optimized(u, tables, depth) {
        Err(e) => Err(e),
        Ok(OpView::Filter(ps, w)) => match optimized(
            OpView::Project(projections::map_for_filter(map, ps), w),
            tables,
            depth,
        ) {
            Err(e) => Err(e),
            Ok(x) => projections::simplified(
                OpView::Project(map, Box::new(OpView::Filter(ps, Box::new(x)))),
                tables,
            ),
        },
        Ok(OpView::Sort(specs, w)) => match optimized(
            OpView::Project(project::reduced_map(map, specs), w),
            tables,
            depth,
        ) {
            Err(e) => Err(e),
            Ok(x) => projections::simplified(
                OpView::Project(map, Box::new(OpView::Sort(specs, Box::new(x)))),
                tables,
            ),
        },
        Ok(OpView::Cross(l, r)) => match (
            query_support::schema_of(*l, tables),
            query_support::schema_of(*r, tables),
        ) {
            (Err(e), _) => Err(e),
            (_, Err(e)) => Err(e),
            (Ok(a), Ok(b)) => projections::simplified(
                OpView::Project(
                    map,
                    Box::new(
                        OpView::Cross(
                            Box::new(
                                projections::projected(projections::map_for_side(map, a), a, *l),
                            ),
                            Box::new(
                                projections::projected(projections::map_for_side(map, b), b, *r),
                            ),
                        ),
                    ),
                ),
                tables,
            ),
        },
        Ok(OpView::Project(inner, w)) => if projections::composable(map, inner) {
            projections::simplified(
                OpView::Project(projections::composed_map(map, inner), w),
                tables,
            )
        } else {
            Err(DbError::UnknownColumn)
        },
        Ok(other) => projections::simplified(OpView::Project(map, Box::new(other)), tables),
    }
}

/// The rewritten sort: left out where the rows come in its order.
pub open spec fn optimized_sort(
    specs: Seq<SortSpecView>,
    u: OpView,
    tables: Seq<TableSpec>,
    depth: nat,
) -> Result<OpView, DbError>
    decreases depth, 1nat,
{
    match optimized(u, tables, depth) {
        Err(e) => Err(e),
        Ok(v) => {
            let kept = duplicates::distinct_sort_columns(specs);
            if kept.len() == 0 {
                Ok(v)
            } else {
                match in_order(kept, v, tables) {
                    Err(e) => Err(e),
                    Ok(true) => Ok(v),
                    Ok(false) => Ok(OpView::Sort(kept, Box::new(v))),
                }
            }
        },
    }
}

/// The rewritten cross product.
pub open spec fn optimized_cross(l: OpView, r: OpView, tables: Seq<TableSpec>, depth: nat) -> Result<
    OpView,
    DbError,
>
    decreases depth, 1nat,
{
    match optimized(l, tables, depth) {
        Err(e) => Err(e),
        Ok(a) => match optimized(r, tables, depth) {
            Err(e) => Err(e),
            Ok(b) => Ok(larger_first(a, b, tables)),
        },
    }
}

/// The rewritten filter: it moves below projections and sorts, and to the sides
/// of cross products, whose inputs it puts in order.
pub open spec fn optimized_filter(
    all: Seq<PredicateView>,
    u: OpView,
    tables: Seq<TableSpec>,
    depth: nat,
) -> Result<OpView, DbError>
    decreases depth, 2nat,
{
    let ps = duplicates::distinct_predicates(all);
    match optimized(u, tables, depth) {
        Err(e) => Err(e),
        Ok(OpView::Filter(inner, w)) => optimized(OpView::Filter(inner + ps, w), tables, depth),
        Ok(OpView::Project(map, w)) => if rewrite::can_remap(ps, map) {
            match optimized(OpView::Filter(moved(ps, map), w), tables, depth) {
                Err(e) => Err(e),
                Ok(x) => optimized(OpView::Project(map, Box::new(x)), tables, depth),
            }
        } else {
            Err(DbError::UnknownColumn)
        },
        Ok(OpView::Sort(specs, w)) => match optimized(OpView::Filter(ps, w), tables, depth) {
            Err(e) => Err(e),
            Ok(x) => Ok(OpView::Sort(specs, Box::new(x))),
        },
        Ok(OpView::Cross(l, r)) => match reorder::reordered(OpView::Cross(l, r), ps, tables) {
            Err(e) => Err(e),
            Ok(OpView::Cross(a, b)) => optimized_join(ps, *a, *b, tables, depth),
            Ok(other) => Ok(rewrite::wrapped(ps, other)),
        },
        Ok(other) => Ok(rewrite::wrapped(ps, other)),
    }
}

/// The rewritten filter on a cross product: the predicates on one side move
/// there.
pub open spec fn optimized_join(
    ps: Seq<PredicateView>,
    l: OpView,
    r: OpView,
    tables: Seq<TableSpec>,
    depth: nat,
) -> Result<OpView, DbError>
    decreases depth, 1nat,
{
    match (query_support::schema_of(l, tables), query_support::schema_of(r, tables)) {
        (Err(e), _) => Err(e),
        (_, Err(e)) => Err(e),
        (Ok(a), Ok(b)) => {
            let lp = query_support::side_predicates(ps, a, b, PredicateSide::Left);
            let rp = query_support::side_predicates(ps, a, b, PredicateSide::Right);
            let cp = query_support::side_predicates(ps, a, b, PredicateSide::Cross);
            match optimized(rewrite::wrapped(lp, l), tables, depth) {
                Err(e) => Err(e),
                Ok(x) => match optimized(rewrite::wrapped(rp, r), tables, depth) {
                    Err(e) => Err(e),
                    Ok(y) => Ok(rewrite::wrapped(cp, larger_first(x, y, tables))),
                },
            }
        },
    }
}

/// The rewritten operator.
pub fn optimize_op(op: &QueryOp, ctx: &DbContext, depth: u32) -> (r: Result<QueryOp, DbError>)
    ensures
        match optimized(op@, ctx.tables(), depth as nat) {
            Ok(o) => r matches Ok(x) && x@ == o,
            Err(e) => r matches Err(f) && f == e,
        },
    decreases depth, 0nat,
{
    if depth == 0 {
        return Ok(op.clone());
    }
    match op {
        QueryOp::Scan(s) => Ok(QueryOp::Scan(ScanData { table_id: s.table_id.clone() })),
        QueryOp::Project(p) => optimize_project(p, ctx, depth - 1),
        QueryOp::Sort(s) => optimize_sort(s, ctx, depth - 1),
        QueryOp::Cross(c) => optimize_cross(c, ctx, depth - 1),
        QueryOp::Filter(f) => optimize_filter(f, ctx, depth - 1),
    }
}

/// The rewritten projection.
fn optimize_project(project: &ProjectData, ctx: &DbContext, depth: u32) -> (r: Result<
    QueryOp,
    DbError,
>)
    ensures
        match optimized_project(
            query::map_views(project.column_name_map@),
            project.underlying@,
            ctx.tables(),
            depth as nat,
        ) {
            Ok(o) => r matches Ok(x) && x@ == o,
            Err(e) => r matches Err(f) && f == e,
        },
    decreases depth, 2nat,
{
    let underlying = optimize_op(&project.underlying, ctx, depth)?;
    let result = match underlying {
        QueryOp::Filter(filter) => push_project_through_filter(project, filter, ctx, depth)?,
        QueryOp::Sort(sort) => push_project_through_sort(project, sort, ctx, depth)?,
        QueryOp::Cross(cross) => push_project_through_cross(project, cross, ctx)?,
        QueryOp::Project(inner) => compose_projects(project, inner)?,
        other => QueryOp::Project(
            ProjectData {
                column_name_map: query::clone_map(&project.column_name_map),
                underlying: Box::new(other),
            },
        ),
    };
    simplify_project(result, ctx)
}

/// A projection over a filter, below which only the needed columns are kept.
fn push_project_through_filter(
    project: &ProjectData,
    filter: FilterData,
    ctx: &DbContext,
    depth: u32,
) -> (r: Result<QueryOp, DbError>)
    ensures
        ({
            let map = query::map_views(project.column_name_map@);
            let ps = query::predicate_views(filter.predicates@);
            match optimized(
                OpView::Project(
                    projections::map_for_filter(map, ps),
                    Box::new(filter.underlying@),
                ),
                ctx.tables(),
                depth as nat,
            ) {
                Ok(x) => r matches Ok(o) && o@ == OpView::Project(
                    map,
                    Box::new(OpView::Filter(ps, Box::new(x))),
                ),
                Err(e) => r matches Err(f) && f == e,
            }
        }),
    decreases depth, 1nat,
{
    let reduced = QueryOp::Project(projection_for_filter(project, &filter));
    proof {
        reveal_with_fuel(query::op_view, 3);
    }
    let pushed = optimize_op(&reduced, ctx, depth)?;
    Ok(
        QueryOp::Project(
            ProjectData {
                column_name_map: query::clone_map(&project.column_name_map),
                underlying: Box::new(
                    QueryOp::Filter(
                        FilterData { predicates: filter.predicates, underlying: Box::new(pushed) },
                    ),
                ),
            },
        ),
    )
}

/// A projection over a sort, below which only the needed columns are kept.
fn push_project_through_sort(
    project: &ProjectData,
    sort: SortData,
    ctx: &DbContext,
    depth: u32,
) -> (r: Result<QueryOp, DbError>)
    ensures
        ({
            let map = query::map_views(project.column_name_map@);
            let specs = query::sort_views(sort.sort_specs@);
            match optimized(
                OpView::Project(project::reduced_map(map, specs), Box::new(sort.underlying@)),
                ctx.tables(),
                depth as nat,
            ) {
                Ok(x) => r matches Ok(o) && o@ == OpView::Project(
                    map,
                    Box::new(OpView::Sort(specs, Box::new(x))),
                ),
                Err(e) => r matches Err(f) && f == e,
            }
        }),
    decreases depth, 1nat,
{
    let reduced = QueryOp::Project(reduced_projection(project, &sort));
    proof {
        reveal_with_fuel(query::op_view, 3);
    }
    let pushed = optimize_op(&reduced, ctx, depth)?;
    Ok(
        QueryOp::Project(
            ProjectData {
                column_name_map: query::clone_map(&project.column_name_map),
                underlying: Box::new(
                    QueryOp::Sort(
                        SortData { sort_specs: sort.sort_specs, underlying: Box::new(pushed) },
                    ),
                ),
            },
        ),
    )
}

/// A projection over a cross product, of whose sides only the needed columns
/// are kept.
fn push_project_through_cross(project: &ProjectData, cross: CrossData, ctx: &DbContext) -> (r: Result<
    QueryOp,
    DbError,
>)
    ensures
        ({
            let map = query::map_views(project.column_name_map@);
            match (
                query_support::schema_of(cross.left@, ctx.tables()),
                query_support::schema_of(cross.right@, ctx.tables()),
            ) {
                (Err(e), _) => r matches Err(f) && f == e,
                (_, Err(e)) => r matches Err(f) && f == e,
                (Ok(a), Ok(b)) => r matches Ok(o) && o@ == OpView::Project(
                    map,
                    Box::new(
                        OpView::Cross(
                            Box::new(
                                projections::projected(
                                    projections::map_for_side(map, a),
                                    a,
                                    cross.left@,
                                ),
                            ),
                            Box::new(
                                projections::projected(
                                    projections::map_for_side(map, b),
                                    b,
                                    cross.right@,
                                ),
                            ),
                        ),
                    ),
                ),
            }
        }),
{
    let CrossData { left, right } = cross;
    let left_schema = infer_schema(&left, ctx)?;
    let right_schema = infer_schema(&right, ctx)?;
    let left_map = projection_for_side(project, &left_schema);
    let right_map = projection_for_side(project, &right_schema);
    proof {
        reveal_with_fuel(query::op_view, 3);
    }
    Ok(
        QueryOp::Project(
            ProjectData {
                column_name_map: query::clone_map(&project.column_name_map),
                underlying: Box::new(
                    QueryOp::Cross(
                        CrossData {
                            left: Box::new(wrap_project_if_needed(left_map, &left_schema, *left)),
                            right: Box::new(
                                wrap_project_if_needed(right_map, &right_schema, *right),
                            ),
                        },
                    ),
                ),
            },
        ),
    )
}

/// The rewritten sort.
fn optimize_sort(sort: &SortData, ctx: &DbContext, depth: u32) -> (r: Result<QueryOp, DbError>)
    ensures
        match optimized_sort(
            query::sort_views(sort.sort_specs@),
            sort.underlying@,
            ctx.tables(),
            depth as nat,
        ) {
            Ok(o) => r matches Ok(x) && x@ == o,
            Err(e) => r matches Err(f) && f == e,
        },
    decreases depth, 1nat,
{
    let underlying = optimize_op(&sort.underlying, ctx, depth)?;
    let specs = dedup_sort_specs(&sort.sort_specs);
    assert(query::sort_views(specs@).len() == specs@.len());
    if specs.len() == 0 {
        return Ok(underlying);
    }
    if sort_redundant(&specs, &underlying, ctx)? {
        return Ok(underlying);
    }
    Ok(QueryOp::Sort(SortData { sort_specs: specs, underlying: Box::new(underlying) }))
}

/// Whether rows come in the order of sort columns without being sorted.
pub fn sort_redundant(specs: &Vec<SortSpec>, op: &QueryOp, ctx: &DbContext) -> (r: Result<
    bool,
    DbError,
>)
    ensures
        r == in_order(query::sort_views(specs@), op@, ctx.tables()),
{
    assert(query::sort_views(specs@).len() == specs@.len());
    if specs.len() != 1 {
        return Ok(false);
    }
    assert(query::sort_views(specs@)[0] == specs@[0]@);
    if !specs[0].ascending {
        return Ok(false);
    }
    match trace_to_scan(op, specs[0].column_name.as_str()) {
        None => Ok(false),
        Some((table_id, column)) => {
            let table = find_table_spec(ctx, table_id.as_str())?;
            match find_column(table, column.as_str()) {
                None => Ok(false),
                Some(index) => Ok(is_physically_ordered(&table.column_specs[index].stats)),
            }
        },
    }
}

/// The table and the column of it that a column of a chain of operators is.
pub fn trace_to_scan(op: &QueryOp, column: &str) -> (r: Option<(String, String)>)
    ensures
        match traced(op@, column@) {
            Some((id, name)) => r matches Some((i, n)) && i@ == id && n@ == name,
            None => r is None,
        },
    decreases *op,
{
    match op {
        QueryOp::Scan(scan) => Some((scan.table_id.clone(), column.to_string())),
        QueryOp::Filter(filter) => trace_to_scan(&filter.underlying, column),
        QueryOp::Project(project) => match remap_project_column(
            column,
            &project.column_name_map,
        ) {
            Some(source) => trace_to_scan(&project.underlying, source.as_str()),
            None => None,
        },
        _ => None,
    }
}

/// The cross product of two operators, the one that is held to have fewer rows
/// on the right.
fn cross_larger_first(left: QueryOp, right: QueryOp, ctx: &DbContext) -> (r: QueryOp)
    ensures
        r@ == larger_first(left@, right@, ctx.tables()),
{
    let left_card: u64 = estimate_query_rows(&left, ctx);
    let right_card: u64 = estimate_query_rows(&right, ctx);
    if left_card < right_card {
        QueryOp::Cross(CrossData { left: Box::new(right), right: Box::new(left) })
    } else {
        QueryOp::Cross(CrossData { left: Box::new(left), right: Box::new(right) })
    }
}

/// The rewritten cross product.
fn optimize_cross(cross: &CrossData, ctx: &DbContext, depth: u32) -> (r: Result<QueryOp, DbError>)
    ensures
        match optimized_cross(cross.left@, cross.right@, ctx.tables(), depth as nat) {
            Ok(o) => r matches Ok(x) && x@ == o,
            Err(e) => r matches Err(f) && f == e,
        },
    decreases depth, 1nat,
{
    let left = optimize_op(&cross.left, ctx, depth)?;
    let right = optimize_op(&cross.right, ctx, depth)?;
    Ok(cross_larger_first(left, right, ctx))
}

/// The rewritten filter.
fn optimize_filter(filter: &FilterData, ctx: &DbContext, depth: u32) -> (r: Result<QueryOp, DbError>)
    ensures
        match optimized_filter(
            query::predicate_views(filter.predicates@),
            filter.underlying@,
            ctx.tables(),
            depth as nat,
        ) {
            Ok(o) => r matches Ok(x) && x@ == o,
            Err(e) => r matches Err(f) && f == e,
        },
    decreases depth, 2nat,
{
    let predicates = dedup_predicates(&filter.predicates);
    let underlying = optimize_op(&filter.underlying, ctx, depth)?;
    match underlying {
        QueryOp::Filter(inner) => {
            let merged = query::joined_predicates(&inner.predicates, &predicates);
            let whole = QueryOp::Filter(
                FilterData { predicates: merged, underlying: inner.underlying },
            );
            optimize_op(&whole, ctx, depth)
        },
        QueryOp::Project(project) => push_filter_through_project(
            &predicates,
            project,
            ctx,
            depth,
        ),
        QueryOp::Sort(sort) => {
            let SortData { sort_specs, underlying } = sort;
            let pushed = QueryOp::Filter(FilterData { predicates, underlying });
            let below = optimize_op(&pushed, ctx, depth)?;
            Ok(QueryOp::Sort(SortData { sort_specs, underlying: Box::new(below) }))
        },
        QueryOp::Cross(cross) => {
            let reordered = reorder_cross_tree(QueryOp::Cross(cross), &predicates, ctx)?;
            match reordered {
                QueryOp::Cross(cross) => push_filter_through_cross(
                    &predicates,
                    cross,
                    ctx,
                    depth,
                ),
                other => Ok(wrap_filter_if_needed(predicates, other)),
            }
        },
        other => Ok(wrap_filter_if_needed(predicates, other)),
    }
}

/// The rewritten filter on a cross product.
fn push_filter_through_cross(
    predicates: &Vec<Predicate>,
    cross: CrossData,
    ctx: &DbContext,
    depth: u32,
) -> (r: Result<QueryOp, DbError>)
    ensures
        match optimized_join(
            query::predicate_views(predicates@),
            cross.left@,
            cross.right@,
            ctx.tables(),
            depth as nat,
        ) {
            Ok(o) => r matches Ok(x) && x@ == o,
            Err(e) => r matches Err(f) && f == e,
        },
    decreases depth, 1nat,
{
    let CrossData { left, right } = cross;
    let left_schema = infer_schema(&left, ctx)?;
    let right_schema = infer_schema(&right, ctx)?;
    let (left_preds, right_preds, remaining) = split_cross_predicates(
        predicates,
        &left_schema,
        &right_schema,
    );
    let left = optimize_op(&wrap_filter_if_needed(left_preds, *left), ctx, depth)?;
    let right = optimize_op(&wrap_filter_if_needed(right_preds, *right), ctx, depth)?;
    Ok(wrap_filter_if_needed(remaining, cross_larger_first(left, right, ctx)))
}

/// The rewritten filter on a projection: it moves below the projection.
fn push_filter_through_project(
    predicates: &Vec<Predicate>,
    project: ProjectData,
    ctx: &DbContext,
    depth: u32,
) -> (r: Result<QueryOp, DbError>)
    ensures
        ({
            let ps = query::predicate_views(predicates@);
            let map = query::map_views(project.column_name_map@);
            if rewrite::can_remap(ps, map) {
                match optimized(
                    OpView::Filter(moved(ps, map), Box::new(project.underlying@)),
                    ctx.tables(),
                    depth as nat,
                ) {
                    Err(e) => r matches Err(f) && f == e,
                    Ok(x) => match optimized(
                        OpView::Project(map, Box::new(x)),
                        ctx.tables(),
                        depth as nat,
                    ) {
                        Ok(o) => r matches Ok(y) && y@ == o,
                        Err(e) => r matches Err(f) && f == e,
                    },
                }
            } else {
                r matches Err(e) && e == DbError::UnknownColumn
            }
        }),
    decreases depth, 1nat,
{
    let ghost ps = query::predicate_views(predicates@);
    let ghost map = query::map_views(project.column_name_map@);
    let remapped = match remap_project_predicates(predicates, &project) {
        Some(remapped) => remapped,
        None => {
            return Err(DbError::UnknownColumn);
        },
    };
    proof {
        let qs = query::predicate_views(remapped@);
        assert forall|i: int| 0 <= i < ps.len() implies rewrite::remapped_predicate(
            #[trigger] ps[i],
            map,
        ) == Some(qs[i]) by {
            assert(rewrite::remapped_predicate(predicates@[i]@, map) == Some(remapped@[i]@));
        }
        assert(rewrite::can_remap(ps, map));
        assert(qs =~= moved(ps, map));
    }
    let ProjectData { column_name_map, underlying } = project;
    let below = QueryOp::Filter(FilterData { predicates: remapped, underlying });
    let pushed = optimize_op(&below, ctx, depth)?;
    let whole = QueryOp::Project(ProjectData { column_name_map, underlying: Box::new(pushed) });
    optimize_op(&whole, ctx, depth)
}

} // verus!
