//! Projections: what they need of their input, and which of them do nothing.

use vstd::prelude::*;

use crate::bag;
use crate::catalog::db_context::DbContext;
use crate::catalog::table::{ColumnView, TableSpec};
use crate::error::DbError;
use crate::executor::project;
use crate::executor::project::push_name;
use crate::executor::rewrite;
use crate::executor::rewrite::remap_project_column;
use crate::query;
use crate::query::{ComparisionValue, FilterData, OpView, PredicateView, ProjectData, QueryOp};
use crate::query_support;
use crate::query_support::infer_schema;
use crate::row::Schema;
use crate::text::same_text;

verus! {

/// The columns that predicates compare.
pub open spec fn predicates_names(ps: Seq<PredicateView>) -> Seq<Seq<char>>
    decreases ps.len(),
{
    if ps.len() == 0 {
        Seq::empty()
    } else {
        predicates_names(ps.drop_last()) + query_support::predicate_names(ps.last())
    }
}

/// The columns that a projection picks.
pub open spec fn picked_names(map: Seq<(Seq<char>, Seq<char>)>) -> Seq<Seq<char>> {
    Seq::new(map.len(), |i: int| map[i].0)
}

/// The map that picks the columns that a projection and a filter under it need,
/// each once and under its own name.
pub open spec fn map_for_filter(
    map: Seq<(Seq<char>, Seq<char>)>,
    ps: Seq<PredicateView>,
) -> Seq<(Seq<char>, Seq<char>)> {
    project::own_names(project::deduplicated(picked_names(map) + predicates_names(ps)))
}

/// The map that picks the columns of one side that a projection needs, each
/// once and under its own name.
pub open spec fn map_for_side(
    map: Seq<(Seq<char>, Seq<char>)>,
    columns: Seq<ColumnView>,
) -> Seq<(Seq<char>, Seq<char>)> {
    project::own_names(
        project::deduplicated(
            bag::select(
                picked_names(map),
                |name: Seq<char>| query_support::has_column(columns, name),
            ),
        ),
    )
}

/// Whether a map picks every column in its place and under its own name.
pub open spec fn is_identity_map(
    map: Seq<(Seq<char>, Seq<char>)>,
    columns: Seq<ColumnView>,
) -> bool {
    &&& map.len() == columns.len()
    &&& forall|i: int|
        0 <= i < map.len() ==> (#[trigger] map[i]).0 == columns[i].name && map[i].1
            == columns[i].name
}

/// An operator under a projection, unless the projection does nothing.
pub open spec fn projected(
    map: Seq<(Seq<char>, Seq<char>)>,
    columns: Seq<ColumnView>,
    op: OpView,
) -> OpView {
    if is_identity_map(map, columns) {
        op
    } else {
        OpView::Project(map, Box::new(op))
    }
}

/// An operator without a projection that does nothing.
pub open spec fn simplified(op: OpView, tables: Seq<TableSpec>) -> Result<OpView, DbError> {
    match op {
        OpView::Project(map, u) => match query_support::schema_of(*u, tables) {
            Err(e) => Err(e),
            Ok(columns) => Ok(projected(map, columns, *u)),
        },
        _ => Ok(op),
    }
}

/// Whether every column that a projection picks is made by the one under it.
pub open spec fn composable(
    outer: Seq<(Seq<char>, Seq<char>)>,
    inner: Seq<(Seq<char>, Seq<char>)>,
) -> bool {
    forall|i: int|
        0 <= i < outer.len() ==> rewrite::source_of(inner, (#[trigger] outer[i]).0) is Some
}

/// Two projections as one.
pub open spec fn composed_map(
    outer: Seq<(Seq<char>, Seq<char>)>,
    inner: Seq<(Seq<char>, Seq<char>)>,
) -> Seq<(Seq<char>, Seq<char>)> {
    Seq::new(outer.len(), |i: int| (rewrite::source_of(inner, outer[i].0)->0, outer[i].1))
}

/// The projection to the columns that a projection and a filter under it need.
pub fn projection_for_filter(project: &ProjectData, filter: &FilterData) -> (r: ProjectData)
    ensures
        query::map_views(r.column_name_map@) == map_for_filter(
            query::map_views(project.column_name_map@),
            query::predicate_views(filter.predicates@),
        ),
        r.underlying@ == filter.underlying@,
{
    let ghost views = query::map_views(project.column_name_map@);
    let ghost ps = query::predicate_views(filter.predicates@);
    let ghost picked = picked_names(views);
    let mut map: Vec<(String, String)> = Vec::new();
    let mut i: usize = 0;
    proof {
        assert(picked.take(0) =~= Seq::<Seq<char>>::empty());
        assert(query::map_views(map@) =~= project::own_names(project::deduplicated(picked.take(0))));
    }
    while i < project.column_name_map.len()
        invariant
            i <= project.column_name_map@.len(),
            views == query::map_views(project.column_name_map@),
            picked == picked_names(views),
            query::map_views(map@) == project::own_names(
                project::deduplicated(picked.take(i as int)),
            ),
        decreases project.column_name_map@.len() - i,
    {
        proof {
            assert(picked[i as int] == project.column_name_map@[i as int].0@);
            assert(picked.take(i as int).push(picked[i as int]) =~= picked.take(i + 1));
        }
        push_name(&mut map, &project.column_name_map[i].0, Ghost(picked.take(i as int)));
        i = i + 1;
    }
    let mut j: usize = 0;
    proof {
        assert(picked.take(i as int) =~= picked);
        assert(ps.take(0) =~= Seq::<PredicateView>::empty());
        assert(picked + predicates_names(ps.take(0)) =~= picked);
    }
    while j < filter.predicates.len()
        invariant
            j <= filter.predicates@.len(),
            ps == query::predicate_views(filter.predicates@),
            query::map_views(map@) == project::own_names(
                project::deduplicated(picked + predicates_names(ps.take(j as int))),
            ),
        decreases filter.predicates@.len() - j,
    {
        let predicate = &filter.predicates[j];
        let ghost before = picked + predicates_names(ps.take(j as int));
        let ghost after = picked + predicates_names(ps.take(j + 1));
        proof {
            assert(ps.take(j + 1).drop_last() =~= ps.take(j as int));
            assert(ps.take(j + 1).last() == predicate@);
        }
        push_name(&mut map, &predicate.column_name, Ghost(before));
        match &predicate.value {
            ComparisionValue::Column(other) => {
                push_name(&mut map, other, Ghost(before.push(predicate@.column)));
                assert(before.push(predicate@.column).push(other@) =~= after);
            },
            _ => {
                assert(before.push(predicate@.column) =~= after);
            },
        }
        j = j + 1;
    }
    assert(ps.take(j as int) =~= ps);
    ProjectData { column_name_map: map, underlying: Box::new((&*filter.underlying).clone()) }
}

/// The map that picks the columns of one side that a projection needs.
pub fn projection_for_side(project: &ProjectData, schema: &Schema) -> (r: Vec<(String, String)>)
    ensures
        query::map_views(r@) == map_for_side(query::map_views(project.column_name_map@), schema@),
{
    let ghost views = query::map_views(project.column_name_map@);
    let ghost picked = picked_names(views);
    let ghost pick = |name: Seq<char>| query_support::has_column(schema@, name);
    let mut map: Vec<(String, String)> = Vec::new();
    let mut i: usize = 0;
    proof {
        assert(bag::select(picked.take(0), pick) =~= Seq::<Seq<char>>::empty());
        assert(query::map_views(map@) =~= project::own_names(
            project::deduplicated(bag::select(picked.take(0), pick)),
        ));
    }
    while i < project.column_name_map.len()
        invariant
            i <= project.column_name_map@.len(),
            views == query::map_views(project.column_name_map@),
            picked == picked_names(views),
            pick == (|name: Seq<char>| query_support::has_column(schema@, name)),
            query::map_views(map@) == project::own_names(
                project::deduplicated(bag::select(picked.take(i as int), pick)),
            ),
        decreases project.column_name_map@.len() - i,
    {
        let name = &project.column_name_map[i].0;
        proof {
            assert(picked[i as int] == name@);
            assert(picked.take(i as int).push(picked[i as int]) =~= picked.take(i + 1));
            bag::lemma_select_push(picked.take(i as int), picked[i as int], pick);
        }
        if schema.index_of(name.as_str()).is_some() {
            push_name(&mut map, name, Ghost(bag::select(picked.take(i as int), pick)));
        }
        i = i + 1;
    }
    assert(picked.take(i as int) =~= picked);
    map
}

/// Whether a map picks every column in its place and under its own name.
pub fn is_identity(map: &Vec<(String, String)>, schema: &Schema) -> (r: bool)
    ensures
        r == is_identity_map(query::map_views(map@), schema@),
{
    let ghost views = query::map_views(map@);
    let columns = schema.columns();
    if map.len() != columns.len() {
        return false;
    }
    let mut i: usize = 0;
    while i < map.len()
        invariant
            i <= map@.len(),
            map@.len() == columns@.len(),
            views == query::map_views(map@),
            schema@.len() == columns@.len(),
            forall|k: int| 0 <= k < columns@.len() ==> schema@[k].name == (
            #[trigger] columns@[k]).name@,
            forall|k: int|
                0 <= k < i ==> (#[trigger] views[k]).0 == schema@[k].name && views[k].1
                    == schema@[k].name,
        decreases map@.len() - i,
    {
        assert(schema@[i as int].name == columns@[i as int].name@);
        if !same_text(map[i].0.as_str(), columns[i].name.as_str()) || !same_text(
            map[i].1.as_str(),
            columns[i].name.as_str(),
        ) {
            assert(views[i as int].0 != schema@[i as int].name || views[i as int].1
                != schema@[i as int].name);
            return false;
        }
        i = i + 1;
    }
    true
}

/// An operator under a projection, unless the projection does nothing.
pub fn wrap_project_if_needed(map: Vec<(String, String)>, schema: &Schema, underlying: QueryOp) -> (r:
    QueryOp)
    ensures
        r@ == projected(query::map_views(map@), schema@, underlying@),
{
    if is_identity(&map, schema) {
        return underlying;
    }
    QueryOp::Project(ProjectData { column_name_map: map, underlying: Box::new(underlying) })
}

/// An operator without a projection that does nothing.
pub fn simplify_project(op: QueryOp, ctx: &DbContext) -> (r: Result<QueryOp, DbError>)
    ensures
        match simplified(op@, ctx.tables()) {
            Ok(o) => r matches Ok(x) && x@ == o,
            Err(e) => r matches Err(f) && f == e,
        },
{
    match op {
        QueryOp::Project(project) => {
            let schema = infer_schema(&project.underlying, ctx)?;
            if is_identity(&project.column_name_map, &schema) {
                let ProjectData { column_name_map: _, underlying } = project;
                return Ok(*underlying);
            }
            Ok(QueryOp::Project(project))
        },
        other => Ok(other),
    }
}

/// Two projections as one, or [`DbError::UnknownColumn`] where the outer one
/// picks what the inner one does not make.
pub fn compose_projects(outer: &ProjectData, inner: ProjectData) -> (r: Result<QueryOp, DbError>)
    ensures
        ({
            let a = query::map_views(outer.column_name_map@);
            let b = query::map_views(inner.column_name_map@);
            if composable(a, b) {
                r matches Ok(op) && op@ == OpView::Project(
                    composed_map(a, b),
                    Box::new(inner.underlying@),
                )
            } else {
                r matches Err(e) && e == DbError::UnknownColumn
            }
        }),
{
    let ghost a = query::map_views(outer.column_name_map@);
    let ghost b = query::map_views(inner.column_name_map@);
    let map = &outer.column_name_map;
    let mut composed: Vec<(String, String)> = Vec::with_capacity(map.len());
    let mut i: usize = 0;
    while i < map.len()
        invariant
            i <= map@.len(),
            map@ == outer.column_name_map@,
            a == query::map_views(map@),
            b == query::map_views(inner.column_name_map@),
            composed@.len() == i,
            forall|k: int|
                0 <= k < i ==> rewrite::source_of(b, (#[trigger] a[k]).0) is Some,
            forall|k: int|
                0 <= k < i ==> {
                    &&& (#[trigger] composed@[k]).0@ == rewrite::source_of(b, a[k].0)->0
                    &&& composed@[k].1@ == a[k].1
                },
        decreases map@.len() - i,
    {
        assert(a[i as int].0 == map@[i as int].0@);
        match remap_project_column(map[i].0.as_str(), &inner.column_name_map) {
            Some(from) => {
                composed.push((from, map[i].1.clone()));
            },
            None => {
                assert(!composable(a, b));
                return Err(DbError::UnknownColumn);
            },
        }
        i = i + 1;
    }
    assert(query::map_views(composed@) =~= composed_map(a, b));
    Ok(
        QueryOp::Project(
            ProjectData { column_name_map: composed, underlying: inner.underlying },
        ),
    )
}

} // verus!
