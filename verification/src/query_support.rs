//! Schemas of operators, and what predicates refer to.

use vstd::prelude::*;

use crate::catalog::db_context;
use crate::catalog::db_context::DbContext;
use crate::catalog::table::{ColumnView, TableSpec};
use crate::error::DbError;
use crate::query;
use crate::query::{ComparisionOperator, ComparisionValue, OpView, OperandView, Predicate, PredicateView, QueryOp};
use crate::row;
use crate::row::Schema;
use crate::text::same_text;

verus! {

/// The side of a cross product that a predicate refers to.
#[derive(Copy, Clone, Debug, Eq, PartialEq, Structural)]
pub enum PredicateSide {
    Left,
    Right,
    Cross,
}

/// The columns of the rows of an operator, or why it has none.
pub open spec fn schema_of(op: OpView, tables: Seq<TableSpec>) -> Result<Seq<ColumnView>, DbError>
    decreases op,
{
    match op {
        OpView::Scan(id) => match db_context::table_index(tables, id) {
            Some(i) => Ok(tables[i].columns()),
            None => Err(DbError::UnknownTable),
        },
        OpView::Filter(_, u) => schema_of(*u, tables),
        OpView::Project(map, u) => match schema_of(*u, tables) {
            Ok(columns) => if row::map_known(columns, map) {
                Ok(row::map_columns(columns, map))
            } else {
                Err(DbError::UnknownColumn)
            },
            Err(e) => Err(e),
        },
        OpView::Cross(l, r) => match schema_of(*l, tables) {
            Ok(a) => match schema_of(*r, tables) {
                Ok(b) => Ok(a + b),
                Err(e) => Err(e),
            },
            Err(e) => Err(e),
        },
        OpView::Sort(_, u) => schema_of(*u, tables),
    }
}

/// The columns of the rows of an operator.
pub fn infer_schema(op: &QueryOp, ctx: &DbContext) -> (r: Result<Schema, DbError>)
    ensures
        match schema_of(op@, ctx.tables()) {
            Ok(columns) => r matches Ok(s) && s@ == columns,
            Err(e) => r matches Err(f) && f == e,
        },
    decreases *op,
{
    match op {
        QueryOp::Scan(scan) => {
            let table = find_table_spec(ctx, scan.table_id.as_str())?;
            Ok(Schema::from_table_spec(table))
        },
        QueryOp::Filter(filter) => infer_schema(&filter.underlying, ctx),
        QueryOp::Project(project) => {
            let child = infer_schema(&project.underlying, ctx)?;
            let (projected, _) = child.project(&project.column_name_map)?;
            Ok(projected)
        },
        QueryOp::Cross(cross) => {
            let left = infer_schema(&cross.left, ctx)?;
            let right = infer_schema(&cross.right, ctx)?;
            Ok(Schema::combine(&left, &right))
        },
        QueryOp::Sort(sort) => infer_schema(&sort.underlying, ctx),
    }
}

/// The first table with this name or file id.
pub fn find_table_spec<'a>(ctx: &'a DbContext, table_id: &str) -> (r: Result<&'a TableSpec, DbError>)
    ensures
        match db_context::table_index(ctx.tables(), table_id@) {
            Some(i) => r matches Ok(t) && *t == ctx.tables()[i] && 0 <= i < ctx.tables().len(),
            None => r matches Err(e) && e == DbError::UnknownTable,
        },
{
    let tables = ctx.table_specs();
    let mut i: usize = 0;
    proof {
        db_context::lemma_table_index(tables@, table_id@);
    }
    while i < tables.len()
        invariant
            i <= tables@.len(),
            tables@ == ctx.tables(),
            forall|j: int| 0 <= j < i ==> !(#[trigger] tables@[j]).answers_to(table_id@),
            match db_context::table_index(tables@, table_id@) {
                Some(i) => 0 <= i < tables@.len() && tables@[i].answers_to(table_id@) && forall|
                    j: int,
                |
                    0 <= j < i ==> !(#[trigger] tables@[j]).answers_to(table_id@),
                None => forall|j: int|
                    0 <= j < tables@.len() ==> !(#[trigger] tables@[j]).answers_to(table_id@),
            },
        decreases tables@.len() - i,
    {
        if same_text(tables[i].name.as_str(), table_id) || same_text(
            tables[i].file_id.as_str(),
            table_id,
        ) {
            assert(tables@[i as int].answers_to(table_id@));
            return Ok(&tables[i]);
        }
        i = i + 1;
    }
    Err(DbError::UnknownTable)
}

/// A column with the name is there.
pub open spec fn has_column(columns: Seq<ColumnView>, name: Seq<char>) -> bool {
    row::column_index(columns, name) is Some
}

/// The side of a cross product that a name means, if it is one of just one.
pub open spec fn name_side(
    name: Seq<char>,
    left: Seq<ColumnView>,
    right: Seq<ColumnView>,
) -> PredicateSide {
    if has_column(left, name) && !has_column(right, name) {
        PredicateSide::Left
    } else if !has_column(left, name) && has_column(right, name) {
        PredicateSide::Right
    } else {
        PredicateSide::Cross
    }
}

/// The side of a cross product that all columns of a predicate belong to.
pub open spec fn predicate_side(
    p: PredicateView,
    left: Seq<ColumnView>,
    right: Seq<ColumnView>,
) -> PredicateSide {
    let first = name_side(p.column, left, right);
    match p.value {
        OperandView::Column(other) => if name_side(other, left, right) == first {
            first
        } else {
            PredicateSide::Cross
        },
        OperandView::Literal(_) => first,
    }
}

/// The predicates of one side, in their order.
pub open spec fn side_predicates(
    predicates: Seq<PredicateView>,
    left: Seq<ColumnView>,
    right: Seq<ColumnView>,
    side: PredicateSide,
) -> Seq<PredicateView>
    decreases predicates.len(),
{
    if predicates.len() == 0 {
        Seq::empty()
    } else {
        let front = side_predicates(predicates.drop_last(), left, right, side);
        if predicate_side(predicates.last(), left, right) == side {
            front.push(predicates.last())
        } else {
            front
        }
    }
}

/// The predicates on the left side, on the right side, and on both.
pub fn split_cross_predicates(
    predicates: &Vec<Predicate>,
    left_schema: &Schema,
    right_schema: &Schema,
) -> (r: (Vec<Predicate>, Vec<Predicate>, Vec<Predicate>))
    ensures
        ({
            let all = query::predicate_views(predicates@);
            &&& query::predicate_views(r.0@) == side_predicates(
                all,
                left_schema@,
                right_schema@,
                PredicateSide::Left,
            )
            &&& query::predicate_views(r.1@) == side_predicates(
                all,
                left_schema@,
                right_schema@,
                PredicateSide::Right,
            )
            &&& query::predicate_views(r.2@) == side_predicates(
                all,
                left_schema@,
                right_schema@,
                PredicateSide::Cross,
            )
        }),
{
    let ghost all = query::predicate_views(predicates@);
    let ghost (l, r) = (left_schema@, right_schema@);
    let mut left: Vec<Predicate> = Vec::new();
    let mut right: Vec<Predicate> = Vec::new();
    let mut cross: Vec<Predicate> = Vec::new();
    let mut i: usize = 0;
    proof {
        assert(query::predicate_views(left@) =~= Seq::<PredicateView>::empty());
        assert(all.take(0) =~= Seq::<PredicateView>::empty());
    }
    while i < predicates.len()
        invariant
            i <= predicates@.len(),
            all == query::predicate_views(predicates@),
            l == left_schema@,
            r == right_schema@,
            query::predicate_views(left@) == side_predicates(
                all.take(i as int),
                l,
                r,
                PredicateSide::Left,
            ),
            query::predicate_views(right@) == side_predicates(
                all.take(i as int),
                l,
                r,
                PredicateSide::Right,
            ),
            query::predicate_views(cross@) == side_predicates(
                all.take(i as int),
                l,
                r,
                PredicateSide::Cross,
            ),
        decreases predicates@.len() - i,
    {
        let ghost (a, b, c) = (left@, right@, cross@);
        proof {
            assert(all.take(i + 1).drop_last() =~= all.take(i as int));
            assert(all.take(i + 1).last() == predicates@[i as int]@);
        }
        let copy = predicates[i].clone();
        match classify_predicate(&predicates[i], left_schema, right_schema) {
            PredicateSide::Left => {
                left.push(copy);
                assert(query::predicate_views(left@) =~= query::predicate_views(a).push(copy@));
            },
            PredicateSide::Right => {
                right.push(copy);
                assert(query::predicate_views(right@) =~= query::predicate_views(b).push(copy@));
            },
            PredicateSide::Cross => {
                cross.push(copy);
                assert(query::predicate_views(cross@) =~= query::predicate_views(c).push(copy@));
            },
        }
        i = i + 1;
    }
    assert(all.take(i as int) =~= all);
    (left, right, cross)
}

/// The side of a cross product that all columns of a predicate belong to.
pub fn classify_predicate(
    predicate: &Predicate,
    left_schema: &Schema,
    right_schema: &Schema,
) -> (r: PredicateSide)
    ensures
        r == predicate_side(predicate@, left_schema@, right_schema@),
{
    let first = classify_name(predicate.column_name.as_str(), left_schema, right_schema);
    match &predicate.value {
        ComparisionValue::Column(other) => {
            let second = classify_name(other.as_str(), left_schema, right_schema);
            if second == first {
                first
            } else {
                PredicateSide::Cross
            }
        },
        _ => first,
    }
}

fn classify_name(name: &str, left_schema: &Schema, right_schema: &Schema) -> (r: PredicateSide)
    ensures
        r == name_side(name@, left_schema@, right_schema@),
{
    match (left_schema.index_of(name).is_some(), right_schema.index_of(name).is_some()) {
        (true, false) => PredicateSide::Left,
        (false, true) => PredicateSide::Right,
        _ => PredicateSide::Cross,
    }
}

/// The names of the columns that a predicate compares.
pub open spec fn predicate_names(p: PredicateView) -> Seq<Seq<char>> {
    match p.value {
        OperandView::Column(other) => seq![p.column, other],
        OperandView::Literal(_) => seq![p.column],
    }
}

/// The names of the columns that a predicate compares.
pub fn predicate_columns(predicate: &Predicate) -> (r: Vec<&str>)
    ensures
        r@.len() == predicate_names(predicate@).len(),
        forall|i: int| 0 <= i < r@.len() ==> (#[trigger] r@[i])@ == predicate_names(predicate@)[i],
{
    let mut columns: Vec<&str> = Vec::new();
    columns.push(predicate.column_name.as_str());
    match &predicate.value {
        ComparisionValue::Column(other) => {
            columns.push(other.as_str());
        },
        _ => {},
    }
    columns
}

/// The columns that a predicate sets equal, one of each side, where it is such
/// a predicate.
pub open spec fn key_pair(p: PredicateView, left: Seq<ColumnView>, right: Seq<ColumnView>) -> Option<
    (int, int),
> {
    if p.operator != ComparisionOperator::EQ {
        None
    } else {
        match p.value {
            OperandView::Literal(_) => None,
            OperandView::Column(other) => if name_side(p.column, left, right) is Left && name_side(
                other,
                left,
                right,
            ) is Right {
                Some((row::column_index(left, p.column)->0, row::column_index(right, other)->0))
            } else if name_side(p.column, left, right) is Right && name_side(other, left, right)
                is Left {
                Some((row::column_index(left, other)->0, row::column_index(right, p.column)->0))
            } else {
                None
            },
        }
    }
}

/// The columns that predicates set equal, in their order.
pub open spec fn key_pairs(
    predicates: Seq<PredicateView>,
    left: Seq<ColumnView>,
    right: Seq<ColumnView>,
) -> Seq<(int, int)>
    decreases predicates.len(),
{
    if predicates.len() == 0 {
        Seq::empty()
    } else {
        let front = key_pairs(predicates.drop_last(), left, right);
        match key_pair(predicates.last(), left, right) {
            Some(k) => front.push(k),
            None => front,
        }
    }
}

/// The columns of each side that predicates set equal to one another; none
/// where no predicate does.
pub fn extract_join_keys(
    predicates: &Vec<Predicate>,
    left_schema: &Schema,
    right_schema: &Schema,
) -> (r: Option<(Vec<usize>, Vec<usize>)>)
    ensures
        ({
            let keys = key_pairs(
                query::predicate_views(predicates@),
                left_schema@,
                right_schema@,
            );
            match r {
                None => keys.len() == 0,
                Some((left, right)) => {
                    &&& keys.len() > 0
                    &&& left@.len() == keys.len()
                    &&& right@.len() == keys.len()
                    &&& forall|i: int|
                        0 <= i < keys.len() ==> {
                            &&& #[trigger] left@[i] == keys[i].0
                            &&& left@[i] < left_schema@.len()
                        }
                    &&& forall|i: int|
                        0 <= i < keys.len() ==> {
                            &&& #[trigger] right@[i] == keys[i].1
                            &&& right@[i] < right_schema@.len()
                        }
                },
            }
        }),
{
    let ghost all = query::predicate_views(predicates@);
    let ghost (l, r) = (left_schema@, right_schema@);
    let mut left: Vec<usize> = Vec::new();
    let mut right: Vec<usize> = Vec::new();
    let mut i: usize = 0;
    assert(all.take(0) =~= Seq::<PredicateView>::empty());
    while i < predicates.len()
        invariant
            i <= predicates@.len(),
            all == query::predicate_views(predicates@),
            l == left_schema@,
            r == right_schema@,
            left@.len() == key_pairs(all.take(i as int), l, r).len(),
            right@.len() == left@.len(),
            forall|k: int|
                0 <= k < left@.len() ==> {
                    &&& #[trigger] left@[k] == key_pairs(all.take(i as int), l, r)[k].0
                    &&& left@[k] < l.len()
                },
            forall|k: int|
                0 <= k < right@.len() ==> {
                    &&& #[trigger] right@[k] == key_pairs(all.take(i as int), l, r)[k].1
                    &&& right@[k] < r.len()
                },
        decreases predicates@.len() - i,
    {
        proof {
            assert(all.take(i + 1).drop_last() =~= all.take(i as int));
            assert(all.take(i + 1).last() == predicates@[i as int]@);
        }
        let predicate = &predicates[i];
        i = i + 1;
        if predicate.operator != ComparisionOperator::EQ {
            continue;
        }
        let other = match &predicate.value {
            ComparisionValue::Column(other) => other.as_str(),
            _ => {
                continue;
            },
        };
        let name = predicate.column_name.as_str();
        match (
            left_schema.index_of(name),
            right_schema.index_of(name),
            left_schema.index_of(other),
            right_schema.index_of(other),
        ) {
            (Some(left_index), None, None, Some(right_index)) => {
                left.push(left_index);
                right.push(right_index);
            },
            (None, Some(right_index), Some(left_index), None) => {
                left.push(left_index);
                right.push(right_index);
            },
            _ => {},
        }
    }
    assert(all.take(i as int) =~= all);
    if left.len() == 0 {
        None
    } else {
        Some((left, right))
    }
}

} // verus!
