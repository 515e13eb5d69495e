//! Predicates moved to where they are met.

use vstd::prelude::*;

use crate::error::DbError;
use crate::executor::outcome;
use crate::query;
use crate::query::{
    ComparisionValue, FilterData, OpView, OperandView, Predicate, PredicateView, ProjectData,
    QueryOp,
};
use crate::query_support;
use crate::semantics;
use crate::semantics::Database;
use crate::text::same_text;

verus! {

/// An operator under a filter, if there is anything to filter by.
pub open spec fn wrapped(ps: Seq<PredicateView>, op: OpView) -> OpView {
    if ps.len() == 0 {
        op
    } else {
        OpView::Filter(ps, Box::new(op))
    }
}

/// An operator under a filter, if there is anything to filter by.
pub fn wrap_filter_if_needed(predicates: Vec<Predicate>, underlying: QueryOp) -> (r: QueryOp)
    ensures
        r@ == wrapped(query::predicate_views(predicates@), underlying@),
{
    if predicates.len() == 0 {
        underlying
    } else {
        QueryOp::Filter(FilterData { predicates, underlying: Box::new(underlying) })
    }
}

/// What an operator under a filter is.
pub proof fn lemma_wrapped(ps: Seq<PredicateView>, op: OpView, db: Database)
    ensures
        query_support::schema_of(wrapped(ps, op), db.tables) == query_support::schema_of(
            op,
            db.tables,
        ),
        semantics::rows_of(wrapped(ps, op), db) == outcome::side_rows(op, ps, db),
        semantics::op_known(wrapped(ps, op), db.tables) == outcome::side_known(
            op,
            ps,
            db.tables,
        ),
        wrapped(ps, op).size() <= op.size() + 1,
        forall|size: int, e: DbError| #[trigger]
            outcome::excuses(wrapped(ps, op), db, size, e) == outcome::side_excuses(
                op,
                ps,
                db,
                size,
                e,
            ),
{
    if ps.len() == 0 {
        outcome::lemma_filter_none(
            semantics::rows_of(op, db),
            semantics::compiled_all(query_support::schema_of(op, db.tables)->Ok_0, ps),
        );
    }
}

/// The column that is picked as one of the result, if there is one.
pub open spec fn source_of(map: Seq<(Seq<char>, Seq<char>)>, to: Seq<char>) -> Option<Seq<char>>
    decreases map.len(),
{
    if map.len() == 0 {
        None
    } else if map[0].1 == to {
        Some(map[0].0)
    } else {
        source_of(map.skip(1), to)
    }
}

/// The column that is picked as one of the result is that of the first pair
/// with its name.
pub proof fn lemma_source(map: Seq<(Seq<char>, Seq<char>)>, to: Seq<char>)
    ensures
        match source_of(map, to) {
            Some(from) => outcome::renames(map, to, from),
            None => forall|i: int| 0 <= i < map.len() ==> (#[trigger] map[i]).1 != to,
        },
    decreases map.len(),
{
    if map.len() > 0 {
        let rest = map.skip(1);
        lemma_source(rest, to);
        if map[0].1 != to {
            match source_of(rest, to) {
                Some(from) => {
                    let i = choose|i: int|
                        0 <= i < rest.len() && (#[trigger] rest[i]).1 == to && rest[i].0 == from
                            && forall|j: int| 0 <= j < i ==> (#[trigger] rest[j]).1 != to;
                    assert(map[i + 1] == rest[i]);
                    assert forall|j: int| 0 <= j < i + 1 implies (#[trigger] map[j]).1 != to by {
                        if j > 0 {
                            assert(rest[j - 1] == map[j]);
                        }
                    }
                },
                None => {
                    assert forall|i: int| 0 <= i < map.len() implies (#[trigger] map[i]).1
                        != to by {
                        if i > 0 {
                            assert(rest[i - 1] == map[i]);
                        }
                    }
                },
            }
        }
    }
}

/// The column that is picked as one of the result, if there is one.
pub fn remap_project_column(column: &str, map: &Vec<(String, String)>) -> (r: Option<String>)
    ensures
        match source_of(query::map_views(map@), column@) {
            Some(from) => r matches Some(name) && name@ == from,
            None => r is None,
        },
{
    let ghost views = query::map_views(map@);
    let mut i: usize = 0;
    assert(views.skip(0) =~= views);
    while i < map.len()
        invariant
            i <= map@.len(),
            views == query::map_views(map@),
            source_of(views, column@) == source_of(views.skip(i as int), column@),
        decreases map@.len() - i,
    {
        proof {
            assert(views.skip(i as int)[0] == views[i as int]);
            assert(views.skip(i as int).skip(1) =~= views.skip(i + 1));
        }
        if same_text(map[i].1.as_str(), column) {
            return Some(map[i].0.clone());
        }
        i = i + 1;
    }
    None
}

/// A predicate on the result of a projection, on the columns that are picked,
/// if they are picked from any.
pub open spec fn remapped_predicate(
    p: PredicateView,
    map: Seq<(Seq<char>, Seq<char>)>,
) -> Option<PredicateView> {
    match source_of(map, p.column) {
        None => None,
        Some(column) => match p.value {
            OperandView::Literal(_) => Some(PredicateView { column, ..p }),
            OperandView::Column(other) => match source_of(map, other) {
                None => None,
                Some(from) => Some(
                    PredicateView { column, value: OperandView::Column(from), ..p },
                ),
            },
        },
    }
}

/// A predicate on the result of a projection, on the columns that are picked.
pub fn remap_project_predicate(predicate: &Predicate, map: &Vec<(String, String)>) -> (r: Option<
    Predicate,
>)
    ensures
        match remapped_predicate(predicate@, query::map_views(map@)) {
            Some(q) => r matches Some(p) && p@ == q,
            None => r is None,
        },
{
    let column_name = match remap_project_column(predicate.column_name.as_str(), map) {
        Some(name) => name,
        None => {
            return None;
        },
    };
    let value = match &predicate.value {
        ComparisionValue::Column(other) => match remap_project_column(other.as_str(), map) {
            Some(name) => ComparisionValue::Column(name),
            None => {
                return None;
            },
        },
        other => other.clone(),
    };
    Some(Predicate { column_name, operator: predicate.operator, value })
}

/// Every predicate can be moved.
pub open spec fn can_remap(ps: Seq<PredicateView>, map: Seq<(Seq<char>, Seq<char>)>) -> bool {
    forall|i: int| 0 <= i < ps.len() ==> remapped_predicate(#[trigger] ps[i], map) is Some
}

/// Predicates on the result of a projection, on the columns that are picked;
/// none where one is on a column that is not picked.
pub fn remap_project_predicates(predicates: &Vec<Predicate>, project: &ProjectData) -> (r: Option<
    Vec<Predicate>,
>)
    ensures
        match r {
            Some(moved) => {
                &&& moved@.len() == predicates@.len()
                &&& forall|i: int|
                    0 <= i < moved@.len() ==> remapped_predicate(
                        predicates@[i]@,
                        query::map_views(project.column_name_map@),
                    ) == Some((#[trigger] moved@[i])@)
                &&& outcome::all_remapped(
                    query::predicate_views(predicates@),
                    query::predicate_views(moved@),
                    query::map_views(project.column_name_map@),
                )
            },
            None => !can_remap(
                query::predicate_views(predicates@),
                query::map_views(project.column_name_map@),
            ),
        },
{
    let ghost map = query::map_views(project.column_name_map@);
    let ghost all = query::predicate_views(predicates@);
    let mut out: Vec<Predicate> = Vec::with_capacity(predicates.len());
    let mut i: usize = 0;
    while i < predicates.len()
        invariant
            i <= predicates@.len(),
            map == query::map_views(project.column_name_map@),
            all == query::predicate_views(predicates@),
            out@.len() == i,
            forall|k: int|
                0 <= k < i ==> remapped_predicate(predicates@[k]@, map) == Some(
                    (#[trigger] out@[k])@,
                ),
        decreases predicates@.len() - i,
    {
        match remap_project_predicate(&predicates[i], &project.column_name_map) {
            Some(moved) => {
                out.push(moved);
            },
            None => {
                assert(remapped_predicate(all[i as int], map) is None);
                return None;
            },
        }
        i = i + 1;
    }
    proof {
        let qs = query::predicate_views(out@);
        assert forall|k: int| 0 <= k < all.len() implies outcome::remapped(
            #[trigger] all[k],
            qs[k],
            map,
        ) by {
            assert(remapped_predicate(predicates@[k]@, map) == Some(out@[k]@));
            lemma_source(map, all[k].column);
            if let OperandView::Column(other) = all[k].value {
                lemma_source(map, other);
            }
        }
    }
    Some(out)
}

} // verus!
