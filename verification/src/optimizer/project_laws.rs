//! Rewriting a projection leaves its answers right.

use vstd::prelude::*;

use crate::bag;
use crate::catalog::table::ColumnView;
use crate::executor::outcome;
use crate::executor::project;
use crate::executor::rewrite;
use crate::optimizer::congruence;
use crate::optimizer::equivalence;
use crate::optimizer::filter_laws;
use crate::optimizer::projections;
use crate::optimizer::rules;
use crate::query::{OpView, OperandView, PredicateView, SortSpecView};
use crate::query_support;
use crate::row;
use crate::scan_pipeline;
use crate::semantics;
use crate::semantics::{Database, RowView};

verus! {

broadcast use semantics::lemma_all_sound;

/// An operator stands for itself under a projection that does nothing.
pub proof fn lemma_projected_stands(
    map: Seq<(Seq<char>, Seq<char>)>,
    u: OpView,
    db: Database,
    g: Set<PredicateView>,
)
    requires
        semantics::all_sound(db),
        equivalence::clear(OpView::Project(map, Box::new(u)), db.tables, g),
    ensures
        equivalence::stands_for(
            projections::projected(map, equivalence::cols(u, db.tables), u),
            OpView::Project(map, Box::new(u)),
            db,
            g,
        ),
        equivalence::cols(
            projections::projected(map, equivalence::cols(u, db.tables), u),
            db.tables,
        ) == equivalence::cols(OpView::Project(map, Box::new(u)), db.tables),
{
    let a = OpView::Project(map, Box::new(u));
    let c = equivalence::cols(u, db.tables);
    semantics::lemma_known_schema(u, db.tables);
    assert(equivalence::told_apart(u, db.tables, g));
    if projections::is_identity_map(map, c) {
        let picks = row::map_indexes(c, map);
        assert forall|i: int| 0 <= i < map.len() implies row::column_index(
            c,
            (#[trigger] map[i]).0,
        ) == Some(i) by {
            equivalence::lemma_own_place(c, i);
        }
        assert(picks =~= scan_pipeline::identity(c.len()));
        assert(row::map_columns(c, map) =~= c) by {
            assert forall|i: int| 0 <= i < c.len() implies row::map_columns(c, map)[i] == c[i] by {
                assert(row::column_index(c, map[i].0) == Some(i));
            }
        }
        equivalence::lemma_rows_wide(u, db);
        scan_pipeline::lemma_project_identity(semantics::rows_of(u, db), c.len());
        assert(semantics::rows_of(a, db) == semantics::rows_of(u, db));
        assert(equivalence::answers_too(u, a, db)) by {
            assert forall|out: Seq<RowView>| #[trigger]
                semantics::delivers(u, db, out) implies semantics::delivers(a, db, out) by {
                equivalence::lemma_answer_wide(u, db, out);
                scan_pipeline::lemma_project_identity(out, c.len());
                outcome::lemma_project_delivers(map, u, db, out);
            }
        }
        equivalence::lemma_stands_same(u, a, db, g);
    } else {
        equivalence::lemma_stands_self(a, db, g);
    }
}

/// What two projections pick a column from is what their composition does.
proof fn lemma_composed_source(
    outer: Seq<(Seq<char>, Seq<char>)>,
    inner: Seq<(Seq<char>, Seq<char>)>,
    name: Seq<char>,
)
    requires
        projections::composable(outer, inner),
    ensures
        rewrite::source_of(projections::composed_map(outer, inner), name) == match rewrite::source_of(
            outer,
            name,
        ) {
            Some(middle) => rewrite::source_of(inner, middle),
            None => None,
        },
{
    let both = projections::composed_map(outer, inner);
    rewrite::lemma_source(both, name);
    rewrite::lemma_source(outer, name);
    match rewrite::source_of(outer, name) {
        Some(middle) => {
            let i = choose|i: int|
                0 <= i < outer.len() && (#[trigger] outer[i]).1 == name && outer[i].0 == middle
                    && forall|j: int| 0 <= j < i ==> (#[trigger] outer[j]).1 != name;
            assert(both[i].1 == name);
            let from = rewrite::source_of(both, name)->0;
            let k = choose|k: int|
                0 <= k < both.len() && (#[trigger] both[k]).1 == name && both[k].0 == from
                    && forall|j: int| 0 <= j < k ==> (#[trigger] both[j]).1 != name;
            assert(outer[k].1 == name);
            assert(k == i) by {
                if k < i {
                    assert(outer[k].1 != name);
                }
                if i < k {
                    assert(both[i].1 != name);
                }
            }
            assert(rewrite::source_of(inner, outer[i].0) is Some);
        },
        None => {
            if let Some(from) = rewrite::source_of(both, name) {
                let k = choose|k: int|
                    0 <= k < both.len() && (#[trigger] both[k]).1 == name && both[k].0 == from
                        && forall|j: int| 0 <= j < k ==> (#[trigger] both[j]).1 != name;
                assert(outer[k].1 == name);
            }
        },
    }
}

/// Predicates that stay in a set below each of two projections stay in it below
/// both.
proof fn lemma_composed_moves(
    outer: Seq<(Seq<char>, Seq<char>)>,
    inner: Seq<(Seq<char>, Seq<char>)>,
    g: Set<PredicateView>,
)
    requires
        projections::composable(outer, inner),
        equivalence::moves_within(outer, g),
        equivalence::moves_within(inner, g),
    ensures
        equivalence::moves_within(projections::composed_map(outer, inner), g),
{
    reveal(equivalence::moves_within);
    let both = projections::composed_map(outer, inner);
    assert forall|p: PredicateView|
        g.contains(p) && #[trigger] rewrite::remapped_predicate(p, both) is Some implies g.contains(
        rewrite::remapped_predicate(p, both)->0,
    ) by {
        lemma_composed_source(outer, inner, p.column);
        if let OperandView::Column(other) = p.value {
            lemma_composed_source(outer, inner, other);
        }
        let m = rewrite::remapped_predicate(p, outer)->0;
        assert(g.contains(m));
        assert(rewrite::remapped_predicate(m, inner) == rewrite::remapped_predicate(p, both));
    }
}

/// Predicates stay as they are below a projection that keeps names.
proof fn lemma_own_moves(map: Seq<(Seq<char>, Seq<char>)>, g: Set<PredicateView>)
    requires
        forall|i: int| 0 <= i < map.len() ==> (#[trigger] map[i]).0 == map[i].1,
    ensures
        equivalence::moves_within(map, g),
{
    reveal(equivalence::moves_within);
    assert forall|p: PredicateView|
        g.contains(p) && #[trigger] rewrite::remapped_predicate(p, map) is Some implies g.contains(
        rewrite::remapped_predicate(p, map)->0,
    ) by {
        rewrite::lemma_source(map, p.column);
        if let OperandView::Column(other) = p.value {
            rewrite::lemma_source(map, other);
        }
        assert(rewrite::remapped_predicate(p, map)->0 == p);
    }
}

/// Two projections pick what one does.
proof fn lemma_composed(
    columns: Seq<ColumnView>,
    outer: Seq<(Seq<char>, Seq<char>)>,
    inner: Seq<(Seq<char>, Seq<char>)>,
    g: Set<PredicateView>,
)
    requires
        row::map_known(columns, inner),
        row::map_known(row::map_columns(columns, inner), outer),
        equivalence::moves_within(outer, g),
        equivalence::moves_within(inner, g),
    ensures
        projections::composable(outer, inner),
        row::map_known(columns, projections::composed_map(outer, inner)),
        equivalence::moves_within(projections::composed_map(outer, inner), g),
        row::map_columns(columns, projections::composed_map(outer, inner)) == row::map_columns(
            row::map_columns(columns, inner),
            outer,
        ),
        scan_pipeline::indexes_below(
            row::map_indexes(row::map_columns(columns, inner), outer),
            inner.len() as int,
        ),
        row::map_indexes(columns, projections::composed_map(outer, inner))
            == scan_pipeline::composed(
            row::map_indexes(columns, inner),
            row::map_indexes(row::map_columns(columns, inner), outer),
        ),
{
    let made = row::map_columns(columns, inner);
    let both = projections::composed_map(outer, inner);
    let oi = row::map_indexes(made, outer);
    assert forall|i: int| 0 <= i < outer.len() implies {
        let from = (#[trigger] both[i]).0;
        &&& rewrite::source_of(inner, outer[i].0) == Some(from)
        &&& row::column_index(columns, from) is Some
        &&& 0 <= oi[i] < inner.len()
        &&& row::map_indexes(columns, inner)[oi[i]] == row::column_index(columns, from)->0
        &&& made[oi[i]].data_type == columns[row::column_index(columns, from)->0].data_type
    } by {
        assert(row::column_index(made, outer[i].0) is Some);
        filter_laws::lemma_source_known(columns, inner, outer[i].0);
        let k = outcome::lemma_renamed_index(columns, inner, outer[i].0, both[i].0);
    }
    assert forall|i: int| 0 <= i < outer.len() implies rewrite::source_of(
        inner,
        (#[trigger] outer[i]).0,
    ) is Some by {
        assert(both[i].1 == outer[i].1);
    }
    assert forall|i: int| 0 <= i < oi.len() implies 0 <= #[trigger] oi[i] < inner.len() by {
        assert(both[i].1 == outer[i].1);
    }
    lemma_composed_moves(outer, inner, g);
    assert(row::map_columns(columns, both) =~= row::map_columns(made, outer)) by {
        assert forall|i: int| 0 <= i < both.len() implies row::map_columns(columns, both)[i]
            == row::map_columns(made, outer)[i] by {
            assert(both[i].1 == outer[i].1);
        }
    }
    assert(row::map_indexes(columns, both) =~= scan_pipeline::composed(
        row::map_indexes(columns, inner),
        oi,
    )) by {
        assert forall|i: int| 0 <= i < both.len() implies row::map_indexes(columns, both)[i]
            == scan_pipeline::composed(row::map_indexes(columns, inner), oi)[i] by {
            assert(both[i].1 == outer[i].1);
        }
    }
}

/// The right answers of two projections are those of one.
proof fn lemma_twice_answers(
    outer: Seq<(Seq<char>, Seq<char>)>,
    inner: Seq<(Seq<char>, Seq<char>)>,
    u: OpView,
    db: Database,
    out: Seq<RowView>,
    g: Set<PredicateView>,
)
    requires
        semantics::op_known(OpView::Project(inner, Box::new(u)), db.tables),
        row::map_known(
            row::map_columns(equivalence::cols(u, db.tables), inner),
            outer,
        ),
        equivalence::moves_within(outer, g),
        equivalence::moves_within(inner, g),
    ensures
        ({
            let a = OpView::Project(outer, Box::new(OpView::Project(inner, Box::new(u))));
            let b = OpView::Project(projections::composed_map(outer, inner), Box::new(u));
            &&& semantics::rows_of(a, db) == semantics::rows_of(b, db)
            &&& semantics::delivers(a, db, out) <==> semantics::delivers(b, db, out)
        }),
{
    let once = projections::composed_map(outer, inner);
    let below = OpView::Project(inner, Box::new(u));
    let a = OpView::Project(outer, Box::new(below));
    let b = OpView::Project(once, Box::new(u));
    let c = equivalence::cols(u, db.tables);
    semantics::lemma_known_schema(u, db.tables);
    let made = row::map_columns(c, inner);
    assert(equivalence::cols(below, db.tables) == made);
    lemma_composed(c, outer, inner, g);
    let ii = row::map_indexes(c, inner);
    let oi = row::map_indexes(made, outer);
    let bi = row::map_indexes(c, once);
    scan_pipeline::lemma_project_composed(semantics::rows_of(u, db), ii, oi);
    assert(semantics::rows_of(below, db) == semantics::project_rows(semantics::rows_of(u, db), ii));
    assert(semantics::is_pipeline(below) == semantics::is_pipeline(u));
    assert(semantics::is_sorted_chain(below) == semantics::is_sorted_chain(u));
    if semantics::is_sorted_chain(u) {
        if semantics::delivers(b, db, out) {
            let e = choose|e: Seq<RowView>| #[trigger]
                semantics::is_projected(out, e, bi) && semantics::delivers(u, db, e);
            scan_pipeline::lemma_project_composed(e, ii, oi);
            outcome::lemma_project_delivers(inner, u, db, e);
            outcome::lemma_project_delivers(outer, below, db, semantics::project_rows(e, ii));
        }
        if semantics::delivers(a, db, out) {
            let d = choose|d: Seq<RowView>| #[trigger]
                semantics::is_projected(out, d, oi) && semantics::delivers(below, db, d);
            let e = choose|e: Seq<RowView>| #[trigger]
                semantics::is_projected(d, e, ii) && semantics::delivers(u, db, e);
            scan_pipeline::lemma_project_composed(e, ii, oi);
            outcome::lemma_project_delivers(once, u, db, e);
        }
    }
}

/// One projection stands for two, and two for one.
pub proof fn lemma_projected_twice(
    outer: Seq<(Seq<char>, Seq<char>)>,
    inner: Seq<(Seq<char>, Seq<char>)>,
    u: OpView,
    db: Database,
    g: Set<PredicateView>,
)
    requires
        semantics::all_sound(db),
        equivalence::clear(
            OpView::Project(outer, Box::new(OpView::Project(inner, Box::new(u)))),
            db.tables,
            g,
        ),
    ensures
        projections::composable(outer, inner),
        equivalence::stands_for(
            OpView::Project(projections::composed_map(outer, inner), Box::new(u)),
            OpView::Project(outer, Box::new(OpView::Project(inner, Box::new(u)))),
            db,
            g,
        ),
        equivalence::stands_for(
            OpView::Project(outer, Box::new(OpView::Project(inner, Box::new(u)))),
            OpView::Project(projections::composed_map(outer, inner), Box::new(u)),
            db,
            g,
        ),
        equivalence::cols(
            OpView::Project(projections::composed_map(outer, inner), Box::new(u)),
            db.tables,
        ) == equivalence::cols(
            OpView::Project(outer, Box::new(OpView::Project(inner, Box::new(u)))),
            db.tables,
        ),
{
    let once = projections::composed_map(outer, inner);
    let below = OpView::Project(inner, Box::new(u));
    let a = OpView::Project(outer, Box::new(below));
    let b = OpView::Project(once, Box::new(u));
    let c = equivalence::cols(u, db.tables);
    assert(semantics::op_known(below, db.tables));
    assert(equivalence::told_apart(below, db.tables, g));
    assert(equivalence::told_apart(u, db.tables, g));
    semantics::lemma_known_schema(u, db.tables);
    let made = row::map_columns(c, inner);
    assert(equivalence::cols(below, db.tables) == made);
    lemma_composed(c, outer, inner, g);
    assert(equivalence::cols(a, db.tables) == row::map_columns(made, outer));
    assert(equivalence::cols(b, db.tables) == row::map_columns(c, once));
    assert(equivalence::clear(b, db.tables, g));
    lemma_twice_answers(outer, inner, u, db, Seq::empty(), g);
    assert(semantics::is_pipeline(below) == semantics::is_pipeline(u));
    assert(semantics::is_sorted_chain(below) == semantics::is_sorted_chain(u));
    assert(equivalence::joins_nothing(below) == equivalence::joins_nothing(u));
    assert(equivalence::answers_too(b, a, db) && equivalence::answers_too(a, b, db)) by {
        assert forall|out: Seq<RowView>|
            semantics::delivers(b, db, out) == semantics::delivers(a, db, out) by {
            lemma_twice_answers(outer, inner, u, db, out, g);
        }
    }
    equivalence::lemma_stands_same(b, a, db, g);
    equivalence::lemma_stands_same(a, b, db, g);
}

/// Names without those that came before are all different.
proof fn lemma_deduplicated_distinct(names: Seq<Seq<char>>)
    ensures
        forall|i: int, j: int|
            0 <= i < j < project::deduplicated(names).len() ==> (#[trigger] project::deduplicated(
                names,
            )[i]) != (#[trigger] project::deduplicated(names)[j]),
    decreases names.len(),
{
    if names.len() > 0 {
        lemma_deduplicated_distinct(names.drop_last());
        let front = project::deduplicated(names.drop_last());
        let all = project::deduplicated(names);
        assert forall|i: int, j: int| 0 <= i < j < all.len() implies #[trigger] all[i]
            != #[trigger] all[j] by {
            assert(all[i] == front[i]);
            if j < front.len() {
                assert(all[j] == front[j]);
            } else {
                assert(front.contains(front[i]));
            }
        }
    }
}

/// Columns picked under their own names, each once.
pub proof fn lemma_own_names(columns: Seq<ColumnView>, names: Seq<Seq<char>>, g: Set<PredicateView>)
    requires
        forall|i: int| 0 <= i < names.len() ==> query_support::has_column(
            columns,
            #[trigger] names[i],
        ),
    ensures
        ({
            let map = project::own_names(project::deduplicated(names));
            &&& row::map_known(columns, map)
            &&& equivalence::moves_within(map, g)
            &&& equivalence::distinct_names(row::map_columns(columns, map))
        }),
{
    let kept = project::deduplicated(names);
    let map = project::own_names(kept);
    assert forall|i: int| 0 <= i < map.len() implies row::column_index(
        columns,
        (#[trigger] map[i]).0,
    ) is Some by {
        assert(kept.contains(kept[i]));
        project::lemma_deduplicated(names, kept[i]);
        let k = choose|k: int| 0 <= k < names.len() && names[k] == kept[i];
        assert(query_support::has_column(columns, names[k]));
    }
    lemma_deduplicated_distinct(names);
    lemma_own_moves(map, g);
    let made = row::map_columns(columns, map);
    assert forall|i: int, j: int| 0 <= i < j < made.len() implies (#[trigger] made[i]).name != (
    #[trigger] made[j]).name by {
        assert(kept[i] != kept[j]);
    }
}

/// A column that is picked under its own name has it.
pub proof fn lemma_own_name(columns: Seq<ColumnView>, names: Seq<Seq<char>>, name: Seq<char>)
    requires
        names.contains(name),
    ensures
        ({
            let map = project::own_names(project::deduplicated(names));
            &&& rewrite::source_of(map, name) == Some(name)
            &&& query_support::has_column(row::map_columns(columns, map), name)
        }),
{
    let kept = project::deduplicated(names);
    let map = project::own_names(kept);
    let made = row::map_columns(columns, map);
    project::lemma_deduplicated(names, name);
    let k = choose|k: int| 0 <= k < kept.len() && kept[k] == name;
    assert(map[k].1 == name);
    assert(made[k].name == name);
    rewrite::lemma_source(map, name);
    row::lemma_column_index(made, name);
    let from = rewrite::source_of(map, name)->0;
    let i = choose|i: int|
        0 <= i < map.len() && (#[trigger] map[i]).1 == name && map[i].0 == from && forall|j: int|
            0 <= j < i ==> (#[trigger] map[j]).1 != name;
    assert(map[i].0 == map[i].1);
}

/// The names of known columns that predicates compare.
proof fn lemma_predicates_names(columns: Seq<ColumnView>, ps: Seq<PredicateView>)
    requires
        semantics::all_known(columns, ps),
    ensures
        forall|i: int|
            0 <= i < projections::predicates_names(ps).len() ==> query_support::has_column(
                columns,
                #[trigger] projections::predicates_names(ps)[i],
            ),
        forall|i: int|
            0 <= i < ps.len() ==> {
                let p = #[trigger] ps[i];
                &&& projections::predicates_names(ps).contains(p.column)
                &&& p.value matches OperandView::Column(other)
                    ==> projections::predicates_names(ps).contains(other)
            },
    decreases ps.len(),
{
    if ps.len() > 0 {
        let front = ps.drop_last();
        let last = ps.last();
        assert forall|i: int| 0 <= i < front.len() implies semantics::predicate_known(
            columns,
            #[trigger] front[i],
        ) by {
            assert(front[i] == ps[i]);
        }
        assert(semantics::predicate_known(columns, ps[ps.len() - 1]));
        lemma_predicates_names(columns, front);
        let before = projections::predicates_names(front);
        let own = query_support::predicate_names(last);
        let all = projections::predicates_names(ps);
        assert(all == before + own);
        assert forall|i: int| 0 <= i < all.len() implies query_support::has_column(
            columns,
            #[trigger] all[i],
        ) by {
            if i < before.len() {
                assert(all[i] == before[i]);
            } else {
                assert(all[i] == own[i - before.len()]);
            }
        }
        assert forall|i: int| 0 <= i < ps.len() implies {
            let p = #[trigger] ps[i];
            &&& all.contains(p.column)
            &&& p.value matches OperandView::Column(other) ==> all.contains(other)
        } by {
            let p = ps[i];
            if i < front.len() {
                assert(p == front[i]);
                assert(before.contains(p.column));
                let k = choose|k: int| 0 <= k < before.len() && before[k] == p.column;
                assert(all[k] == p.column);
                if let OperandView::Column(other) = p.value {
                    assert(before.contains(other));
                    let m = choose|m: int| 0 <= m < before.len() && before[m] == other;
                    assert(all[m] == other);
                }
            } else {
                assert(all[before.len() as int] == own[0]);
                if let OperandView::Column(other) = p.value {
                    assert(all[before.len() as int + 1] == own[1]);
                }
            }
        }
    }
}

/// Picking columns by a map from those that it needs is picking them by the map.
proof fn lemma_through_own(
    columns: Seq<ColumnView>,
    map: Seq<(Seq<char>, Seq<char>)>,
    names: Seq<Seq<char>>,
)
    requires
        row::map_known(columns, map),
        forall|i: int| 0 <= i < names.len() ==> query_support::has_column(
            columns,
            #[trigger] names[i],
        ),
        forall|i: int| 0 <= i < map.len() ==> names.contains((#[trigger] map[i]).0),
    ensures
        ({
            let own = project::own_names(project::deduplicated(names));
            &&& row::map_known(row::map_columns(columns, own), map)
            &&& projections::composed_map(map, own) == map
        }),
{
    let own = project::own_names(project::deduplicated(names));
    let made = row::map_columns(columns, own);
    assert forall|i: int| 0 <= i < map.len() implies {
        &&& row::column_index(made, (#[trigger] map[i]).0) is Some
        &&& rewrite::source_of(own, map[i].0) == Some(map[i].0)
    } by {
        lemma_own_name(columns, names, map[i].0);
    }
    assert(projections::composed_map(map, own) =~= map) by {
        assert forall|i: int| 0 <= i < map.len() implies projections::composed_map(map, own)[i]
            == map[i] by {
            assert(rewrite::source_of(own, map[i].0) == Some(map[i].0));
        }
    }
}

/// Predicates on columns that keep their names stay as they are.
proof fn lemma_moved_same(
    columns: Seq<ColumnView>,
    ps: Seq<PredicateView>,
    names: Seq<Seq<char>>,
)
    requires
        forall|i: int|
            0 <= i < ps.len() ==> {
                let p = #[trigger] ps[i];
                &&& names.contains(p.column)
                &&& p.value matches OperandView::Column(other) ==> names.contains(other)
            },
    ensures
        ({
            let own = project::own_names(project::deduplicated(names));
            &&& rules::moved(ps, own) == ps
            &&& semantics::all_known(row::map_columns(columns, own), ps)
        }),
{
    let own = project::own_names(project::deduplicated(names));
    let made = row::map_columns(columns, own);
    assert forall|i: int| 0 <= i < ps.len() implies {
        &&& semantics::predicate_known(made, #[trigger] ps[i])
        &&& rewrite::remapped_predicate(ps[i], own) == Some(ps[i])
    } by {
        let p = ps[i];
        lemma_own_name(columns, names, p.column);
        if let OperandView::Column(other) = p.value {
            lemma_own_name(columns, names, other);
        }
    }
    assert(rules::moved(ps, own) =~= ps) by {
        assert forall|i: int| 0 <= i < ps.len() implies rules::moved(ps, own)[i] == ps[i] by {
            assert(rewrite::remapped_predicate(ps[i], own) == Some(ps[i]));
        }
    }
}

/// The columns that a projection and a filter under it need.
proof fn lemma_map_for_filter(
    c: Seq<ColumnView>,
    map: Seq<(Seq<char>, Seq<char>)>,
    ps: Seq<PredicateView>,
    g: Set<PredicateView>,
)
    requires
        row::map_known(c, map),
        semantics::all_known(c, ps),
    ensures
        ({
            let own = projections::map_for_filter(map, ps);
            let made = row::map_columns(c, own);
            &&& row::map_known(c, own)
            &&& equivalence::moves_within(own, g)
            &&& equivalence::distinct_names(made)
            &&& row::map_known(made, map)
            &&& projections::composed_map(map, own) == map
            &&& rules::moved(ps, own) == ps
            &&& semantics::all_known(made, ps)
        }),
{
    let picked = projections::picked_names(map);
    let compared = projections::predicates_names(ps);
    let names = picked + compared;
    lemma_predicates_names(c, ps);
    assert forall|i: int| 0 <= i < names.len() implies query_support::has_column(
        c,
        #[trigger] names[i],
    ) by {
        if i < picked.len() {
            assert(names[i] == map[i].0);
        } else {
            assert(names[i] == compared[i - picked.len()]);
        }
    }
    assert forall|i: int| 0 <= i < map.len() implies names.contains((#[trigger] map[i]).0) by {
        assert(names[i] == map[i].0);
    }
    assert forall|i: int| 0 <= i < ps.len() implies {
        let p = #[trigger] ps[i];
        &&& names.contains(p.column)
        &&& p.value matches OperandView::Column(other) ==> names.contains(other)
    } by {
        let p = ps[i];
        assert(compared.contains(p.column));
        let k = choose|k: int| 0 <= k < compared.len() && compared[k] == p.column;
        assert(names[picked.len() + k] == p.column);
        if let OperandView::Column(other) = p.value {
            assert(compared.contains(other));
            let m = choose|m: int| 0 <= m < compared.len() && compared[m] == other;
            assert(names[picked.len() + m] == other);
        }
    }
    lemma_own_names(c, names, g);
    lemma_through_own(c, map, names);
    lemma_moved_same(c, ps, names);
}

/// What a projection of a filter is rewritten to by way of is clear.
proof fn lemma_over_filter_clear(
    map: Seq<(Seq<char>, Seq<char>)>,
    ps: Seq<PredicateView>,
    u: OpView,
    db: Database,
    g: Set<PredicateView>,
)
    requires
        equivalence::clear(
            OpView::Project(map, Box::new(OpView::Filter(ps, Box::new(u)))),
            db.tables,
            g,
        ),
    ensures
        ({
            let own = projections::map_for_filter(map, ps);
            let below = OpView::Project(own, Box::new(u));
            let kept = OpView::Filter(ps, Box::new(below));
            let a = OpView::Project(map, Box::new(OpView::Filter(ps, Box::new(u))));
            let b = OpView::Project(map, Box::new(kept));
            let mid = OpView::Project(own, Box::new(OpView::Filter(ps, Box::new(u))));
            let twice = OpView::Project(map, Box::new(mid));
            &&& equivalence::clear(below, db.tables, g)
            &&& equivalence::clear(kept, db.tables, g)
            &&& equivalence::clear(twice, db.tables, g)
            &&& equivalence::cols(b, db.tables) == equivalence::cols(a, db.tables)
            &&& rules::moved(ps, own) == ps
            &&& projections::composed_map(map, own) == map
        }),
{
    let own = projections::map_for_filter(map, ps);
    let below = OpView::Project(own, Box::new(u));
    let filter = OpView::Filter(ps, Box::new(u));
    let a = OpView::Project(map, Box::new(filter));
    let kept = OpView::Filter(ps, Box::new(below));
    let b = OpView::Project(map, Box::new(kept));
    let mid = OpView::Project(own, Box::new(filter));
    let twice = OpView::Project(map, Box::new(mid));
    let c = equivalence::cols(u, db.tables);
    assert(semantics::op_known(filter, db.tables));
    assert(equivalence::told_apart(filter, db.tables, g));
    assert(equivalence::told_apart(u, db.tables, g));
    assert(equivalence::cols(filter, db.tables) == c);
    semantics::lemma_known_schema(u, db.tables);
    lemma_map_for_filter(c, map, ps, g);
    lemma_composed(c, map, own, g);
    let made = row::map_columns(c, own);
    assert(equivalence::cols(below, db.tables) == made);
    assert(equivalence::cols(kept, db.tables) == made);
    assert(equivalence::cols(mid, db.tables) == made);
    assert(equivalence::cols(twice, db.tables) == row::map_columns(made, map));
    assert(equivalence::cols(b, db.tables) == row::map_columns(made, map));
    assert(equivalence::cols(a, db.tables) == row::map_columns(c, map));
    assert(equivalence::clear(below, db.tables, g));
    assert(equivalence::clear(kept, db.tables, g));
    assert(equivalence::clear(mid, db.tables, g));
    assert(equivalence::clear(twice, db.tables, g));
}

/// A projection of a filter needs only some columns below the filter.
pub proof fn lemma_project_over_filter(
    map: Seq<(Seq<char>, Seq<char>)>,
    ps: Seq<PredicateView>,
    u: OpView,
    db: Database,
    g: Set<PredicateView>,
)
    requires
        semantics::all_sound(db),
        equivalence::clear(
            OpView::Project(map, Box::new(OpView::Filter(ps, Box::new(u)))),
            db.tables,
            g,
        ),
    ensures
        ({
            let below = OpView::Project(projections::map_for_filter(map, ps), Box::new(u));
            let a = OpView::Project(map, Box::new(OpView::Filter(ps, Box::new(u))));
            let b = OpView::Project(map, Box::new(OpView::Filter(ps, Box::new(below))));
            &&& equivalence::clear(below, db.tables, g)
            &&& equivalence::stands_for(b, a, db, g)
            &&& equivalence::cols(b, db.tables) == equivalence::cols(a, db.tables)
        }),
{
    let own = projections::map_for_filter(map, ps);
    let below = OpView::Project(own, Box::new(u));
    let filter = OpView::Filter(ps, Box::new(u));
    let a = OpView::Project(map, Box::new(filter));
    let kept = OpView::Filter(ps, Box::new(below));
    let b = OpView::Project(map, Box::new(kept));
    let mid = OpView::Project(own, Box::new(filter));
    let twice = OpView::Project(map, Box::new(mid));
    lemma_over_filter_clear(map, ps, u, db, g);
    assert(equivalence::stands_for(kept, mid, db, g)) by {
        filter_laws::lemma_filter_over_project(ps, own, u, db, g);
    }
    assert(equivalence::stands_for(b, twice, db, g)) by {
        congruence::lemma_project_below(map, kept, mid, db, g);
    }
    assert(equivalence::stands_for(twice, a, db, g)) by {
        lemma_projected_twice(map, own, filter, db, g);
    }
    equivalence::lemma_stands_trans(b, twice, a, db, g);
}

/// A projection of a sort needs only some columns below the sort.
pub proof fn lemma_project_of_sort(
    map: Seq<(Seq<char>, Seq<char>)>,
    specs: Seq<SortSpecView>,
    u: OpView,
    db: Database,
    g: Set<PredicateView>,
)
    requires
        semantics::all_sound(db),
        equivalence::clear(
            OpView::Project(map, Box::new(OpView::Sort(specs, Box::new(u)))),
            db.tables,
            g,
        ),
    ensures
        ({
            let below = OpView::Project(project::reduced_map(map, specs), Box::new(u));
            let a = OpView::Project(map, Box::new(OpView::Sort(specs, Box::new(u))));
            let b = OpView::Project(map, Box::new(OpView::Sort(specs, Box::new(below))));
            &&& equivalence::clear(below, db.tables, g)
            &&& equivalence::stands_for(b, a, db, g)
            &&& equivalence::cols(b, db.tables) == equivalence::cols(a, db.tables)
        }),
{
    let own = project::reduced_map(map, specs);
    let below = OpView::Project(own, Box::new(u));
    let sort = OpView::Sort(specs, Box::new(u));
    let a = OpView::Project(map, Box::new(sort));
    let kept = OpView::Sort(specs, Box::new(below));
    let b = OpView::Project(map, Box::new(kept));
    let c = equivalence::cols(u, db.tables);
    assert(semantics::op_known(sort, db.tables));
    assert(equivalence::told_apart(sort, db.tables, g));
    assert(equivalence::told_apart(u, db.tables, g));
    assert(equivalence::cols(sort, db.tables) == c);
    semantics::lemma_known_schema(u, db.tables);
    let names = project::needed_names(map, specs);
    assert forall|i: int| 0 <= i < names.len() implies query_support::has_column(
        c,
        #[trigger] names[i],
    ) by {
        if i < map.len() {
            assert(names[i] == map[i].0);
        } else {
            assert(names[i] == specs[i - map.len()].column);
        }
    }
    assert forall|i: int| 0 <= i < map.len() implies names.contains((#[trigger] map[i]).0) by {
        assert(names[i] == map[i].0);
    }
    lemma_own_names(c, names, g);
    lemma_through_own(c, map, names);
    let made = row::map_columns(c, own);
    assert(equivalence::cols(below, db.tables) == made);
    assert(equivalence::clear(below, db.tables, g));
    assert forall|i: int| 0 <= i < specs.len() implies query_support::has_column(
        made,
        (#[trigger] specs[i]).column,
    ) by {
        assert(names[map.len() + i] == specs[i].column);
        lemma_own_name(c, names, specs[i].column);
    }
    assert(equivalence::cols(kept, db.tables) == made);
    assert(equivalence::clear(kept, db.tables, g));
    lemma_composed(c, map, own, g);
    assert(equivalence::cols(b, db.tables) == row::map_columns(made, map));
    assert(equivalence::cols(a, db.tables) == row::map_columns(c, map));
    assert(equivalence::clear(b, db.tables, g));
    let oi = row::map_indexes(made, map);
    scan_pipeline::lemma_project_composed(
        semantics::rows_of(u, db),
        row::map_indexes(c, own),
        oi,
    );
    assert(semantics::rows_of(below, db) == semantics::project_rows(
        semantics::rows_of(u, db),
        row::map_indexes(c, own),
    ));
    assert(semantics::rows_of(kept, db) == semantics::rows_of(below, db));
    assert(semantics::rows_of(sort, db) == semantics::rows_of(u, db));
    assert(semantics::rows_of(b, db) == semantics::rows_of(a, db));
    assert(semantics::is_sorted_chain(kept));
    assert(semantics::is_sorted_chain(b));
    assert(!semantics::is_pipeline(sort));
    assert(equivalence::joins_nothing(below) == equivalence::joins_nothing(u));
    assert(equivalence::joins_nothing(kept) == equivalence::joins_nothing(u));
    assert(equivalence::joins_nothing(sort) == equivalence::joins_nothing(u));
    assert(equivalence::answers_too(b, a, db)) by {
        assert forall|out: Seq<RowView>| #[trigger]
            semantics::delivers(b, db, out) implies semantics::delivers(a, db, out) by {
            let t = choose|t: Seq<RowView>| #[trigger]
                semantics::is_projected(out, t, oi) && semantics::delivers(kept, db, t);
            project::lemma_project_over_sort(u, map, specs, db, t);
        }
    }
    equivalence::lemma_stands_same(b, a, db, g);
}

/// An element that is to be picked is picked.
proof fn lemma_selected(s: Seq<Seq<char>>, pick: spec_fn(Seq<char>) -> bool, i: int)
    requires
        0 <= i < s.len(),
        pick(s[i]),
    ensures
        bag::select(s, pick).contains(s[i]),
    decreases s.len(),
{
    let front = s.drop_last();
    let all = bag::select(s, pick);
    if i < front.len() {
        lemma_selected(front, pick, i);
        let before = bag::select(front, pick);
        let k = choose|k: int| 0 <= k < before.len() && before[k] == front[i];
        assert(all[k] == s[i]);
    } else {
        assert(all[all.len() - 1] == s[i]);
    }
}

/// The columns of a side that a projection needs.
proof fn lemma_map_for_side(c: Seq<ColumnView>, map: Seq<(Seq<char>, Seq<char>)>, g: Set<PredicateView>)
    ensures
        ({
            let own = projections::map_for_side(map, c);
            let made = row::map_columns(c, own);
            &&& row::map_known(c, own)
            &&& equivalence::moves_within(own, g)
            &&& equivalence::distinct_names(made)
            &&& forall|j: int|
                0 <= j < made.len() ==> query_support::has_column(c, (#[trigger] made[j]).name)
            &&& forall|i: int|
                0 <= i < map.len() ==> lands(c, own, (#[trigger] map[i]).0)
        }),
{
    let picked = projections::picked_names(map);
    let pick = |name: Seq<char>| query_support::has_column(c, name);
    let names = bag::select(picked, pick);
    let own = projections::map_for_side(map, c);
    let made = row::map_columns(c, own);
    bag::lemma_select_members(picked, pick);
    assert forall|i: int| 0 <= i < names.len() implies query_support::has_column(
        c,
        #[trigger] names[i],
    ) by {
        assert(pick(names[i]));
    }
    lemma_own_names(c, names, g);
    assert forall|j: int| 0 <= j < made.len() implies query_support::has_column(
        c,
        (#[trigger] made[j]).name,
    ) by {
        assert(row::column_index(c, own[j].0) is Some);
    }
    assert forall|i: int| 0 <= i < map.len() implies lands(c, own, (#[trigger] map[i]).0) by {
        let name = map[i].0;
        if query_support::has_column(c, name) {
            assert(picked[i] == name);
            lemma_selected(picked, pick, i);
            lemma_own_name(c, names, name);
            rewrite::lemma_source(own, name);
            let k = outcome::lemma_renamed_index(c, own, name, name);
        } else if query_support::has_column(made, name) {
            row::lemma_column_index(made, name);
            assert(query_support::has_column(c, made[row::column_index(made, name)->0].name));
        }
    }
}

/// A column is picked from the side it belongs to, and from no other.
spec fn lands(
    c: Seq<ColumnView>,
    own: Seq<(Seq<char>, Seq<char>)>,
    name: Seq<char>,
) -> bool {
    let made = row::map_columns(c, own);
    match row::column_index(c, name) {
        None => row::column_index(made, name) is None,
        Some(i) => row::column_index(made, name) matches Some(k) && {
            &&& 0 <= k < own.len()
            &&& row::map_indexes(c, own)[k] == i
            &&& made[k].data_type == c[i].data_type
        },
    }
}

/// The columns of both sides that a projection needs.
proof fn lemma_map_for_sides(
    cl: Seq<ColumnView>,
    cr: Seq<ColumnView>,
    map: Seq<(Seq<char>, Seq<char>)>,
    g: Set<PredicateView>,
)
    requires
        row::map_known(cl + cr, map),
        equivalence::distinct_names(cl + cr),
    ensures
        ({
            let ml = projections::map_for_side(map, cl);
            let mr = projections::map_for_side(map, cr);
            let made = row::map_columns(cl, ml) + row::map_columns(cr, mr);
            let both = row::map_indexes(cl, ml) + Seq::new(
                mr.len(),
                |j: int| cl.len() + row::map_indexes(cr, mr)[j],
            );
            &&& equivalence::distinct_names(made)
            &&& row::map_known(made, map)
            &&& row::map_columns(made, map) == row::map_columns(cl + cr, map)
            &&& scan_pipeline::indexes_below(row::map_indexes(made, map), both.len() as int)
            &&& scan_pipeline::composed(both, row::map_indexes(made, map)) == row::map_indexes(
                cl + cr,
                map,
            )
        }),
{
    let c = cl + cr;
    let ml = projections::map_for_side(map, cl);
    let mr = projections::map_for_side(map, cr);
    let (dl, dr) = (row::map_columns(cl, ml), row::map_columns(cr, mr));
    let made = dl + dr;
    let both = row::map_indexes(cl, ml) + Seq::new(
        mr.len(),
        |j: int| cl.len() + row::map_indexes(cr, mr)[j],
    );
    lemma_map_for_side(cl, map, g);
    lemma_map_for_side(cr, map, g);
    assert forall|i: int, j: int| 0 <= i < j < made.len() implies (#[trigger] made[i]).name != (
    #[trigger] made[j]).name by {
        if j < dl.len() {
            assert(made[i] == dl[i] && made[j] == dl[j]);
        } else if i >= dl.len() {
            assert(made[i] == dr[i - dl.len()] && made[j] == dr[j - dl.len()]);
        } else {
            assert(made[i] == dl[i] && made[j] == dr[j - dl.len()]);
            row::lemma_column_index(cl, dl[i].name);
            row::lemma_column_index(cr, dr[j - dl.len()].name);
            let x = row::column_index(cl, dl[i].name)->0;
            let y = row::column_index(cr, dr[j - dl.len()].name)->0;
            assert(c[x] == cl[x] && c[cl.len() + y] == cr[y]);
        }
    }
    let picks = row::map_indexes(made, map);
    assert forall|i: int| 0 <= i < map.len() implies {
        let name = (#[trigger] map[i]).0;
        &&& row::column_index(made, name) is Some
        &&& 0 <= picks[i] < both.len()
        &&& both[picks[i]] == row::column_index(c, name)->0
        &&& made[picks[i]].data_type == c[row::column_index(c, name)->0].data_type
    } by {
        let name = map[i].0;
        semantics::lemma_combined_index(cl, cr, name);
        semantics::lemma_combined_index(dl, dr, name);
        row::lemma_column_index(cl, name);
        row::lemma_column_index(cr, name);
        assert(row::column_index(c, name) is Some);
        assert(lands(cl, ml, name));
        assert(lands(cr, mr, name));
        if row::column_index(cl, name) is None {
            let k = row::column_index(dr, name)->0;
            assert(both[dl.len() + k] == cl.len() + row::map_indexes(cr, mr)[k]);
            assert(made[dl.len() + k] == dr[k]);
        }
    }
    assert(row::map_columns(made, map) =~= row::map_columns(c, map)) by {
        assert forall|i: int| 0 <= i < map.len() implies row::map_columns(made, map)[i]
            == row::map_columns(c, map)[i] by {
            assert(row::column_index(made, map[i].0) is Some);
        }
    }
    assert forall|i: int| 0 <= i < picks.len() implies 0 <= #[trigger] picks[i] < both.len() by {
        assert(row::column_index(made, map[i].0) is Some);
    }
    assert(scan_pipeline::composed(both, picks) =~= row::map_indexes(c, map)) by {
        assert forall|i: int| 0 <= i < map.len() implies scan_pipeline::composed(both, picks)[i]
            == row::map_indexes(c, map)[i] by {
            assert(row::column_index(made, map[i].0) is Some);
        }
    }
}

/// A projection of a cross product with the sides projected to the columns that
/// it needs.
proof fn lemma_projected_sides(
    map: Seq<(Seq<char>, Seq<char>)>,
    l: OpView,
    r: OpView,
    db: Database,
    g: Set<PredicateView>,
)
    requires
        semantics::all_sound(db),
        equivalence::clear(
            OpView::Project(map, Box::new(OpView::Cross(Box::new(l), Box::new(r)))),
            db.tables,
            g,
        ),
    ensures
        ({
            let pl = OpView::Project(
                projections::map_for_side(map, equivalence::cols(l, db.tables)),
                Box::new(l),
            );
            let pr = OpView::Project(
                projections::map_for_side(map, equivalence::cols(r, db.tables)),
                Box::new(r),
            );
            let a = OpView::Project(map, Box::new(OpView::Cross(Box::new(l), Box::new(r))));
            let b = OpView::Project(map, Box::new(OpView::Cross(Box::new(pl), Box::new(pr))));
            &&& equivalence::clear(b, db.tables, g)
            &&& equivalence::stands_for(b, a, db, g)
            &&& equivalence::cols(b, db.tables) == equivalence::cols(a, db.tables)
        }),
{
    let (cl, cr) = (equivalence::cols(l, db.tables), equivalence::cols(r, db.tables));
    let ml = projections::map_for_side(map, cl);
    let mr = projections::map_for_side(map, cr);
    let (pl, pr) = (OpView::Project(ml, Box::new(l)), OpView::Project(mr, Box::new(r)));
    let cross = OpView::Cross(Box::new(l), Box::new(r));
    let joined = OpView::Cross(Box::new(pl), Box::new(pr));
    let a = OpView::Project(map, Box::new(cross));
    let b = OpView::Project(map, Box::new(joined));
    assert(semantics::op_known(cross, db.tables));
    assert(equivalence::told_apart(cross, db.tables, g));
    assert(equivalence::told_apart(l, db.tables, g));
    assert(equivalence::told_apart(r, db.tables, g));
    semantics::lemma_known_schema(l, db.tables);
    semantics::lemma_known_schema(r, db.tables);
    let c = cl + cr;
    assert(equivalence::cols(cross, db.tables) == c);
    lemma_map_for_side(cl, map, g);
    lemma_map_for_side(cr, map, g);
    lemma_map_for_sides(cl, cr, map, g);
    let (dl, dr) = (row::map_columns(cl, ml), row::map_columns(cr, mr));
    let (li, ri) = (row::map_indexes(cl, ml), row::map_indexes(cr, mr));
    let both = li + Seq::new(mr.len(), |j: int| cl.len() + ri[j]);
    assert(equivalence::cols(pl, db.tables) == dl);
    assert(equivalence::cols(pr, db.tables) == dr);
    assert(equivalence::cols(joined, db.tables) == dl + dr);
    assert(equivalence::clear(pl, db.tables, g));
    assert(equivalence::clear(pr, db.tables, g));
    assert(equivalence::clear(joined, db.tables, g));
    assert(equivalence::cols(b, db.tables) == row::map_columns(dl + dr, map));
    assert(equivalence::cols(a, db.tables) == row::map_columns(c, map));
    assert(equivalence::clear(b, db.tables, g));
    let (lr, rr) = (semantics::rows_of(l, db), semantics::rows_of(r, db));
    equivalence::lemma_rows_wide(l, db);
    equivalence::lemma_rows_wide(r, db);
    lemma_indexes_below(cl, ml);
    lemma_indexes_below(cr, mr);
    congruence::lemma_cross_images(lr, rr, both, li, ri, cl.len());
    scan_pipeline::lemma_project_composed(
        semantics::cross_rows(lr, rr),
        both,
        row::map_indexes(dl + dr, map),
    );
    assert(semantics::rows_of(pl, db) == semantics::project_rows(lr, li));
    assert(semantics::rows_of(pr, db) == semantics::project_rows(rr, ri));
    assert(semantics::rows_of(joined, db) == semantics::cross_rows(
        semantics::rows_of(pl, db),
        semantics::rows_of(pr, db),
    ));
    assert(semantics::rows_of(cross, db) == semantics::cross_rows(lr, rr));
    assert(semantics::rows_of(b, db) == semantics::rows_of(a, db));
    assert(!semantics::is_pipeline(cross) && !semantics::is_sorted_chain(cross));
    assert(!semantics::is_pipeline(joined) && !semantics::is_sorted_chain(joined));
    assert(!equivalence::joins_nothing(cross));
    equivalence::lemma_stands_same(b, a, db, g);
}

/// Picked columns lie among the columns.
proof fn lemma_indexes_below(c: Seq<ColumnView>, map: Seq<(Seq<char>, Seq<char>)>)
    requires
        row::map_known(c, map),
    ensures
        scan_pipeline::indexes_below(row::map_indexes(c, map), c.len() as int),
{
    let indexes = row::map_indexes(c, map);
    assert forall|i: int| 0 <= i < indexes.len() implies 0 <= #[trigger] indexes[i] < c.len() by {
        assert(row::column_index(c, map[i].0) is Some);
        row::lemma_column_index(c, map[i].0);
    }
}

/// A projection of a cross product needs only some columns of each side.
pub proof fn lemma_project_over_cross(
    map: Seq<(Seq<char>, Seq<char>)>,
    l: OpView,
    r: OpView,
    db: Database,
    g: Set<PredicateView>,
)
    requires
        semantics::all_sound(db),
        equivalence::clear(
            OpView::Project(map, Box::new(OpView::Cross(Box::new(l), Box::new(r)))),
            db.tables,
            g,
        ),
    ensures
        ({
            let cl = equivalence::cols(l, db.tables);
            let cr = equivalence::cols(r, db.tables);
            let pl = projections::projected(projections::map_for_side(map, cl), cl, l);
            let pr = projections::projected(projections::map_for_side(map, cr), cr, r);
            let a = OpView::Project(map, Box::new(OpView::Cross(Box::new(l), Box::new(r))));
            let b = OpView::Project(map, Box::new(OpView::Cross(Box::new(pl), Box::new(pr))));
            &&& equivalence::stands_for(b, a, db, g)
            &&& equivalence::cols(b, db.tables) == equivalence::cols(a, db.tables)
        }),
{
    let (cl, cr) = (equivalence::cols(l, db.tables), equivalence::cols(r, db.tables));
    let ml = projections::map_for_side(map, cl);
    let mr = projections::map_for_side(map, cr);
    let (pl, pr) = (OpView::Project(ml, Box::new(l)), OpView::Project(mr, Box::new(r)));
    let (ql, qr) = (projections::projected(ml, cl, l), projections::projected(mr, cr, r));
    let joined = OpView::Cross(Box::new(pl), Box::new(pr));
    let slim = OpView::Cross(Box::new(ql), Box::new(qr));
    let a = OpView::Project(map, Box::new(OpView::Cross(Box::new(l), Box::new(r))));
    let mid = OpView::Project(map, Box::new(joined));
    let b = OpView::Project(map, Box::new(slim));
    lemma_projected_sides(map, l, r, db, g);
    assert(equivalence::clear(joined, db.tables, g));
    assert(equivalence::clear(pl, db.tables, g));
    assert(equivalence::clear(pr, db.tables, g));
    lemma_projected_stands(ml, l, db, g);
    lemma_projected_stands(mr, r, db, g);
    congruence::lemma_cross_below(ql, pl, qr, pr, db, g);
    congruence::lemma_project_below(map, slim, joined, db, g);
    equivalence::lemma_stands_trans(b, mid, a, db, g);
}

} // verus!
