//! An operator over one that stands for another stands for the operator over
//! the other.

use vstd::prelude::*;

use crate::bag;
use crate::catalog::table::ColumnView;
use crate::executor::outcome;
use crate::executor::project;
use crate::optimizer::equivalence;
use crate::query::{OpView, PredicateView, SortSpecView};
use crate::query_support;
use crate::row;
use crate::scan_pipeline;
use crate::semantics;
use crate::semantics::{CompiledView, Database, RowView};

verus! {

broadcast use semantics::lemma_all_sound;

/// The rows that do not meet predicates.
pub open spec fn others(rows: Seq<RowView>, ps: Seq<CompiledView>) -> Seq<RowView>
    decreases rows.len(),
{
    if rows.len() == 0 {
        Seq::empty()
    } else if semantics::holds(rows.last(), ps) {
        others(rows.drop_last(), ps)
    } else {
        others(rows.drop_last(), ps).push(rows.last())
    }
}

/// The rows that meet predicates and those that do not are all of them.
pub proof fn lemma_others(rows: Seq<RowView>, ps: Seq<CompiledView>)
    ensures
        bag::bag(rows) == bag::bag(semantics::filter_rows(rows, ps)).add(
            bag::bag(others(rows, ps)),
        ),
        forall|i: int|
            0 <= i < others(rows, ps).len() ==> !semantics::holds(
                #[trigger] others(rows, ps)[i],
                ps,
            ),
    decreases rows.len(),
{
    let met = semantics::filter_rows(rows, ps);
    let rest = others(rows, ps);
    if rows.len() == 0 {
        bag::lemma_bag_empty(rows);
        bag::lemma_bag_empty(met);
        bag::lemma_bag_empty(rest);
        assert(bag::bag(met).add(bag::bag(rest)) =~= bag::bag(rows));
    } else {
        let front = rows.drop_last();
        let r = rows.last();
        lemma_others(front, ps);
        assert(rows =~= front.push(r));
        bag::lemma_bag_push(front, r);
        if semantics::holds(r, ps) {
            bag::lemma_bag_push(semantics::filter_rows(front, ps), r);
        } else {
            bag::lemma_bag_push(others(front, ps), r);
            assert forall|i: int| 0 <= i < rest.len() implies !semantics::holds(
                #[trigger] rest[i],
                ps,
            ) by {
                if i < others(front, ps).len() {
                    assert(rest[i] == others(front, ps)[i]);
                }
            }
        }
        assert(bag::bag(met).add(bag::bag(rest)) =~= bag::bag(rows));
    }
}

/// Of rows that do not meet predicates, none is left.
pub proof fn lemma_none_met(rows: Seq<RowView>, ps: Seq<CompiledView>)
    requires
        forall|i: int| 0 <= i < rows.len() ==> !semantics::holds(#[trigger] rows[i], ps),
    ensures
        semantics::filter_rows(rows, ps) == Seq::<RowView>::empty(),
    decreases rows.len(),
{
    if rows.len() > 0 {
        let front = rows.drop_last();
        assert forall|i: int| 0 <= i < front.len() implies !semantics::holds(
            #[trigger] front[i],
            ps,
        ) by {
            assert(front[i] == rows[i]);
        }
        lemma_none_met(front, ps);
        assert(!semantics::holds(rows[rows.len() - 1], ps));
    }
}

/// Rows that all meet predicates are all left.
pub proof fn lemma_all_met(rows: Seq<RowView>, ps: Seq<CompiledView>)
    requires
        forall|i: int| 0 <= i < rows.len() ==> semantics::holds(#[trigger] rows[i], ps),
    ensures
        semantics::filter_rows(rows, ps) == rows,
    decreases rows.len(),
{
    if rows.len() > 0 {
        let front = rows.drop_last();
        assert forall|i: int| 0 <= i < front.len() implies semantics::holds(
            #[trigger] front[i],
            ps,
        ) by {
            assert(front[i] == rows[i]);
        }
        lemma_all_met(front, ps);
        assert(semantics::holds(rows[rows.len() - 1], ps));
        assert(front.push(rows.last()) =~= rows);
    }
}

/// Below a filter.
pub proof fn lemma_filter_below(ps: Seq<PredicateView>, v: OpView, u: OpView, db: Database, g: Set<PredicateView>)
    requires
        semantics::all_sound(db),
        equivalence::stands_for(v, u, db, g),
        equivalence::clear(OpView::Filter(ps, Box::new(u)), db.tables, g),
    ensures
        equivalence::stands_for(OpView::Filter(ps, Box::new(v)), OpView::Filter(ps, Box::new(u)), db, g),
{
    reveal(equivalence::stands_for);
    let a = OpView::Filter(ps, Box::new(u));
    let b = OpView::Filter(ps, Box::new(v));
    let (cu, cv) = (equivalence::cols(u, db.tables), equivalence::cols(v, db.tables));
    let rows = semantics::rows_of(v, db);
    semantics::lemma_known_schema(u, db.tables);
    equivalence::lemma_rows_wide(v, db);
    equivalence::lemma_turned_known(cv, cu, ps);
    equivalence::lemma_turned_filter(cv, cu, ps, rows);
    let pa = semantics::compiled_all(cu, ps);
    let pb = semantics::compiled_all(cv, ps);
    semantics::lemma_filter_same_bag(
        equivalence::turned(rows, v, u, db.tables),
        semantics::rows_of(u, db),
        pa,
    );
    outcome::lemma_pipeline_not_sorted(v);
    outcome::lemma_pipeline_not_sorted(b);
    assert(equivalence::turned(semantics::rows_of(b, db), b, a, db.tables) == semantics::filter_rows(
        equivalence::turned(rows, v, u, db.tables),
        pa,
    ));
    assert forall|out: Seq<RowView>| #[trigger]
        semantics::delivers(b, db, out) implies semantics::delivers(
        a,
        db,
        equivalence::turned(out, b, a, db.tables),
    ) by {
        let t = equivalence::turned(out, b, a, db.tables);
        semantics::lemma_project_bag(out, semantics::rows_of(b, db), equivalence::places(cv, cu));
        assert(bag::bag(t) == bag::bag(semantics::rows_of(a, db)));
        if semantics::is_pipeline(v) {
            // The rows of a pipeline come in one order.
            assert(out == semantics::rows_of(b, db));
            outcome::lemma_pipeline_delivers(v, db);
            let c = equivalence::turned(rows, v, u, db.tables);
            assert(semantics::delivers(u, db, c));
            outcome::lemma_filter_delivers(ps, u, db, c);
        } else if semantics::is_sorted_chain(v) {
            let c = choose|c: Seq<RowView>| #[trigger]
                semantics::is_filtered(out, c, pb) && semantics::delivers(v, db, c);
            equivalence::lemma_answer_wide(v, db, c);
            equivalence::lemma_turned_filter(cv, cu, ps, c);
            assert(semantics::delivers(u, db, equivalence::turned(c, v, u, db.tables)));
            outcome::lemma_filter_delivers(ps, u, db, equivalence::turned(c, v, u, db.tables));
        } else {
            // Rows in any order are what the filter leaves of some order.
            let c = out + others(rows, pb);
            lemma_others(rows, pb);
            bag::lemma_bag_concat(out, others(rows, pb));
            semantics::lemma_filter_members(rows, pb);
            bag::lemma_bag_forall(
                semantics::filter_rows(rows, pb),
                out,
                |r: RowView| semantics::holds(r, pb),
            );
            lemma_all_met(out, pb);
            lemma_none_met(others(rows, pb), pb);
            semantics::lemma_filter_concat(out, others(rows, pb), pb);
            assert(semantics::filter_rows(c, pb) =~= out);
            equivalence::lemma_unordered(v, db, c);
            equivalence::lemma_answer_wide(v, db, c);
            equivalence::lemma_turned_filter(cv, cu, ps, c);
            assert(semantics::delivers(u, db, equivalence::turned(c, v, u, db.tables)));
            outcome::lemma_filter_delivers(ps, u, db, equivalence::turned(c, v, u, db.tables));
        }
    }
}

/// Below a projection, a right answer is one of the projection of the other.
proof fn lemma_project_answer(
    map: Seq<(Seq<char>, Seq<char>)>,
    v: OpView,
    u: OpView,
    db: Database,
    out: Seq<RowView>,
    g: Set<PredicateView>,
)
    requires
        equivalence::stands_for(v, u, db, g),
        row::map_known(equivalence::cols(u, db.tables), map),
        semantics::delivers(OpView::Project(map, Box::new(v)), db, out),
    ensures
        semantics::delivers(OpView::Project(map, Box::new(u)), db, out),
{
    reveal(equivalence::stands_for);
    let a = OpView::Project(map, Box::new(u));
    let b = OpView::Project(map, Box::new(v));
    let (cu, cv) = (equivalence::cols(u, db.tables), equivalence::cols(v, db.tables));
    let rows = semantics::rows_of(v, db);
    let pa = row::map_indexes(cu, map);
    let pb = row::map_indexes(cv, map);
    outcome::lemma_pipeline_not_sorted(v);
    outcome::lemma_pipeline_not_sorted(b);
    if semantics::is_pipeline(v) {
        outcome::lemma_pipeline_delivers(v, db);
        let c = equivalence::turned(rows, v, u, db.tables);
        assert(semantics::delivers(u, db, c));
        equivalence::lemma_turned_project(cv, cu, map, rows);
        outcome::lemma_project_delivers(map, u, db, c);
        assert(out == semantics::project_rows(c, pa));
    } else if semantics::is_sorted_chain(v) {
        let c = choose|c: Seq<RowView>| #[trigger]
            semantics::is_projected(out, c, pb) && semantics::delivers(v, db, c);
        equivalence::lemma_turned_project(cv, cu, map, c);
        let t = equivalence::turned(c, v, u, db.tables);
        assert(semantics::delivers(u, db, t));
        outcome::lemma_project_delivers(map, u, db, t);
        assert(out == semantics::project_rows(t, pa));
    } else {
        // Rows in any order are what the projection makes of some order.
        let c = project::lemma_lift(rows, out, pb);
        equivalence::lemma_unordered(v, db, c);
        equivalence::lemma_turned_project(cv, cu, map, c);
        let t = equivalence::turned(c, v, u, db.tables);
        assert(semantics::delivers(u, db, t));
        outcome::lemma_project_delivers(map, u, db, t);
        assert(out == semantics::project_rows(t, pa));
    }
}

/// Below a projection.
pub proof fn lemma_project_below(
    map: Seq<(Seq<char>, Seq<char>)>,
    v: OpView,
    u: OpView,
    db: Database,
    g: Set<PredicateView>,
)
    requires
        semantics::all_sound(db),
        equivalence::stands_for(v, u, db, g),
        equivalence::clear(OpView::Project(map, Box::new(u)), db.tables, g),
    ensures
        equivalence::stands_for(
            OpView::Project(map, Box::new(v)),
            OpView::Project(map, Box::new(u)),
            db,
            g,
        ),
        equivalence::cols(OpView::Project(map, Box::new(v)), db.tables) == equivalence::cols(
            OpView::Project(map, Box::new(u)),
            db.tables,
        ),
{
    reveal(equivalence::stands_for);
    let a = OpView::Project(map, Box::new(u));
    let b = OpView::Project(map, Box::new(v));
    let (cu, cv) = (equivalence::cols(u, db.tables), equivalence::cols(v, db.tables));
    let rows = semantics::rows_of(v, db);
    semantics::lemma_known_schema(u, db.tables);
    semantics::lemma_known_schema(v, db.tables);
    equivalence::lemma_turned_project(cv, cu, map, rows);
    semantics::lemma_project_bag(
        equivalence::turned(rows, v, u, db.tables),
        semantics::rows_of(u, db),
        row::map_indexes(cu, map),
    );
    assert(equivalence::answers_too(b, a, db)) by {
        assert forall|out: Seq<RowView>| #[trigger]
            semantics::delivers(b, db, out) implies semantics::delivers(a, db, out) by {
            lemma_project_answer(map, v, u, db, out, g);
        }
    }
    equivalence::lemma_stands_same(b, a, db, g);
}

/// Below a sort.
pub proof fn lemma_sort_below(specs: Seq<SortSpecView>, v: OpView, u: OpView, db: Database, g: Set<PredicateView>)
    requires
        semantics::all_sound(db),
        equivalence::stands_for(v, u, db, g),
        equivalence::clear(OpView::Sort(specs, Box::new(u)), db.tables, g),
    ensures
        equivalence::stands_for(OpView::Sort(specs, Box::new(v)), OpView::Sort(specs, Box::new(u)), db, g),
{
    reveal(equivalence::stands_for);
    let a = OpView::Sort(specs, Box::new(u));
    let b = OpView::Sort(specs, Box::new(v));
    let (cu, cv) = (equivalence::cols(u, db.tables), equivalence::cols(v, db.tables));
    let rows = semantics::rows_of(v, db);
    let ka = semantics::sort_keys(cu, specs);
    let kb = semantics::sort_keys(cv, specs);
    semantics::lemma_known_schema(u, db.tables);
    equivalence::lemma_turned_sorted(cv, cu, specs, rows);
    assert forall|out: Seq<RowView>| #[trigger]
        semantics::delivers(b, db, out) implies semantics::delivers(
        a,
        db,
        equivalence::turned(out, b, a, db.tables),
    ) by {
        let t = equivalence::turned(out, b, a, db.tables);
        semantics::lemma_project_bag(out, semantics::rows_of(b, db), equivalence::places(cv, cu));
        equivalence::lemma_turned_sorted(cv, cu, specs, out);
        if semantics::comparable(semantics::rows_of(u, db), ka) {
            lemma_comparable_bag(
                semantics::rows_of(u, db),
                equivalence::turned(rows, v, u, db.tables),
                ka,
            );
        }
    }
}

/// Whether rows can be compared does not depend on their order.
pub proof fn lemma_comparable_bag(
    a: Seq<RowView>,
    b: Seq<RowView>,
    keys: Seq<semantics::SortKey>,
)
    requires
        bag::bag(a) == bag::bag(b),
        semantics::comparable(a, keys),
    ensures
        semantics::comparable(b, keys),
{
    assert forall|i: int, j: int|
        0 <= i < b.len() && 0 <= j < b.len() implies semantics::comparable_rows(
        #[trigger] b[i],
        #[trigger] b[j],
        keys,
    ) by {
        assert(b.contains(b[i]));
        assert(b.contains(b[j]));
        let x = bag::lemma_same_bag_index(b, a, b[i]);
        let y = bag::lemma_same_bag_index(b, a, b[j]);
        assert(semantics::comparable_rows(a[x], a[y], keys));
    }
}

/// The columns of both sides of a cross product, turned.
pub proof fn lemma_cross_places(
    l1: Seq<ColumnView>,
    l2: Seq<ColumnView>,
    r1: Seq<ColumnView>,
    r2: Seq<ColumnView>,
)
    requires
        equivalence::same_columns(l1, l2),
        equivalence::same_columns(r1, r2),
        equivalence::distinct_names(l1 + r1),
    ensures
        equivalence::same_columns(l1 + r1, l2 + r2),
        equivalence::distinct_names(l2 + r2),
        equivalence::places(l2 + r2, l1 + r1).len() == l1.len() + r1.len(),
        forall|i: int|
            0 <= i < l1.len() ==> #[trigger] equivalence::places(l2 + r2, l1 + r1)[i] == equivalence::places(l2, l1)[i],
        forall|j: int|
            0 <= j < r1.len() ==> equivalence::places(l2 + r2, l1 + r1)[l1.len() + j] == l2.len()
                + #[trigger] equivalence::places(r2, r1)[j],
{
    let (a, b) = (l1 + r1, l2 + r2);
    assert forall|i: int| 0 <= i < a.len() implies {
        &&& query_support::has_column(b, (#[trigger] a[i]).name)
        &&& b[row::column_index(b, a[i].name)->0].data_type == a[i].data_type
        &&& i < l1.len() ==> equivalence::places(b, a)[i] == equivalence::places(l2, l1)[i]
        &&& i >= l1.len() ==> equivalence::places(b, a)[i] == l2.len() + equivalence::places(r2, r1)[i - l1.len()]
    } by {
        let name = a[i].name;
        semantics::lemma_combined_index(l2, r2, name);
        row::lemma_column_index(l2, name);
        row::lemma_column_index(r2, name);
        if i < l1.len() {
            assert(a[i] == l1[i]);
            assert(query_support::has_column(l2, l1[i].name));
        } else {
            let j = i - l1.len();
            assert(a[i] == r1[j]);
            assert(query_support::has_column(r2, r1[j].name));
            if query_support::has_column(l2, name) {
                let k = row::column_index(l2, name)->0;
                assert(query_support::has_column(l1, l2[k].name));
                row::lemma_column_index(l1, name);
                let m = row::column_index(l1, name)->0;
                assert(a[m].name == a[i].name);
            }
        }
    }
    assert forall|i: int| 0 <= i < b.len() implies query_support::has_column(
        a,
        (#[trigger] b[i]).name,
    ) by {
        semantics::lemma_combined_index(l1, r1, b[i].name);
        if i < l2.len() {
            assert(query_support::has_column(l1, l2[i].name));
        } else {
            assert(query_support::has_column(r1, r2[i - l2.len()].name));
        }
    }
    assert forall|i: int| 0 <= i < l1.len() implies #[trigger] equivalence::places(b, a)[i] == equivalence::places(
        l2,
        l1,
    )[i] by {
        assert(query_support::has_column(b, a[i].name));
    }
    assert forall|j: int| 0 <= j < r1.len() implies equivalence::places(b, a)[l1.len() + j] == l2.len()
        + #[trigger] equivalence::places(r2, r1)[j] by {
        assert(query_support::has_column(b, a[l1.len() + j].name));
    }
    equivalence::lemma_same_distinct(a, b);
}

/// Images of joined rows are joined images.
pub proof fn lemma_cross_images(
    lefts: Seq<RowView>,
    rights: Seq<RowView>,
    both: Seq<int>,
    of_left: Seq<int>,
    of_right: Seq<int>,
    width: nat,
)
    requires
        semantics::all_wide(lefts, width),
        both.len() == of_left.len() + of_right.len(),
        scan_pipeline::indexes_below(of_left, width as int),
        forall|i: int| 0 <= i < of_left.len() ==> both[i] == #[trigger] of_left[i],
        forall|j: int|
            0 <= j < of_right.len() ==> both[of_left.len() + j] == width + #[trigger] of_right[j],
        forall|j: int| 0 <= j < of_right.len() ==> 0 <= #[trigger] of_right[j],
        forall|i: int, j: int|
            0 <= i < rights.len() && 0 <= j < of_right.len() ==> (#[trigger] of_right[j])
                < (#[trigger] rights[i]).len(),
    ensures
        semantics::project_rows(semantics::cross_rows(lefts, rights), both)
            == semantics::cross_rows(
            semantics::project_rows(lefts, of_left),
            semantics::project_rows(rights, of_right),
        ),
    decreases lefts.len(),
{
    let a = semantics::project_rows(lefts, of_left);
    let b = semantics::project_rows(rights, of_right);
    let whole = semantics::project_rows(semantics::cross_rows(lefts, rights), both);
    if lefts.len() == 0 {
        assert(whole =~= semantics::cross_rows(a, b));
    } else {
        let front = lefts.drop_last();
        let l = lefts.last();
        assert(lefts[lefts.len() - 1].len() == width);
        assert(semantics::all_wide(front, width)) by {
            assert forall|i: int| 0 <= i < front.len() implies (#[trigger] front[i]).len()
                == width by {
                assert(front[i] == lefts[i]);
            }
        }
        lemma_cross_images(front, rights, both, of_left, of_right, width);
        assert(a.drop_last() =~= semantics::project_rows(front, of_left));
        let pairs = semantics::pair_rows(l, rights);
        assert(semantics::project_rows(pairs, both) =~= semantics::pair_rows(a.last(), b)) by {
            assert forall|i: int| 0 <= i < rights.len() implies semantics::project_rows(
                pairs,
                both,
            )[i] == semantics::pair_rows(a.last(), b)[i] by {
                let x = row::project_row(l + rights[i], both);
                let y = row::project_row(l, of_left) + row::project_row(rights[i], of_right);
                assert forall|k: int| 0 <= k < both.len() implies x[k] == y[k] by {
                    if k < of_left.len() {
                        assert(both[k] == of_left[k]);
                        assert(0 <= of_left[k] < width);
                    } else {
                        let j = k - of_left.len();
                        assert(both[of_left.len() + j] == width + of_right[j]);
                        assert(of_right[j] < rights[i].len());
                    }
                }
                assert(x =~= y);
            }
        }
        let before = semantics::cross_rows(front, rights);
        assert(whole =~= semantics::project_rows(before, both) + semantics::project_rows(
            pairs,
            both,
        ));
    }
}

/// Below a cross product.
pub proof fn lemma_cross_below(l2: OpView, l1: OpView, r2: OpView, r1: OpView, db: Database, g: Set<PredicateView>)
    requires
        semantics::all_sound(db),
        equivalence::stands_for(l2, l1, db, g),
        equivalence::stands_for(r2, r1, db, g),
        equivalence::clear(OpView::Cross(Box::new(l1), Box::new(r1)), db.tables, g),
    ensures
        equivalence::stands_for(
            OpView::Cross(Box::new(l2), Box::new(r2)),
            OpView::Cross(Box::new(l1), Box::new(r1)),
            db,
            g,
        ),
{
    reveal(equivalence::stands_for);
    let a = OpView::Cross(Box::new(l1), Box::new(r1));
    let b = OpView::Cross(Box::new(l2), Box::new(r2));
    let (cl1, cl2) = (equivalence::cols(l1, db.tables), equivalence::cols(l2, db.tables));
    let (cr1, cr2) = (equivalence::cols(r1, db.tables), equivalence::cols(r2, db.tables));
    semantics::lemma_known_schema(l1, db.tables);
    semantics::lemma_known_schema(r1, db.tables);
    let (lr, rr) = (semantics::rows_of(l2, db), semantics::rows_of(r2, db));
    equivalence::lemma_rows_wide(l2, db);
    equivalence::lemma_rows_wide(r2, db);
    lemma_cross_places(cl1, cl2, cr1, cr2);
    equivalence::lemma_places(cl2, cl1);
    equivalence::lemma_places(cr2, cr1);
    assert(equivalence::cols(a, db.tables) == cl1 + cr1);
    assert(equivalence::cols(b, db.tables) == cl2 + cr2);
    let both = equivalence::places(cl2 + cr2, cl1 + cr1);
    lemma_cross_images(lr, rr, both, equivalence::places(cl2, cl1), equivalence::places(cr2, cr1), cl2.len());
    outcome::lemma_cross_bag(
        equivalence::turned(lr, l2, l1, db.tables),
        equivalence::turned(rr, r2, r1, db.tables),
        semantics::rows_of(l1, db),
        semantics::rows_of(r1, db),
    );
    assert forall|out: Seq<RowView>| #[trigger]
        semantics::delivers(b, db, out) implies semantics::delivers(
        a,
        db,
        equivalence::turned(out, b, a, db.tables),
    ) by {
        semantics::lemma_project_bag(out, semantics::rows_of(b, db), both);
    }
}

} // verus!
