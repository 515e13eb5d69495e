//! When an operator may stand in the place of another, with the same names
//! below its projections.

use vstd::prelude::*;

use crate::executor::project;
use crate::executor::rewrite;
use crate::optimizer::congruence;
use crate::optimizer::duplicates;
use crate::optimizer::equivalence;
use crate::optimizer::filter_laws;
use crate::optimizer::join_laws;
use crate::optimizer::origins;
use crate::optimizer::project_laws;
use crate::optimizer::projections;
use crate::optimizer::reorder;
use crate::optimizer::reorder_laws;
use crate::optimizer::rules;
use crate::optimizer::sort_laws;
use crate::query::{OpView, PredicateView, SortSpecView};
use crate::query_support;
use crate::query_support::PredicateSide;
use crate::semantics;
use crate::semantics::Database;

verus! {

broadcast use semantics::lemma_all_sound;

/// An operator stands for another, and its columns have the same names below.
#[verifier::opaque]
pub open spec fn replaces(b: OpView, a: OpView, db: Database, g: Set<PredicateView>) -> bool {
    equivalence::stands_for(b, a, db, g) && origins::same_origins(b, a, db.tables)
}

/// What it takes.
proof fn lemma_replaces(b: OpView, a: OpView, db: Database, g: Set<PredicateView>)
    requires
        equivalence::stands_for(b, a, db, g),
        origins::same_origins(b, a, db.tables),
    ensures
        replaces(b, a, db, g),
{
    reveal(replaces);
}

/// What replaces an operator stands for it.
pub proof fn lemma_replaces_stands(b: OpView, a: OpView, db: Database, g: Set<PredicateView>)
    requires
        replaces(b, a, db, g),
    ensures
        equivalence::stands_for(b, a, db, g),
        equivalence::clear(b, db.tables, g),
        equivalence::joins_nothing(a) ==> equivalence::cols(b, db.tables) == equivalence::cols(
            a,
            db.tables,
        ),
{
    reveal(replaces);
    equivalence::lemma_stands_clear(b, a, db, g);
}

/// What replaces an operator has columns with other names below where the
/// operator has.
pub proof fn lemma_replaces_renames(b: OpView, a: OpView, db: Database, g: Set<PredicateView>)
    requires
        replaces(b, a, db, g),
        origins::renames_some(a, db.tables),
    ensures
        origins::renames_some(b, db.tables),
{
    reveal(replaces);
    equivalence::lemma_stands_answer(b, a, db, Seq::empty(), g);
    let (ca, cb) = (equivalence::cols(a, db.tables), equivalence::cols(b, db.tables));
    let name = choose|name: Seq<char>|
        query_support::has_column(ca, name) && #[trigger] origins::origin(a, name) != name;
    equivalence::lemma_place(cb, ca, name);
    assert(origins::origin(b, name) == origins::origin(a, name));
}

/// An operator replaces itself.
pub proof fn lemma_replaces_self(a: OpView, db: Database, g: Set<PredicateView>)
    requires
        semantics::all_sound(db),
        equivalence::clear(a, db.tables, g),
    ensures
        replaces(a, a, db, g),
{
    equivalence::lemma_stands_self(a, db, g);
    lemma_replaces(a, a, db, g);
}

/// What replaces an operator that replaces another replaces the other.
pub proof fn lemma_replaces_trans(c: OpView, b: OpView, a: OpView, db: Database, g: Set<PredicateView>)
    requires
        replaces(b, a, db, g),
        replaces(c, b, db, g),
    ensures
        replaces(c, a, db, g),
{
    reveal(replaces);
    equivalence::lemma_stands_trans(c, b, a, db, g);
    equivalence::lemma_stands_answer(b, a, db, Seq::empty(), g);
    origins::lemma_origins_trans(c, b, a, db.tables);
}

/// Below a filter.
pub proof fn lemma_filter_below(ps: Seq<PredicateView>, v: OpView, u: OpView, db: Database, g: Set<PredicateView>)
    requires
        semantics::all_sound(db),
        replaces(v, u, db, g),
        equivalence::clear(OpView::Filter(ps, Box::new(u)), db.tables, g),
    ensures
        replaces(OpView::Filter(ps, Box::new(v)), OpView::Filter(ps, Box::new(u)), db, g),
{
    reveal(replaces);
    let a = OpView::Filter(ps, Box::new(u));
    let b = OpView::Filter(ps, Box::new(v));
    congruence::lemma_filter_below(ps, v, u, db, g);
    assert forall|name: Seq<char>|
        query_support::has_column(
            equivalence::cols(a, db.tables),
            name,
        ) implies #[trigger] origins::origin(b, name) == origins::origin(a, name) by {
        assert(origins::origin(v, name) == origins::origin(u, name));
    }
}

/// Below a projection.
pub proof fn lemma_project_below(
    map: Seq<(Seq<char>, Seq<char>)>,
    v: OpView,
    u: OpView,
    db: Database,
    g: Set<PredicateView>,
)
    requires
        semantics::all_sound(db),
        replaces(v, u, db, g),
        equivalence::clear(OpView::Project(map, Box::new(u)), db.tables, g),
    ensures
        replaces(OpView::Project(map, Box::new(v)), OpView::Project(map, Box::new(u)), db, g),
        equivalence::cols(OpView::Project(map, Box::new(v)), db.tables) == equivalence::cols(
            OpView::Project(map, Box::new(u)),
            db.tables,
        ),
{
    reveal(replaces);
    congruence::lemma_project_below(map, v, u, db, g);
    origins::lemma_origins_project(map, v, u, db.tables);
}

/// Below a sort.
pub proof fn lemma_sort_below(specs: Seq<SortSpecView>, v: OpView, u: OpView, db: Database, g: Set<PredicateView>)
    requires
        semantics::all_sound(db),
        replaces(v, u, db, g),
        equivalence::clear(OpView::Sort(specs, Box::new(u)), db.tables, g),
    ensures
        replaces(OpView::Sort(specs, Box::new(v)), OpView::Sort(specs, Box::new(u)), db, g),
{
    reveal(replaces);
    let a = OpView::Sort(specs, Box::new(u));
    let b = OpView::Sort(specs, Box::new(v));
    congruence::lemma_sort_below(specs, v, u, db, g);
    assert forall|name: Seq<char>|
        query_support::has_column(
            equivalence::cols(a, db.tables),
            name,
        ) implies #[trigger] origins::origin(b, name) == origins::origin(a, name) by {
        assert(origins::origin(v, name) == origins::origin(u, name));
    }
}

/// A filter without predicates that came before replaces the filter.
pub proof fn lemma_filter_distinct(ps: Seq<PredicateView>, u: OpView, db: Database, g: Set<PredicateView>)
    requires
        semantics::all_sound(db),
        equivalence::clear(OpView::Filter(ps, Box::new(u)), db.tables, g),
    ensures
        replaces(
            OpView::Filter(duplicates::distinct_predicates(ps), Box::new(u)),
            OpView::Filter(ps, Box::new(u)),
            db,
            g,
        ),
{
    filter_laws::lemma_filter_distinct(ps, u, db, g);
    lemma_replaces(
        OpView::Filter(duplicates::distinct_predicates(ps), Box::new(u)),
        OpView::Filter(ps, Box::new(u)),
        db,
        g,
    );
}

/// An operator replaces itself under a filter by nothing.
pub proof fn lemma_wrapped(ps: Seq<PredicateView>, u: OpView, db: Database, g: Set<PredicateView>)
    requires
        semantics::all_sound(db),
        equivalence::clear(OpView::Filter(ps, Box::new(u)), db.tables, g),
    ensures
        replaces(rewrite::wrapped(ps, u), OpView::Filter(ps, Box::new(u)), db, g),
{
    filter_laws::lemma_wrapped_stands(ps, u, db, g);
    lemma_replaces(rewrite::wrapped(ps, u), OpView::Filter(ps, Box::new(u)), db, g);
}

/// A filter replaces two.
pub proof fn lemma_filter_merged(
    ps: Seq<PredicateView>,
    qs: Seq<PredicateView>,
    u: OpView,
    db: Database,
    g: Set<PredicateView>,
)
    requires
        semantics::all_sound(db),
        equivalence::clear(
            OpView::Filter(ps, Box::new(OpView::Filter(qs, Box::new(u)))),
            db.tables,
            g,
        ),
    ensures
        replaces(
            OpView::Filter(qs + ps, Box::new(u)),
            OpView::Filter(ps, Box::new(OpView::Filter(qs, Box::new(u)))),
            db,
            g,
        ),
{
    reveal_with_fuel(origins::origin, 3);
    filter_laws::lemma_filter_merged(ps, qs, u, db, g);
    lemma_replaces(
        OpView::Filter(qs + ps, Box::new(u)),
        OpView::Filter(ps, Box::new(OpView::Filter(qs, Box::new(u)))),
        db,
        g,
    );
}

/// A projection of a filter replaces the filter of the projection.
pub proof fn lemma_filter_over_project(
    ps: Seq<PredicateView>,
    map: Seq<(Seq<char>, Seq<char>)>,
    u: OpView,
    db: Database,
    g: Set<PredicateView>,
)
    requires
        semantics::all_sound(db),
        equivalence::clear(
            OpView::Filter(ps, Box::new(OpView::Project(map, Box::new(u)))),
            db.tables,
            g,
        ),
    ensures
        rewrite::can_remap(ps, map),
        replaces(
            OpView::Project(map, Box::new(OpView::Filter(rules::moved(ps, map), Box::new(u)))),
            OpView::Filter(ps, Box::new(OpView::Project(map, Box::new(u)))),
            db,
            g,
        ),
{
    reveal_with_fuel(origins::origin, 3);
    filter_laws::lemma_filter_over_project(ps, map, u, db, g);
    lemma_replaces(
        OpView::Project(map, Box::new(OpView::Filter(rules::moved(ps, map), Box::new(u)))),
        OpView::Filter(ps, Box::new(OpView::Project(map, Box::new(u)))),
        db,
        g,
    );
}

/// A sort of a filter replaces the filter of the sort.
pub proof fn lemma_filter_over_sort(
    ps: Seq<PredicateView>,
    specs: Seq<SortSpecView>,
    u: OpView,
    db: Database,
    g: Set<PredicateView>,
)
    requires
        semantics::all_sound(db),
        equivalence::clear(
            OpView::Filter(ps, Box::new(OpView::Sort(specs, Box::new(u)))),
            db.tables,
            g,
        ),
    ensures
        replaces(
            OpView::Sort(specs, Box::new(OpView::Filter(ps, Box::new(u)))),
            OpView::Filter(ps, Box::new(OpView::Sort(specs, Box::new(u)))),
            db,
            g,
        ),
{
    reveal_with_fuel(origins::origin, 3);
    filter_laws::lemma_filter_over_sort(ps, specs, u, db, g);
    lemma_replaces(
        OpView::Sort(specs, Box::new(OpView::Filter(ps, Box::new(u)))),
        OpView::Filter(ps, Box::new(OpView::Sort(specs, Box::new(u)))),
        db,
        g,
    );
}

/// Filters on each side of a cross product and on both replace one on it.
pub proof fn lemma_filter_over_cross(ps: Seq<PredicateView>, l: OpView, r: OpView, db: Database, g: Set<PredicateView>)
    requires
        semantics::all_sound(db),
        equivalence::clear(
            OpView::Filter(ps, Box::new(OpView::Cross(Box::new(l), Box::new(r)))),
            db.tables,
            g,
        ),
    ensures
        ({
            let a = equivalence::cols(l, db.tables);
            let b = equivalence::cols(r, db.tables);
            let lp = query_support::side_predicates(ps, a, b, PredicateSide::Left);
            let rp = query_support::side_predicates(ps, a, b, PredicateSide::Right);
            let cp = query_support::side_predicates(ps, a, b, PredicateSide::Cross);
            replaces(
                OpView::Filter(
                    cp,
                    Box::new(
                        OpView::Cross(
                            Box::new(rewrite::wrapped(lp, l)),
                            Box::new(rewrite::wrapped(rp, r)),
                        ),
                    ),
                ),
                OpView::Filter(ps, Box::new(OpView::Cross(Box::new(l), Box::new(r)))),
                db,
                g,
            )
        }),
{
    let a = equivalence::cols(l, db.tables);
    let b = equivalence::cols(r, db.tables);
    let lp = query_support::side_predicates(ps, a, b, PredicateSide::Left);
    let rp = query_support::side_predicates(ps, a, b, PredicateSide::Right);
    let cp = query_support::side_predicates(ps, a, b, PredicateSide::Cross);
    let joined = OpView::Cross(
        Box::new(rewrite::wrapped(lp, l)),
        Box::new(rewrite::wrapped(rp, r)),
    );
    reveal_with_fuel(origins::origin, 2);
    filter_laws::lemma_filter_over_cross(ps, l, r, db, g);
    lemma_replaces(
        OpView::Filter(cp, Box::new(joined)),
        OpView::Filter(ps, Box::new(OpView::Cross(Box::new(l), Box::new(r)))),
        db,
        g,
    );
}

/// An operator replaces itself under a projection that does nothing.
pub proof fn lemma_projected(map: Seq<(Seq<char>, Seq<char>)>, u: OpView, db: Database, g: Set<PredicateView>)
    requires
        semantics::all_sound(db),
        equivalence::clear(OpView::Project(map, Box::new(u)), db.tables, g),
    ensures
        replaces(
            projections::projected(map, equivalence::cols(u, db.tables), u),
            OpView::Project(map, Box::new(u)),
            db,
            g,
        ),
        equivalence::cols(
            projections::projected(map, equivalence::cols(u, db.tables), u),
            db.tables,
        ) == equivalence::cols(OpView::Project(map, Box::new(u)), db.tables),
{
    project_laws::lemma_projected_stands(map, u, db, g);
    origins::lemma_origins_projected(map, u, db.tables);
    lemma_replaces(
        projections::projected(map, equivalence::cols(u, db.tables), u),
        OpView::Project(map, Box::new(u)),
        db,
        g,
    );
}

/// One projection replaces two.
pub proof fn lemma_projected_twice(
    outer: Seq<(Seq<char>, Seq<char>)>,
    inner: Seq<(Seq<char>, Seq<char>)>,
    u: OpView,
    db: Database,
    g: Set<PredicateView>,
)
    requires
        semantics::all_sound(db),
        equivalence::clear(
            OpView::Project(outer, Box::new(OpView::Project(inner, Box::new(u)))),
            db.tables,
            g,
        ),
    ensures
        projections::composable(outer, inner),
        replaces(
            OpView::Project(projections::composed_map(outer, inner), Box::new(u)),
            OpView::Project(outer, Box::new(OpView::Project(inner, Box::new(u)))),
            db,
            g,
        ),
        equivalence::cols(
            OpView::Project(projections::composed_map(outer, inner), Box::new(u)),
            db.tables,
        ) == equivalence::cols(
            OpView::Project(outer, Box::new(OpView::Project(inner, Box::new(u)))),
            db.tables,
        ),
{
    project_laws::lemma_projected_twice(outer, inner, u, db, g);
    origins::lemma_origins_twice(outer, inner, u, db.tables);
    lemma_replaces(
        OpView::Project(projections::composed_map(outer, inner), Box::new(u)),
        OpView::Project(outer, Box::new(OpView::Project(inner, Box::new(u)))),
        db,
        g,
    );
}

/// A projection of a filter needs only some columns below the filter.
pub proof fn lemma_project_over_filter(
    map: Seq<(Seq<char>, Seq<char>)>,
    ps: Seq<PredicateView>,
    u: OpView,
    db: Database,
    g: Set<PredicateView>,
)
    requires
        semantics::all_sound(db),
        equivalence::clear(
            OpView::Project(map, Box::new(OpView::Filter(ps, Box::new(u)))),
            db.tables,
            g,
        ),
    ensures
        ({
            let below = OpView::Project(projections::map_for_filter(map, ps), Box::new(u));
            let a = OpView::Project(map, Box::new(OpView::Filter(ps, Box::new(u))));
            let b = OpView::Project(map, Box::new(OpView::Filter(ps, Box::new(below))));
            &&& equivalence::clear(below, db.tables, g)
            &&& replaces(b, a, db, g)
            &&& equivalence::cols(b, db.tables) == equivalence::cols(a, db.tables)
        }),
{
    let below = OpView::Project(projections::map_for_filter(map, ps), Box::new(u));
    let filter = OpView::Filter(ps, Box::new(u));
    let kept = OpView::Filter(ps, Box::new(below));
    let a = OpView::Project(map, Box::new(filter));
    let b = OpView::Project(map, Box::new(kept));
    project_laws::lemma_project_over_filter(map, ps, u, db, g);
    semantics::lemma_known_schema(filter, db.tables);
    let names = projections::picked_names(map) + projections::predicates_names(ps);
    assert forall|i: int| 0 <= i < map.len() implies names.contains((#[trigger] map[i]).0) by {
        assert(names[i] == map[i].0);
    }
    assert forall|name: Seq<char>|
        query_support::has_column(
            equivalence::cols(a, db.tables),
            name,
        ) implies #[trigger] origins::origin(b, name) == origins::origin(a, name) by {
        filter_laws::lemma_source_known(equivalence::cols(filter, db.tables), map, name);
        origins::lemma_origins_own(map, names, u, name);
        let from = rewrite::source_of(map, name)->0;
        assert(origins::origin(b, name) == origins::origin(kept, from));
        assert(origins::origin(kept, from) == origins::origin(below, from));
        assert(origins::origin(a, name) == origins::origin(filter, from));
    }
    lemma_replaces(b, a, db, g);
}

/// A projection of a sort needs only some columns below the sort.
pub proof fn lemma_project_of_sort(
    map: Seq<(Seq<char>, Seq<char>)>,
    specs: Seq<SortSpecView>,
    u: OpView,
    db: Database,
    g: Set<PredicateView>,
)
    requires
        semantics::all_sound(db),
        equivalence::clear(
            OpView::Project(map, Box::new(OpView::Sort(specs, Box::new(u)))),
            db.tables,
            g,
        ),
    ensures
        ({
            let below = OpView::Project(project::reduced_map(map, specs), Box::new(u));
            let a = OpView::Project(map, Box::new(OpView::Sort(specs, Box::new(u))));
            let b = OpView::Project(map, Box::new(OpView::Sort(specs, Box::new(below))));
            &&& equivalence::clear(below, db.tables, g)
            &&& replaces(b, a, db, g)
            &&& equivalence::cols(b, db.tables) == equivalence::cols(a, db.tables)
        }),
{
    let below = OpView::Project(project::reduced_map(map, specs), Box::new(u));
    let sort = OpView::Sort(specs, Box::new(u));
    let kept = OpView::Sort(specs, Box::new(below));
    let a = OpView::Project(map, Box::new(sort));
    let b = OpView::Project(map, Box::new(kept));
    project_laws::lemma_project_of_sort(map, specs, u, db, g);
    semantics::lemma_known_schema(sort, db.tables);
    let names = project::needed_names(map, specs);
    assert forall|i: int| 0 <= i < map.len() implies names.contains((#[trigger] map[i]).0) by {
        assert(names[i] == map[i].0);
    }
    assert forall|name: Seq<char>|
        query_support::has_column(
            equivalence::cols(a, db.tables),
            name,
        ) implies #[trigger] origins::origin(b, name) == origins::origin(a, name) by {
        filter_laws::lemma_source_known(equivalence::cols(sort, db.tables), map, name);
        origins::lemma_origins_own(map, names, u, name);
        let from = rewrite::source_of(map, name)->0;
        assert(origins::origin(b, name) == origins::origin(kept, from));
        assert(origins::origin(kept, from) == origins::origin(below, from));
        assert(origins::origin(a, name) == origins::origin(sort, from));
    }
    lemma_replaces(b, a, db, g);
}

/// A projection of a cross product needs only some columns of each side.
pub proof fn lemma_project_over_cross(
    map: Seq<(Seq<char>, Seq<char>)>,
    l: OpView,
    r: OpView,
    db: Database,
    g: Set<PredicateView>,
)
    requires
        semantics::all_sound(db),
        equivalence::clear(
            OpView::Project(map, Box::new(OpView::Cross(Box::new(l), Box::new(r)))),
            db.tables,
            g,
        ),
    ensures
        ({
            let cl = equivalence::cols(l, db.tables);
            let cr = equivalence::cols(r, db.tables);
            let pl = projections::projected(projections::map_for_side(map, cl), cl, l);
            let pr = projections::projected(projections::map_for_side(map, cr), cr, r);
            let a = OpView::Project(map, Box::new(OpView::Cross(Box::new(l), Box::new(r))));
            let b = OpView::Project(map, Box::new(OpView::Cross(Box::new(pl), Box::new(pr))));
            &&& replaces(b, a, db, g)
            &&& equivalence::cols(b, db.tables) == equivalence::cols(a, db.tables)
        }),
{
    let cl = equivalence::cols(l, db.tables);
    let cr = equivalence::cols(r, db.tables);
    let pl = projections::projected(projections::map_for_side(map, cl), cl, l);
    let pr = projections::projected(projections::map_for_side(map, cr), cr, r);
    reveal_with_fuel(origins::origin, 2);
    project_laws::lemma_project_over_cross(map, l, r, db, g);
    lemma_replaces(
        OpView::Project(map, Box::new(OpView::Cross(Box::new(pl), Box::new(pr)))),
        OpView::Project(map, Box::new(OpView::Cross(Box::new(l), Box::new(r)))),
        db,
        g,
    );
}

/// A sort without columns that came before replaces the sort.
pub proof fn lemma_sort_distinct(specs: Seq<SortSpecView>, u: OpView, db: Database, g: Set<PredicateView>)
    requires
        semantics::all_sound(db),
        equivalence::clear(OpView::Sort(specs, Box::new(u)), db.tables, g),
    ensures
        replaces(
            OpView::Sort(duplicates::distinct_sort_columns(specs), Box::new(u)),
            OpView::Sort(specs, Box::new(u)),
            db,
            g,
        ),
{
    sort_laws::lemma_sort_distinct(specs, u, db, g);
    lemma_replaces(
        OpView::Sort(duplicates::distinct_sort_columns(specs), Box::new(u)),
        OpView::Sort(specs, Box::new(u)),
        db,
        g,
    );
}

/// An operator replaces a sort of it that has no columns, or in whose order its
/// rows come.
pub proof fn lemma_sort_left_out(specs: Seq<SortSpecView>, u: OpView, db: Database, g: Set<PredicateView>)
    requires
        semantics::all_sound(db),
        equivalence::clear(OpView::Sort(specs, Box::new(u)), db.tables, g),
        specs.len() == 0 || rules::in_order(specs, u, db.tables) == Ok::<
            bool,
            crate::error::DbError,
        >(true),
    ensures
        replaces(u, OpView::Sort(specs, Box::new(u)), db, g),
{
    if specs.len() == 0 {
        sort_laws::lemma_sort_none(specs, u, db, g);
    } else {
        sort_laws::lemma_sort_in_order(specs, u, db, g);
    }
    lemma_replaces(u, OpView::Sort(specs, Box::new(u)), db, g);
}

/// What replaces the sides of a cross product, the larger first, replaces the
/// cross product.
pub proof fn lemma_joined(x: OpView, l: OpView, y: OpView, r: OpView, db: Database, g: Set<PredicateView>)
    requires
        semantics::all_sound(db),
        replaces(x, l, db, g),
        replaces(y, r, db, g),
        equivalence::clear(OpView::Cross(Box::new(l), Box::new(r)), db.tables, g),
    ensures
        replaces(
            rules::larger_first(x, y, db.tables),
            OpView::Cross(Box::new(l), Box::new(r)),
            db,
            g,
        ),
{
    reveal(replaces);
    let a = OpView::Cross(Box::new(l), Box::new(r));
    let b = OpView::Cross(Box::new(x), Box::new(y));
    congruence::lemma_cross_below(x, l, y, r, db, g);
    equivalence::lemma_stands_clear(b, a, db, g);
    join_laws::lemma_larger_first(x, y, db, g);
    equivalence::lemma_stands_trans(rules::larger_first(x, y, db.tables), b, a, db, g);
}

/// A cross product with its inputs put in order replaces it.
pub proof fn lemma_reordered(l: OpView, r: OpView, ps: Seq<PredicateView>, db: Database, g: Set<PredicateView>)
    requires
        semantics::all_sound(db),
        equivalence::clear(OpView::Cross(Box::new(l), Box::new(r)), db.tables, g),
    ensures
        reorder::reordered(
            OpView::Cross(Box::new(l), Box::new(r)),
            ps,
            db.tables,
        ) matches Ok(b) && b is Cross && replaces(b, OpView::Cross(Box::new(l), Box::new(r)), db, g),
{
    reveal(replaces);
    reorder_laws::lemma_reordered(OpView::Cross(Box::new(l), Box::new(r)), ps, db, g);
}

} // verus!
