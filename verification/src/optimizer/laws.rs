//! Rewriting a query leaves its answers right.

use vstd::prelude::*;

use crate::catalog::table::TableSpec;
use crate::executor::outcome;
use crate::executor::project;
use crate::executor::rewrite;
use crate::optimizer::duplicates;
use crate::optimizer::equivalence;
use crate::optimizer::origins;
use crate::optimizer::projections;
use crate::optimizer::reorder;
use crate::optimizer::reading;
use crate::optimizer::replacement;
use crate::optimizer::rules;
use crate::optimizer::sort_laws;
use crate::query::{OpView, PredicateView, SortSpecView};
use crate::query_support;
use crate::query_support::PredicateSide;
use crate::semantics;
use crate::semantics::{Database, RowView};

verus! {

broadcast use semantics::lemma_all_sound;

/// Whether rewriting keeps the columns of a query in their order: they come
/// from one table, or the uppermost operators are sorts of a projection, or a
/// projection gives one of them another name.
pub open spec fn keeps_columns(op: OpView, tables: Seq<TableSpec>) -> bool
    decreases op,
{
    match op {
        OpView::Project(_, _) => true,
        OpView::Sort(_, u) => keeps_columns(*u, tables),
        _ => equivalence::joins_nothing(op) || origins::renames_some(op, tables),
    }
}

/// Columns some of which have other names below are kept in their order.
proof fn lemma_renames_keeps(op: OpView, tables: Seq<TableSpec>)
    requires
        origins::renames_some(op, tables),
    ensures
        keeps_columns(op, tables),
    decreases op,
{
    if let OpView::Sort(_, u) = op {
        lemma_renames_below(op, *u, tables);
        lemma_renames_keeps(*u, tables);
    }
}

/// Columns of a filter or a sort some of which have other names below are such
/// columns of what is below.
proof fn lemma_renames_below(op: OpView, u: OpView, tables: Seq<TableSpec>)
    requires
        origins::renames_some(op, tables),
        op matches OpView::Filter(_, v) ==> *v == u,
        op matches OpView::Sort(_, v) ==> *v == u,
        op is Filter || op is Sort,
    ensures
        origins::renames_some(u, tables),
{
    let name = choose|name: Seq<char>|
        query_support::has_column(equivalence::cols(op, tables), name)
            && #[trigger] origins::origin(op, name) != name;
    assert(origins::origin(u, name) == origins::origin(op, name));
}

/// A projection without effect is left out.
proof fn lemma_simplified(map: Seq<(Seq<char>, Seq<char>)>, u: OpView, a: OpView, db: Database, g: Set<PredicateView>)
    requires
        semantics::all_sound(db),
        replacement::replaces(OpView::Project(map, Box::new(u)), a, db, g),
        equivalence::cols(OpView::Project(map, Box::new(u)), db.tables) == equivalence::cols(
            a,
            db.tables,
        ),
    ensures
        projections::simplified(OpView::Project(map, Box::new(u)), db.tables) matches Ok(b) && {
            &&& replacement::replaces(b, a, db, g)
            &&& equivalence::cols(b, db.tables) == equivalence::cols(a, db.tables)
        },
{
    let p = OpView::Project(map, Box::new(u));
    replacement::lemma_replaces_stands(p, a, db, g);
    semantics::lemma_known_schema(u, db.tables);
    replacement::lemma_projected(map, u, db, g);
    replacement::lemma_replaces_trans(
        projections::projected(map, equivalence::cols(u, db.tables), u),
        p,
        a,
        db,
        g,
    );
}

/// The rewritten operator stands for the operator.
proof fn lemma_optimized(op: OpView, db: Database, depth: nat, g: Set<PredicateView>)
    requires
        semantics::all_sound(db),
        equivalence::clear(op, db.tables, g),
    ensures
        rules::optimized(op, db.tables, depth) matches Ok(b) && {
            &&& replacement::replaces(b, op, db, g)
            &&& keeps_columns(op, db.tables) ==> equivalence::cols(b, db.tables) == equivalence::cols(
                op,
                db.tables,
            )
        },
    decreases depth, 0nat,
{
    if depth == 0 {
        replacement::lemma_replaces_self(op, db, g);
    } else {
        let d = (depth - 1) as nat;
        match op {
            OpView::Scan(_) => replacement::lemma_replaces_self(op, db, g),
            OpView::Project(map, u) => lemma_optimized_project(map, *u, db, d, g),
            OpView::Sort(specs, u) => lemma_optimized_sort(specs, *u, db, d, g),
            OpView::Cross(l, r) => lemma_optimized_cross(*l, *r, db, d, g),
            OpView::Filter(ps, u) => {
                lemma_optimized_filter(ps, *u, db, d, g);
                replacement::lemma_replaces_stands(
                    rules::optimized_filter(ps, *u, db.tables, d)->Ok_0,
                    op,
                    db,
                    g,
                );
            },
        }
    }
}

/// The rewritten projection stands for the projection.
proof fn lemma_optimized_project(
    map: Seq<(Seq<char>, Seq<char>)>,
    u: OpView,
    db: Database,
    depth: nat,
    g: Set<PredicateView>,
)
    requires
        semantics::all_sound(db),
        equivalence::clear(OpView::Project(map, Box::new(u)), db.tables, g),
    ensures
        rules::optimized_project(map, u, db.tables, depth) matches Ok(b) && {
            let a = OpView::Project(map, Box::new(u));
            &&& replacement::replaces(b, a, db, g)
            &&& equivalence::cols(b, db.tables) == equivalence::cols(a, db.tables)
        },
    decreases depth, 1nat,
{
    let t = db.tables;
    let a = OpView::Project(map, Box::new(u));
    lemma_optimized(u, db, depth, g);
    let v = rules::optimized(u, t, depth)->Ok_0;
    let p = OpView::Project(map, Box::new(v));
    replacement::lemma_project_below(map, v, u, db, g);
    replacement::lemma_replaces_stands(p, a, db, g);
    match v {
        OpView::Filter(ps, w) => {
            let below = OpView::Project(projections::map_for_filter(map, ps), w);
            replacement::lemma_project_over_filter(map, ps, *w, db, g);
            lemma_optimized(below, db, depth, g);
            lemma_filter_step(map, ps, *w, rules::optimized(below, t, depth)->Ok_0, a, db, g);
        },
        OpView::Sort(specs, w) => {
            let below = OpView::Project(project::reduced_map(map, specs), w);
            replacement::lemma_project_of_sort(map, specs, *w, db, g);
            lemma_optimized(below, db, depth, g);
            lemma_sort_step(map, specs, *w, rules::optimized(below, t, depth)->Ok_0, a, db, g);
        },
        OpView::Cross(l, r) => {
            lemma_cross_step(map, *l, *r, a, db, g);
        },
        OpView::Project(inner, w) => {
            replacement::lemma_projected_twice(map, inner, *w, db, g);
            let once = projections::composed_map(map, inner);
            replacement::lemma_replaces_trans(OpView::Project(once, w), p, a, db, g);
            lemma_simplified(once, *w, a, db, g);
        },
        OpView::Scan(_) => {
            lemma_simplified(map, v, a, db, g);
        },
    }
}

/// A projection of a filter, with what stands for a projection below it.
proof fn lemma_filter_step(
    map: Seq<(Seq<char>, Seq<char>)>,
    ps: Seq<PredicateView>,
    w: OpView,
    x: OpView,
    a: OpView,
    db: Database,
    g: Set<PredicateView>,
)
    requires
        semantics::all_sound(db),
        equivalence::clear(
            OpView::Project(map, Box::new(OpView::Filter(ps, Box::new(w)))),
            db.tables,
            g,
        ),
        replacement::replaces(
            OpView::Project(map, Box::new(OpView::Filter(ps, Box::new(w)))),
            a,
            db,
            g,
        ),
        equivalence::cols(
            OpView::Project(map, Box::new(OpView::Filter(ps, Box::new(w)))),
            db.tables,
        ) == equivalence::cols(a, db.tables),
        replacement::replaces(
            x,
            OpView::Project(projections::map_for_filter(map, ps), Box::new(w)),
            db,
            g,
        ),
    ensures
        projections::simplified(
            OpView::Project(map, Box::new(OpView::Filter(ps, Box::new(x)))),
            db.tables,
        ) matches Ok(b) && {
            &&& replacement::replaces(b, a, db, g)
            &&& equivalence::cols(b, db.tables) == equivalence::cols(a, db.tables)
        },
{
    let p = OpView::Project(map, Box::new(OpView::Filter(ps, Box::new(w))));
    let below = OpView::Project(projections::map_for_filter(map, ps), Box::new(w));
    let fb = OpView::Filter(ps, Box::new(below));
    let fx = OpView::Filter(ps, Box::new(x));
    let pb = OpView::Project(map, Box::new(fb));
    let px = OpView::Project(map, Box::new(fx));
    replacement::lemma_project_over_filter(map, ps, w, db, g);
    replacement::lemma_replaces_stands(pb, p, db, g);
    assert(equivalence::clear(fb, db.tables, g));
    replacement::lemma_filter_below(ps, x, below, db, g);
    replacement::lemma_project_below(map, fx, fb, db, g);
    replacement::lemma_replaces_trans(px, pb, p, db, g);
    replacement::lemma_replaces_trans(px, p, a, db, g);
    lemma_simplified(map, fx, a, db, g);
}

/// A projection of a sort, with what stands for a projection below it.
proof fn lemma_sort_step(
    map: Seq<(Seq<char>, Seq<char>)>,
    specs: Seq<SortSpecView>,
    w: OpView,
    x: OpView,
    a: OpView,
    db: Database,
    g: Set<PredicateView>,
)
    requires
        semantics::all_sound(db),
        equivalence::clear(
            OpView::Project(map, Box::new(OpView::Sort(specs, Box::new(w)))),
            db.tables,
            g,
        ),
        replacement::replaces(
            OpView::Project(map, Box::new(OpView::Sort(specs, Box::new(w)))),
            a,
            db,
            g,
        ),
        equivalence::cols(
            OpView::Project(map, Box::new(OpView::Sort(specs, Box::new(w)))),
            db.tables,
        ) == equivalence::cols(a, db.tables),
        replacement::replaces(
            x,
            OpView::Project(project::reduced_map(map, specs), Box::new(w)),
            db,
            g,
        ),
    ensures
        projections::simplified(
            OpView::Project(map, Box::new(OpView::Sort(specs, Box::new(x)))),
            db.tables,
        ) matches Ok(b) && {
            &&& replacement::replaces(b, a, db, g)
            &&& equivalence::cols(b, db.tables) == equivalence::cols(a, db.tables)
        },
{
    let p = OpView::Project(map, Box::new(OpView::Sort(specs, Box::new(w))));
    let below = OpView::Project(project::reduced_map(map, specs), Box::new(w));
    let sb = OpView::Sort(specs, Box::new(below));
    let sx = OpView::Sort(specs, Box::new(x));
    let pb = OpView::Project(map, Box::new(sb));
    let px = OpView::Project(map, Box::new(sx));
    replacement::lemma_project_of_sort(map, specs, w, db, g);
    replacement::lemma_replaces_stands(pb, p, db, g);
    assert(equivalence::clear(sb, db.tables, g));
    replacement::lemma_sort_below(specs, x, below, db, g);
    replacement::lemma_project_below(map, sx, sb, db, g);
    replacement::lemma_replaces_trans(px, pb, p, db, g);
    replacement::lemma_replaces_trans(px, p, a, db, g);
    lemma_simplified(map, sx, a, db, g);
}

/// A projection of a cross product, with projections below it.
proof fn lemma_cross_step(
    map: Seq<(Seq<char>, Seq<char>)>,
    l: OpView,
    r: OpView,
    a: OpView,
    db: Database,
    g: Set<PredicateView>,
)
    requires
        semantics::all_sound(db),
        equivalence::clear(
            OpView::Project(map, Box::new(OpView::Cross(Box::new(l), Box::new(r)))),
            db.tables,
            g,
        ),
        replacement::replaces(
            OpView::Project(map, Box::new(OpView::Cross(Box::new(l), Box::new(r)))),
            a,
            db,
            g,
        ),
        equivalence::cols(
            OpView::Project(map, Box::new(OpView::Cross(Box::new(l), Box::new(r)))),
            db.tables,
        ) == equivalence::cols(a, db.tables),
    ensures
        ({
            let cl = equivalence::cols(l, db.tables);
            let cr = equivalence::cols(r, db.tables);
            let pl = projections::projected(projections::map_for_side(map, cl), cl, l);
            let pr = projections::projected(projections::map_for_side(map, cr), cr, r);
            &&& query_support::schema_of(l, db.tables) is Ok
            &&& query_support::schema_of(r, db.tables) is Ok
            &&& projections::simplified(
                OpView::Project(map, Box::new(OpView::Cross(Box::new(pl), Box::new(pr)))),
                db.tables,
            ) matches Ok(b) && {
                &&& replacement::replaces(b, a, db, g)
                &&& equivalence::cols(b, db.tables) == equivalence::cols(a, db.tables)
            }
        }),
{
    let cross = OpView::Cross(Box::new(l), Box::new(r));
    let p = OpView::Project(map, Box::new(cross));
    assert(semantics::op_known(cross, db.tables));
    semantics::lemma_known_schema(l, db.tables);
    semantics::lemma_known_schema(r, db.tables);
    replacement::lemma_project_over_cross(map, l, r, db, g);
    let (cl, cr) = (equivalence::cols(l, db.tables), equivalence::cols(r, db.tables));
    let pl = projections::projected(projections::map_for_side(map, cl), cl, l);
    let pr = projections::projected(projections::map_for_side(map, cr), cr, r);
    let slim = OpView::Cross(Box::new(pl), Box::new(pr));
    replacement::lemma_replaces_trans(OpView::Project(map, Box::new(slim)), p, a, db, g);
    lemma_simplified(map, slim, a, db, g);
}

/// The rewritten sort stands for the sort.
proof fn lemma_optimized_sort(specs: Seq<SortSpecView>, u: OpView, db: Database, depth: nat, g: Set<PredicateView>)
    requires
        semantics::all_sound(db),
        equivalence::clear(OpView::Sort(specs, Box::new(u)), db.tables, g),
    ensures
        rules::optimized_sort(specs, u, db.tables, depth) matches Ok(b) && {
            let a = OpView::Sort(specs, Box::new(u));
            &&& replacement::replaces(b, a, db, g)
            &&& keeps_columns(u, db.tables) ==> equivalence::cols(b, db.tables) == equivalence::cols(
                a,
                db.tables,
            )
        },
    decreases depth, 1nat,
{
    let a = OpView::Sort(specs, Box::new(u));
    lemma_optimized(u, db, depth, g);
    let v = rules::optimized(u, db.tables, depth)->Ok_0;
    let s = OpView::Sort(specs, Box::new(v));
    replacement::lemma_sort_below(specs, v, u, db, g);
    replacement::lemma_replaces_stands(s, a, db, g);
    let kept = duplicates::distinct_sort_columns(specs);
    let k = OpView::Sort(kept, Box::new(v));
    replacement::lemma_sort_distinct(specs, v, db, g);
    replacement::lemma_replaces_stands(k, s, db, g);
    replacement::lemma_replaces_trans(k, s, a, db, g);
    if kept.len() == 0 {
        replacement::lemma_sort_left_out(kept, v, db, g);
        replacement::lemma_replaces_trans(v, k, a, db, g);
    } else {
        sort_laws::lemma_in_order_known(kept, v, db);
        if rules::in_order(kept, v, db.tables)->Ok_0 {
            replacement::lemma_sort_left_out(kept, v, db, g);
            replacement::lemma_replaces_trans(v, k, a, db, g);
        }
    }
}

/// The rewritten cross product stands for the cross product.
proof fn lemma_optimized_cross(l: OpView, r: OpView, db: Database, depth: nat, g: Set<PredicateView>)
    requires
        semantics::all_sound(db),
        equivalence::clear(OpView::Cross(Box::new(l), Box::new(r)), db.tables, g),
    ensures
        rules::optimized_cross(l, r, db.tables, depth) matches Ok(b) && replacement::replaces(
            b,
            OpView::Cross(Box::new(l), Box::new(r)),
            db,
            g,
        ),
    decreases depth, 1nat,
{
    let a = OpView::Cross(Box::new(l), Box::new(r));
    lemma_optimized(l, db, depth, g);
    lemma_optimized(r, db, depth, g);
    let x = rules::optimized(l, db.tables, depth)->Ok_0;
    let y = rules::optimized(r, db.tables, depth)->Ok_0;
    replacement::lemma_joined(x, l, y, r, db, g);
}

/// The rewritten filter stands for the filter.
proof fn lemma_optimized_filter(all: Seq<PredicateView>, u: OpView, db: Database, depth: nat, g: Set<PredicateView>)
    requires
        semantics::all_sound(db),
        equivalence::clear(OpView::Filter(all, Box::new(u)), db.tables, g),
    ensures
        rules::optimized_filter(all, u, db.tables, depth) matches Ok(b) && {
            let a = OpView::Filter(all, Box::new(u));
            &&& replacement::replaces(b, a, db, g)
            &&& origins::renames_some(a, db.tables) ==> equivalence::cols(b, db.tables)
                == equivalence::cols(a, db.tables)
        },
    decreases depth, 2nat,
{
    let t = db.tables;
    let ps = duplicates::distinct_predicates(all);
    let a = OpView::Filter(all, Box::new(u));
    let f = OpView::Filter(ps, Box::new(u));
    replacement::lemma_filter_distinct(all, u, db, g);
    replacement::lemma_replaces_stands(f, a, db, g);
    lemma_optimized(u, db, depth, g);
    let v = rules::optimized(u, t, depth)->Ok_0;
    let pushed = OpView::Filter(ps, Box::new(v));
    replacement::lemma_filter_below(ps, v, u, db, g);
    replacement::lemma_replaces_trans(pushed, f, a, db, g);
    replacement::lemma_replaces_stands(pushed, a, db, g);
    let renames = origins::renames_some(a, t);
    if renames {
        lemma_renames_below(a, u, t);
        lemma_renames_keeps(u, t);
        replacement::lemma_replaces_renames(v, u, db, g);
        replacement::lemma_replaces_renames(pushed, a, db, g);
    }
    match v {
        OpView::Filter(inner, w) => {
            let merged = OpView::Filter(inner + ps, w);
            replacement::lemma_filter_merged(ps, inner, *w, db, g);
            replacement::lemma_replaces_stands(merged, pushed, db, g);
            if renames {
                replacement::lemma_replaces_renames(merged, pushed, db, g);
                lemma_renames_keeps(merged, t);
            }
            lemma_optimized(merged, db, depth, g);
            replacement::lemma_replaces_trans(merged, pushed, a, db, g);
            replacement::lemma_replaces_trans(
                rules::optimized(merged, t, depth)->Ok_0,
                merged,
                a,
                db,
                g,
            );
        },
        OpView::Project(map, w) => {
            let qs = rules::moved(ps, map);
            let below = OpView::Filter(qs, w);
            let p = OpView::Project(map, Box::new(below));
            replacement::lemma_filter_over_project(ps, map, *w, db, g);
            replacement::lemma_replaces_stands(p, pushed, db, g);
            replacement::lemma_replaces_trans(p, pushed, a, db, g);
            lemma_optimized(below, db, depth, g);
            let x = rules::optimized(below, t, depth)->Ok_0;
            let q = OpView::Project(map, Box::new(x));
            replacement::lemma_project_below(map, x, below, db, g);
            replacement::lemma_replaces_trans(q, p, a, db, g);
            replacement::lemma_replaces_stands(q, a, db, g);
            lemma_optimized(q, db, depth, g);
            assert(equivalence::cols(p, t) == equivalence::cols(v, t));
            replacement::lemma_replaces_trans(rules::optimized(q, t, depth)->Ok_0, q, a, db, g);
        },
        OpView::Sort(specs, w) => {
            let below = OpView::Filter(ps, w);
            let s = OpView::Sort(specs, Box::new(below));
            replacement::lemma_filter_over_sort(ps, specs, *w, db, g);
            replacement::lemma_replaces_stands(s, pushed, db, g);
            replacement::lemma_replaces_trans(s, pushed, a, db, g);
            if renames {
                replacement::lemma_replaces_renames(s, pushed, db, g);
                lemma_renames_below(s, below, t);
                lemma_renames_keeps(below, t);
            }
            lemma_optimized(below, db, depth, g);
            let x = rules::optimized(below, t, depth)->Ok_0;
            replacement::lemma_sort_below(specs, x, below, db, g);
            replacement::lemma_replaces_trans(OpView::Sort(specs, Box::new(x)), s, a, db, g);
        },
        OpView::Cross(l, r) => {
            replacement::lemma_reordered(*l, *r, ps, db, g);
            let w = reorder::reordered(v, ps, t)->Ok_0;
            let h = OpView::Filter(ps, Box::new(w));
            replacement::lemma_filter_below(ps, w, v, db, g);
            replacement::lemma_replaces_stands(h, pushed, db, g);
            replacement::lemma_replaces_trans(h, pushed, a, db, g);
            match w {
                OpView::Cross(l, r) => {
                    lemma_optimized_join(ps, *l, *r, db, depth, g);
                    replacement::lemma_replaces_trans(
                        rules::optimized_join(ps, *l, *r, t, depth)->Ok_0,
                        h,
                        a,
                        db,
                        g,
                    );
                },
                _ => {
                    replacement::lemma_wrapped(ps, w, db, g);
                    replacement::lemma_replaces_trans(rewrite::wrapped(ps, w), h, a, db, g);
                },
            }
        },
        OpView::Scan(_) => {
            replacement::lemma_wrapped(ps, v, db, g);
            replacement::lemma_replaces_trans(rewrite::wrapped(ps, v), pushed, a, db, g);
        },
    }
}

/// The rewritten filter on a cross product stands for the filter.
proof fn lemma_optimized_join(
    ps: Seq<PredicateView>,
    l: OpView,
    r: OpView,
    db: Database,
    depth: nat,
    g: Set<PredicateView>,
)
    requires
        semantics::all_sound(db),
        equivalence::clear(
            OpView::Filter(ps, Box::new(OpView::Cross(Box::new(l), Box::new(r)))),
            db.tables,
            g,
        ),
    ensures
        rules::optimized_join(ps, l, r, db.tables, depth) matches Ok(b) && replacement::replaces(
            b,
            OpView::Filter(ps, Box::new(OpView::Cross(Box::new(l), Box::new(r)))),
            db,
            g,
        ),
    decreases depth, 1nat,
{
    let t = db.tables;
    let cross = OpView::Cross(Box::new(l), Box::new(r));
    let a = OpView::Filter(ps, Box::new(cross));
    assert(semantics::op_known(cross, t));
    semantics::lemma_known_schema(l, t);
    semantics::lemma_known_schema(r, t);
    let (ca, cb) = (equivalence::cols(l, t), equivalence::cols(r, t));
    let lp = query_support::side_predicates(ps, ca, cb, PredicateSide::Left);
    let rp = query_support::side_predicates(ps, ca, cb, PredicateSide::Right);
    let cp = query_support::side_predicates(ps, ca, cb, PredicateSide::Cross);
    let (wl, wr) = (rewrite::wrapped(lp, l), rewrite::wrapped(rp, r));
    let joined = OpView::Cross(Box::new(wl), Box::new(wr));
    let f = OpView::Filter(cp, Box::new(joined));
    replacement::lemma_filter_over_cross(ps, l, r, db, g);
    replacement::lemma_replaces_stands(f, a, db, g);
    assert(equivalence::clear(joined, t, g));
    lemma_optimized(wl, db, depth, g);
    lemma_optimized(wr, db, depth, g);
    let x = rules::optimized(wl, t, depth)->Ok_0;
    let y = rules::optimized(wr, t, depth)->Ok_0;
    let z = rules::larger_first(x, y, t);
    let h = OpView::Filter(cp, Box::new(z));
    replacement::lemma_joined(x, wl, y, wr, db, g);
    replacement::lemma_filter_below(cp, z, joined, db, g);
    replacement::lemma_replaces_trans(h, f, a, db, g);
    replacement::lemma_replaces_stands(h, a, db, g);
    replacement::lemma_wrapped(cp, z, db, g);
    replacement::lemma_replaces_trans(rewrite::wrapped(cp, z), h, a, db, g);
}

/// Rewriting leaves the answers right where all tables are sound.
proof fn lemma_optimized_answers(op: OpView, db: Database, depth: nat, out: Seq<RowView>, g: Set<PredicateView>)
    requires
        semantics::all_sound(db),
        equivalence::clear(op, db.tables, g),
    ensures
        rules::optimized(op, db.tables, depth) matches Ok(b) && {
            &&& equivalence::clear(b, db.tables, g)
            &&& equivalence::same_columns(
                equivalence::cols(op, db.tables),
                equivalence::cols(b, db.tables),
            )
            &&& semantics::delivers(b, db, out) ==> semantics::delivers(
                op,
                db,
                equivalence::turned(out, b, op, db.tables),
            )
            &&& keeps_columns(op, db.tables) ==> {
                &&& equivalence::cols(b, db.tables) == equivalence::cols(op, db.tables)
                &&& semantics::delivers(b, db, out) ==> semantics::delivers(op, db, out)
            }
        },
{
    lemma_optimized(op, db, depth, g);
    let b = rules::optimized(op, db.tables, depth)->Ok_0;
    replacement::lemma_replaces_stands(b, op, db, g);
    equivalence::lemma_stands_answer(b, op, db, out, g);
    if semantics::delivers(b, db, out) && keeps_columns(op, db.tables) {
        equivalence::lemma_turned_same(b, op, db, out, g);
    }
}

/// A query in which every name is there and means one column can be rewritten,
/// where its predicates, and what becomes of them below its projections, are in a
/// set in which only predicates that are alike have one key. Every right answer of
/// the rewritten query is a right answer of the query, once its columns are put in
/// the order of those of the query. Where rewriting keeps the columns, they are in
/// that order. The tables that the query reads are sound, and no two tables are in
/// one file.
pub proof fn law_optimized_answers(op: OpView, db: Database, depth: nat, out: Seq<RowView>, g: Set<PredicateView>)
    requires
        reading::own_files(db.tables),
        semantics::sound(op, db),
        equivalence::clear(op, db.tables, g),
    ensures
        rules::optimized(op, db.tables, depth) matches Ok(b) && {
            &&& equivalence::clear(b, db.tables, g)
            &&& equivalence::same_columns(
                equivalence::cols(op, db.tables),
                equivalence::cols(b, db.tables),
            )
            &&& semantics::delivers(b, db, out) ==> semantics::delivers(
                op,
                db,
                equivalence::turned(out, b, op, db.tables),
            )
            &&& keeps_columns(op, db.tables) ==> {
                &&& equivalence::cols(b, db.tables) == equivalence::cols(op, db.tables)
                &&& semantics::delivers(b, db, out) ==> semantics::delivers(op, db, out)
            }
        },
{
    let whole = reading::mended(db);
    reading::lemma_optimized_sound(op, db, depth);
    reading::lemma_mended_sound(db);
    lemma_optimized_answers(op, whole, depth, out, g);
    let b = rules::optimized(op, db.tables, depth)->Ok_0;
    reading::lemma_mended_answers(b, db, out);
    reading::lemma_mended_answers(op, db, out);
    reading::lemma_mended_answers(op, db, equivalence::turned(out, b, op, db.tables));
}

/// Where running the rewritten query emits a right answer of it, a right answer
/// of the query was emitted, with its columns in the order of those of the
/// rewritten query: in that of the query itself, where rewriting keeps it.
pub proof fn law_optimized_executed(
    op: OpView,
    db: Database,
    depth: nat,
    before: Seq<RowView>,
    after: Seq<RowView>,
    g: Set<PredicateView>,
)
    requires
        reading::own_files(db.tables),
        semantics::sound(op, db),
        equivalence::clear(op, db.tables, g),
        outcome::executed(rules::optimized(op, db.tables, depth)->Ok_0, db, before, after),
    ensures
        exists|out: Seq<RowView>|
            after == before + out && semantics::delivers(
                op,
                db,
                #[trigger] equivalence::turned(
                    out,
                    rules::optimized(op, db.tables, depth)->Ok_0,
                    op,
                    db.tables,
                ),
            ),
        keeps_columns(op, db.tables) ==> outcome::executed(op, db, before, after),
{
    let b = rules::optimized(op, db.tables, depth)->Ok_0;
    let out = choose|out: Seq<RowView>| #[trigger]
        semantics::delivers(b, db, out) && after == before + out;
    law_optimized_answers(op, db, depth, out, g);
    assert(semantics::delivers(op, db, equivalence::turned(out, b, op, db.tables)));
}

} // verus!
