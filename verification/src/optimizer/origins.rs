//! The names that columns have below projections.

use vstd::prelude::*;

use crate::catalog::table::TableSpec;
use crate::executor::project;
use crate::executor::rewrite;
use crate::optimizer::equivalence;
use crate::optimizer::filter_laws;
use crate::optimizer::project_laws;
use crate::optimizer::projections;
use crate::query::OpView;
use crate::query_support;
use crate::semantics;

verus! {

/// The name that a column has below all projections down to a table or a cross
/// product.
pub open spec fn origin(op: OpView, name: Seq<char>) -> Seq<char>
    decreases op,
{
    match op {
        OpView::Filter(_, u) => origin(*u, name),
        OpView::Sort(_, u) => origin(*u, name),
        OpView::Project(map, u) => origin(*u, rewrite::source_of(map, name)->0),
        _ => name,
    }
}

/// Some column of an operator has another name below.
pub open spec fn renames_some(op: OpView, tables: Seq<TableSpec>) -> bool {
    exists|name: Seq<char>|
        query_support::has_column(equivalence::cols(op, tables), name) && #[trigger] origin(
            op,
            name,
        ) != name
}

/// The columns of one operator have the names below that those of another have.
pub open spec fn same_origins(b: OpView, a: OpView, tables: Seq<TableSpec>) -> bool {
    forall|name: Seq<char>|
        query_support::has_column(equivalence::cols(a, tables), name) ==> #[trigger] origin(b, name)
            == origin(a, name)
}

/// By way of a third operator with the same columns.
pub proof fn lemma_origins_trans(c: OpView, b: OpView, a: OpView, tables: Seq<TableSpec>)
    requires
        equivalence::same_columns(equivalence::cols(a, tables), equivalence::cols(b, tables)),
        same_origins(b, a, tables),
        same_origins(c, b, tables),
    ensures
        same_origins(c, a, tables),
{
    assert forall|name: Seq<char>|
        query_support::has_column(equivalence::cols(a, tables), name) implies #[trigger] origin(
        c,
        name,
    ) == origin(a, name) by {
        equivalence::lemma_place(equivalence::cols(b, tables), equivalence::cols(a, tables), name);
        assert(origin(b, name) == origin(a, name));
    }
}

/// Below a projection.
pub proof fn lemma_origins_project(
    map: Seq<(Seq<char>, Seq<char>)>,
    v: OpView,
    u: OpView,
    tables: Seq<TableSpec>,
)
    requires
        semantics::op_known(OpView::Project(map, Box::new(u)), tables),
        same_origins(v, u, tables),
    ensures
        same_origins(OpView::Project(map, Box::new(v)), OpView::Project(map, Box::new(u)), tables),
{
    let a = OpView::Project(map, Box::new(u));
    let b = OpView::Project(map, Box::new(v));
    semantics::lemma_known_schema(u, tables);
    assert forall|name: Seq<char>|
        query_support::has_column(equivalence::cols(a, tables), name) implies #[trigger] origin(
        b,
        name,
    ) == origin(a, name) by {
        filter_laws::lemma_source_known(equivalence::cols(u, tables), map, name);
        let from = rewrite::source_of(map, name)->0;
        assert(origin(v, from) == origin(u, from));
    }
}

/// Columns that are picked under their own names below a projection.
pub proof fn lemma_origins_own(
    map: Seq<(Seq<char>, Seq<char>)>,
    names: Seq<Seq<char>>,
    w: OpView,
    name: Seq<char>,
)
    requires
        forall|i: int| 0 <= i < map.len() ==> names.contains((#[trigger] map[i]).0),
        rewrite::source_of(map, name) is Some,
    ensures
        origin(
            OpView::Project(project::own_names(project::deduplicated(names)), Box::new(w)),
            rewrite::source_of(map, name)->0,
        ) == origin(w, rewrite::source_of(map, name)->0),
{
    rewrite::lemma_source(map, name);
    let from = rewrite::source_of(map, name)->0;
    let i = choose|i: int|
        0 <= i < map.len() && (#[trigger] map[i]).1 == name && map[i].0 == from && forall|j: int|
            0 <= j < i ==> (#[trigger] map[j]).1 != name;
    assert(names.contains(map[i].0));
    project_laws::lemma_own_name(Seq::empty(), names, from);
}

/// A column that two projections make.
proof fn lemma_source_composed(
    outer: Seq<(Seq<char>, Seq<char>)>,
    inner: Seq<(Seq<char>, Seq<char>)>,
    name: Seq<char>,
)
    requires
        rewrite::source_of(outer, name) is Some,
    ensures
        rewrite::source_of(projections::composed_map(outer, inner), name) == Some(
            rewrite::source_of(inner, rewrite::source_of(outer, name)->0)->0,
        ),
    decreases outer.len(),
{
    let both = projections::composed_map(outer, inner);
    if outer[0].1 != name {
        lemma_source_composed(outer.skip(1), inner, name);
        assert(both.skip(1) =~= projections::composed_map(outer.skip(1), inner));
    }
}

/// Two projections as one.
pub proof fn lemma_origins_twice(
    outer: Seq<(Seq<char>, Seq<char>)>,
    inner: Seq<(Seq<char>, Seq<char>)>,
    u: OpView,
    tables: Seq<TableSpec>,
)
    requires
        semantics::op_known(
            OpView::Project(outer, Box::new(OpView::Project(inner, Box::new(u)))),
            tables,
        ),
    ensures
        same_origins(
            OpView::Project(projections::composed_map(outer, inner), Box::new(u)),
            OpView::Project(outer, Box::new(OpView::Project(inner, Box::new(u)))),
            tables,
        ),
{
    let below = OpView::Project(inner, Box::new(u));
    let a = OpView::Project(outer, Box::new(below));
    let b = OpView::Project(projections::composed_map(outer, inner), Box::new(u));
    semantics::lemma_known_schema(below, tables);
    assert forall|name: Seq<char>|
        query_support::has_column(equivalence::cols(a, tables), name) implies #[trigger] origin(
        b,
        name,
    ) == origin(a, name) by {
        filter_laws::lemma_source_known(equivalence::cols(below, tables), outer, name);
        lemma_source_composed(outer, inner, name);
        let from = rewrite::source_of(outer, name)->0;
        assert(origin(a, name) == origin(below, from));
        assert(origin(below, from) == origin(u, rewrite::source_of(inner, from)->0));
    }
}

/// A projection that does nothing.
pub proof fn lemma_origins_projected(
    map: Seq<(Seq<char>, Seq<char>)>,
    u: OpView,
    tables: Seq<TableSpec>,
)
    requires
        semantics::op_known(OpView::Project(map, Box::new(u)), tables),
    ensures
        same_origins(
            projections::projected(map, equivalence::cols(u, tables), u),
            OpView::Project(map, Box::new(u)),
            tables,
        ),
{
    let c = equivalence::cols(u, tables);
    let a = OpView::Project(map, Box::new(u));
    semantics::lemma_known_schema(u, tables);
    if projections::is_identity_map(map, c) {
        assert forall|name: Seq<char>|
            query_support::has_column(equivalence::cols(a, tables), name) implies #[trigger] origin(
            u,
            name,
        ) == origin(a, name) by {
            filter_laws::lemma_source_known(c, map, name);
            let from = rewrite::source_of(map, name)->0;
            let i = choose|i: int|
                0 <= i < map.len() && (#[trigger] map[i]).1 == name && map[i].0 == from
                    && forall|j: int| 0 <= j < i ==> (#[trigger] map[j]).1 != name;
            assert(map[i].0 == map[i].1);
        }
    }
}

} // verus!
