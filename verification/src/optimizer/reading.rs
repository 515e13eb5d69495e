//! What a query answers rests on the tables that it reads alone.

use vstd::prelude::*;

use crate::bag;
use crate::catalog::db_context;
use crate::catalog::table::TableSpec;
use crate::executor::project;
use crate::executor::rewrite;
use crate::optimizer::duplicates;
use crate::optimizer::projections;
use crate::optimizer::reorder;
use crate::optimizer::reorder_laws;
use crate::optimizer::rules;
use crate::query::{OpView, PredicateView};
use crate::query_support;
use crate::query_support::PredicateSide;
use crate::row;
use crate::semantics;
use crate::semantics::{Database, RowView};
use crate::storage::disk_client::DiskLayout;

verus! {

/// No two tables keep their rows in one file.
pub open spec fn own_files(tables: Seq<TableSpec>) -> bool {
    forall|i: int, j: int|
        0 <= i < j < tables.len() ==> (#[trigger] tables[i]).file_id@ != (
        #[trigger] tables[j]).file_id@
}

/// Nothing is wrong with a table among tables with which nothing is wrong.
proof fn lemma_no_problem(tables: Seq<TableSpec>, n: int, j: int)
    requires
        0 <= j < n,
        db_context::tables_problem(tables, n) is None,
    ensures
        db_context::table_problem(tables, j) is None,
    decreases n,
{
    if j < n - 1 {
        lemma_no_problem(tables, n - 1, j);
    }
}

/// Tables that make a context are in files of their own.
pub proof fn law_context_files(tables: Seq<TableSpec>)
    requires
        db_context::tables_problem(tables, tables.len() as int) is None,
    ensures
        own_files(tables),
{
    assert forall|i: int, j: int| 0 <= i < j < tables.len() implies (
    #[trigger] tables[i]).file_id@ != (#[trigger] tables[j]).file_id@ by {
        lemma_no_problem(tables, tables.len() as int, j);
    }
}

/// A file holds what is no sound table.
spec fn spoiled(db: Database, file: Seq<char>) -> bool {
    exists|i: int|
        0 <= i < db.tables.len() && (#[trigger] db.tables[i]).file_id@ == file
            && !semantics::table_sound(db.tables[i], db.layout)
}

/// The tables with those empty that are not sound.
pub closed spec fn mended(db: Database) -> Database {
    Database {
        tables: db.tables,
        layout: DiskLayout {
            files: Map::new(
                |file: Seq<char>| true,
                |file: Seq<char>|
                    if spoiled(db, file) {
                        (0u64, 0u64)
                    } else {
                        db.layout.files[file]
                    },
            ),
            ..db.layout
        },
    }
}

/// A sound table stays as it is.
proof fn lemma_mended_table(db: Database, i: int)
    requires
        own_files(db.tables),
        0 <= i < db.tables.len(),
        semantics::table_sound(db.tables[i], db.layout),
    ensures
        mended(db).layout.file_blocks(db.tables[i].file_id@) == db.layout.file_blocks(
            db.tables[i].file_id@,
        ),
        mended(db).layout.files[db.tables[i].file_id@] == db.layout.files[db.tables[i].file_id@],
{
    let file = db.tables[i].file_id@;
    assert(!spoiled(db, file));
    assert(mended(db).layout.file_blocks(file) =~= db.layout.file_blocks(file));
}

/// All tables are sound once the others are empty.
pub proof fn lemma_mended_sound(db: Database)
    requires
        own_files(db.tables),
    ensures
        semantics::all_sound(mended(db)),
        mended(db).tables == db.tables,
{
    let whole = mended(db);
    assert forall|i: int| 0 <= i < whole.tables.len() implies semantics::table_sound(
        #[trigger] whole.tables[i],
        whole.layout,
    ) by {
        let t = db.tables[i];
        if semantics::table_sound(t, db.layout) {
            lemma_mended_table(db, i);
        } else {
            assert(spoiled(db, t.file_id@));
            let blocks = whole.layout.file_blocks(t.file_id@);
            assert(blocks.len() == 0);
            assert(semantics::file_rows(blocks, row::types_of(t.columns())) == Ok::<
                Seq<RowView>,
                crate::error::DbError,
            >(Seq::empty()));
        }
    }
}

/// The rows of an operator stay as they are.
proof fn lemma_mended_rows(op: OpView, db: Database)
    requires
        own_files(db.tables),
        semantics::sound(op, db),
        semantics::op_known(op, db.tables),
    ensures
        semantics::rows_of(op, mended(db)) == semantics::rows_of(op, db),
    decreases op,
{
    match op {
        OpView::Scan(id) => {
            db_context::lemma_table_index(db.tables, id);
            lemma_mended_table(db, db_context::table_index(db.tables, id)->0);
        },
        OpView::Filter(_, u) => lemma_mended_rows(*u, db),
        OpView::Project(_, u) => lemma_mended_rows(*u, db),
        OpView::Cross(l, r) => {
            lemma_mended_rows(*l, db);
            lemma_mended_rows(*r, db);
        },
        OpView::Sort(_, u) => lemma_mended_rows(*u, db),
    }
}

/// The right answers of an operator stay as they are.
pub proof fn lemma_mended_answers(op: OpView, db: Database, out: Seq<RowView>)
    requires
        own_files(db.tables),
        semantics::sound(op, db),
        semantics::op_known(op, db.tables),
    ensures
        semantics::delivers(op, mended(db), out) == semantics::delivers(op, db, out),
    decreases op,
{
    lemma_mended_rows(op, db);
    match op {
        OpView::Filter(ps, u) => {
            let cs = semantics::compiled_all(
                query_support::schema_of(*u, db.tables)->Ok_0,
                ps,
            );
            assert forall|c: Seq<RowView>| #[trigger]
                semantics::is_filtered(out, c, cs) implies semantics::delivers(*u, mended(db), c)
                == semantics::delivers(*u, db, c) by {
                lemma_mended_answers(*u, db, c);
            }
        },
        OpView::Project(map, u) => {
            let indexes = row::map_indexes(query_support::schema_of(*u, db.tables)->Ok_0, map);
            assert forall|c: Seq<RowView>| #[trigger]
                semantics::is_projected(out, c, indexes) implies semantics::delivers(
                *u,
                mended(db),
                c,
            ) == semantics::delivers(*u, db, c) by {
                lemma_mended_answers(*u, db, c);
            }
        },
        OpView::Sort(_, u) => lemma_mended_rows(*u, db),
        _ => {},
    }
}

/// A tree of cross products reads what its inputs read.
proof fn lemma_leaves_sound(op: OpView, db: Database)
    ensures
        semantics::sound(op, db) <==> forall|i: int|
            0 <= i < reorder::leaves(op).len() ==> semantics::sound(
                #[trigger] reorder::leaves(op)[i],
                db,
            ),
    decreases op,
{
    let all = reorder::leaves(op);
    if let OpView::Cross(l, r) = op {
        lemma_leaves_sound(*l, db);
        lemma_leaves_sound(*r, db);
        let a = reorder::leaves(*l);
        let b = reorder::leaves(*r);
        if semantics::sound(op, db) {
            assert forall|i: int| 0 <= i < all.len() implies semantics::sound(
                #[trigger] all[i],
                db,
            ) by {
                if i < a.len() {
                    assert(all[i] == a[i]);
                } else {
                    assert(all[i] == b[i - a.len()]);
                }
            }
        } else {
            assert forall|i: int| 0 <= i < a.len() implies #[trigger] a[i] == all[i] by {}
            assert forall|i: int| 0 <= i < b.len() implies #[trigger] b[i] == all[a.len() + i] by {}
        }
    } else {
        assert(all[0] == op);
    }
}

/// Inputs in another order read the same tables.
proof fn lemma_reordered_sound(op: OpView, ps: Seq<PredicateView>, db: Database)
    requires
        semantics::sound(op, db),
    ensures
        reorder::reordered(op, ps, db.tables) matches Ok(b) ==> semantics::sound(b, db),
{
    if let Ok(b) = reorder::reordered(op, ps, db.tables) {
        reorder_laws::law_reordered_inputs(op, ps, db.tables);
        lemma_leaves_sound(op, db);
        lemma_leaves_sound(b, db);
        let (from, to) = (reorder::leaves(op), reorder::leaves(b));
        assert forall|i: int| 0 <= i < to.len() implies semantics::sound(#[trigger] to[i], db) by {
            assert(to.contains(to[i]));
            let k = bag::lemma_same_bag_index(to, from, to[i]);
            assert(semantics::sound(from[k], db));
        }
    }
}

/// A rewritten query reads tables that the query reads.
pub proof fn lemma_optimized_sound(op: OpView, db: Database, depth: nat)
    requires
        semantics::sound(op, db),
    ensures
        rules::optimized(op, db.tables, depth) matches Ok(b) ==> semantics::sound(b, db),
    decreases depth, 0nat,
{
    if depth > 0 {
        let d = (depth - 1) as nat;
        match op {
            OpView::Scan(_) => {},
            OpView::Project(map, u) => lemma_project_sound(map, *u, db, d),
            OpView::Sort(_, u) => lemma_optimized_sound(*u, db, d),
            OpView::Cross(l, r) => {
                lemma_optimized_sound(*l, db, d);
                lemma_optimized_sound(*r, db, d);
            },
            OpView::Filter(ps, u) => lemma_filter_sound(ps, *u, db, d),
        }
    }
}

proof fn lemma_project_sound(
    map: Seq<(Seq<char>, Seq<char>)>,
    u: OpView,
    db: Database,
    depth: nat,
)
    requires
        semantics::sound(u, db),
    ensures
        rules::optimized_project(map, u, db.tables, depth) matches Ok(b) ==> semantics::sound(
            b,
            db,
        ),
    decreases depth, 1nat,
{
    reveal_with_fuel(semantics::sound, 4);
    lemma_optimized_sound(u, db, depth);
    match rules::optimized(u, db.tables, depth) {
        Ok(OpView::Filter(ps, w)) => lemma_optimized_sound(
            OpView::Project(projections::map_for_filter(map, ps), w),
            db,
            depth,
        ),
        Ok(OpView::Sort(specs, w)) => lemma_optimized_sound(
            OpView::Project(project::reduced_map(map, specs), w),
            db,
            depth,
        ),
        _ => {},
    }
}

proof fn lemma_filter_sound(all: Seq<PredicateView>, u: OpView, db: Database, depth: nat)
    requires
        semantics::sound(u, db),
    ensures
        rules::optimized_filter(all, u, db.tables, depth) matches Ok(b) ==> semantics::sound(
            b,
            db,
        ),
    decreases depth, 2nat,
{
    reveal_with_fuel(semantics::sound, 3);
    let ps = duplicates::distinct_predicates(all);
    lemma_optimized_sound(u, db, depth);
    match rules::optimized(u, db.tables, depth) {
        Ok(OpView::Filter(inner, w)) => lemma_optimized_sound(
            OpView::Filter(inner + ps, w),
            db,
            depth,
        ),
        Ok(OpView::Project(map, w)) => {
            let below = OpView::Filter(rules::moved(ps, map), w);
            lemma_optimized_sound(below, db, depth);
            if let Ok(x) = rules::optimized(below, db.tables, depth) {
                lemma_optimized_sound(OpView::Project(map, Box::new(x)), db, depth);
            }
        },
        Ok(OpView::Sort(_, w)) => lemma_optimized_sound(OpView::Filter(ps, w), db, depth),
        Ok(OpView::Cross(l, r)) => {
            lemma_reordered_sound(OpView::Cross(l, r), ps, db);
            if let Ok(OpView::Cross(a, b)) = reorder::reordered(
                OpView::Cross(l, r),
                ps,
                db.tables,
            ) {
                lemma_join_sound(ps, *a, *b, db, depth);
            }
        },
        _ => {},
    }
}

proof fn lemma_join_sound(
    ps: Seq<PredicateView>,
    l: OpView,
    r: OpView,
    db: Database,
    depth: nat,
)
    requires
        semantics::both_sound(l, r, db),
    ensures
        rules::optimized_join(ps, l, r, db.tables, depth) matches Ok(b) ==> semantics::sound(
            b,
            db,
        ),
    decreases depth, 1nat,
{
    reveal_with_fuel(semantics::sound, 3);
    let t = db.tables;
    if let (Ok(a), Ok(b)) = (query_support::schema_of(l, t), query_support::schema_of(r, t)) {
        let lp = query_support::side_predicates(ps, a, b, PredicateSide::Left);
        let rp = query_support::side_predicates(ps, a, b, PredicateSide::Right);
        lemma_optimized_sound(rewrite::wrapped(lp, l), db, depth);
        lemma_optimized_sound(rewrite::wrapped(rp, r), db, depth);
    }
}

} // verus!
