//! Running cross products.

use vstd::prelude::*;

use crate::bag;
use crate::catalog::db_context::DbContext;
use crate::catalog::table::ColumnView;
use crate::error::DbError;
use crate::executor::effective_memory;
use crate::executor::execute_op;
use crate::executor::frame;
use crate::executor::hash_join;
use crate::executor::materialize;
use crate::executor::materialize::{MaterializedRows, Materializer};
use crate::executor::outcome;
use crate::executor::sink;
use crate::executor::sink::{LoopStage, RowSink, Stage};
use crate::io::{Input, Output};
use crate::query::{CrossData, QueryOp};
use crate::query_support;
use crate::query_support::infer_schema;
use crate::row;
use crate::row::Schema;
use crate::semantics;
use crate::semantics::{CompiledView, RowView};
use crate::storage::block_allocator::ScratchSpace;
use crate::storage::disk_client::DiskClient;
use crate::storage::scratch_run;
use crate::storage::scratch_run::RowOutput;

verus! {

broadcast use {
    sink::lemma_excuses_within,
};

/// Runs an operator and keeps its rows, in memory as far as the budget goes.
#[verifier::spinoff_prover]
fn materialize<R: Input, W: Output, F: RowOutput>(
    op: &QueryOp,
    ctx: &DbContext,
    disk: &mut DiskClient<R, W>,
    scratch: &mut ScratchSpace,
    memory_limit: usize,
    budget: usize,
) -> (r: Result<(MaterializedRows, Ghost<Seq<RowView>>), DbError>)
    requires
        old(scratch).wf(),
    ensures
        scratch_run::kept(
            *old(disk),
            *old(scratch),
            *final(disk),
            *final(scratch),
            Set::<int>::empty(),
        ),
        r is Ok ==> outcome::read_whole(
            op@,
            ctx.tables(),
            *old(disk),
            *final(disk),
            *final(scratch),
        ),
        r matches Ok((rows, log)) ==> {
            &&& semantics::op_known(op@, ctx.tables())
            &&& query_support::schema_of(op@, ctx.tables()) == Ok::<Seq<ColumnView>, DbError>(
                rows.schema@,
            )
            &&& scratch_run::grown(Set::<int>::empty(), *old(scratch), rows.own())
            &&& outcome::gives_back(op@) || !final(scratch).gave_up() ==> scratch_run::tidy(
                Set::<int>::empty(),
                *old(scratch),
                rows.own(),
                *final(scratch),
            )
            &&& rows.keeps(*final(disk), *final(scratch), log@)
            &&& rows.run is None ==> row::saturated(materialize::least_bytes(log@)) <= budget
            &&& frame::trusty(*final(disk), *final(scratch)) && semantics::sound(
                op@,
                outcome::database_on(ctx.tables(), *old(disk)),
            ) ==> semantics::delivers(
                op@,
                outcome::database_on(ctx.tables(), *old(disk)),
                log@,
            )
        },
        r matches Err(e) ==> (scratch_run::able(*final(disk), *final(scratch)) && semantics::sound(
            op@,
            outcome::database_on(ctx.tables(), *old(disk)),
        ) ==> outcome::excuses(
            op@,
            outcome::database_on(ctx.tables(), *old(disk)),
            old(scratch).size() as int,
            e,
        ) || sink::too_large(
            e,
            semantics::rows_of(op@, outcome::database_on(ctx.tables(), *old(disk))),
            old(scratch).size() as int,
        )),
    decreases op@.size(), 7nat,
{
    let ghost (d0, s0) = (*disk, *scratch);
    let ghost none = Set::<int>::empty();
    proof {
        frame::lemma_kept_refl(d0, s0, none);
        outcome::lemma_schema_error(op@, ctx.tables());
    }
    let schema = infer_schema(op, ctx)?;
    let collector = Materializer::new(schema, budget, disk, scratch);
    let sink: RowSink<F> = RowSink::Materialize(collector);
    let ghost start = sink;
    assert(start.own() == none);
    proof {
        let rows = semantics::rows_of(op@, outcome::database_on(ctx.tables(), d0));
        assert(Seq::<RowView>::empty() + rows =~= rows);
    }
    let (_, out) = execute_op(op, ctx, disk, scratch, memory_limit, sink)?;
    let ghost (d1, s1) = (*disk, *scratch);
    match out {
        RowSink::Materialize(done) => {
            let ghost log = done.log();
            let ghost own1 = done.own();
            let result = done.finish(disk, scratch);
            proof {
                frame::lemma_kept_trans(d0, s0, d1, s1, *disk, *scratch, none, own1);
            }
            let rows = result?;
            proof {
                frame::lemma_grown_trans(d0, s0, d1, s1, none, own1, rows.own());
                let db = outcome::database_on(ctx.tables(), d0);
                if frame::trusty(*disk, *scratch) && semantics::sound(op@, db) {
                    let c = choose|c: Seq<RowView>| #[trigger]
                        semantics::delivers(op@, db, c) && log == start.log() + c;
                    assert(log =~= c);
                }
            }
            Ok((rows, Ghost(log)))
        },
        _ => vstd::pervasive::unreached(),
    }
}

/// Runs a cross product: the rows of the right side are kept, and each row of
/// the left side is joined with all of them.
#[verifier::spinoff_prover]
pub fn execute_cross<R: Input, W: Output, F: RowOutput>(
    cross: &CrossData,
    ctx: &DbContext,
    disk: &mut DiskClient<R, W>,
    scratch: &mut ScratchSpace,
    memory_limit: usize,
    sink: RowSink<F>,
) -> (r: Result<(Schema, RowSink<F>), DbError>)
    requires
        old(scratch).wf(),
        sink.wf(*old(disk), *old(scratch)),
        outcome::takes(sink, cross.op(), ctx.tables()),
    ensures
        scratch_run::kept(
            *old(disk),
            *old(scratch),
            *final(disk),
            *final(scratch),
            sink.own(),
        ),
        r is Ok ==> outcome::read_whole(
            cross.op(),
            ctx.tables(),
            *old(disk),
            *final(disk),
            *final(scratch),
        ),
        r matches Ok((schema, out)) ==> outcome::ran(
            cross.op(),
            ctx.tables(),
            sink,
            *old(disk),
            *old(scratch),
            schema,
            out,
            *final(disk),
            *final(scratch),
        ),
        r matches Err(e) ==> outcome::excused(
            cross.op(),
            ctx.tables(),
            sink,
            *old(disk),
            *old(scratch),
            e,
            *final(disk),
            *final(scratch),
        ),
    decreases cross.op().size(), 5nat,
{
    let ghost (d0, s0) = (*disk, *scratch);
    let ghost start = sink;
    let ghost none = Set::<int>::empty();
    let ghost tables = ctx.tables();
    let ghost db = outcome::database_on(tables, d0);
    proof {
        frame::lemma_kept_refl(d0, s0, start.own());
        outcome::lemma_schema_error(cross.left@, tables);
        outcome::lemma_schema_error(cross.right@, tables);
    }
    let right_schema = infer_schema(&cross.right, ctx)?;
    let left_schema = infer_schema(&cross.left, ctx)?;
    let output_schema = Schema::combine(&left_schema, &right_schema);
    let budget: usize = effective_memory(memory_limit) / 2;
    let result = materialize::<R, W, F>(
        &cross.right,
        ctx,
        disk,
        scratch,
        memory_limit,
        budget,
    );
    let ghost (d1, s1) = (*disk, *scratch);
    proof {
        frame::lemma_kept_more(d0, s0, d1, s1, none, start.own());
        start.lemma_own_in_use(d0, s0);
        start.lemma_wf_kept(d0, s0, d1, s1, none);
    }
    let (build, builds) = result?;
    let ghost held = build.own();
    proof {
        frame::lemma_new_disjoint(start.own(), s0, held);
        assert(start.types() =~= left_schema.types() + right_schema.types());
    }
    let stage = Stage::Loop(
        LoopStage {
            build,
            predicates: Vec::new(),
            build_is_left: false,
            types: Ghost(left_schema.types()),
            builds,
        },
    );
    let ghost view = stage.view();
    let inner = sink.behind(stage, disk, scratch);
    let ghost begun = inner;
    assert(begun.own() =~= start.own());
    let result = execute_op(&cross.left, ctx, disk, scratch, memory_limit, inner);
    let ghost (d2, s2) = (*disk, *scratch);
    proof {
        frame::lemma_kept_trans(d0, s0, d1, s1, d2, s2, start.own(), start.own());
        if frame::trusty(d2, s2) && semantics::both_sound(cross.left@, cross.right@, db) {
            let lefts = semantics::rows_of(cross.left@, db);
            let rights = semantics::rows_of(cross.right@, db);
            let ps = view->Probe_ps;
            let part = semantics::probe_rows(builds@, lefts, false, ps);
            let all = semantics::rows_of(cross.op(), db);
            assert(Seq::<RowView>::empty() + lefts =~= lefts);
            bag::lemma_within_bag(builds@, rights);
            bag::lemma_within_front(lefts, lefts);
            semantics::lemma_probe_within(builds@, lefts, rights, lefts, false, ps);
            outcome::lemma_probe_cross(lefts, rights, ps);
            bag::lemma_within_front(start.log(), start.log());
            bag::lemma_within_concat(start.log(), part, start.log(), all);
        }
    }
    let (_, out) = result?;
    let ghost log = out.log();
    proof {
        outcome::lemma_node_done(start, d0, s0, begun, view, held, d1, s1, out, d2, s2);
    }
    match out {
        RowSink::Node(node) => {
            let ghost done = *node.next;
            if let Stage::Loop(s) = node.stage {
                s.build.release(disk, scratch);
            }
            proof {
                hash_join::lemma_advanced_released(
                    start,
                    d0,
                    s0,
                    done,
                    d2,
                    s2,
                    *scratch,
                    held,
                );
                if frame::trusty(d2, *scratch)
                    && semantics::both_sound(cross.left@, cross.right@, db) {
                    let lefts = choose|c: Seq<RowView>| #[trigger]
                        semantics::delivers(cross.left@, db, c) && log == begun.log() + c;
                    assert(log =~= lefts);
                    lemma_cross_delivers(cross, db, lefts, builds@, view->Probe_ps);
                    assert(outcome::executed(cross.op(), db, start.log(), done.log()));
                }
            }
            Ok((output_schema, *node.next))
        },
        _ => vstd::pervasive::unreached(),
    }
}

/// Right answers of the sides of a cross product make one of it.
proof fn lemma_cross_delivers(
    cross: &CrossData,
    db: semantics::Database,
    lefts: Seq<RowView>,
    rights: Seq<RowView>,
    ps: Seq<CompiledView>,
)
    requires
        semantics::delivers(cross.left@, db, lefts),
        semantics::delivers(cross.right@, db, rights),
        ps.len() == 0,
    ensures
        semantics::delivers(
            cross.op(),
            db,
            semantics::probe_rows(rights, lefts, false, ps),
        ),
{
    outcome::lemma_probe_cross(lefts, rights, ps);
    outcome::lemma_cross_bag(
        lefts,
        rights,
        semantics::rows_of(cross.left@, db),
        semantics::rows_of(cross.right@, db),
    );
}

} // verus!
