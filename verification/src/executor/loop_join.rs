//! Joins of operators without keys.

use vstd::prelude::*;

use crate::bag;
use crate::catalog::db_context::DbContext;
use crate::catalog::table::ColumnView;
use crate::error::DbError;
use crate::executor;
use crate::executor::equality_join;
use crate::executor::equality_join::materialization_budget;
use crate::executor::filter::execute_join_subtree;
use crate::executor::frame;
use crate::executor::hash_join;
use crate::executor::keys;
use crate::executor::materialize;
use crate::executor::materialize::{MaterializedRows, Materializer};
use crate::executor::outcome;
use crate::executor::sink;
use crate::executor::sink::{LoopStage, RowSink, Stage};
use crate::executor::{clone_compiled, CompiledPredicate};
use crate::io::{Input, Output};
use crate::query;
use crate::query::{Predicate, QueryOp};
use crate::query_support;
use crate::query_support::infer_schema;
use crate::row;
use crate::semantics;
use crate::semantics::RowView;
use crate::storage::block_allocator::ScratchSpace;
use crate::storage::disk_client::DiskClient;
use crate::storage::scratch_run;
use crate::storage::scratch_run::RowOutput;

verus! {

/// Runs an operator under predicates and keeps its rows, in memory as far as
/// the budget goes.
#[verifier::spinoff_prover]
fn materialize_subtree_rows<R: Input, W: Output, F: RowOutput>(
    op: &QueryOp,
    predicates: &Vec<Predicate>,
    ctx: &DbContext,
    disk: &mut DiskClient<R, W>,
    scratch: &mut ScratchSpace,
    memory_limit: usize,
    budget: usize,
) -> (r: Result<(MaterializedRows, Ghost<Seq<RowView>>), DbError>)
    requires
        old(scratch).wf(),
    ensures
        scratch_run::kept(
            *old(disk),
            *old(scratch),
            *final(disk),
            *final(scratch),
            Set::<int>::empty(),
        ),
        r matches Ok((rows, log)) ==> {
            &&& outcome::side_known(op@, query::predicate_views(predicates@), ctx.tables())
            &&& query_support::schema_of(op@, ctx.tables()) == Ok::<Seq<ColumnView>, DbError>(
                rows.schema@,
            )
            &&& scratch_run::grown(Set::<int>::empty(), *old(scratch), rows.own())
            &&& outcome::gives_back_filtered(op@) || !final(scratch).gave_up() ==> scratch_run::tidy(
                Set::<int>::empty(),
                *old(scratch),
                rows.own(),
                *final(scratch),
            )
            &&& rows.keeps(*final(disk), *final(scratch), log@)
            &&& rows.run is None ==> row::saturated(materialize::least_bytes(log@)) <= budget
            &&& frame::trusty(*final(disk), *final(scratch)) && semantics::sound(
                op@,
                outcome::database_on(ctx.tables(), *old(disk)),
            ) ==> {
                let rows = outcome::side_rows(
                    op@,
                    query::predicate_views(predicates@),
                    outcome::database_on(ctx.tables(), *old(disk)),
                );
                &&& bag::bag(log@) == bag::bag(rows)
                &&& semantics::is_pipeline(op@) ==> log@ == rows
            }
        },
        r matches Err(e) ==> outcome::excused_side(
            op@,
            query::predicate_views(predicates@),
            ctx.tables(),
            *old(disk),
            *old(scratch),
            e,
            *final(disk),
            *final(scratch),
        ),
    decreases op@.size() + 1, 9nat,
{
    let ghost (d0, s0) = (*disk, *scratch);
    let ghost none = Set::<int>::empty();
    let ghost db = outcome::database_on(ctx.tables(), d0);
    proof {
        frame::lemma_kept_refl(d0, s0, none);
        outcome::lemma_schema_error(op@, ctx.tables());
    }
    let schema = infer_schema(op, ctx)?;
    let collector = Materializer::new(schema, budget, disk, scratch);
    let sink: RowSink<F> = RowSink::Materialize(collector);
    let ghost start = sink;
    assert(start.own() == none);
    proof {
        let rows = outcome::side_rows(op@, query::predicate_views(predicates@), db);
        assert(Seq::<RowView>::empty() + rows =~= rows);
    }
    let (_, out) = execute_join_subtree(
        op,
        predicates,
        ctx,
        disk,
        scratch,
        memory_limit,
        sink,
    )?;
    let ghost (d1, s1) = (*disk, *scratch);
    match out {
        RowSink::Materialize(done) => {
            let ghost log = done.log();
            let ghost own1 = done.own();
            let result = done.finish(disk, scratch);
            proof {
                frame::lemma_kept_trans(d0, s0, d1, s1, *disk, *scratch, none, own1);
            }
            let rows = result?;
            proof {
                frame::lemma_grown_trans(d0, s0, d1, s1, none, own1, rows.own());
                if frame::trusty(*disk, *scratch) && semantics::sound(op@, db) {
                    equality_join::lemma_came(
                        start.log(),
                        log,
                        outcome::side_rows(op@, query::predicate_views(predicates@), db),
                    );
                }
            }
            Ok((rows, Ghost(log)))
        },
        _ => vstd::pervasive::unreached(),
    }
}

/// Joins two operators under predicates: the rows of the build side are kept,
/// and each row of the probe side is joined with all of them.
#[verifier::spinoff_prover]
pub fn execute_materialized_join<R: Input, W: Output, F: RowOutput>(
    build: &QueryOp,
    build_preds: &Vec<Predicate>,
    probe: &QueryOp,
    probe_preds: &Vec<Predicate>,
    compiled_cross: &Vec<CompiledPredicate>,
    ctx: &DbContext,
    disk: &mut DiskClient<R, W>,
    scratch: &mut ScratchSpace,
    memory_limit: usize,
    build_is_left: bool,
    sink: RowSink<F>,
) -> (r: Result<RowSink<F>, DbError>)
    requires
        old(scratch).wf(),
        sink.wf(*old(disk), *old(scratch)),
        query_support::schema_of(build@, ctx.tables()) is Ok,
        query_support::schema_of(probe@, ctx.tables()) is Ok,
        sink.types() == sink::joined_types(
            row::types_of(query_support::schema_of(build@, ctx.tables())->Ok_0),
            row::types_of(query_support::schema_of(probe@, ctx.tables())->Ok_0),
            build_is_left,
        ),
    ensures
        scratch_run::kept(
            *old(disk),
            *old(scratch),
            *final(disk),
            *final(scratch),
            sink.own(),
        ),
        r matches Ok(out) ==> outcome::ran_sides(
            build@,
            query::predicate_views(build_preds@),
            probe@,
            query::predicate_views(probe_preds@),
            build_is_left,
            executor::compiled_views(compiled_cross@),
            ctx.tables(),
            sink,
            *old(disk),
            *old(scratch),
            out,
            *final(disk),
            *final(scratch),
        ),
        r matches Err(e) ==> outcome::excused_sides(
            build@,
            query::predicate_views(build_preds@),
            probe@,
            query::predicate_views(probe_preds@),
            build_is_left,
            executor::compiled_views(compiled_cross@),
            ctx.tables(),
            sink,
            *old(disk),
            *old(scratch),
            e,
            *final(disk),
            *final(scratch),
        ),
    decreases build@.size() + probe@.size() + 1, 10nat,
{
    let ghost (d0, s0) = (*disk, *scratch);
    let ghost start = sink;
    let ghost none = Set::<int>::empty();
    let ghost tables = ctx.tables();
    let ghost db = outcome::database_on(tables, d0);
    let ghost ps = executor::compiled_views(compiled_cross@);
    let ghost bp = query::predicate_views(build_preds@);
    let ghost pp = query::predicate_views(probe_preds@);
    let ghost probe_types = row::types_of(query_support::schema_of(probe@, tables)->Ok_0);
    let budget: usize = materialization_budget(memory_limit, scratch.block_size());
    let result = materialize_subtree_rows::<R, W, F>(
        build,
        build_preds,
        ctx,
        disk,
        scratch,
        memory_limit,
        budget,
    );
    let ghost (d1, s1) = (*disk, *scratch);
    proof {
        frame::lemma_kept_more(d0, s0, d1, s1, none, start.own());
        start.lemma_own_in_use(d0, s0);
        start.lemma_wf_kept(d0, s0, d1, s1, none);
    }
    let (kept, builds) = result?;
    let ghost held = kept.own();
    proof {
        frame::lemma_new_disjoint(start.own(), s0, held);
    }
    let stage = Stage::Loop(
        LoopStage {
            build: kept,
            predicates: clone_compiled(compiled_cross),
            build_is_left,
            types: Ghost(probe_types),
            builds,
        },
    );
    let ghost view = stage.view();
    let inner = sink.behind(stage, disk, scratch);
    let ghost begun = inner;
    assert(begun.own() =~= start.own());
    let result = execute_join_subtree(
        probe,
        probe_preds,
        ctx,
        disk,
        scratch,
        memory_limit,
        inner,
    );
    let ghost (d2, s2) = (*disk, *scratch);
    proof {
        frame::lemma_kept_trans(d0, s0, d1, s1, d2, s2, start.own(), start.own());
        if result is Err && scratch_run::able(d2, s2) && semantics::both_sound(build@, probe@, db) {
            let e = result->Err_0;
            let probes = outcome::side_rows(probe@, pp, db);
            assert(Seq::<RowView>::empty() + probes =~= probes);
            if outcome::join_excuses(
                builds@,
                probes,
                build_is_left,
                ps,
                start,
                e,
                s0.size() as int,
            ) {
                outcome::lemma_excused_by_rows(
                    build@,
                    bp,
                    probe@,
                    pp,
                    build_is_left,
                    ps,
                    tables,
                    start,
                    d0,
                    s0,
                    e,
                    d2,
                    s2,
                    builds@,
                    probes,
                );
            }
        }
    }
    let (_, out) = result?;
    let ghost log = out.log();
    proof {
        outcome::lemma_node_done(start, d0, s0, begun, view, held, d1, s1, out, d2, s2);
    }
    match out {
        RowSink::Node(node) => {
            let ghost done = *node.next;
            if let Stage::Loop(s) = node.stage {
                s.build.release(disk, scratch);
            }
            proof {
                hash_join::lemma_advanced_released(
                    start,
                    d0,
                    s0,
                    done,
                    d2,
                    s2,
                    *scratch,
                    held,
                );
                if semantics::is_pipeline(build@) && semantics::is_pipeline(probe@) {
                    outcome::lemma_pipeline_gives_back(build@);
                    outcome::lemma_pipeline_gives_back(probe@);
                }
                if frame::trusty(d2, *scratch) && semantics::both_sound(build@, probe@, db) {
                    let build_rows = outcome::side_rows(build@, bp, db);
                    let probe_rows = outcome::side_rows(probe@, pp, db);
                    equality_join::lemma_came(begun.log(), log, probe_rows);
                    semantics::lemma_probe_rows_bag(builds@, log, build_is_left, ps);
                    keys::lemma_probe_same(
                        builds@,
                        log,
                        build_rows,
                        probe_rows,
                        build_is_left,
                        ps,
                    );
                    outcome::lemma_emitted(
                        start.log(),
                        semantics::probe_rows(builds@, log, build_is_left, ps),
                    );
                }
            }
            Ok(*node.next)
        },
        _ => vstd::pervasive::unreached(),
    }
}

} // verus!
