//! Running filters, and joins under filters.

use vstd::prelude::*;

use crate::bag;
use crate::catalog::db_context::DbContext;
use crate::catalog::table::ColumnView;
use crate::error::DbError;
use crate::executor;
use crate::executor::equality_join::{
    estimated_build_cost, estimated_direct_hash_build_cost, execute_equality_join,
};
use crate::executor::execute_op;
use crate::executor::frame;
use crate::executor::hash;
use crate::executor::keys;
use crate::executor::loop_join::execute_materialized_join;
use crate::executor::merge_join::{try_execute_ordered_unique_merge_join, JoinInput};
use crate::executor::outcome;
use crate::executor::project::lemma_project_stage;
use crate::executor::rewrite;
use crate::executor::rewrite::{remap_project_predicates, wrap_filter_if_needed};
use crate::executor::scan::{try_execute_scan_pipeline_op, Tried};
use crate::executor::sink;
use crate::executor::sink::{FilterStage, ProjectStage, RowSink, Stage};
use crate::executor::{compile_predicates, CompiledPredicate};
use crate::io::{Input, Output};
use crate::query;
use crate::query::{clone_predicates, CrossData, FilterData, OpView, Predicate, PredicateView, QueryOp};
use crate::query_support;
use crate::query_support::{
    extract_join_keys, infer_schema, split_cross_predicates, PredicateSide,
};
use crate::row;
use crate::row::Schema;
use crate::semantics;
use crate::semantics::{Database, Kind, RowView};
use crate::storage::block_allocator::ScratchSpace;
use crate::storage::disk_client::DiskClient;
use crate::storage::scratch_run;
use crate::storage::scratch_run::RowOutput;

verus! {

broadcast use sink::lemma_excuses_within;

/// Runs a filter: over a cross product as a join, over a chain of operators on
/// a table in one pass, and otherwise row by row.
#[verifier::spinoff_prover]
pub fn execute_filter<R: Input, W: Output, F: RowOutput>(
    filter: &FilterData,
    ctx: &DbContext,
    disk: &mut DiskClient<R, W>,
    scratch: &mut ScratchSpace,
    memory_limit: usize,
    sink: RowSink<F>,
) -> (r: Result<(Schema, RowSink<F>), DbError>)
    requires
        old(scratch).wf(),
        sink.wf(*old(disk), *old(scratch)),
        outcome::takes(sink, filter.op(), ctx.tables()),
    ensures
        scratch_run::kept(
            *old(disk),
            *old(scratch),
            *final(disk),
            *final(scratch),
            sink.own(),
        ),
        outcome::refused(
            filter.op(),
            ctx.tables(),
            r,
            *old(disk),
            *old(scratch),
            *final(disk),
            *final(scratch),
        ),
        semantics::is_pipeline(filter.op()) && sink.dry() ==> *final(scratch) == *old(scratch),
        r is Ok ==> outcome::read_whole(
            filter.op(),
            ctx.tables(),
            *old(disk),
            *final(disk),
            *final(scratch),
        ),
        r matches Ok((schema, out)) ==> outcome::ran(
            filter.op(),
            ctx.tables(),
            sink,
            *old(disk),
            *old(scratch),
            schema,
            out,
            *final(disk),
            *final(scratch),
        ),
        r matches Err(e) ==> outcome::excused(
            filter.op(),
            ctx.tables(),
            sink,
            *old(disk),
            *old(scratch),
            e,
            *final(disk),
            *final(scratch),
        ),
    decreases filter.op().size(), 5nat,
{
    let ghost (d0, s0) = (*disk, *scratch);
    let ghost start = sink;
    let ghost tables = ctx.tables();
    let ghost db = outcome::database_on(tables, d0);
    let ghost u = filter.underlying@;
    let ghost fps = query::predicate_views(filter.predicates@);
    let sink = match try_execute_join_filter(filter, ctx, disk, scratch, memory_limit, sink)? {
        Tried::Done(schema, out) => {
            return Ok((schema, out));
        },
        Tried::Not(sink) => sink,
    };
    let copy = QueryOp::Filter(
        FilterData {
            predicates: clone_predicates(&filter.predicates),
            underlying: Box::new((&*filter.underlying).clone()),
        },
    );
    assert(copy@ == filter.op());
    let sink = match try_execute_scan_pipeline_op(&copy, ctx, disk, scratch, memory_limit, sink)? {
        Tried::Done(schema, out) => {
            return Ok((schema, out));
        },
        Tried::Not(sink) => sink,
    };
    proof {
        frame::lemma_kept_refl(d0, s0, start.own());
        if outcome::table_of(u) is Some {
            outcome::lemma_schema_refused(u, tables);
        }
        outcome::lemma_schema_error(u, tables);
    }
    let schema = infer_schema(&filter.underlying, ctx)?;
    let predicates = compile_predicates(&schema, &filter.predicates)?;
    let ghost ps = executor::compiled_views(predicates@);
    proof {
        semantics::lemma_known_placed(schema@, fps);
    }
    let stage = Stage::Filter(FilterStage { predicates, types: Ghost(schema.types()) });
    let ghost view = stage.view();
    let inner = sink.behind(stage, disk, scratch);
    let ghost begun = inner;
    assert(begun.own() =~= start.own());
    proof {
        let rows = semantics::rows_of(u, db);
        assert(Seq::<RowView>::empty() + rows =~= rows);
    }
    let result = execute_op(&filter.underlying, ctx, disk, scratch, memory_limit, inner);
    proof {
        if result is Err && semantics::sound(u, db) && semantics::fails(
            semantics::rows_of(u, db),
            ps,
            result->Err_0,
        ) {
            outcome::lemma_kinds(u, db);
            semantics::lemma_fails_unanswered(
                semantics::rows_of(u, db),
                ps,
                semantics::kinds(u, db),
                result->Err_0,
            );
        }
    }
    let (_, out) = result?;
    let ghost log = out.log();
    proof {
        if outcome::gives_back_filtered(u) {
            outcome::lemma_filtered_gives_back(u);
        }
        outcome::lemma_node_done(
            start,
            d0,
            s0,
            begun,
            view,
            Set::<int>::empty(),
            d0,
            s0,
            out,
            *disk,
            *scratch,
        );
        if frame::trusty(*disk, *scratch) && semantics::sound(u, db) {
            let c = choose|c: Seq<RowView>| #[trigger]
                semantics::delivers(u, db, c) && log == begun.log() + c;
            assert(log =~= c);
            outcome::lemma_filter_delivers(fps, u, db, c);
            assert(outcome::executed(
                filter.op(),
                db,
                start.log(),
                start.log() + semantics::filter_rows(c, ps),
            ));
        }
    }
    match out {
        RowSink::Node(node) => Ok((schema, *node.next)),
        _ => vstd::pervasive::unreached(),
    }
}

/// Runs a filter over a cross product, or over columns picked from one, as a
/// join.
fn try_execute_join_filter<R: Input, W: Output, F: RowOutput>(
    filter: &FilterData,
    ctx: &DbContext,
    disk: &mut DiskClient<R, W>,
    scratch: &mut ScratchSpace,
    memory_limit: usize,
    sink: RowSink<F>,
) -> (r: Result<Tried<F>, DbError>)
    requires
        old(scratch).wf(),
        sink.wf(*old(disk), *old(scratch)),
        outcome::takes(sink, filter.op(), ctx.tables()),
    ensures
        scratch_run::kept(
            *old(disk),
            *old(scratch),
            *final(disk),
            *final(scratch),
            sink.own(),
        ),
        outcome::table_of(filter.op()) is Some ==> (r matches Err(e) ==> {
            &&& outcome::refusal(filter.op(), ctx.tables()) == Some(e)
            &&& *final(disk) == *old(disk)
            &&& *final(scratch) == *old(scratch)
        }),
        semantics::is_pipeline(filter.op()) && sink.dry() ==> *final(scratch) == *old(scratch),
        r matches Ok(Tried::Done(_, _)) ==> !semantics::is_pipeline(filter.op())
            && !(filter.underlying@ is Sort),
        r matches Ok(Tried::Done(schema, out)) ==> outcome::ran(
            filter.op(),
            ctx.tables(),
            sink,
            *old(disk),
            *old(scratch),
            schema,
            out,
            *final(disk),
            *final(scratch),
        ),
        r matches Ok(Tried::Not(unused)) ==> {
            &&& unused == sink
            &&& *final(disk) == *old(disk)
            &&& *final(scratch) == *old(scratch)
        },
        r matches Err(e) ==> outcome::excused(
            filter.op(),
            ctx.tables(),
            sink,
            *old(disk),
            *old(scratch),
            e,
            *final(disk),
            *final(scratch),
        ),
    decreases filter.op().size(), 4nat,
{
    let ghost (d0, s0) = (*disk, *scratch);
    let ghost start = sink;
    let ghost u = filter.underlying@;
    let ghost fps = query::predicate_views(filter.predicates@);
    let ghost db = outcome::database_on(ctx.tables(), d0);
    let tried = try_execute_wrapped_join_filter(
        &filter.underlying,
        &filter.predicates,
        ctx,
        disk,
        scratch,
        memory_limit,
        sink,
    )?;
    proof {
        if tried is Done {
            let out = tried->Done_1;
            outcome::lemma_join_chain_unordered(u);
            if frame::trusty(*disk, *scratch) && semantics::sound(u, db) {
                let rows = outcome::side_rows(u, fps, db);
                outcome::lemma_emitted_rows(start.log(), out.log(), bag::bag(rows));
                let got = out.log().skip(start.log().len() as int);
                assert(semantics::delivers(filter.op(), db, got));
                assert(outcome::executed(filter.op(), db, start.log(), out.log()));
            }
        }
    }
    Ok(tried)
}

/// Runs a cross product under predicates, or columns picked from one, as a
/// join.
#[verifier::spinoff_prover]
fn try_execute_wrapped_join_filter<R: Input, W: Output, F: RowOutput>(
    op: &QueryOp,
    predicates: &Vec<Predicate>,
    ctx: &DbContext,
    disk: &mut DiskClient<R, W>,
    scratch: &mut ScratchSpace,
    memory_limit: usize,
    sink: RowSink<F>,
) -> (r: Result<Tried<F>, DbError>)
    requires
        old(scratch).wf(),
        sink.wf(*old(disk), *old(scratch)),
        outcome::takes(sink, op@, ctx.tables()),
    ensures
        scratch_run::kept(
            *old(disk),
            *old(scratch),
            *final(disk),
            *final(scratch),
            sink.own(),
        ),
        outcome::table_of(op@) is Some ==> (r matches Err(e) ==> {
            &&& outcome::refusal(op@, ctx.tables()) == Some(e)
            &&& *final(disk) == *old(disk)
            &&& *final(scratch) == *old(scratch)
        }),
        semantics::is_pipeline(op@) && sink.dry() ==> *final(scratch) == *old(scratch),
        r matches Ok(Tried::Done(_, _)) ==> !semantics::is_pipeline(op@) && !(op@ is Sort),
        r matches Ok(Tried::Done(schema, out)) ==> outcome::ran_filtered(
            op@,
            query::predicate_views(predicates@),
            ctx.tables(),
            sink,
            *old(disk),
            *old(scratch),
            schema,
            out,
            *final(disk),
            *final(scratch),
        ),
        r is Ok && r->Ok_0 is Done ==> outcome::is_join_chain(op@),
        r matches Ok(Tried::Not(unused)) ==> {
            &&& unused == sink
            &&& *final(disk) == *old(disk)
            &&& *final(scratch) == *old(scratch)
        },
        r matches Err(e) ==> outcome::excused_filtered(
            op@,
            query::predicate_views(predicates@),
            ctx.tables(),
            sink,
            *old(disk),
            *old(scratch),
            e,
            *final(disk),
            *final(scratch),
        ),
        r is Err ==> op@ is Cross || op@ is Project,
    decreases op@.size() + 1, 3nat,
{
    let ghost (d0, s0) = (*disk, *scratch);
    let ghost start = sink;
    let ghost tables = ctx.tables();
    let ghost db = outcome::database_on(tables, d0);
    let ghost ps = query::predicate_views(predicates@);
    proof {
        frame::lemma_kept_refl(d0, s0, start.own());
    }
    match op {
        QueryOp::Cross(cross) => {
            let (schema, out) = execute_cross_subtree(
                cross,
                predicates,
                ctx,
                disk,
                scratch,
                memory_limit,
                sink,
            )?;
            Ok(Tried::Done(schema, out))
        },
        QueryOp::Project(project) => {
            let remapped = match remap_project_predicates(predicates, project) {
                Some(remapped) => remapped,
                None => {
                    return Ok(Tried::Not(sink));
                },
            };
            let ghost qs = query::predicate_views(remapped@);
            let ghost map = query::map_views(project.column_name_map@);
            let ghost u = project.underlying@;
            proof {
                if outcome::table_of(u) is Some {
                    outcome::lemma_schema_refused(u, tables);
                }
                outcome::lemma_schema_error(u, tables);
            }
            let child_schema = infer_schema(&project.underlying, ctx)?;
            let (projected_schema, indexes) = child_schema.project(&project.column_name_map)?;
            let ghost columns = child_schema@;
            proof {
                lemma_project_stage(start.types(), columns, map, indexes@);
            }
            let stage = Stage::Project(
                ProjectStage { indexes, types: Ghost(child_schema.types()) },
            );
            let ghost view = stage.view();
            let inner = sink.behind(stage, disk, scratch);
            let ghost begun = inner;
            assert(begun.own() =~= start.own());
            proof {
                outcome::lemma_kinds_len(u, db);
                outcome::lemma_remapped_answerable(columns, map, ps, qs, semantics::kinds(u, db));
                assert(query_support::schema_of(op@, tables)->Ok_0 == row::map_columns(
                    columns,
                    map,
                ));
                let rows = outcome::side_rows(u, qs, db);
                assert(Seq::<RowView>::empty() + rows =~= rows);
                if semantics::sound(u, db) {
                    lemma_projected_rows(u, map, ps, qs, db);
                }
            }
            let tried = try_execute_wrapped_join_filter(
                &project.underlying,
                &remapped,
                ctx,
                disk,
                scratch,
                memory_limit,
                inner,
            )?;
            match tried {
                Tried::Not(unused) => match unused {
                    RowSink::Node(node) => Ok(Tried::Not(*node.next)),
                    _ => vstd::pervasive::unreached(),
                },
                Tried::Done(_, out) => {
                    let ghost log = out.log();
                    proof {
                        outcome::lemma_node_done(
                            start,
                            d0,
                            s0,
                            begun,
                            view,
                            Set::<int>::empty(),
                            d0,
                            s0,
                            out,
                            *disk,
                            *scratch,
                        );
                        outcome::lemma_remapped_known(columns, map, ps, qs);
                        outcome::lemma_join_chain_unordered(u);
                        if frame::trusty(*disk, *scratch) && semantics::sound(u, db) {
                            lemma_projected_side(u, map, ps, qs, db, begun.log(), log);
                            outcome::lemma_emitted(
                                start.log(),
                                semantics::project_rows(log, row::map_indexes(columns, map)),
                            );
                        }
                    }
                    match out {
                        RowSink::Node(node) => Ok(Tried::Done(projected_schema, *node.next)),
                        _ => vstd::pervasive::unreached(),
                    }
                },
            }
        },
        _ => Ok(Tried::Not(sink)),
    }
}

/// Picking columns of the rows that meet moved predicates gives the rows of the
/// projection that meet the predicates.
proof fn lemma_projected_rows(
    u: OpView,
    map: Seq<(Seq<char>, Seq<char>)>,
    ps: Seq<PredicateView>,
    qs: Seq<PredicateView>,
    db: Database,
)
    requires
        semantics::sound(u, db),
        query_support::schema_of(u, db.tables) is Ok,
        row::map_known(query_support::schema_of(u, db.tables)->Ok_0, map),
        outcome::all_remapped(ps, qs, map),
    ensures
        semantics::project_rows(
            outcome::side_rows(u, qs, db),
            row::map_indexes(query_support::schema_of(u, db.tables)->Ok_0, map),
        ) == outcome::side_rows(OpView::Project(map, Box::new(u)), ps, db),
{
    let columns = query_support::schema_of(u, db.tables)->Ok_0;
    let indexes = row::map_indexes(columns, map);
    let rows = semantics::rows_of(u, db);
    outcome::lemma_rows_conform(u, db);
    sink::lemma_conform_wide(rows, row::types_of(columns));
    outcome::lemma_filter_project(columns, map, ps, qs, rows);
    let op = OpView::Project(map, Box::new(u));
    assert(query_support::schema_of(op, db.tables)->Ok_0 == row::map_columns(columns, map));
    assert(semantics::rows_of(op, db) == semantics::project_rows(rows, indexes));
}

/// What a projection makes of the rows that meet moved predicates is the rows
/// of the projection that meet the predicates.
proof fn lemma_projected_side(
    u: OpView,
    map: Seq<(Seq<char>, Seq<char>)>,
    ps: Seq<PredicateView>,
    qs: Seq<PredicateView>,
    db: Database,
    before: Seq<RowView>,
    log: Seq<RowView>,
)
    requires
        semantics::sound(u, db),
        query_support::schema_of(u, db.tables) is Ok,
        row::map_known(query_support::schema_of(u, db.tables)->Ok_0, map),
        outcome::all_remapped(ps, qs, map),
        before.len() == 0,
        outcome::emitted_bag(before, log, bag::bag(outcome::side_rows(u, qs, db))),
    ensures
        bag::bag(
            semantics::project_rows(
                log,
                row::map_indexes(query_support::schema_of(u, db.tables)->Ok_0, map),
            ),
        ) == bag::bag(outcome::side_rows(OpView::Project(map, Box::new(u)), ps, db)),
{
    let indexes = row::map_indexes(query_support::schema_of(u, db.tables)->Ok_0, map);
    lemma_projected_rows(u, map, ps, qs, db);
    assert(log.skip(0) =~= log);
    semantics::lemma_project_bag(log, outcome::side_rows(u, qs, db), indexes);
}

/// Runs an operator under predicates: a cross product as a join, another
/// operator under a filter.
pub fn execute_join_subtree<R: Input, W: Output, F: RowOutput>(
    op: &QueryOp,
    predicates: &Vec<Predicate>,
    ctx: &DbContext,
    disk: &mut DiskClient<R, W>,
    scratch: &mut ScratchSpace,
    memory_limit: usize,
    sink: RowSink<F>,
) -> (r: Result<(Schema, RowSink<F>), DbError>)
    requires
        old(scratch).wf(),
        sink.wf(*old(disk), *old(scratch)),
        outcome::takes(sink, op@, ctx.tables()),
    ensures
        scratch_run::kept(
            *old(disk),
            *old(scratch),
            *final(disk),
            *final(scratch),
            sink.own(),
        ),
        semantics::is_pipeline(op@) && sink.dry() ==> *final(scratch) == *old(scratch),
        r matches Ok((schema, out)) ==> outcome::ran_filtered(
            op@,
            query::predicate_views(predicates@),
            ctx.tables(),
            sink,
            *old(disk),
            *old(scratch),
            schema,
            out,
            *final(disk),
            *final(scratch),
        ),
        r matches Err(e) ==> outcome::excused_filtered(
            op@,
            query::predicate_views(predicates@),
            ctx.tables(),
            sink,
            *old(disk),
            *old(scratch),
            e,
            *final(disk),
            *final(scratch),
        ),
    decreases op@.size() + 1, 8nat,
{
    match op {
        QueryOp::Cross(cross) => execute_cross_subtree(
            cross,
            predicates,
            ctx,
            disk,
            scratch,
            memory_limit,
            sink,
        ),
        other => {
            let ghost d0 = *disk;
            let ghost start = sink;
            let ghost ps = query::predicate_views(predicates@);
            let ghost db = outcome::database_on(ctx.tables(), d0);
            let filtered = wrap_filter_if_needed(clone_predicates(predicates), other.clone());
            proof {
                rewrite::lemma_wrapped(ps, op@, db);
            }
            let (schema, out) = execute_op(&filtered, ctx, disk, scratch, memory_limit, sink)?;
            proof {
                if outcome::gives_back_filtered(op@) {
                    outcome::lemma_filtered_gives_back(op@);
                }
                if frame::trusty(*disk, *scratch) && semantics::sound(op@, db) {
                    let c = choose|c: Seq<RowView>| #[trigger]
                        semantics::delivers(filtered@, db, c) && out.log() == start.log() + c;
                    outcome::lemma_emitted(start.log(), c);
                }
            }
            Ok((schema, out))
        },
    }
}

/// Runs a cross product under predicates as a join: predicates on one side are
/// met before the join, those that set columns of both sides equal are its
/// keys.
#[verifier::spinoff_prover]
fn execute_cross_subtree<R: Input, W: Output, F: RowOutput>(
    cross: &CrossData,
    predicates: &Vec<Predicate>,
    ctx: &DbContext,
    disk: &mut DiskClient<R, W>,
    scratch: &mut ScratchSpace,
    memory_limit: usize,
    sink: RowSink<F>,
) -> (r: Result<(Schema, RowSink<F>), DbError>)
    requires
        old(scratch).wf(),
        sink.wf(*old(disk), *old(scratch)),
        outcome::takes(sink, cross.op(), ctx.tables()),
    ensures
        scratch_run::kept(
            *old(disk),
            *old(scratch),
            *final(disk),
            *final(scratch),
            sink.own(),
        ),
        r matches Ok((schema, out)) ==> outcome::ran_filtered(
            cross.op(),
            query::predicate_views(predicates@),
            ctx.tables(),
            sink,
            *old(disk),
            *old(scratch),
            schema,
            out,
            *final(disk),
            *final(scratch),
        ),
        r matches Err(e) ==> outcome::excused_filtered(
            cross.op(),
            query::predicate_views(predicates@),
            ctx.tables(),
            sink,
            *old(disk),
            *old(scratch),
            e,
            *final(disk),
            *final(scratch),
        ),
    decreases cross.op().size() + 1, 2nat,
{
    let ghost (d0, s0) = (*disk, *scratch);
    let ghost start = sink;
    let ghost tables = ctx.tables();
    let ghost ps = query::predicate_views(predicates@);
    proof {
        frame::lemma_kept_refl(d0, s0, start.own());
        outcome::lemma_schema_error(cross.left@, tables);
        outcome::lemma_schema_error(cross.right@, tables);
    }
    let left_schema = infer_schema(&cross.left, ctx)?;
    let right_schema = infer_schema(&cross.right, ctx)?;
    let (left_preds, right_preds, cross_preds) = split_cross_predicates(
        predicates,
        &left_schema,
        &right_schema,
    );
    let output_schema = Schema::combine(&left_schema, &right_schema);
    proof {
        let db = outcome::database_on(tables, d0);
        outcome::lemma_kinds_len(cross.left@, db);
        outcome::lemma_kinds_len(cross.right@, db);
        outcome::lemma_split_answerable(
            left_schema@,
            right_schema@,
            ps,
            semantics::kinds(cross.left@, db),
            semantics::kinds(cross.right@, db),
        );
    }
    let compiled_cross = compile_predicates(&output_schema, &cross_preds)?;
    let ghost lc = left_schema@;
    let ghost rc = right_schema@;
    proof {
        assert(start.types() =~= left_schema.types() + right_schema.types());
        outcome::lemma_cross_known(lc, rc, ps);
        semantics::lemma_known_placed(lc + rc, query::predicate_views(cross_preds@));
        assert(row::types_of(lc + rc) =~= left_schema.types() + right_schema.types());
    }
    let left_hash_cost: u128 = estimated_direct_hash_build_cost(
        &cross.left,
        &left_schema,
        &left_preds,
        ctx,
    );
    let right_hash_cost: u128 = estimated_direct_hash_build_cost(
        &cross.right,
        &right_schema,
        &right_preds,
        ctx,
    );
    let left_cost: u128 = estimated_build_cost(&cross.left, &left_schema, &left_preds, ctx);
    let right_cost: u128 = estimated_build_cost(&cross.right, &right_schema, &right_preds, ctx);
    let build_left: bool = left_cost <= right_cost;
    let result = match extract_join_keys(&cross_preds, &left_schema, &right_schema) {
        Some((left_keys, right_keys)) => {
            proof {
                lemma_join_keys(
                    query::predicate_views(cross_preds@),
                    lc,
                    rc,
                    left_keys@,
                    right_keys@,
                    semantics::kinds(cross.left@, outcome::database_on(tables, d0)),
                    semantics::kinds(cross.right@, outcome::database_on(tables, d0)),
                );
            }
            let left_input = JoinInput {
                op: &cross.left,
                predicates: &left_preds,
                schema: &left_schema,
                key_indexes: &left_keys,
                estimated_hash_bytes: left_hash_cost,
            };
            let right_input = JoinInput {
                op: &cross.right,
                predicates: &right_preds,
                schema: &right_schema,
                key_indexes: &right_keys,
                estimated_hash_bytes: right_hash_cost,
            };
            execute_keyed_join(
                left_input,
                right_input,
                &compiled_cross,
                ctx,
                disk,
                scratch,
                memory_limit,
                build_left,
                sink,
            )
        },
        None => execute_keyless_join(
            &cross.left,
            &left_preds,
            &left_schema,
            &cross.right,
            &right_preds,
            &right_schema,
            &compiled_cross,
            ctx,
            disk,
            scratch,
            memory_limit,
            build_left,
            sink,
        ),
    };
    proof {
        if result is Err {
            let db = outcome::database_on(tables, d0);
            outcome::lemma_cross_excuses(
                cross.left@,
                cross.right@,
                ps,
                db,
                s0.size() as int,
                result->Err_0,
            );
            if semantics::both_sound(cross.left@, cross.right@, db) {
                let lps = query::predicate_views(left_preds@);
                let rps = query::predicate_views(right_preds@);
                let cps = query::predicate_views(cross_preds@);
                if semantics::pairs_fail(
                    outcome::side_rows(cross.left@, lps, db),
                    outcome::side_rows(cross.right@, rps, db),
                    true,
                    semantics::compiled_all(lc + rc, cps),
                    result->Err_0,
                ) {
                    outcome::lemma_join_unanswered(
                        cross.left@,
                        lps,
                        cross.right@,
                        rps,
                        cps,
                        db,
                        result->Err_0,
                    );
                }
                lemma_cross_within(
                    cross.left@,
                    query::predicate_views(left_preds@),
                    cross.right@,
                    query::predicate_views(right_preds@),
                    query::predicate_views(cross_preds@),
                    ps,
                    db,
                    start.log(),
                );
            }
        }
    }
    let out = result?;
    proof {
        let db = outcome::database_on(tables, d0);
        if frame::trusty(*disk, *scratch) && semantics::both_sound(cross.left@, cross.right@, db) {
            outcome::lemma_cross_filtered(cross.left@, cross.right@, ps, db);
        }
    }
    Ok((output_schema, out))
}

/// The rows of a join of two sides under their predicates are those of the cross
/// product under all.
proof fn lemma_cross_within(
    l: OpView,
    lp: Seq<PredicateView>,
    r: OpView,
    rp: Seq<PredicateView>,
    cp: Seq<PredicateView>,
    ps: Seq<PredicateView>,
    db: Database,
    log: Seq<RowView>,
)
    requires
        semantics::both_sound(l, r, db),
        query_support::schema_of(l, db.tables) is Ok,
        query_support::schema_of(r, db.tables) is Ok,
        ({
            let lc = query_support::schema_of(l, db.tables)->Ok_0;
            let rc = query_support::schema_of(r, db.tables)->Ok_0;
            &&& lp == query_support::side_predicates(ps, lc, rc, PredicateSide::Left)
            &&& rp == query_support::side_predicates(ps, lc, rc, PredicateSide::Right)
            &&& cp == query_support::side_predicates(ps, lc, rc, PredicateSide::Cross)
        }),
    ensures
        ({
            let lc = query_support::schema_of(l, db.tables)->Ok_0;
            let rc = query_support::schema_of(r, db.tables)->Ok_0;
            bag::within(
                log + outcome::joined_rows(
                    l,
                    lp,
                    r,
                    rp,
                    semantics::compiled_all(lc + rc, cp),
                    db,
                ),
                log + outcome::side_rows(OpView::Cross(Box::new(l), Box::new(r)), ps, db),
            )
        }),
{
    let lc = query_support::schema_of(l, db.tables)->Ok_0;
    let rc = query_support::schema_of(r, db.tables)->Ok_0;
    let cs = semantics::compiled_all(lc + rc, cp);
    let part = outcome::joined_rows(l, lp, r, rp, cs, db);
    let all = outcome::side_rows(OpView::Cross(Box::new(l), Box::new(r)), ps, db);
    outcome::lemma_cross_filtered(l, r, ps, db);
    semantics::lemma_join_bag(
        outcome::side_rows(l, lp, db),
        outcome::side_rows(r, rp, db),
        cs,
    );
    bag::lemma_within_bag(part, all);
    bag::lemma_within_front(log, log);
    bag::lemma_within_concat(log, part, log, all);
}

/// The key columns that were found are keys of the join.
proof fn lemma_join_keys(
    ps: Seq<PredicateView>,
    lc: Seq<ColumnView>,
    rc: Seq<ColumnView>,
    left_keys: Seq<usize>,
    right_keys: Seq<usize>,
    lk: Seq<Kind>,
    rk: Seq<Kind>,
)
    requires
        lk.len() == lc.len(),
        rk.len() == rc.len(),
        ({
            let pairs = query_support::key_pairs(ps, lc, rc);
            &&& left_keys.len() == pairs.len()
            &&& right_keys.len() == pairs.len()
            &&& forall|i: int|
                0 <= i < pairs.len() ==> {
                    &&& #[trigger] left_keys[i] == pairs[i].0
                    &&& left_keys[i] < lc.len()
                }
            &&& forall|i: int|
                0 <= i < pairs.len() ==> {
                    &&& #[trigger] right_keys[i] == pairs[i].1
                    &&& right_keys[i] < rc.len()
                }
        }),
    ensures
        hash::keys_below(row::as_ints(left_keys), lc.len() as int),
        hash::keys_below(row::as_ints(right_keys), rc.len() as int),
        keys::keyed(
            row::as_ints(left_keys),
            row::as_ints(right_keys),
            lc.len(),
            rc.len(),
            true,
            semantics::compiled_all(lc + rc, ps),
        ),
        semantics::all_answerable(
            semantics::compiled_all(lc + rc, ps),
            lk + rk,
        ) ==> keys::comparable(lk, row::as_ints(left_keys), rk, row::as_ints(right_keys)),
{
    let l = row::as_ints(left_keys);
    let r = row::as_ints(right_keys);
    let pairs = query_support::key_pairs(ps, lc, rc);
    assert forall|i: int| 0 <= i < l.len() implies #[trigger] l[i] == pairs[i].0 && 0 <= l[i]
        < lc.len() by {
        assert(left_keys[i] == pairs[i].0);
    }
    assert forall|i: int| 0 <= i < r.len() implies #[trigger] r[i] == pairs[i].1 && 0 <= r[i]
        < rc.len() by {
        assert(right_keys[i] == pairs[i].1);
    }
    keys::lemma_keyed(ps, lc, rc, l, r);
    if semantics::all_answerable(
        semantics::compiled_all(lc + rc, ps),
        lk + rk,
    ) {
        keys::lemma_comparable(ps, lc, rc, l, r, lk, rk);
    }
}

/// Joins two operators under predicates by keys: in one pass over both tables
/// where they are in order, and otherwise with a table of the side that is
/// estimated to be smaller.
#[verifier::spinoff_prover]
fn execute_keyed_join<R: Input, W: Output, F: RowOutput>(
    left: JoinInput<'_>,
    right: JoinInput<'_>,
    compiled_cross: &Vec<CompiledPredicate>,
    ctx: &DbContext,
    disk: &mut DiskClient<R, W>,
    scratch: &mut ScratchSpace,
    memory_limit: usize,
    build_left: bool,
    sink: RowSink<F>,
) -> (r: Result<RowSink<F>, DbError>)
    requires
        old(scratch).wf(),
        sink.wf(*old(disk), *old(scratch)),
        left.ready(ctx.tables()),
        right.ready(ctx.tables()),
        sink.types() == left.schema.types() + right.schema.types(),
        keys::keyed(
            left.keys(),
            right.keys(),
            left.schema@.len(),
            right.schema@.len(),
            true,
            executor::compiled_views(compiled_cross@),
        ),
    ensures
        scratch_run::kept(
            *old(disk),
            *old(scratch),
            *final(disk),
            *final(scratch),
            sink.own(),
        ),
        r matches Ok(out) ==> outcome::ran_joined(
            left.op@,
            left.ps(),
            right.op@,
            right.ps(),
            executor::compiled_views(compiled_cross@),
            ctx.tables(),
            sink,
            *old(disk),
            *old(scratch),
            out,
            *final(disk),
            *final(scratch),
        ),
        r matches Err(e) ==> outcome::excused_joined(
            left.op@,
            left.ps(),
            right.op@,
            right.ps(),
            executor::compiled_views(compiled_cross@),
            ctx.tables(),
            sink,
            *old(disk),
            *old(scratch),
            e,
            *final(disk),
            *final(scratch),
        ) || (e == DbError::Incomparable && !keys::comparable(
            semantics::kinds(left.op@, outcome::database_on(ctx.tables(), *old(disk))),
            left.keys(),
            semantics::kinds(right.op@, outcome::database_on(ctx.tables(), *old(disk))),
            right.keys(),
        )),
    decreases left.op@.size() + right.op@.size() + 1, 11nat,
{
    let ghost (d0, s0) = (*disk, *scratch);
    let ghost start = sink;
    let ghost ps = executor::compiled_views(compiled_cross@);
    let (merged, sink) = try_execute_ordered_unique_merge_join(
        left,
        right,
        compiled_cross,
        ctx,
        disk,
        scratch,
        memory_limit,
        sink,
    )?;
    if merged {
        return Ok(sink);
    }
    if build_left {
        let result = execute_equality_join(
            left,
            right,
            compiled_cross,
            ctx,
            disk,
            scratch,
            memory_limit,
            true,
            sink,
        );
        proof {
            if result is Err {
                outcome::lemma_excused_sides(
                    left.op@,
                    left.ps(),
                    right.op@,
                    right.ps(),
                    true,
                    ps,
                    ctx.tables(),
                    start,
                    d0,
                    s0,
                    result->Err_0,
                    *disk,
                    *scratch,
                );
            }
        }
        let out = result?;
        proof {
            outcome::lemma_ran_sides(
                left.op@,
                left.ps(),
                right.op@,
                right.ps(),
                true,
                ps,
                ctx.tables(),
                start,
                d0,
                s0,
                out,
                *disk,
                *scratch,
            );
        }
        Ok(out)
    } else {
        proof {
            keys::lemma_keyed_reverse(
                left.keys(),
                right.keys(),
                left.schema@.len(),
                right.schema@.len(),
                true,
                ps,
            );
        }
        let result = execute_equality_join(
            right,
            left,
            compiled_cross,
            ctx,
            disk,
            scratch,
            memory_limit,
            false,
            sink,
        );
        proof {
            if result is Err {
                outcome::lemma_excused_sides(
                    right.op@,
                    right.ps(),
                    left.op@,
                    left.ps(),
                    false,
                    ps,
                    ctx.tables(),
                    start,
                    d0,
                    s0,
                    result->Err_0,
                    *disk,
                    *scratch,
                );
            }
        }
        let out = result?;
        proof {
            outcome::lemma_ran_sides(
                right.op@,
                right.ps(),
                left.op@,
                left.ps(),
                false,
                ps,
                ctx.tables(),
                start,
                d0,
                s0,
                out,
                *disk,
                *scratch,
            );
        }
        Ok(out)
    }
}

/// Joins two operators under predicates without keys: the rows of the side that
/// is estimated to be smaller are kept.
fn execute_keyless_join<R: Input, W: Output, F: RowOutput>(
    left: &QueryOp,
    left_preds: &Vec<Predicate>,
    left_schema: &Schema,
    right: &QueryOp,
    right_preds: &Vec<Predicate>,
    right_schema: &Schema,
    compiled_cross: &Vec<CompiledPredicate>,
    ctx: &DbContext,
    disk: &mut DiskClient<R, W>,
    scratch: &mut ScratchSpace,
    memory_limit: usize,
    build_left: bool,
    sink: RowSink<F>,
) -> (r: Result<RowSink<F>, DbError>)
    requires
        old(scratch).wf(),
        sink.wf(*old(disk), *old(scratch)),
        query_support::schema_of(left@, ctx.tables()) == Ok::<Seq<ColumnView>, DbError>(
            left_schema@,
        ),
        query_support::schema_of(right@, ctx.tables()) == Ok::<Seq<ColumnView>, DbError>(
            right_schema@,
        ),
        sink.types() == left_schema.types() + right_schema.types(),
    ensures
        scratch_run::kept(
            *old(disk),
            *old(scratch),
            *final(disk),
            *final(scratch),
            sink.own(),
        ),
        r matches Ok(out) ==> outcome::ran_joined(
            left@,
            query::predicate_views(left_preds@),
            right@,
            query::predicate_views(right_preds@),
            executor::compiled_views(compiled_cross@),
            ctx.tables(),
            sink,
            *old(disk),
            *old(scratch),
            out,
            *final(disk),
            *final(scratch),
        ),
        r matches Err(e) ==> outcome::excused_joined(
            left@,
            query::predicate_views(left_preds@),
            right@,
            query::predicate_views(right_preds@),
            executor::compiled_views(compiled_cross@),
            ctx.tables(),
            sink,
            *old(disk),
            *old(scratch),
            e,
            *final(disk),
            *final(scratch),
        ),
    decreases left@.size() + right@.size() + 1, 11nat,
{
    let ghost (d0, s0) = (*disk, *scratch);
    let ghost start = sink;
    let ghost ps = executor::compiled_views(compiled_cross@);
    let ghost lp = query::predicate_views(left_preds@);
    let ghost rp = query::predicate_views(right_preds@);
    if build_left {
        let result = execute_materialized_join(
            left,
            left_preds,
            right,
            right_preds,
            compiled_cross,
            ctx,
            disk,
            scratch,
            memory_limit,
            true,
            sink,
        );
        proof {
            if result is Err {
                outcome::lemma_excused_sides(
                    left@,
                    lp,
                    right@,
                    rp,
                    true,
                    ps,
                    ctx.tables(),
                    start,
                    d0,
                    s0,
                    result->Err_0,
                    *disk,
                    *scratch,
                );
            }
        }
        let out = result?;
        proof {
            outcome::lemma_ran_sides(
                left@,
                lp,
                right@,
                rp,
                true,
                ps,
                ctx.tables(),
                start,
                d0,
                s0,
                out,
                *disk,
                *scratch,
            );
        }
        Ok(out)
    } else {
        let result = execute_materialized_join(
            right,
            right_preds,
            left,
            left_preds,
            compiled_cross,
            ctx,
            disk,
            scratch,
            memory_limit,
            false,
            sink,
        );
        proof {
            if result is Err {
                outcome::lemma_excused_sides(
                    right@,
                    rp,
                    left@,
                    lp,
                    false,
                    ps,
                    ctx.tables(),
                    start,
                    d0,
                    s0,
                    result->Err_0,
                    *disk,
                    *scratch,
                );
            }
        }
        let out = result?;
        proof {
            outcome::lemma_ran_sides(
                right@,
                rp,
                left@,
                lp,
                false,
                ps,
                ctx.tables(),
                start,
                d0,
                s0,
                out,
                *disk,
                *scratch,
            );
        }
        Ok(out)
    }
}

} // verus!
