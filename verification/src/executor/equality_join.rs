//! Joins of operators by keys.

use vstd::prelude::*;

use crate::bag;
use crate::catalog::db_context::DbContext;
use crate::data::DataType;
use crate::error::DbError;
use crate::estimation;
use crate::estimation::{estimate_query_rows_with_predicates, estimated_schema_row_bytes};
use crate::executor;
use crate::executor::filter::execute_join_subtree;
use crate::executor::frame;
use crate::executor::hash;
use crate::executor::hash::{
    join_filter_budget, JoinBloomFilter, DIGEST_DEPTHS, PARTITION_FANOUT,
};
use crate::executor::hash_build;
use crate::executor::hash_build::{
    CompactHashRows, HashBuilder, HybridBuild, HybridBuildPartition, HybridBuilder,
};
use crate::executor::hash_join;
use crate::executor::hash_join::{
    copy_keys, execute_partitioned_hash_join_from_runs, hash_build_budget,
    hybrid_hash_resident_budget,
};
use crate::executor::keys;
use crate::executor::merge_join::JoinInput;
use crate::executor::outcome;
use crate::executor::partition;
use crate::executor::partition::{
    finish_partition_writers, PartitionWriters, PartitionedRuns, Partitioner,
};
use crate::executor::sink;
use crate::executor::sink::{HashStage, HybridStage, RowSink, Stage};
use crate::executor::{clone_compiled, effective_memory, max_of, CompiledPredicate};
use crate::io::{Input, Output};
use crate::query;
use crate::query::{Predicate, QueryOp};
use crate::row;
use crate::row::Schema;
use crate::semantics;
use crate::semantics::{CompiledView, RowView};
use crate::storage::block_allocator::ScratchSpace;
use crate::storage::disk_client::DiskClient;
use crate::storage::row_codec;
use crate::storage::scratch_run;
use crate::storage::scratch_run::RowOutput;

verus! {

/// The memory that a row in a table is held to take.
pub open spec fn hash_row_bytes(types: Seq<DataType>) -> int {
    executor::larger(
        row::saturated(
            estimation::types_bytes(types) + vstd::layout::size_of::<Box<[u8]>>() + 16,
        ) as int,
        1,
    )
}

/// The estimated memory of a row in a table.
fn estimated_hash_row_bytes(schema: &Schema) -> (r: usize)
    ensures
        r == hash_row_bytes(schema.types()),
{
    let ghost types = schema.types();
    let total: usize = schema.len();
    let mut size: usize = 0;
    let mut i: usize = 0;
    assert(types.take(0) =~= Seq::<DataType>::empty());
    while i < total
        invariant
            i <= total,
            total == types.len(),
            types == schema.types(),
            total == schema@.len(),
            size == row::saturated(estimation::types_bytes(types.take(i as int))),
        decreases total - i,
    {
        assert(types.take(i + 1).drop_last() =~= types.take(i as int));
        let width: usize = match schema.type_at(i) {
            DataType::Int32 | DataType::Float32 => 4,
            DataType::Int64 | DataType::Float64 => 8,
            DataType::String => 64,
        };
        size = size.saturating_add(width);
        i = i + 1;
    }
    assert(types.take(i as int) =~= types);
    let item: usize = core::mem::size_of::<Box<[u8]>>();
    max_of(size.saturating_add(item).saturating_add(16), 1)
}

/// The estimated memory of the rows of an operator under predicates.
pub fn estimated_build_cost(
    op: &QueryOp,
    schema: &Schema,
    predicates: &Vec<Predicate>,
    ctx: &DbContext,
) -> (r: u128)
    ensures
        r == estimation::filtered_estimate(
            op@,
            query::predicate_views(predicates@),
            ctx.tables(),
        ) * estimation::row_bytes(schema.types()),
{
    let rows: u64 = estimate_query_rows_with_predicates(op, predicates, ctx);
    let bytes: usize = estimated_schema_row_bytes(schema);
    product(rows, bytes)
}

/// The estimated memory of a table with the rows of an operator under
/// predicates.
pub fn estimated_direct_hash_build_cost(
    op: &QueryOp,
    schema: &Schema,
    predicates: &Vec<Predicate>,
    ctx: &DbContext,
) -> (r: u128)
    ensures
        r == estimation::filtered_estimate(
            op@,
            query::predicate_views(predicates@),
            ctx.tables(),
        ) * hash_row_bytes(schema.types()),
{
    let rows: u64 = estimate_query_rows_with_predicates(op, predicates, ctx);
    let bytes: usize = estimated_hash_row_bytes(schema);
    product(rows, bytes)
}

/// The product of two numbers.
pub fn product(a: u64, b: usize) -> (r: u128)
    ensures
        r == a * b,
{
    assert(a * b <= 0xffff_ffff_ffff_ffff * 0xffff_ffff_ffff_ffff) by (nonlinear_arith)
        requires
            a <= 0xffff_ffff_ffff_ffff,
            0 <= b <= 0xffff_ffff_ffff_ffff,
    ;
    a as u128 * b as u128
}

/// Whether a table is estimated to fit.
fn should_try_direct_hash_build(estimated_build_bytes: u128, memory_limit: usize) -> (r: bool)
    ensures
        r == (estimated_build_bytes <= executor::larger(
            executor::working_memory(memory_limit as int) / 2,
            1,
        )),
{
    estimated_build_bytes <= hash_build_budget(memory_limit) as u128
}

/// Whether the partitions of the rows of an operator may stay in memory while
/// it runs: it is a chain of operators on one table.
fn supports_hybrid_partitioning(op: &QueryOp) -> (r: bool)
    ensures
        r == semantics::is_pipeline(op@),
    decreases *op,
{
    match op {
        QueryOp::Scan(_) => true,
        QueryOp::Filter(filter) => supports_hybrid_partitioning(&filter.underlying),
        QueryOp::Project(project) => supports_hybrid_partitioning(&project.underlying),
        QueryOp::Cross(_) => false,
        QueryOp::Sort(_) => false,
    }
}

/// The memory that kept rows may take.
pub fn materialization_budget(memory_limit: usize, block_size: usize) -> (r: usize)
    ensures
        r == executor::larger(
            executor::working_memory(memory_limit as int) / 2,
            executor::larger(block_size as int, 1),
        ),
{
    max_of(effective_memory(memory_limit) / 2, max_of(block_size, 1))
}

/// The rows of a side are those that came, in some order.
pub proof fn lemma_came(before: Seq<RowView>, log: Seq<RowView>, rows: Seq<RowView>)
    requires
        before.len() == 0,
        outcome::emitted_bag(before, log, bag::bag(rows)),
    ensures
        bag::bag(log) == bag::bag(rows),
{
    assert(log.skip(0) =~= log);
}

/// Puts the rows of an operator under predicates in a table, if they fit.
#[verifier::spinoff_prover]
fn try_build_hash_rows<R: Input, W: Output, F: RowOutput>(
    side: JoinInput<'_>,
    ctx: &DbContext,
    disk: &mut DiskClient<R, W>,
    scratch: &mut ScratchSpace,
    memory_limit: usize,
    budget: usize,
) -> (r: Result<Option<(CompactHashRows, Ghost<Seq<RowView>>)>, DbError>)
    requires
        old(scratch).wf(),
        side.ready(ctx.tables()),
    ensures
        scratch_run::kept(
            *old(disk),
            *old(scratch),
            *final(disk),
            *final(scratch),
            Set::<int>::empty(),
        ),
        semantics::is_pipeline(side.op@) ==> *final(scratch) == *old(scratch),
        r is Ok && !final(scratch).gave_up() ==> scratch_run::tidy(
            Set::<int>::empty(),
            *old(scratch),
            Set::<int>::empty(),
            *final(scratch),
        ),
        r matches Ok(Some((rows, log))) ==> {
            &&& outcome::side_known(side.op@, side.ps(), ctx.tables())
            &&& rows.schema@ == side.schema@
            &&& hash_build::table_of(rows.rows_by_key, log@, side.keys())
            &&& row_codec::all_conform(log@, side.schema.types())
            &&& frame::trusty(*final(disk), *final(scratch)) && semantics::sound(
                side.op@,
                outcome::database_on(ctx.tables(), *old(disk)),
            ) ==> bag::bag(log@) == bag::bag(
                outcome::side_rows(
                    side.op@,
                    side.ps(),
                    outcome::database_on(ctx.tables(), *old(disk)),
                ),
            )
        },
        r matches Err(e) ==> outcome::excused_side(
            side.op@,
            side.ps(),
            ctx.tables(),
            *old(disk),
            *old(scratch),
            e,
            *final(disk),
            *final(scratch),
        ),
    decreases side.op@.size() + 1, 9nat,
{
    let ghost (d0, s0) = (*disk, *scratch);
    let ghost db = outcome::database_on(ctx.tables(), d0);
    let builder = HashBuilder::new(side.schema.clone(), copy_keys(side.key_indexes), budget);
    let sink: RowSink<F> = RowSink::Build(builder);
    let ghost start = sink;
    proof {
        assert(start.own() =~= Set::<int>::empty());
        let rows = outcome::side_rows(side.op@, side.ps(), db);
        assert(Seq::<RowView>::empty() + rows =~= rows);
    }
    match execute_join_subtree(
        side.op,
        side.predicates,
        ctx,
        disk,
        scratch,
        memory_limit,
        sink,
    ) {
        Ok((_, RowSink::Build(done))) => {
            let ghost log = done.log();
            proof {
                if frame::trusty(*disk, *scratch) && semantics::sound(side.op@, db) {
                    lemma_came(start.log(), log, outcome::side_rows(side.op@, side.ps(), db));
                }
            }
            Ok(Some((done.finish(), Ghost(log))))
        },
        Ok(_) => vstd::pervasive::unreached(),
        Err(e) => {
            if e == DbError::BudgetExceeded {
                scratch.give_up(Ghost(!semantics::is_pipeline(side.op@)));
                Ok(None)
            } else {
                Err(e)
            }
        },
    }
}

/// Joins the rows of an operator under predicates with those of a table.
#[verifier::spinoff_prover]
fn execute_probe_subtree_against_hash<R: Input, W: Output, F: RowOutput>(
    probe: JoinInput<'_>,
    build_rows: CompactHashRows,
    builds: Ghost<Seq<RowView>>,
    build_keys: Ghost<Seq<int>>,
    compiled_cross: &Vec<CompiledPredicate>,
    ctx: &DbContext,
    disk: &mut DiskClient<R, W>,
    scratch: &mut ScratchSpace,
    memory_limit: usize,
    build_is_left: bool,
    sink: RowSink<F>,
) -> (r: Result<RowSink<F>, DbError>)
    requires
        old(scratch).wf(),
        sink.wf(*old(disk), *old(scratch)),
        probe.ready(ctx.tables()),
        sink.types() == sink::joined_types(
            build_rows.schema.types(),
            probe.schema.types(),
            build_is_left,
        ),
        row_codec::all_conform(builds@, build_rows.schema.types()),
        hash_build::table_of(build_rows.rows_by_key, builds@, build_keys@),
        keys::keyed(
            build_keys@,
            probe.keys(),
            build_rows.schema@.len(),
            probe.schema@.len(),
            build_is_left,
            executor::compiled_views(compiled_cross@),
        ),
    ensures
        scratch_run::kept(
            *old(disk),
            *old(scratch),
            *final(disk),
            *final(scratch),
            sink.own(),
        ),
        r matches Ok(out) ==> {
            &&& outcome::side_known(probe.op@, probe.ps(), ctx.tables())
            &&& sink::advanced(
                sink,
                *old(disk),
                *old(scratch),
                out,
                *final(disk),
                *final(scratch),
            )
            &&& semantics::is_pipeline(probe.op@) || !final(scratch).gave_up() ==> sink::settled(
                sink,
                *old(scratch),
                out,
                *final(scratch),
            )
            &&& frame::trusty(*final(disk), *final(scratch)) && semantics::sound(
                probe.op@,
                outcome::database_on(ctx.tables(), *old(disk)),
            ) ==> outcome::emitted_bag(
                sink.log(),
                out.log(),
                semantics::probe_bag(
                    builds@,
                    outcome::side_rows(
                        probe.op@,
                        probe.ps(),
                        outcome::database_on(ctx.tables(), *old(disk)),
                    ),
                    build_is_left,
                    executor::compiled_views(compiled_cross@),
                ),
            )
        },
        r matches Err(e) ==> (scratch_run::able(*final(disk), *final(scratch)) && semantics::sound(
            probe.op@,
            outcome::database_on(ctx.tables(), *old(disk)),
        ) ==> outcome::side_excuses(
            probe.op@,
            probe.ps(),
            outcome::database_on(ctx.tables(), *old(disk)),
            old(scratch).size() as int,
            e,
        ) || semantics::pairs_fail(
            builds@,
            outcome::side_rows(
                probe.op@,
                probe.ps(),
                outcome::database_on(ctx.tables(), *old(disk)),
            ),
            build_is_left,
            executor::compiled_views(compiled_cross@),
            e,
        ) || sink.shape().excuses(
            e,
            old(scratch).size() as int,
            sink.log() + semantics::probe_rows(
                builds@,
                outcome::side_rows(
                    probe.op@,
                    probe.ps(),
                    outcome::database_on(ctx.tables(), *old(disk)),
                ),
                build_is_left,
                executor::compiled_views(compiled_cross@),
            ),
        )),
    decreases probe.op@.size() + 1, 9nat,
{
    let ghost (d0, s0) = (*disk, *scratch);
    let ghost start = sink;
    let ghost ps = executor::compiled_views(compiled_cross@);
    let ghost db = outcome::database_on(ctx.tables(), d0);
    let stage = Stage::Hash(
        HashStage {
            build: build_rows,
            probe_keys: copy_keys(probe.key_indexes),
            predicates: clone_compiled(compiled_cross),
            build_is_left,
            types: Ghost(probe.schema.types()),
            build_keys,
            builds,
        },
    );
    let ghost view = stage.view();
    let inner = sink.behind(stage, disk, scratch);
    let ghost begun = inner;
    proof {
        frame::lemma_kept_refl(d0, s0, start.own());
        assert(begun.own() =~= start.own());
        let rows = outcome::side_rows(probe.op@, probe.ps(), db);
        assert(Seq::<RowView>::empty() + rows =~= rows);
    }
    let (_, out) = execute_join_subtree(
        probe.op,
        probe.predicates,
        ctx,
        disk,
        scratch,
        memory_limit,
        inner,
    )?;
    let ghost log = out.log();
    proof {
        if semantics::is_pipeline(probe.op@) {
            outcome::lemma_pipeline_gives_back(probe.op@);
        }
        outcome::lemma_node_done(
            start,
            d0,
            s0,
            begun,
            view,
            Set::<int>::empty(),
            d0,
            s0,
            out,
            *disk,
            *scratch,
        );
        if frame::trusty(*disk, *scratch) && semantics::sound(probe.op@, db) {
            let rows = outcome::side_rows(probe.op@, probe.ps(), db);
            lemma_came(begun.log(), log, rows);
            semantics::lemma_probe_rows_bag(builds@, log, build_is_left, ps);
            keys::lemma_probe_same(builds@, log, builds@, rows, build_is_left, ps);
            outcome::lemma_emitted(
                start.log(),
                semantics::probe_rows(builds@, log, build_is_left, ps),
            );
        }
    }
    match out {
        RowSink::Node(node) => Ok(*node.next),
        _ => vstd::pervasive::unreached(),
    }
}

/// Joins two operators under predicates by keys: with a table of the rows of
/// one side, if it is estimated to fit and does, and in partitions otherwise.
#[verifier::spinoff_prover]
pub fn execute_equality_join<R: Input, W: Output, F: RowOutput>(
    build: JoinInput<'_>,
    probe: JoinInput<'_>,
    compiled_cross: &Vec<CompiledPredicate>,
    ctx: &DbContext,
    disk: &mut DiskClient<R, W>,
    scratch: &mut ScratchSpace,
    memory_limit: usize,
    build_is_left: bool,
    sink: RowSink<F>,
) -> (r: Result<RowSink<F>, DbError>)
    requires
        old(scratch).wf(),
        sink.wf(*old(disk), *old(scratch)),
        build.ready(ctx.tables()),
        probe.ready(ctx.tables()),
        sink.types() == sink::joined_types(
            build.schema.types(),
            probe.schema.types(),
            build_is_left,
        ),
        keys::keyed(
            build.keys(),
            probe.keys(),
            build.schema@.len(),
            probe.schema@.len(),
            build_is_left,
            executor::compiled_views(compiled_cross@),
        ),
    ensures
        scratch_run::kept(
            *old(disk),
            *old(scratch),
            *final(disk),
            *final(scratch),
            sink.own(),
        ),
        r matches Ok(out) ==> outcome::ran_sides(
            build.op@,
            build.ps(),
            probe.op@,
            probe.ps(),
            build_is_left,
            executor::compiled_views(compiled_cross@),
            ctx.tables(),
            sink,
            *old(disk),
            *old(scratch),
            out,
            *final(disk),
            *final(scratch),
        ),
        r matches Err(e) ==> outcome::excused_sides(
            build.op@,
            build.ps(),
            probe.op@,
            probe.ps(),
            build_is_left,
            executor::compiled_views(compiled_cross@),
            ctx.tables(),
            sink,
            *old(disk),
            *old(scratch),
            e,
            *final(disk),
            *final(scratch),
        ),
    decreases build.op@.size() + probe.op@.size() + 1, 10nat,
{
    let ghost (d0, s0) = (*disk, *scratch);
    let ghost start = sink;
    let ghost tables = ctx.tables();
    let ghost db = outcome::database_on(tables, d0);
    let ghost none = Set::<int>::empty();
    let ghost ps = executor::compiled_views(compiled_cross@);
    let ghost build_rows = outcome::side_rows(build.op@, build.ps(), db);
    let ghost probe_rows = outcome::side_rows(probe.op@, probe.ps(), db);
    proof {
        frame::lemma_kept_refl(d0, s0, none);
    }
    if should_try_direct_hash_build(build.estimated_hash_bytes, memory_limit) {
        let result = try_build_hash_rows::<R, W, F>(
            build,
            ctx,
            disk,
            scratch,
            memory_limit,
            hash_build_budget(memory_limit),
        );
        let ghost (d1, s1) = (*disk, *scratch);
        proof {
            frame::lemma_kept_more(d0, s0, d1, s1, none, start.own());
            start.lemma_wf_kept(d0, s0, d1, s1, none);
        }
        if let Some((rows, builds)) = result? {
            let result = execute_probe_subtree_against_hash(
                probe,
                rows,
                builds,
                Ghost(build.keys()),
                compiled_cross,
                ctx,
                disk,
                scratch,
                memory_limit,
                build_is_left,
                sink,
            );
            proof {
                frame::lemma_kept_trans(
                    d0,
                    s0,
                    d1,
                    s1,
                    *disk,
                    *scratch,
                    start.own(),
                    start.own(),
                );
                if result is Err && scratch_run::able(*disk, *scratch)
                    && semantics::both_sound(build.op@, probe.op@, db) {
                    let e = result->Err_0;
                    if outcome::join_excuses(
                        builds@,
                        probe_rows,
                        build_is_left,
                        ps,
                        start,
                        e,
                        s0.size() as int,
                    ) {
                        outcome::lemma_excused_by_rows(
                            build.op@,
                            build.ps(),
                            probe.op@,
                            probe.ps(),
                            build_is_left,
                            ps,
                            ctx.tables(),
                            start,
                            d0,
                            s0,
                            e,
                            *disk,
                            *scratch,
                            builds@,
                            probe_rows,
                        );
                    }
                }
                if result is Ok {
                    let out = result->Ok_0;
                    hash_join::lemma_advanced_later(start, d0, s0, d1, s1, out, *disk, *scratch);
                    if frame::trusty(*disk, *scratch)
                        && semantics::both_sound(build.op@, probe.op@, db) {
                        keys::lemma_probe_same(
                            builds@,
                            probe_rows,
                            build_rows,
                            probe_rows,
                            build_is_left,
                            ps,
                        );
                    }
                }
            }
            return result;
        }
    }
    let ghost (d1, s1) = (*disk, *scratch);
    proof {
        frame::lemma_kept_more(d0, s0, d1, s1, none, start.own());
        start.lemma_wf_kept(d0, s0, d1, s1, none);
    }
    if should_try_direct_hash_build(probe.estimated_hash_bytes, memory_limit) {
        let result = try_build_hash_rows::<R, W, F>(
            probe,
            ctx,
            disk,
            scratch,
            memory_limit,
            hash_build_budget(memory_limit),
        );
        let ghost (d2, s2) = (*disk, *scratch);
        proof {
            frame::lemma_kept_trans(d0, s0, d1, s1, d2, s2, none, none);
            frame::lemma_kept_more(d0, s0, d2, s2, none, start.own());
            start.lemma_wf_kept(d0, s0, d2, s2, none);
            keys::lemma_keyed_reverse(
                build.keys(),
                probe.keys(),
                build.schema@.len(),
                probe.schema@.len(),
                build_is_left,
                ps,
            );
        }
        if let Some((rows, builds)) = result? {
            let result = execute_probe_subtree_against_hash(
                build,
                rows,
                builds,
                Ghost(probe.keys()),
                compiled_cross,
                ctx,
                disk,
                scratch,
                memory_limit,
                !build_is_left,
                sink,
            );
            proof {
                frame::lemma_kept_trans(
                    d0,
                    s0,
                    d2,
                    s2,
                    *disk,
                    *scratch,
                    start.own(),
                    start.own(),
                );
                if result is Err && scratch_run::able(*disk, *scratch)
                    && semantics::both_sound(build.op@, probe.op@, db) {
                    let e = result->Err_0;
                    if outcome::join_excuses(
                        builds@,
                        build_rows,
                        !build_is_left,
                        ps,
                        start,
                        e,
                        s0.size() as int,
                    ) {
                        outcome::lemma_excused_by_rows(
                            probe.op@,
                            probe.ps(),
                            build.op@,
                            build.ps(),
                            !build_is_left,
                            ps,
                            ctx.tables(),
                            start,
                            d0,
                            s0,
                            e,
                            *disk,
                            *scratch,
                            builds@,
                            build_rows,
                        );
                        outcome::lemma_excused_sides(
                            probe.op@,
                            probe.ps(),
                            build.op@,
                            build.ps(),
                            !build_is_left,
                            ps,
                            tables,
                            start,
                            d0,
                            s0,
                            e,
                            *disk,
                            *scratch,
                        );
                    }
                }
                if result is Ok {
                    let out = result->Ok_0;
                    hash_join::lemma_advanced_later(start, d0, s0, d2, s2, out, *disk, *scratch);
                    if frame::trusty(*disk, *scratch)
                        && semantics::both_sound(build.op@, probe.op@, db) {
                        keys::lemma_probe_same(
                            builds@,
                            build_rows,
                            probe_rows,
                            build_rows,
                            !build_is_left,
                            ps,
                        );
                        semantics::lemma_probe_bag(build_rows, probe_rows, build_is_left, ps);
                        semantics::lemma_probe_bag(probe_rows, build_rows, !build_is_left, ps);
                    }
                }
            }
            return result;
        }
    }
    let ghost (d2, s2) = (*disk, *scratch);
    proof {
        frame::lemma_kept_trans(d0, s0, d1, s1, d2, s2, none, none);
        frame::lemma_kept_more(d0, s0, d2, s2, none, start.own());
        start.lemma_wf_kept(d0, s0, d2, s2, none);
    }
    let result = execute_partitioned_hash_join_from_subtrees(
        build,
        probe,
        compiled_cross,
        ctx,
        disk,
        scratch,
        memory_limit,
        build_is_left,
        sink,
    );
    proof {
        frame::lemma_kept_trans(d0, s0, d2, s2, *disk, *scratch, start.own(), start.own());
        if result is Ok {
            let out = result->Ok_0;
            hash_join::lemma_advanced_later(start, d0, s0, d2, s2, out, *disk, *scratch);
        }
    }
    result
}

/// Joins two operators under predicates in partitions of their keys. Where both
/// are chains of operators on one table, partitions of the build side stay in
/// memory as far as they fit.
fn execute_partitioned_hash_join_from_subtrees<R: Input, W: Output, F: RowOutput>(
    build: JoinInput<'_>,
    probe: JoinInput<'_>,
    compiled_cross: &Vec<CompiledPredicate>,
    ctx: &DbContext,
    disk: &mut DiskClient<R, W>,
    scratch: &mut ScratchSpace,
    memory_limit: usize,
    build_is_left: bool,
    sink: RowSink<F>,
) -> (r: Result<RowSink<F>, DbError>)
    requires
        old(scratch).wf(),
        sink.wf(*old(disk), *old(scratch)),
        build.ready(ctx.tables()),
        probe.ready(ctx.tables()),
        sink.types() == sink::joined_types(
            build.schema.types(),
            probe.schema.types(),
            build_is_left,
        ),
        keys::keyed(
            build.keys(),
            probe.keys(),
            build.schema@.len(),
            probe.schema@.len(),
            build_is_left,
            executor::compiled_views(compiled_cross@),
        ),
    ensures
        scratch_run::kept(
            *old(disk),
            *old(scratch),
            *final(disk),
            *final(scratch),
            sink.own(),
        ),
        r matches Ok(out) ==> outcome::ran_sides(
            build.op@,
            build.ps(),
            probe.op@,
            probe.ps(),
            build_is_left,
            executor::compiled_views(compiled_cross@),
            ctx.tables(),
            sink,
            *old(disk),
            *old(scratch),
            out,
            *final(disk),
            *final(scratch),
        ),
        r matches Err(e) ==> outcome::excused_sides(
            build.op@,
            build.ps(),
            probe.op@,
            probe.ps(),
            build_is_left,
            executor::compiled_views(compiled_cross@),
            ctx.tables(),
            sink,
            *old(disk),
            *old(scratch),
            e,
            *final(disk),
            *final(scratch),
        ),
    decreases build.op@.size() + probe.op@.size() + 1, 9nat,
{
    if !supports_hybrid_partitioning(build.op) || !supports_hybrid_partitioning(probe.op) {
        join_partitioned_subtrees(
            build,
            probe,
            compiled_cross,
            ctx,
            disk,
            scratch,
            memory_limit,
            build_is_left,
            sink,
        )
    } else {
        join_hybrid_subtrees(
            build,
            probe,
            compiled_cross,
            ctx,
            disk,
            scratch,
            memory_limit,
            build_is_left,
            sink,
        )
    }
}

/// Parts the rows of an operator under predicates into partitions.
#[verifier::spinoff_prover]
fn partition_subtree_rows<R: Input, W: Output, F: RowOutput>(
    side: JoinInput<'_>,
    ctx: &DbContext,
    disk: &mut DiskClient<R, W>,
    scratch: &mut ScratchSpace,
    memory_limit: usize,
    depth: u32,
    build_filter: Option<JoinBloomFilter>,
    probe_filter: Option<JoinBloomFilter>,
) -> (r: Result<
    (
        PartitionedRuns,
        Option<JoinBloomFilter>,
        Ghost<Seq<Seq<RowView>>>,
        Ghost<Seq<RowView>>,
    ),
    DbError,
>)
    requires
        old(scratch).wf(),
        depth < DIGEST_DEPTHS,
        side.ready(ctx.tables()),
        build_filter matches Some(filter) ==> filter.wf(),
        probe_filter matches Some(filter) ==> filter.wf(),
    ensures
        scratch_run::kept(
            *old(disk),
            *old(scratch),
            *final(disk),
            *final(scratch),
            Set::<int>::empty(),
        ),
        r matches Ok((runs, filter, parts, log)) ==> {
            &&& outcome::side_known(side.op@, side.ps(), ctx.tables())
            &&& scratch_run::in_use(runs.own(), *final(scratch))
            &&& scratch_run::grown(Set::<int>::empty(), *old(scratch), runs.own())
            &&& semantics::is_pipeline(side.op@) || !final(scratch).gave_up() ==> scratch_run::tidy(
                Set::<int>::empty(),
                *old(scratch),
                runs.own(),
                *final(scratch),
            )
            &&& runs.keeps(*final(disk), *final(scratch), parts@)
            &&& runs.schema@ == side.schema@
            &&& row_codec::all_conform(log@, side.schema.types())
            &&& filter is Some <==> build_filter is Some
            &&& filter matches Some(f) ==> f.wf() && keys::covers(
                log@,
                side.keys(),
                |d: u64| f.members().contains(d),
            )
            &&& keys::parted(
                parts@,
                log@,
                keys::shown_picks(
                    side.keys(),
                    depth as int,
                    match probe_filter {
                        Some(filter) => |d: u64| filter.shows(d),
                        None => |d: u64| true,
                    },
                ),
            )
            &&& frame::trusty(*final(disk), *final(scratch)) && semantics::sound(
                side.op@,
                outcome::database_on(ctx.tables(), *old(disk)),
            ) ==> bag::bag(log@) == bag::bag(
                outcome::side_rows(
                    side.op@,
                    side.ps(),
                    outcome::database_on(ctx.tables(), *old(disk)),
                ),
            )
        },
        r matches Err(e) ==> outcome::excused_side(
            side.op@,
            side.ps(),
            ctx.tables(),
            *old(disk),
            *old(scratch),
            e,
            *final(disk),
            *final(scratch),
        ),
    decreases side.op@.size() + 1, 9nat,
{
    let ghost (d0, s0) = (*disk, *scratch);
    let ghost none = Set::<int>::empty();
    let ghost db = outcome::database_on(ctx.tables(), d0);
    let collector = Partitioner::new(
        side.schema.clone(),
        copy_keys(side.key_indexes),
        depth,
        build_filter,
        probe_filter,
        disk,
        scratch,
    );
    let sink: RowSink<F> = RowSink::Partition(collector);
    let ghost start = sink;
    assert(start.own() == none);
    proof {
        let rows = outcome::side_rows(side.op@, side.ps(), db);
        assert(Seq::<RowView>::empty() + rows =~= rows);
    }
    let (_, out) = execute_join_subtree(
        side.op,
        side.predicates,
        ctx,
        disk,
        scratch,
        memory_limit,
        sink,
    )?;
    let ghost (d1, s1) = (*disk, *scratch);
    match out {
        RowSink::Partition(done) => {
            let ghost log = done.log();
            let ghost own1 = done.own();
            let result = done.finish(disk, scratch);
            proof {
                if semantics::is_pipeline(side.op@) {
                    outcome::lemma_pipeline_gives_back(side.op@);
                }
                frame::lemma_kept_trans(d0, s0, d1, s1, *disk, *scratch, none, own1);
                if frame::trusty(*disk, *scratch) && semantics::sound(side.op@, db) {
                    lemma_came(start.log(), log, outcome::side_rows(side.op@, side.ps(), db));
                }
            }
            let (runs, filter) = result?;
            let ghost parts = choose|parts: Seq<Seq<RowView>>|
                {
                    &&& #[trigger] runs.keeps(*disk, *scratch, parts)
                    &&& keys::parted(
                        parts,
                        done.log(),
                        keys::shown_picks(done.keys(), done.depth(), done.shown()),
                    )
                    &&& runs.non_empty_partitions == partition::non_empty(
                        parts,
                        PARTITION_FANOUT as int,
                    )
                };
            proof {
                frame::lemma_grown_trans(d0, s0, d1, s1, none, own1, runs.own());
            }
            Ok((runs, filter, Ghost(parts), Ghost(log)))
        },
        _ => vstd::pervasive::unreached(),
    }
}

/// Joins two operators under predicates in partitions, all of them in runs.
#[verifier::spinoff_prover]
#[verifier::rlimit(40)]
fn join_partitioned_subtrees<R: Input, W: Output, F: RowOutput>(
    build: JoinInput<'_>,
    probe: JoinInput<'_>,
    compiled_cross: &Vec<CompiledPredicate>,
    ctx: &DbContext,
    disk: &mut DiskClient<R, W>,
    scratch: &mut ScratchSpace,
    memory_limit: usize,
    build_is_left: bool,
    sink: RowSink<F>,
) -> (r: Result<RowSink<F>, DbError>)
    requires
        old(scratch).wf(),
        sink.wf(*old(disk), *old(scratch)),
        build.ready(ctx.tables()),
        probe.ready(ctx.tables()),
        sink.types() == sink::joined_types(
            build.schema.types(),
            probe.schema.types(),
            build_is_left,
        ),
        keys::keyed(
            build.keys(),
            probe.keys(),
            build.schema@.len(),
            probe.schema@.len(),
            build_is_left,
            executor::compiled_views(compiled_cross@),
        ),
    ensures
        scratch_run::kept(
            *old(disk),
            *old(scratch),
            *final(disk),
            *final(scratch),
            sink.own(),
        ),
        r matches Ok(out) ==> outcome::ran_sides(
            build.op@,
            build.ps(),
            probe.op@,
            probe.ps(),
            build_is_left,
            executor::compiled_views(compiled_cross@),
            ctx.tables(),
            sink,
            *old(disk),
            *old(scratch),
            out,
            *final(disk),
            *final(scratch),
        ),
        r matches Err(e) ==> outcome::excused_sides(
            build.op@,
            build.ps(),
            probe.op@,
            probe.ps(),
            build_is_left,
            executor::compiled_views(compiled_cross@),
            ctx.tables(),
            sink,
            *old(disk),
            *old(scratch),
            e,
            *final(disk),
            *final(scratch),
        ),
    decreases build.op@.size() + probe.op@.size() + 1, 8nat,
{
    let ghost (d0, s0) = (*disk, *scratch);
    let ghost start = sink;
    let ghost none = Set::<int>::empty();
    let ghost ps = executor::compiled_views(compiled_cross@);
    let ghost db = outcome::database_on(ctx.tables(), d0);
    let ghost build_rows = outcome::side_rows(build.op@, build.ps(), db);
    let ghost probe_rows = outcome::side_rows(probe.op@, probe.ps(), db);
    let join_filter = JoinBloomFilter::new(join_filter_budget(memory_limit));
    let result = partition_subtree_rows::<R, W, F>(
        build,
        ctx,
        disk,
        scratch,
        memory_limit,
        0,
        Some(join_filter),
        None,
    );
    let ghost (d1, s1) = (*disk, *scratch);
    proof {
        frame::lemma_kept_more(d0, s0, d1, s1, none, start.own());
    }
    let (build_runs, filter, build_parts, build_log) = result?;
    let result = partition_subtree_rows::<R, W, F>(
        probe,
        ctx,
        disk,
        scratch,
        memory_limit,
        0,
        None,
        filter,
    );
    let ghost (d2, s2) = (*disk, *scratch);
    let ghost own1 = build_runs.own();
    proof {
        frame::lemma_kept_trans(d0, s0, d1, s1, d2, s2, none, none);
        frame::lemma_kept_more(d0, s0, d2, s2, none, start.own());
        start.lemma_wf_kept(d0, s0, d2, s2, none);
        start.lemma_own_in_use(d0, s0);
        build_runs.lemma_keeps(d1, s1, d2, s2, none, build_parts@);
    }
    let (probe_runs, _, probe_parts, probe_log) = result?;
    let ghost own2 = probe_runs.own();
    proof {
        frame::lemma_grown_trans(d0, s0, d1, s1, none, none, own2);
        frame::lemma_new_disjoint(own1, s1, own2);
        frame::lemma_new_disjoint(start.own(), s0, own1);
        frame::lemma_new_disjoint(start.own(), s0, own2);
        hash_join::lemma_parts_join(
            build_log@,
            build_parts@,
            build.keys(),
            build.schema.types(),
            probe_log@,
            probe_parts@,
            probe.keys(),
            probe.schema.types(),
            0,
            filter->0,
            build_is_left,
            ps,
        );
    }
    let result = execute_partitioned_hash_join_from_runs(
        &build_runs,
        build_parts,
        build.key_indexes,
        &probe_runs,
        probe_parts,
        probe.key_indexes,
        compiled_cross,
        disk,
        scratch,
        memory_limit,
        build_is_left,
        0,
        sink,
    );
    let ghost (d3, s3) = (*disk, *scratch);
    proof {
        build_runs.lemma_keeps(d2, s2, d3, s3, start.own(), build_parts@);
        probe_runs.lemma_keeps(d2, s2, d3, s3, start.own(), probe_parts@);
        frame::lemma_kept_trans(d0, s0, d2, s2, d3, s3, start.own(), start.own());
    }
    build_runs.release(disk, scratch);
    let ghost s4 = *scratch;
    proof {
        probe_runs.lemma_keeps(d3, s3, d3, s4, own1, probe_parts@);
        frame::lemma_kept_trans(d0, s0, d3, s3, d3, s4, start.own(), own1);
    }
    probe_runs.release(disk, scratch);
    proof {
        frame::lemma_kept_trans(d0, s0, d3, s4, d3, *scratch, start.own(), own2);
        if result is Err && scratch_run::able(*disk, *scratch)
            && semantics::both_sound(build.op@, probe.op@, db) {
            let e = result->Err_0;
            let size = s0.size() as int;
            let bs = hash::flat(build_parts@);
            let qs = hash::flat(probe_parts@);
            keys::lemma_parted_within(
                build_parts@,
                build_log@,
                keys::shown_picks(build.keys(), 0, |d: u64| true),
            );
            keys::lemma_parted_within(
                probe_parts@,
                probe_log@,
                keys::shown_picks(probe.keys(), 0, |d: u64| (filter->0).shows(d)),
            );
            assert(outcome::join_excuses(bs, qs, build_is_left, ps, start, e, size));
            outcome::lemma_join_excuses_within(
                bs,
                qs,
                build_log@,
                probe_log@,
                build_is_left,
                ps,
                start,
                e,
                size,
            );
            outcome::lemma_excused_by_rows(
                build.op@,
                build.ps(),
                probe.op@,
                probe.ps(),
                build_is_left,
                ps,
                ctx.tables(),
                start,
                d0,
                s0,
                e,
                *disk,
                *scratch,
                build_log@,
                probe_log@,
            );
        }
        if result is Ok {
            let out = result->Ok_0;
            hash_join::lemma_advanced_later(start, d0, s0, d2, s2, out, d3, s3);
            frame::lemma_grown_apart(start.own(), s2, out.own(), own1);
            frame::lemma_grown_apart(start.own(), s2, out.own(), own2);
            hash_join::lemma_advanced_released(start, d0, s0, out, d3, s3, s4, own1);
            hash_join::lemma_advanced_released(start, d0, s0, out, d3, s4, *scratch, own2);
            if frame::trusty(*disk, *scratch) && semantics::both_sound(build.op@, probe.op@, db) {
                keys::lemma_probe_same(
                    build_log@,
                    probe_log@,
                    build_rows,
                    probe_rows,
                    build_is_left,
                    ps,
                );
            }
        }
    }
    result
}

proof fn lemma_parts_without(
    builds: Seq<Seq<RowView>>,
    others: Seq<Seq<RowView>>,
    probes: Seq<Seq<RowView>>,
    n: int,
    build_is_left: bool,
    ps: Seq<CompiledView>,
)
    requires
        forall|j: int|
            0 <= j < n ==> (#[trigger] probes[j]).len() == 0 || builds[j] == others[j],
    ensures
        keys::parts_bag(builds, probes, n, build_is_left, ps) == keys::parts_bag(
            others,
            probes,
            n,
            build_is_left,
            ps,
        ),
    decreases n,
{
    if n > 0 {
        lemma_parts_without(builds, others, probes, n - 1, build_is_left, ps);
        assert(probes[n - 1].len() == 0 || builds[n - 1] == others[n - 1]);
    }
}

/// A join is what the probe rows of partitions in memory make and what the
/// partitions in runs make.
proof fn lemma_hybrid_join(
    builds: Seq<RowView>,
    build_parts: Seq<Seq<RowView>>,
    build_keys: Seq<int>,
    probes: Seq<RowView>,
    probe_parts: Seq<Seq<RowView>>,
    probe_keys: Seq<int>,
    build_width: nat,
    probe_width: nat,
    spilled: Seq<bool>,
    shown: spec_fn(u64) -> bool,
    build_is_left: bool,
    ps: Seq<CompiledView>,
)
    requires
        keys::keyed(build_keys, probe_keys, build_width, probe_width, build_is_left, ps),
        semantics::all_wide(builds, build_width),
        semantics::all_wide(probes, probe_width),
        keys::covers(builds, build_keys, shown),
        build_parts.len() == PARTITION_FANOUT,
        probe_parts.len() == PARTITION_FANOUT,
        forall|j: int|
            0 <= j < PARTITION_FANOUT && spilled[j] ==> bag::bag(#[trigger] build_parts[j])
                == bag::bag(bag::select(builds, keys::in_part(build_keys, 0, j))),
        forall|j: int|
            0 <= j < PARTITION_FANOUT ==> #[trigger] probe_parts[j] == bag::select(
                probes,
                sink::is_deferred(probe_keys, spilled, j, shown),
            ),
    ensures
        semantics::probe_bag(
            builds,
            bag::select(probes, sink::is_resident(probe_keys, spilled)),
            build_is_left,
            ps,
        ).add(
            keys::parts_bag(
                build_parts,
                probe_parts,
                PARTITION_FANOUT as int,
                build_is_left,
                ps,
            ),
        ) == semantics::probe_bag(builds, probes, build_is_left, ps),
{
    let n = PARTITION_FANOUT as int;
    let resident = sink::is_resident(probe_keys, spilled);
    let deferred = |r: RowView| !resident(r);
    let late = bag::select(probes, deferred);
    bag::lemma_sum_split(
        probes,
        resident,
        |p: RowView| semantics::match_bag(builds, p, build_is_left, ps),
    );
    let all_parts = Seq::new(
        PARTITION_FANOUT as nat,
        |j: int|
            if spilled[j] {
                build_parts[j]
            } else {
                bag::select(builds, keys::in_part(build_keys, 0, j))
            },
    );
    assert forall|j: int| 0 <= j < n implies (#[trigger] probe_parts[j]).len() == 0
        || build_parts[j] == all_parts[j] by {
        if !spilled[j] {
            let pick = sink::is_deferred(probe_keys, spilled, j, shown);
            bag::lemma_select_members(probes, pick);
            if probe_parts[j].len() > 0 {
                assert(pick(probe_parts[j][0]));
            }
        }
    }
    lemma_parts_without(build_parts, all_parts, probe_parts, n, build_is_left, ps);
    assert(keys::parted(all_parts, builds, keys::part_picks(build_keys, 0)));
    let picks = keys::shown_picks(probe_keys, 0, shown);
    assert forall|j: int| 0 <= j < probe_parts.len() implies bag::bag(#[trigger] probe_parts[j])
        == bag::bag(bag::select(late, picks(j))) by {
        bag::lemma_select_select(probes, deferred, picks(j));
        let both = |r: RowView| deferred(r) && picks(j)(r);
        assert(both =~= sink::is_deferred(probe_keys, spilled, j, shown));
    }
    assert(semantics::all_wide(late, probe_width)) by {
        bag::lemma_select_forall(probes, deferred, |r: RowView| r.len() == probe_width);
        assert forall|i: int| 0 <= i < late.len() implies (#[trigger] late[i]).len()
            == probe_width by {
            assert((|r: RowView| r.len() == probe_width)(late[i]));
        }
    }
    keys::lemma_partitioned_join(
        builds,
        all_parts,
        build_keys,
        late,
        probe_parts,
        probe_keys,
        build_width,
        probe_width,
        0,
        shown,
        build_is_left,
        ps,
    );
}

/// Joins two operators under predicates in partitions, those of the build side
/// in memory as far as they fit. The probe rows of partitions in memory are
/// joined as they come; those of the others go to runs.
#[verifier::spinoff_prover]
#[verifier::rlimit(80)]
fn join_hybrid_subtrees<R: Input, W: Output, F: RowOutput>(
    build: JoinInput<'_>,
    probe: JoinInput<'_>,
    compiled_cross: &Vec<CompiledPredicate>,
    ctx: &DbContext,
    disk: &mut DiskClient<R, W>,
    scratch: &mut ScratchSpace,
    memory_limit: usize,
    build_is_left: bool,
    sink: RowSink<F>,
) -> (r: Result<RowSink<F>, DbError>)
    requires
        old(scratch).wf(),
        sink.wf(*old(disk), *old(scratch)),
        build.ready(ctx.tables()),
        probe.ready(ctx.tables()),
        sink.types() == sink::joined_types(
            build.schema.types(),
            probe.schema.types(),
            build_is_left,
        ),
        keys::keyed(
            build.keys(),
            probe.keys(),
            build.schema@.len(),
            probe.schema@.len(),
            build_is_left,
            executor::compiled_views(compiled_cross@),
        ),
    ensures
        scratch_run::kept(
            *old(disk),
            *old(scratch),
            *final(disk),
            *final(scratch),
            sink.own(),
        ),
        r matches Ok(out) ==> outcome::ran_sides(
            build.op@,
            build.ps(),
            probe.op@,
            probe.ps(),
            build_is_left,
            executor::compiled_views(compiled_cross@),
            ctx.tables(),
            sink,
            *old(disk),
            *old(scratch),
            out,
            *final(disk),
            *final(scratch),
        ),
        r matches Err(e) ==> outcome::excused_sides(
            build.op@,
            build.ps(),
            probe.op@,
            probe.ps(),
            build_is_left,
            executor::compiled_views(compiled_cross@),
            ctx.tables(),
            sink,
            *old(disk),
            *old(scratch),
            e,
            *final(disk),
            *final(scratch),
        ),
    decreases build.op@.size() + probe.op@.size() + 1, 8nat,
{
    let ghost (d0, s0) = (*disk, *scratch);
    let ghost start = sink;
    let ghost none = Set::<int>::empty();
    let ghost ps = executor::compiled_views(compiled_cross@);
    let ghost db = outcome::database_on(ctx.tables(), d0);
    let result = build_hybrid::<R, W, F>(build, ctx, disk, scratch, memory_limit);
    let ghost (d2, s2) = (*disk, *scratch);
    proof {
        frame::lemma_kept_more(d0, s0, d2, s2, none, start.own());
        start.lemma_wf_kept(d0, s0, d2, s2, none);
        start.lemma_own_in_use(d0, s0);
    }
    let (built, build_log, build_parts) = result?;
    let build_runs = built.runs;
    let ghost own1 = build_runs.own();
    proof {
        frame::lemma_new_disjoint(start.own(), s0, own1);
    }
    let writers = PartitionWriters::new(disk, scratch);
    let stage = Stage::Hybrid(
        HybridStage {
            schema: build.schema.clone(),
            filter: built.filter,
            partitions: built.partitions,
            writers,
            probe_keys: copy_keys(probe.key_indexes),
            predicates: clone_compiled(compiled_cross),
            build_is_left,
            types: Ghost(probe.schema.types()),
            build_keys: Ghost(build.keys()),
            builds: build_log,
        },
    );
    let ghost view = stage.view();
    let ghost spilled = view->spilled;
    let ghost shown = view->shown;
    let inner = sink.behind(stage, disk, scratch);
    let ghost begun = inner;
    assert(begun.own() =~= start.own());
    let result = execute_join_subtree(
        probe.op,
        probe.predicates,
        ctx,
        disk,
        scratch,
        memory_limit,
        inner,
    );
    let ghost (d3, s3) = (*disk, *scratch);
    proof {
        frame::lemma_kept_trans(d0, s0, d2, s2, d3, s3, start.own(), start.own());
        build_runs.lemma_keeps(d2, s2, d3, s3, start.own(), build_parts@);
        if result is Err && scratch_run::able(d3, s3)
            && semantics::both_sound(build.op@, probe.op@, db) {
            let e = result->Err_0;
            let probes = outcome::side_rows(probe.op@, probe.ps(), db);
            lemma_hybrid_excuses(
                build_log@,
                probes,
                probe.keys(),
                spilled,
                build_is_left,
                ps,
                start,
                e,
                s0.size() as int,
            );
            assert(Seq::<RowView>::empty() + probes =~= probes);
            if outcome::join_excuses(
                build_log@,
                probes,
                build_is_left,
                ps,
                start,
                e,
                s0.size() as int,
            ) {
                outcome::lemma_excused_by_rows(
                    build.op@,
                    build.ps(),
                    probe.op@,
                    probe.ps(),
                    build_is_left,
                    ps,
                    ctx.tables(),
                    start,
                    d0,
                    s0,
                    e,
                    d3,
                    s3,
                    build_log@,
                    probes,
                );
            }
        }
    }
    let (_, out) = result?;
    let ghost probe_log = out.log();
    proof {
        outcome::lemma_node_done(start, d0, s0, begun, view, none, d2, s2, out, d3, s3);
        frame::lemma_grown_apart(start.own(), s2, out.own(), own1);
        if semantics::is_pipeline(probe.op@) {
            outcome::lemma_pipeline_gives_back(probe.op@);
        }
    }
    match out {
        RowSink::Node(node) => {
            let ghost next = *node.next;
            match node.stage {
                Stage::Hybrid(s) => {
                    let ghost probe_parts = s.writers.parts();
                    let ghost own_w = s.writers.own();
                    proof {
                        lemma_disjoint_union(own1, own_w, next.own());
                        assert(probe_parts.len() == PARTITION_FANOUT);
                        assert forall|j: int|
                            0 <= j < PARTITION_FANOUT implies row_codec::all_conform(
                            #[trigger] probe_parts[j],
                            probe.schema.types(),
                        ) by {
                            partition::lemma_conform_select(
                                probe_log,
                                sink::is_deferred(probe.keys(), spilled, j, shown),
                                probe.schema.types(),
                            );
                        }
                        if frame::trusty(d3, s3)
                            && semantics::both_sound(build.op@, probe.op@, db) {
                            lemma_came(
                                begun.log(),
                                probe_log,
                                outcome::side_rows(probe.op@, probe.ps(), db),
                            );
                        }
                        lemma_hybrid_within(
                            build_log@,
                            build_parts@,
                            build.keys(),
                            built.partitions@,
                            probe_log,
                            probe_parts,
                            probe.keys(),
                            spilled,
                            shown,
                        );
                        lemma_hybrid_shown(
                            build_log@,
                            build_parts@,
                            build.keys(),
                            build.schema.types(),
                            probe_log,
                            probe_parts,
                            probe.keys(),
                            probe.schema.types(),
                            built.partitions@,
                            built.filter,
                            build_is_left,
                            ps,
                        );
                    }
                    join_deferred(
                        build,
                        probe,
                        build_runs,
                        build_parts,
                        build_log,
                        s.writers,
                        Ghost(probe_log),
                        Ghost(spilled),
                        compiled_cross,
                        ctx,
                        disk,
                        scratch,
                        memory_limit,
                        build_is_left,
                        *node.next,
                        Ghost(start),
                        Ghost(d0),
                        Ghost(s0),
                    )
                },
                _ => vstd::pervasive::unreached(),
            }
        },
        _ => vstd::pervasive::unreached(),
    }
}

/// What a sink can meet of what the probe rows of partitions in memory make, it
/// can of what all make.
proof fn lemma_hybrid_excuses<F: RowOutput>(
    builds: Seq<RowView>,
    probes: Seq<RowView>,
    probe_keys: Seq<int>,
    spilled: Seq<bool>,
    build_is_left: bool,
    ps: Seq<CompiledView>,
    sink: RowSink<F>,
    e: DbError,
    size: int,
)
    ensures
        sink.shape().excuses(
            e,
            size,
            sink.log() + semantics::probe_rows(
                builds,
                bag::select(probes, sink::is_resident(probe_keys, spilled)),
                build_is_left,
                ps,
            ),
        ) ==> sink.shape().excuses(
            e,
            size,
            sink.log() + semantics::probe_rows(builds, probes, build_is_left, ps),
        ),
{
    broadcast use sink::lemma_excuses_within;

    let pick = sink::is_resident(probe_keys, spilled);
    let now = bag::select(probes, pick);
    bag::lemma_within_front(probes, probes);
    bag::lemma_within_front(builds, builds);
    bag::lemma_within_select(probes, probes, pick);
    semantics::lemma_probe_within(builds, now, builds, probes, build_is_left, ps);
    bag::lemma_within_front(sink.log(), sink.log());
    bag::lemma_within_concat(
        sink.log(),
        semantics::probe_rows(builds, now, build_is_left, ps),
        sink.log(),
        semantics::probe_rows(builds, probes, build_is_left, ps),
    );
}

/// What is left in the runs are rows of the sides.
proof fn lemma_hybrid_within(
    build_log: Seq<RowView>,
    build_parts: Seq<Seq<RowView>>,
    build_keys: Seq<int>,
    partitions: Seq<HybridBuildPartition>,
    probe_log: Seq<RowView>,
    probe_parts: Seq<Seq<RowView>>,
    probe_keys: Seq<int>,
    spilled: Seq<bool>,
    shown: spec_fn(u64) -> bool,
)
    requires
        hash_build::spilled_ok(partitions, build_parts, build_log, build_keys),
        build_parts.len() == PARTITION_FANOUT,
        probe_parts.len() == PARTITION_FANOUT,
        forall|j: int|
            0 <= j < PARTITION_FANOUT ==> #[trigger] probe_parts[j] == bag::select(
                probe_log,
                sink::is_deferred(probe_keys, spilled, j, shown),
            ),
    ensures
        bag::within(hash::flat(build_parts), build_log),
        bag::within(hash::flat(probe_parts), probe_log),
{
    bag::lemma_within_front(build_log, build_log);
    bag::lemma_within_front(probe_log, probe_log);
    assert forall|j: int| 0 <= j < build_parts.len() implies bag::within(
        #[trigger] build_parts[j],
        build_log,
    ) by {
        if partitions[j].spilled {
            let part = bag::select(build_log, keys::in_part(build_keys, 0, j));
            bag::lemma_within_select(build_log, build_log, keys::in_part(build_keys, 0, j));
            bag::lemma_within_bag(build_parts[j], part);
            bag::lemma_within_trans(build_parts[j], part, build_log);
        } else {
            let none = Seq::<RowView>::empty();
            bag::lemma_within_bag(build_parts[j], none);
            bag::lemma_within_front(none, build_log);
            bag::lemma_within_trans(build_parts[j], none, build_log);
        }
    }
    assert forall|j: int| 0 <= j < probe_parts.len() implies bag::within(
        #[trigger] probe_parts[j],
        probe_log,
    ) by {
        bag::lemma_within_select(
            probe_log,
            probe_log,
            sink::is_deferred(probe_keys, spilled, j, shown),
        );
    }
    hash::lemma_groups_within(build_parts, build_log);
    hash::lemma_groups_within(probe_parts, probe_log);
}

/// Blocks that a whole has not, its parts have not.
proof fn lemma_disjoint_union(mine: Set<int>, a: Set<int>, b: Set<int>)
    requires
        mine.disjoint(a.union(b)),
    ensures
        mine.disjoint(a),
        mine.disjoint(b),
{
    assert forall|x: int| !(#[trigger] mine.contains(x) && a.contains(x)) by {
        if a.contains(x) {
            assert(a.union(b).contains(x));
        }
    }
    assert forall|x: int| !(#[trigger] mine.contains(x) && b.contains(x)) by {
        if b.contains(x) {
            assert(a.union(b).contains(x));
        }
    }
}

/// What probe rows of partitions in memory and those of the others make,
/// together.
proof fn lemma_hybrid_shown(
    builds: Seq<RowView>,
    build_parts: Seq<Seq<RowView>>,
    build_keys: Seq<int>,
    build_types: Seq<DataType>,
    probes: Seq<RowView>,
    probe_parts: Seq<Seq<RowView>>,
    probe_keys: Seq<int>,
    probe_types: Seq<DataType>,
    partitions: Seq<HybridBuildPartition>,
    filter: JoinBloomFilter,
    build_is_left: bool,
    ps: Seq<CompiledView>,
)
    requires
        filter.wf(),
        row_codec::all_conform(builds, build_types),
        row_codec::all_conform(probes, probe_types),
        keys::keyed(
            build_keys,
            probe_keys,
            build_types.len(),
            probe_types.len(),
            build_is_left,
            ps,
        ),
        keys::covers(builds, build_keys, |d: u64| filter.members().contains(d)),
        partitions.len() == PARTITION_FANOUT,
        build_parts.len() == PARTITION_FANOUT,
        probe_parts.len() == PARTITION_FANOUT,
        hash_build::spilled_ok(partitions, build_parts, builds, build_keys),
        forall|j: int|
            0 <= j < PARTITION_FANOUT ==> #[trigger] probe_parts[j] == bag::select(
                probes,
                sink::is_deferred(
                    probe_keys,
                    sink::spilled_flags(partitions),
                    j,
                    |d: u64| filter.shows(d),
                ),
            ),
    ensures
        semantics::probe_bag(
            builds,
            bag::select(
                probes,
                sink::is_resident(probe_keys, sink::spilled_flags(partitions)),
            ),
            build_is_left,
            ps,
        ).add(
            keys::parts_bag(
                build_parts,
                probe_parts,
                PARTITION_FANOUT as int,
                build_is_left,
                ps,
            ),
        ) == semantics::probe_bag(builds, probes, build_is_left, ps),
{
    let shown = |d: u64| filter.shows(d);
    let has = |d: u64| filter.members().contains(d);
    filter.lemma_shows();
    assert forall|i: int| 0 <= i < builds.len() implies shown(
        hash::digest(#[trigger] builds[i], build_keys),
    ) by {
        assert(has(hash::digest(builds[i], build_keys)));
    }
    sink::lemma_conform_wide(builds, build_types);
    sink::lemma_conform_wide(probes, probe_types);
    lemma_hybrid_join(
        builds,
        build_parts,
        build_keys,
        probes,
        probe_parts,
        probe_keys,
        build_types.len(),
        probe_types.len(),
        sink::spilled_flags(partitions),
        shown,
        build_is_left,
        ps,
    );
}

/// Runs the build side and parts its rows, in memory as far as they fit.
#[verifier::spinoff_prover]
fn build_hybrid<R: Input, W: Output, F: RowOutput>(
    build: JoinInput<'_>,
    ctx: &DbContext,
    disk: &mut DiskClient<R, W>,
    scratch: &mut ScratchSpace,
    memory_limit: usize,
) -> (r: Result<(HybridBuild, Ghost<Seq<RowView>>, Ghost<Seq<Seq<RowView>>>), DbError>)
    requires
        old(scratch).wf(),
        build.ready(ctx.tables()),
    ensures
        scratch_run::kept(
            *old(disk),
            *old(scratch),
            *final(disk),
            *final(scratch),
            Set::<int>::empty(),
        ),
        r matches Ok((built, log, parts)) ==> {
            &&& outcome::side_known(build.op@, build.ps(), ctx.tables())
            &&& scratch_run::grown(Set::<int>::empty(), *old(scratch), built.runs.own())
            &&& semantics::is_pipeline(build.op@) || !final(scratch).gave_up() ==> scratch_run::tidy(
                Set::<int>::empty(),
                *old(scratch),
                built.runs.own(),
                *final(scratch),
            )
            &&& scratch_run::in_use(built.runs.own(), *final(scratch))
            &&& built.runs.schema@ == build.schema@
            &&& built.filter.wf()
            &&& keys::covers(
                log@,
                build.keys(),
                |d: u64| built.filter.members().contains(d),
            )
            &&& row_codec::all_conform(log@, build.schema.types())
            &&& hash_build::residents_ok(built.partitions@, log@, build.keys())
            &&& built.runs.keeps(*final(disk), *final(scratch), parts@)
            &&& hash_build::spilled_ok(built.partitions@, parts@, log@, build.keys())
            &&& frame::trusty(*final(disk), *final(scratch)) && semantics::sound(
                build.op@,
                outcome::database_on(ctx.tables(), *old(disk)),
            ) ==> bag::bag(log@) == bag::bag(
                outcome::side_rows(
                    build.op@,
                    build.ps(),
                    outcome::database_on(ctx.tables(), *old(disk)),
                ),
            )
        },
        r matches Err(e) ==> outcome::excused_side(
            build.op@,
            build.ps(),
            ctx.tables(),
            *old(disk),
            *old(scratch),
            e,
            *final(disk),
            *final(scratch),
        ),
    decreases build.op@.size() + 1, 9nat,
{
    let ghost (d0, s0) = (*disk, *scratch);
    let ghost none = Set::<int>::empty();
    let ghost db = outcome::database_on(ctx.tables(), d0);
    let join_filter = JoinBloomFilter::new(join_filter_budget(memory_limit));
    let collector = HybridBuilder::new(
        build.schema.clone(),
        copy_keys(build.key_indexes),
        join_filter,
        hybrid_hash_resident_budget(memory_limit),
        disk,
        scratch,
    );
    let sink: RowSink<F> = RowSink::HybridBuild(collector);
    let ghost start = sink;
    assert(start.own() == none);
    proof {
        let rows = outcome::side_rows(build.op@, build.ps(), db);
        assert(Seq::<RowView>::empty() + rows =~= rows);
    }
    let (_, out) = execute_join_subtree(
        build.op,
        build.predicates,
        ctx,
        disk,
        scratch,
        memory_limit,
        sink,
    )?;
    let ghost (d1, s1) = (*disk, *scratch);
    match out {
        RowSink::HybridBuild(done) => {
            let ghost log = done.log();
            let ghost own1 = done.own();
            let result = done.finish(disk, scratch);
            proof {
                if semantics::is_pipeline(build.op@) {
                    outcome::lemma_pipeline_gives_back(build.op@);
                }
                frame::lemma_kept_trans(d0, s0, d1, s1, *disk, *scratch, none, own1);
                if frame::trusty(*disk, *scratch) && semantics::sound(build.op@, db) {
                    lemma_came(start.log(), log, outcome::side_rows(build.op@, build.ps(), db));
                }
            }
            let built = result?;
            let ghost parts = choose|parts: Seq<Seq<RowView>>|
                {
                    &&& #[trigger] built.runs.keeps(*disk, *scratch, parts)
                    &&& hash_build::spilled_ok(built.partitions@, parts, done.log(), done.keys())
                };
            proof {
                frame::lemma_grown_trans(d0, s0, d1, s1, none, own1, built.runs.own());
            }
            Ok((built, Ghost(log), Ghost(parts)))
        },
        _ => vstd::pervasive::unreached(),
    }
}

/// What joining what is left in the runs can meet behind what the rows in memory
/// made, joining the sides can.
proof fn lemma_deferred_excuses<F: RowOutput>(
    build_parts: Seq<Seq<RowView>>,
    build_log: Seq<RowView>,
    probe_parts: Seq<Seq<RowView>>,
    probe_log: Seq<RowView>,
    now: Seq<RowView>,
    build_is_left: bool,
    ps: Seq<CompiledView>,
    begin: RowSink<F>,
    next: RowSink<F>,
    e: DbError,
    size: int,
)
    requires
        bag::within(hash::flat(build_parts), build_log),
        bag::within(hash::flat(probe_parts), probe_log),
        exists|pick: spec_fn(RowView) -> bool| now == #[trigger] bag::select(probe_log, pick),
        next.shape() == begin.shape(),
        next.log() == begin.log() + semantics::probe_rows(build_log, now, build_is_left, ps),
        outcome::join_excuses(
            hash::flat(build_parts),
            hash::flat(probe_parts),
            build_is_left,
            ps,
            next,
            e,
            size,
        ),
    ensures
        outcome::join_excuses(build_log, probe_log, build_is_left, ps, begin, e, size),
{
    broadcast use {sink::lemma_excuses_within, scratch_run::lemma_oversized_within};

    let bs = hash::flat(build_parts);
    let qs = hash::flat(probe_parts);
    let all = semantics::probe_rows(build_log, probe_log, build_is_left, ps);
    let first = semantics::probe_rows(build_log, now, build_is_left, ps);
    let rest = semantics::probe_rows(bs, qs, build_is_left, ps);
    let pick = choose|pick: spec_fn(RowView) -> bool| now == #[trigger] bag::select(
        probe_log,
        pick,
    );
    bag::lemma_within_front(build_log, build_log);
    bag::lemma_within_front(probe_log, probe_log);
    bag::lemma_within_select(probe_log, probe_log, pick);
    semantics::lemma_probe_within(build_log, now, build_log, probe_log, build_is_left, ps);
    semantics::lemma_probe_within(bs, qs, build_log, probe_log, build_is_left, ps);
    bag::lemma_within_front(begin.log(), begin.log());
    bag::lemma_within_concat(begin.log(), first, begin.log(), all);
    hash_join::lemma_more_within(next.log(), rest, begin.log(), all);
    begin.lemma_shape_types(next);
    if semantics::pairs_fail(bs, qs, build_is_left, ps, e) {
        semantics::lemma_pairs_fail_within(bs, qs, build_log, probe_log, build_is_left, ps, e);
    }
}

/// Joins what is left in the runs of both sides, and gives them back.
#[verifier::spinoff_prover]
#[verifier::rlimit(80)]
fn join_deferred<R: Input, W: Output, F: RowOutput>(
    build: JoinInput<'_>,
    probe: JoinInput<'_>,
    build_runs: PartitionedRuns,
    build_parts: Ghost<Seq<Seq<RowView>>>,
    build_log: Ghost<Seq<RowView>>,
    writers: PartitionWriters,
    probe_log: Ghost<Seq<RowView>>,
    spilled: Ghost<Seq<bool>>,
    compiled_cross: &Vec<CompiledPredicate>,
    ctx: &DbContext,
    disk: &mut DiskClient<R, W>,
    scratch: &mut ScratchSpace,
    memory_limit: usize,
    build_is_left: bool,
    sink: RowSink<F>,
    start: Ghost<RowSink<F>>,
    d0: Ghost<DiskClient<R, W>>,
    s0: Ghost<ScratchSpace>,
) -> (r: Result<RowSink<F>, DbError>)
    requires
        old(scratch).wf(),
        build.ready(ctx.tables()),
        probe.ready(ctx.tables()),
        outcome::side_known(build.op@, build.ps(), ctx.tables()),
        outcome::side_known(probe.op@, probe.ps(), ctx.tables()),
        scratch_run::kept(d0@, s0@, *old(disk), *old(scratch), start@.own()),
        sink::advanced(start@, d0@, s0@, sink, *old(disk), *old(scratch)),
        start@.types() == sink::joined_types(
            build.schema.types(),
            probe.schema.types(),
            build_is_left,
        ),
        keys::keyed(
            build.keys(),
            probe.keys(),
            build.schema@.len(),
            probe.schema@.len(),
            build_is_left,
            executor::compiled_views(compiled_cross@),
        ),
        build_runs.keeps(*old(disk), *old(scratch), build_parts@),
        build_runs.schema@ == build.schema@,
        scratch_run::in_use(build_runs.own(), *old(scratch)),
        scratch_run::grown(Set::<int>::empty(), s0@, build_runs.own()),
        build_runs.own().disjoint(writers.own()),
        build_runs.own().disjoint(sink.own()),
        build_runs.own().disjoint(sink.held()),
        writers.wf(*old(disk), *old(scratch)),
        writers.parts().len() == PARTITION_FANOUT,
        bag::within(hash::flat(build_parts@), build_log@),
        bag::within(hash::flat(writers.parts()), probe_log@),
        scratch_run::grown(start@.own(), s0@, writers.own()),
        (semantics::is_pipeline(build.op@) && semantics::is_pipeline(probe.op@)) || !old(
            scratch).gave_up() ==> scratch_run::tidy(
            start@.own(),
            s0@,
            build_runs.own().union(writers.own()).union(sink.own()),
            *old(scratch),
        ),
        writers.own().disjoint(sink.own()),
        writers.own().disjoint(sink.held()),
        forall|j: int|
            0 <= j < PARTITION_FANOUT ==> row_codec::all_conform(
                #[trigger] writers.parts()[j],
                probe.schema.types(),
            ),
        semantics::probe_bag(
            build_log@,
            bag::select(probe_log@, sink::is_resident(probe.keys(), spilled@)),
            build_is_left,
            executor::compiled_views(compiled_cross@),
        ).add(
            keys::parts_bag(
                build_parts@,
                writers.parts(),
                PARTITION_FANOUT as int,
                build_is_left,
                executor::compiled_views(compiled_cross@),
            ),
        ) == semantics::probe_bag(
            build_log@,
            probe_log@,
            build_is_left,
            executor::compiled_views(compiled_cross@),
        ),
        frame::trusty(*old(disk), *old(scratch)) ==> sink.log() == start@.log()
            + semantics::probe_rows(
            build_log@,
            bag::select(probe_log@, sink::is_resident(probe.keys(), spilled@)),
            build_is_left,
            executor::compiled_views(compiled_cross@),
        ),
        frame::trusty(*old(disk), *old(scratch)) && semantics::both_sound(
            build.op@,
            probe.op@,
            outcome::database_on(ctx.tables(), d0@),
        ) ==> {
            &&& bag::bag(build_log@) == bag::bag(
                outcome::side_rows(
                    build.op@,
                    build.ps(),
                    outcome::database_on(ctx.tables(), d0@),
                ),
            )
            &&& bag::bag(probe_log@) == bag::bag(
                outcome::side_rows(
                    probe.op@,
                    probe.ps(),
                    outcome::database_on(ctx.tables(), d0@),
                ),
            )
        },
    ensures
        scratch_run::kept(d0@, s0@, *final(disk), *final(scratch), start@.own()),
        r matches Ok(out) ==> outcome::ran_sides(
            build.op@,
            build.ps(),
            probe.op@,
            probe.ps(),
            build_is_left,
            executor::compiled_views(compiled_cross@),
            ctx.tables(),
            start@,
            d0@,
            s0@,
            out,
            *final(disk),
            *final(scratch),
        ),
        r matches Err(e) ==> outcome::excused_sides(
            build.op@,
            build.ps(),
            probe.op@,
            probe.ps(),
            build_is_left,
            executor::compiled_views(compiled_cross@),
            ctx.tables(),
            start@,
            d0@,
            s0@,
            e,
            *final(disk),
            *final(scratch),
        ),
{
    let ghost (d3, s3) = (*disk, *scratch);
    let ghost begin = start@;
    let ghost next = sink;
    let ghost ps = executor::compiled_views(compiled_cross@);
    let ghost own1 = build_runs.own();
    let ghost own_w = writers.own();
    let ghost probe_parts = writers.parts();
    let ghost db = outcome::database_on(ctx.tables(), d0@);
    proof {
        begin.lemma_shape_types(next);
        next.lemma_own_in_use(d3, s3);
    }
    let result = finish_partition_writers(probe.schema.clone(), writers, disk, scratch);
    let ghost (d4, s4) = (*disk, *scratch);
    proof {
        frame::lemma_kept_trans(d0@, s0@, d3, s3, d4, s4, begin.own(), own_w);
        assert(next.own().disjoint(own_w));
        assert(next.held().disjoint(own_w));
        next.lemma_wf_kept(d3, s3, d4, s4, own_w);
        build_runs.lemma_keeps(d3, s3, d4, s4, own_w, build_parts@);
    }
    let probe_runs = result?;
    let ghost own2 = probe_runs.own();
    proof {
        frame::lemma_grown_trans(d0@, s0@, d3, s3, begin.own(), own_w, own2);
        frame::lemma_grown_apart(own_w, s3, own2, next.own());
        frame::lemma_grown_apart(own_w, s3, own2, next.held());
        frame::lemma_grown_apart(own_w, s3, own2, own1);
    }
    let result = execute_partitioned_hash_join_from_runs(
        &build_runs,
        build_parts,
        build.key_indexes,
        &probe_runs,
        Ghost(probe_parts),
        probe.key_indexes,
        compiled_cross,
        disk,
        scratch,
        memory_limit,
        build_is_left,
        0,
        sink,
    );
    let ghost (d5, s5) = (*disk, *scratch);
    proof {
        frame::lemma_kept_trans(d0@, s0@, d4, s4, d5, s5, begin.own(), next.own());
        build_runs.lemma_keeps(d4, s4, d5, s5, next.own(), build_parts@);
        probe_runs.lemma_keeps(d4, s4, d5, s5, next.own(), probe_parts);
    }
    build_runs.release(disk, scratch);
    let ghost s6 = *scratch;
    proof {
        frame::lemma_kept_trans(d0@, s0@, d5, s5, d5, s6, begin.own(), own1);
        probe_runs.lemma_keeps(d5, s5, d5, s6, own1, probe_parts);
    }
    probe_runs.release(disk, scratch);
    proof {
        frame::lemma_kept_trans(d0@, s0@, d5, s6, d5, *scratch, begin.own(), own2);
        if result is Err && scratch_run::able(*disk, *scratch)
            && semantics::both_sound(build.op@, probe.op@, db) {
            let e = result->Err_0;
            let size = s0@.size() as int;
            let now = bag::select(probe_log@, sink::is_resident(probe.keys(), spilled@));
            assert(next.log() == begin.log() + semantics::probe_rows(
                build_log@,
                now,
                build_is_left,
                ps,
            ));
            assert(outcome::join_excuses(
                hash::flat(build_parts@),
                hash::flat(probe_parts),
                build_is_left,
                ps,
                next,
                e,
                size,
            ));
            lemma_deferred_excuses(
                build_parts@,
                build_log@,
                probe_parts,
                probe_log@,
                now,
                build_is_left,
                ps,
                begin,
                next,
                e,
                size,
            );
            outcome::lemma_excused_by_rows(
                build.op@,
                build.ps(),
                probe.op@,
                probe.ps(),
                build_is_left,
                ps,
                ctx.tables(),
                begin,
                d0@,
                s0@,
                e,
                *disk,
                *scratch,
                build_log@,
                probe_log@,
            );
        }
        if result is Ok {
            let out = result->Ok_0;
            frame::lemma_grown_trans(
                d0@,
                s0@,
                d4,
                s4,
                begin.own(),
                next.own(),
                out.own(),
            );
            frame::lemma_grown_apart(next.own(), s4, out.own(), own1);
            frame::lemma_grown_apart(next.own(), s4, out.own(), own2);
            hash_join::lemma_advanced_given_back(begin, d0@, s0@, out, d5, s5, s6, own1);
            hash_join::lemma_advanced_given_back(begin, d0@, s0@, out, d5, s6, *scratch, own2);
            if frame::trusty(*disk, *scratch) && semantics::both_sound(build.op@, probe.op@, db) {
                let now = bag::select(
                    probe_log@,
                    sink::is_resident(probe.keys(), spilled@),
                );
                let a = semantics::probe_bag(build_log@, now, build_is_left, ps);
                let b = keys::parts_bag(
                    build_parts@,
                    probe_parts,
                    PARTITION_FANOUT as int,
                    build_is_left,
                    ps,
                );
                semantics::lemma_probe_rows_bag(build_log@, now, build_is_left, ps);
                outcome::lemma_emitted(
                    begin.log(),
                    semantics::probe_rows(build_log@, now, build_is_left, ps),
                );
                outcome::lemma_emitted_trans(begin.log(), next.log(), out.log(), a, b);
                keys::lemma_probe_same(
                    build_log@,
                    probe_log@,
                    outcome::side_rows(build.op@, build.ps(), db),
                    outcome::side_rows(probe.op@, probe.ps(), db),
                    build_is_left,
                    ps,
                );
            }
        }
    }
    result
}

} // verus!
