//! Hash joins of runs.

use vstd::multiset::Multiset;
use vstd::prelude::*;

use crate::bag;
use crate::data::DataType;
use crate::error::DbError;
use crate::executor;
use crate::executor::feed;
use crate::executor::feed::feed_run;
use crate::executor::frame;
use crate::executor::hash;
use crate::executor::hash::{
    join_filter_budget, JoinBloomFilter, DIGEST_DEPTHS, MAX_PARTITION_DEPTH, PARTITION_FANOUT,
};
use crate::executor::hash_build;
use crate::executor::hash_build::{CompactHashRows, HashBuilder};
use crate::executor::keys;
use crate::executor::materialize::MaterializedRows;
use crate::executor::outcome;
use crate::executor::partition;
use crate::executor::partition::{Partitioner, PartitionedRuns};
use crate::executor::sink;
use crate::executor::sink::{HashStage, LoopStage, RowSink, Stage};
use crate::executor::{clone_compiled, effective_memory, max_of, CompiledPredicate};
use crate::io::{Input, Output};
use crate::row;
use crate::row::Schema;
use crate::semantics;
use crate::semantics::{CompiledView, RowView};
use crate::storage::block_allocator::{ScratchRun, ScratchSpace};
use crate::storage::disk_client::DiskClient;
use crate::storage::row_codec;
use crate::storage::scratch_run;
use crate::storage::scratch_run::RowOutput;

verus! {

broadcast use {
    sink::lemma_excuses_within,
};

/// The memory that a table may take.
pub fn hash_build_budget(memory_limit: usize) -> (r: usize)
    ensures
        r == executor::larger(executor::working_memory(memory_limit as int) / 2, 1),
{
    max_of(effective_memory(memory_limit) / 2, 1)
}

/// The memory that partitions may take while others are in runs.
pub fn hybrid_hash_resident_budget(memory_limit: usize) -> (r: usize)
    ensures
        r == executor::larger(
            executor::larger(executor::working_memory(memory_limit as int) / 2, 1) / 2,
            1,
        ),
{
    max_of(hash_build_budget(memory_limit) / 2, 1)
}

/// A run with the same blocks.
fn same_run(run: &ScratchRun) -> (r: ScratchRun)
    ensures
        r@ == run@,
{
    let source = run.block_ids();
    let mut ids: Vec<u64> = Vec::with_capacity(source.len());
    let mut i: usize = 0;
    while i < source.len()
        invariant
            i <= source@.len(),
            ids@ == source@.take(i as int),
        decreases source@.len() - i,
    {
        ids.push(source[i]);
        assert(source@.take(i + 1) =~= source@.take(i as int).push(source@[i as int]));
        i = i + 1;
    }
    assert(source@.take(i as int) =~= source@);
    ScratchRun::new(ids)
}

/// A copy of key columns.
pub fn copy_keys(keys: &Vec<usize>) -> (r: Vec<usize>)
    ensures
        r@ == keys@,
{
    let mut out: Vec<usize> = Vec::with_capacity(keys.len());
    let mut i: usize = 0;
    while i < keys.len()
        invariant
            i <= keys@.len(),
            out@ == keys@.take(i as int),
        decreases keys@.len() - i,
    {
        out.push(keys[i]);
        assert(keys@.take(i + 1) =~= keys@.take(i as int).push(keys@[i as int]));
        i = i + 1;
    }
    assert(keys@.take(i as int) =~= keys@);
    out
}

/// Puts the rows of a run in a table, if they fit.
fn try_build_hash_run<R: Input, W: Output, F: RowOutput>(
    run: &ScratchRun,
    schema: &Schema,
    rows: Ghost<Seq<RowView>>,
    key_indexes: &Vec<usize>,
    disk: &mut DiskClient<R, W>,
    scratch: &mut ScratchSpace,
    budget: usize,
) -> (r: Result<Option<(CompactHashRows, Ghost<Seq<RowView>>)>, DbError>)
    requires
        old(scratch).wf(),
        scratch_run::in_use(scratch_run::ids_set(run@), *old(scratch)),
        partition::run_ok(*run, rows@, schema.types(), *old(disk)),
        hash::keys_below(row::as_ints(key_indexes@), schema@.len() as int),
    ensures
        scratch_run::kept(
            *old(disk),
            *old(scratch),
            *final(disk),
            *final(scratch),
            Set::<int>::empty(),
        ),
        *final(scratch) == *old(scratch),
        r matches Ok(Some((build, log))) ==> {
            &&& build.schema == *schema || build.schema@ == schema@
            &&& hash_build::table_of(build.rows_by_key, log@, row::as_ints(key_indexes@))
            &&& row_codec::all_conform(log@, schema.types())
            &&& frame::trusty(*final(disk), *final(scratch)) ==> log@ == rows@
        },
        r matches Err(e) ==> !scratch_run::able(*final(disk), *final(scratch)) || sink::too_large(
            e,
            rows@,
            old(scratch).size() as int,
        ),
{
    let builder = HashBuilder::new(schema.clone(), copy_keys(key_indexes), budget);
    let sink: RowSink<F> = RowSink::Build(builder);
    let ghost start = sink;
    proof {
        assert(sink.own() =~= Set::<int>::empty());
        assert(scratch_run::ids_set(run@).disjoint(sink.own()));
        assert(Seq::<RowView>::empty() + rows@ =~= rows@);
    }
    match feed_run(run, schema, rows, sink, disk, scratch) {
        Ok(RowSink::Build(done)) => {
            let ghost log = done.log();
            Ok(Some((done.finish(), Ghost(log))))
        },
        Ok(_) => Ok(None),
        Err(e) => {
            if e == DbError::BudgetExceeded {
                Ok(None)
            } else {
                Err(e)
            }
        },
    }
}

/// Joins the rows of a run with those of a table.
fn execute_probe_run_against_hash<R: Input, W: Output, F: RowOutput>(
    probe_run: &ScratchRun,
    probe_schema: &Schema,
    probes: Ghost<Seq<RowView>>,
    probe_keys: &Vec<usize>,
    build_rows: CompactHashRows,
    builds: Ghost<Seq<RowView>>,
    build_keys: Ghost<Seq<int>>,
    compiled_cross: &Vec<CompiledPredicate>,
    disk: &mut DiskClient<R, W>,
    scratch: &mut ScratchSpace,
    build_is_left: bool,
    sink: RowSink<F>,
) -> (r: Result<RowSink<F>, DbError>)
    requires
        old(scratch).wf(),
        sink.wf(*old(disk), *old(scratch)),
        scratch_run::in_use(scratch_run::ids_set(probe_run@), *old(scratch)),
        scratch_run::ids_set(probe_run@).disjoint(sink.own()),
        partition::run_ok(*probe_run, probes@, probe_schema.types(), *old(disk)),
        sink.types() == sink::joined_types(
            build_rows.schema.types(),
            probe_schema.types(),
            build_is_left,
        ),
        row_codec::all_conform(builds@, build_rows.schema.types()),
        hash_build::table_of(build_rows.rows_by_key, builds@, build_keys@),
        keys::keyed(
            build_keys@,
            row::as_ints(probe_keys@),
            build_rows.schema@.len(),
            probe_schema@.len(),
            build_is_left,
            executor::compiled_views(compiled_cross@),
        ),
    ensures
        scratch_run::kept(
            *old(disk),
            *old(scratch),
            *final(disk),
            *final(scratch),
            sink.own(),
        ),
        r matches Ok(out) ==> {
            &&& sink::advanced(
                sink,
                *old(disk),
                *old(scratch),
                out,
                *final(disk),
                *final(scratch),
            )
            &&& sink::settled(sink, *old(scratch), out, *final(scratch))
            &&& frame::trusty(*final(disk), *final(scratch)) ==> outcome::emitted_bag(
                sink.log(),
                out.log(),
                semantics::probe_bag(
                    builds@,
                    probes@,
                    build_is_left,
                    executor::compiled_views(compiled_cross@),
                ),
            )
        },
        r matches Err(e) ==> !scratch_run::able(*final(disk), *final(scratch)) || semantics::pairs_fail(
            builds@,
            probes@,
            build_is_left,
            executor::compiled_views(compiled_cross@),
            e,
        ) || sink.shape().excuses(
            e,
            old(scratch).size() as int,
            sink.log() + semantics::probe_rows(
                builds@,
                probes@,
                build_is_left,
                executor::compiled_views(compiled_cross@),
            ),
        ),
{
    let ghost (d0, s0) = (*disk, *scratch);
    let ghost start = sink;
    let ghost ps = executor::compiled_views(compiled_cross@);
    let stage = Stage::Hash(
        HashStage {
            build: build_rows,
            probe_keys: copy_keys(probe_keys),
            predicates: clone_compiled(compiled_cross),
            build_is_left,
            types: Ghost(probe_schema.types()),
            build_keys,
            builds,
        },
    );
    let ghost view = stage.view();
    let inner = sink.behind(stage, disk, scratch);
    let ghost begun = inner;
    proof {
        frame::lemma_kept_refl(d0, s0, start.own());
        assert(begun.own() =~= start.own());
        assert(Seq::<RowView>::empty() + probes@ =~= probes@);
    }
    let result = feed_run(probe_run, probe_schema, probes, inner, disk, scratch);
    let out = result?;
    proof {
        outcome::lemma_node_done(
            start,
            d0,
            s0,
            begun,
            view,
            Set::<int>::empty(),
            d0,
            s0,
            out,
            *disk,
            *scratch,
        );
        semantics::lemma_probe_rows_bag(builds@, probes@, build_is_left, ps);
        outcome::lemma_emitted(
            start.log(),
            semantics::probe_rows(builds@, probes@, build_is_left, ps),
        );
    }
    match out {
        RowSink::Node(node) => Ok(*node.next),
        _ => vstd::pervasive::unreached(),
    }
}

/// Joins the rows of two runs, each with each.
fn execute_nested_loop_join_on_runs<R: Input, W: Output, F: RowOutput>(
    build_run: &ScratchRun,
    build_schema: &Schema,
    builds: Ghost<Seq<RowView>>,
    probe_run: &ScratchRun,
    probe_schema: &Schema,
    probes: Ghost<Seq<RowView>>,
    compiled_cross: &Vec<CompiledPredicate>,
    disk: &mut DiskClient<R, W>,
    scratch: &mut ScratchSpace,
    build_is_left: bool,
    sink: RowSink<F>,
) -> (r: Result<RowSink<F>, DbError>)
    requires
        old(scratch).wf(),
        sink.wf(*old(disk), *old(scratch)),
        scratch_run::in_use(scratch_run::ids_set(build_run@), *old(scratch)),
        scratch_run::in_use(scratch_run::ids_set(probe_run@), *old(scratch)),
        scratch_run::ids_set(build_run@).disjoint(sink.own()),
        scratch_run::ids_set(probe_run@).disjoint(sink.own()),
        partition::run_ok(*build_run, builds@, build_schema.types(), *old(disk)),
        partition::run_ok(*probe_run, probes@, probe_schema.types(), *old(disk)),
        sink.types() == sink::joined_types(
            build_schema.types(),
            probe_schema.types(),
            build_is_left,
        ),
    ensures
        scratch_run::kept(
            *old(disk),
            *old(scratch),
            *final(disk),
            *final(scratch),
            sink.own(),
        ),
        r matches Ok(out) ==> {
            &&& sink::advanced(
                sink,
                *old(disk),
                *old(scratch),
                out,
                *final(disk),
                *final(scratch),
            )
            &&& sink::settled(sink, *old(scratch), out, *final(scratch))
            &&& frame::trusty(*final(disk), *final(scratch)) ==> outcome::emitted_bag(
                sink.log(),
                out.log(),
                semantics::probe_bag(
                    builds@,
                    probes@,
                    build_is_left,
                    executor::compiled_views(compiled_cross@),
                ),
            )
        },
        r matches Err(e) ==> !scratch_run::able(*final(disk), *final(scratch)) || semantics::pairs_fail(
            builds@,
            probes@,
            build_is_left,
            executor::compiled_views(compiled_cross@),
            e,
        ) || sink.shape().excuses(
            e,
            old(scratch).size() as int,
            sink.log() + semantics::probe_rows(
                builds@,
                probes@,
                build_is_left,
                executor::compiled_views(compiled_cross@),
            ),
        ),
{
    let ghost (d0, s0) = (*disk, *scratch);
    let ghost start = sink;
    let ghost ps = executor::compiled_views(compiled_cross@);
    let build = MaterializedRows {
        schema: build_schema.clone(),
        rows: Vec::new(),
        run: Some(same_run(build_run)),
    };
    let stage = Stage::Loop(
        LoopStage {
            build,
            predicates: clone_compiled(compiled_cross),
            build_is_left,
            types: Ghost(probe_schema.types()),
            builds,
        },
    );
    let ghost view = stage.view();
    let ghost held = stage.held();
    let inner = sink.behind(stage, disk, scratch);
    let ghost begun = inner;
    proof {
        frame::lemma_kept_refl(d0, s0, start.own());
        assert(begun.own() =~= start.own());
        assert(Seq::<RowView>::empty() + probes@ =~= probes@);
    }
    let result = feed_run(probe_run, probe_schema, probes, inner, disk, scratch);
    let out = result?;
    proof {
        outcome::lemma_node_done(
            start,
            d0,
            s0,
            begun,
            view,
            held,
            d0,
            s0,
            out,
            *disk,
            *scratch,
        );
        semantics::lemma_probe_rows_bag(builds@, probes@, build_is_left, ps);
        outcome::lemma_emitted(
            start.log(),
            semantics::probe_rows(builds@, probes@, build_is_left, ps),
        );
    }
    match out {
        RowSink::Node(node) => Ok(*node.next),
        _ => vstd::pervasive::unreached(),
    }
}

/// Parts the rows of a run into partitions.
fn partition_run_rows<R: Input, W: Output, F: RowOutput>(
    run: &ScratchRun,
    schema: &Schema,
    rows: Ghost<Seq<RowView>>,
    key_indexes: &Vec<usize>,
    disk: &mut DiskClient<R, W>,
    scratch: &mut ScratchSpace,
    depth: u32,
    build_filter: Option<JoinBloomFilter>,
    probe_filter: Option<JoinBloomFilter>,
) -> (r: Result<(PartitionedRuns, Option<JoinBloomFilter>, Ghost<Seq<Seq<RowView>>>), DbError>)
    requires
        old(scratch).wf(),
        depth < DIGEST_DEPTHS,
        scratch_run::in_use(scratch_run::ids_set(run@), *old(scratch)),
        partition::run_ok(*run, rows@, schema.types(), *old(disk)),
        hash::keys_below(row::as_ints(key_indexes@), schema@.len() as int),
        build_filter matches Some(filter) ==> filter.wf(),
        probe_filter matches Some(filter) ==> filter.wf(),
    ensures
        scratch_run::kept(
            *old(disk),
            *old(scratch),
            *final(disk),
            *final(scratch),
            Set::<int>::empty(),
        ),
        r matches Ok((runs, filter, parts)) ==> {
            &&& scratch_run::in_use(runs.own(), *final(scratch))
            &&& scratch_run::grown(Set::<int>::empty(), *old(scratch), runs.own())
            &&& scratch_run::tidy(
                Set::<int>::empty(),
                *old(scratch),
                runs.own(),
                *final(scratch),
            )
            &&& runs.keeps(*final(disk), *final(scratch), parts@)
            &&& runs.schema@ == schema@
            &&& filter is Some <==> build_filter is Some
            &&& filter matches Some(f) ==> f.wf()
            &&& frame::trusty(*final(disk), *final(scratch)) ==> {
                &&& keys::parted(
                    parts@,
                    rows@,
                    keys::shown_picks(
                        row::as_ints(key_indexes@),
                        depth as int,
                        match probe_filter {
                            Some(filter) => |d: u64| filter.shows(d),
                            None => |d: u64| true,
                        },
                    ),
                )
                &&& filter matches Some(f) ==> keys::covers(
                    rows@,
                    row::as_ints(key_indexes@),
                    |d: u64| f.members().contains(d),
                )
            }
        },
        r matches Err(e) ==> !scratch_run::able(*final(disk), *final(scratch)) || sink::too_large(
            e,
            rows@,
            old(scratch).size() as int,
        ),
{
    let ghost (d0, s0) = (*disk, *scratch);
    let collector = Partitioner::new(
        schema.clone(),
        copy_keys(key_indexes),
        depth,
        build_filter,
        probe_filter,
        disk,
        scratch,
    );
    let sink: RowSink<F> = RowSink::Partition(collector);
    let ghost start = sink;
    proof {
        assert(start.own() == Set::<int>::empty());
        assert(scratch_run::ids_set(run@).disjoint(start.own()));
        assert(Seq::<RowView>::empty() + rows@ =~= rows@);
    }
    let result = feed_run(run, schema, rows, sink, disk, scratch);
    let out = result?;
    let ghost (d1, s1) = (*disk, *scratch);
    match out {
        RowSink::Partition(done) => {
            let ghost log = done.log();
            let ghost own1 = done.own();
            let result = done.finish(disk, scratch);
            proof {
                frame::lemma_kept_trans(
                    d0,
                    s0,
                    d1,
                    s1,
                    *disk,
                    *scratch,
                    Set::<int>::empty(),
                    own1,
                );
                assert(Seq::<RowView>::empty() + rows@ =~= rows@);
            }
            let (runs, filter) = result?;
            let ghost parts = choose|parts: Seq<Seq<RowView>>|
                {
                    &&& #[trigger] runs.keeps(*disk, *scratch, parts)
                    &&& keys::parted(
                        parts,
                        done.log(),
                        keys::shown_picks(done.keys(), done.depth(), done.shown()),
                    )
                    &&& runs.non_empty_partitions == partition::non_empty(
                        parts,
                        PARTITION_FANOUT as int,
                    )
                };
            proof {
                frame::lemma_grown_trans(
                    d0,
                    s0,
                    d1,
                    s1,
                    Set::<int>::empty(),
                    own1,
                    runs.own(),
                );
            }
            Ok((runs, filter, Ghost(parts)))
        },
        _ => vstd::pervasive::unreached(),
    }
}

/// Two runs and a sink for what their rows make.
pub open spec fn pair_ready<R: Input, W: Output, F: RowOutput>(
    build_run: ScratchRun,
    builds: Seq<RowView>,
    build_types: Seq<DataType>,
    probe_run: ScratchRun,
    probes: Seq<RowView>,
    probe_types: Seq<DataType>,
    sink: RowSink<F>,
    disk: DiskClient<R, W>,
    scratch: ScratchSpace,
) -> bool {
    &&& sink.wf(disk, scratch)
    &&& scratch_run::in_use(scratch_run::ids_set(build_run@), scratch)
    &&& scratch_run::in_use(scratch_run::ids_set(probe_run@), scratch)
    &&& scratch_run::ids_set(build_run@).disjoint(sink.own())
    &&& scratch_run::ids_set(probe_run@).disjoint(sink.own())
    &&& partition::run_ok(build_run, builds, build_types, disk)
    &&& partition::run_ok(probe_run, probes, probe_types, disk)
}

/// Two runs and a sink stay ready where nothing in use changes.
proof fn lemma_ready_kept<R: Input, W: Output, F: RowOutput>(
    build_run: ScratchRun,
    builds: Seq<RowView>,
    build_types: Seq<DataType>,
    probe_run: ScratchRun,
    probes: Seq<RowView>,
    probe_types: Seq<DataType>,
    sink: RowSink<F>,
    d0: DiskClient<R, W>,
    s0: ScratchSpace,
    d1: DiskClient<R, W>,
    s1: ScratchSpace,
)
    requires
        pair_ready(
            build_run,
            builds,
            build_types,
            probe_run,
            probes,
            probe_types,
            sink,
            d0,
            s0,
        ),
        scratch_run::kept(d0, s0, d1, s1, Set::<int>::empty()),
    ensures
        pair_ready(
            build_run,
            builds,
            build_types,
            probe_run,
            probes,
            probe_types,
            sink,
            d1,
            s1,
        ),
        scratch_run::kept(d0, s0, d1, s1, sink.own()),
        frame::trusty(d1, s1) ==> frame::trusty(d0, s0),
{
    let none = Set::<int>::empty();
    sink.lemma_wf_kept(d0, s0, d1, s1, none);
    partition::lemma_run_kept(build_run, builds, build_types, d0, s0, d1, s1, none);
    partition::lemma_run_kept(probe_run, probes, probe_types, d0, s0, d1, s1, none);
    frame::lemma_kept_more(d0, s0, d1, s1, none, sink.own());
}

/// What a sink took behind a change that left alone what was in use.
pub proof fn lemma_advanced_later<R: Input, W: Output, F: RowOutput>(
    sink: RowSink<F>,
    d0: DiskClient<R, W>,
    s0: ScratchSpace,
    d1: DiskClient<R, W>,
    s1: ScratchSpace,
    out: RowSink<F>,
    d2: DiskClient<R, W>,
    s2: ScratchSpace,
)
    requires
        scratch_run::kept(d0, s0, d1, s1, Set::<int>::empty()),
        sink::advanced(sink, d1, s1, out, d2, s2),
    ensures
        sink::advanced(sink, d0, s0, out, d2, s2),
{
    frame::lemma_kept_more(d0, s0, d1, s1, Set::<int>::empty(), sink.own());
    frame::lemma_grown_trans(d0, s0, d1, s1, sink.own(), sink.own(), out.own());
}

/// A sink that took rows, where blocks are given back that it has not.
pub proof fn lemma_advanced_given_back<R: Input, W: Output, F: RowOutput>(
    sink: RowSink<F>,
    d0: DiskClient<R, W>,
    s0: ScratchSpace,
    out: RowSink<F>,
    d1: DiskClient<R, W>,
    s1: ScratchSpace,
    s2: ScratchSpace,
    own: Set<int>,
)
    requires
        scratch_run::kept(d0, s0, d1, s1, sink.own()),
        sink::advanced(sink, d0, s0, out, d1, s1),
        scratch_run::kept(d1, s1, d1, s2, own),
        scratch_run::grown(sink.own(), s0, own),
        own.disjoint(out.own()),
        own.disjoint(out.held()),
    ensures
        scratch_run::kept(d0, s0, d1, s2, sink.own()),
        sink::advanced(sink, d0, s0, out, d1, s2),
        frame::trusty(d1, s2) ==> frame::trusty(d1, s1),
{
    frame::lemma_kept_trans(d0, s0, d1, s1, d1, s2, sink.own(), own);
    assert(out.own().disjoint(own));
    assert(out.held().disjoint(own));
    out.lemma_wf_kept(d1, s1, d1, s2, own);
}

/// A sink that took rows, where blocks are given back that were new.
pub proof fn lemma_advanced_released<R: Input, W: Output, F: RowOutput>(
    sink: RowSink<F>,
    d0: DiskClient<R, W>,
    s0: ScratchSpace,
    out: RowSink<F>,
    d1: DiskClient<R, W>,
    s1: ScratchSpace,
    s2: ScratchSpace,
    own: Set<int>,
)
    requires
        sink.wf(d0, s0),
        scratch_run::kept(d0, s0, d1, s1, sink.own()),
        sink::advanced(sink, d0, s0, out, d1, s1),
        scratch_run::kept(d1, s1, d1, s2, own),
        scratch_run::grown(Set::<int>::empty(), s0, own),
        own.disjoint(out.own()),
    ensures
        scratch_run::kept(d0, s0, d1, s2, sink.own()),
        sink::advanced(sink, d0, s0, out, d1, s2),
        frame::trusty(d1, s2) ==> frame::trusty(d1, s1),
{
    sink.lemma_own_in_use(d0, s0);
    frame::lemma_new_disjoint(sink.held(), s0, own);
    lemma_advanced_given_back(sink, d0, s0, out, d1, s1, s2, own);
}

/// Joins the rows of two runs.
#[verifier::spinoff_prover]
fn join_partition<R: Input, W: Output, F: RowOutput>(
    build_run: &ScratchRun,
    build_schema: &Schema,
    builds: Ghost<Seq<RowView>>,
    build_keys: &Vec<usize>,
    probe_run: &ScratchRun,
    probe_schema: &Schema,
    probes: Ghost<Seq<RowView>>,
    probe_keys: &Vec<usize>,
    compiled_cross: &Vec<CompiledPredicate>,
    disk: &mut DiskClient<R, W>,
    scratch: &mut ScratchSpace,
    memory_limit: usize,
    build_is_left: bool,
    depth: u32,
    sink: RowSink<F>,
) -> (r: Result<RowSink<F>, DbError>)
    requires
        old(scratch).wf(),
        pair_ready(
            *build_run,
            builds@,
            build_schema.types(),
            *probe_run,
            probes@,
            probe_schema.types(),
            sink,
            *old(disk),
            *old(scratch),
        ),
        sink.types() == sink::joined_types(
            build_schema.types(),
            probe_schema.types(),
            build_is_left,
        ),
        keys::keyed(
            row::as_ints(build_keys@),
            row::as_ints(probe_keys@),
            build_schema@.len(),
            probe_schema@.len(),
            build_is_left,
            executor::compiled_views(compiled_cross@),
        ),
    ensures
        scratch_run::kept(
            *old(disk),
            *old(scratch),
            *final(disk),
            *final(scratch),
            sink.own(),
        ),
        r matches Ok(out) ==> {
            &&& sink::advanced(
                sink,
                *old(disk),
                *old(scratch),
                out,
                *final(disk),
                *final(scratch),
            )
            &&& sink::settled(sink, *old(scratch), out, *final(scratch))
            &&& frame::trusty(*final(disk), *final(scratch)) ==> outcome::emitted_bag(
                sink.log(),
                out.log(),
                semantics::probe_bag(
                    builds@,
                    probes@,
                    build_is_left,
                    executor::compiled_views(compiled_cross@),
                ),
            )
        },
        r matches Err(e) ==> !scratch_run::able(*final(disk), *final(scratch))
            || outcome::join_excuses(
            builds@,
            probes@,
            build_is_left,
            executor::compiled_views(compiled_cross@),
            sink,
            e,
            old(scratch).size() as int,
        ),
    decreases hash::depths_left(depth), 1nat,
{
    let ghost (d0, s0) = (*disk, *scratch);
    let ghost start = sink;
    let ghost ps = executor::compiled_views(compiled_cross@);
    let hash_budget: usize = hash_build_budget(memory_limit);
    if build_run.block_ids().len() <= probe_run.block_ids().len() {
        let result = try_build_hash_run::<R, W, F>(
            build_run,
            build_schema,
            builds,
            build_keys,
            disk,
            scratch,
            hash_budget,
        );
        proof {
            lemma_ready_kept(
                *build_run,
                builds@,
                build_schema.types(),
                *probe_run,
                probes@,
                probe_schema.types(),
                start,
                d0,
                s0,
                *disk,
                *scratch,
            );
        }
        if let Some((rows, log)) = result? {
            let ghost (d1, s1) = (*disk, *scratch);
            let result = execute_probe_run_against_hash(
                probe_run,
                probe_schema,
                probes,
                probe_keys,
                rows,
                log,
                Ghost(row::as_ints(build_keys@)),
                compiled_cross,
                disk,
                scratch,
                build_is_left,
                sink,
            );
            proof {
                frame::lemma_kept_trans(
                    d0,
                    s0,
                    d1,
                    s1,
                    *disk,
                    *scratch,
                    start.own(),
                    start.own(),
                );
                if result is Ok {
                    let out = result->Ok_0;
                    lemma_advanced_later(start, d0, s0, d1, s1, out, *disk, *scratch);
                }
            }
            return result;
        }
    } else {
        let result = try_build_hash_run::<R, W, F>(
            probe_run,
            probe_schema,
            probes,
            probe_keys,
            disk,
            scratch,
            hash_budget,
        );
        proof {
            lemma_ready_kept(
                *build_run,
                builds@,
                build_schema.types(),
                *probe_run,
                probes@,
                probe_schema.types(),
                start,
                d0,
                s0,
                *disk,
                *scratch,
            );
        }
        if let Some((rows, log)) = result? {
            let ghost (d1, s1) = (*disk, *scratch);
            proof {
                keys::lemma_keyed_reverse(
                    row::as_ints(build_keys@),
                    row::as_ints(probe_keys@),
                    build_schema@.len(),
                    probe_schema@.len(),
                    build_is_left,
                    ps,
                );
            }
            let result = execute_probe_run_against_hash(
                build_run,
                build_schema,
                builds,
                build_keys,
                rows,
                log,
                Ghost(row::as_ints(probe_keys@)),
                compiled_cross,
                disk,
                scratch,
                !build_is_left,
                sink,
            );
            proof {
                frame::lemma_kept_trans(
                    d0,
                    s0,
                    d1,
                    s1,
                    *disk,
                    *scratch,
                    start.own(),
                    start.own(),
                );
                semantics::lemma_probe_bag(builds@, probes@, build_is_left, ps);
                semantics::lemma_probe_bag(probes@, builds@, !build_is_left, ps);
                semantics::lemma_probe_swapped(builds@, probes@, build_is_left, ps);
                bag::lemma_within_front(start.log(), start.log());
                bag::lemma_within_concat(
                    start.log(),
                    semantics::probe_rows(probes@, builds@, !build_is_left, ps),
                    start.log(),
                    semantics::probe_rows(builds@, probes@, build_is_left, ps),
                );
                if result is Ok {
                    let out = result->Ok_0;
                    lemma_advanced_later(start, d0, s0, d1, s1, out, *disk, *scratch);
                }
            }
            return result;
        }
    }
    let ghost (d1, s1) = (*disk, *scratch);
    let result = if depth < MAX_PARTITION_DEPTH {
        join_in_parts(
            build_run,
            build_schema,
            builds,
            build_keys,
            probe_run,
            probe_schema,
            probes,
            probe_keys,
            compiled_cross,
            disk,
            scratch,
            memory_limit,
            build_is_left,
            depth,
            sink,
        )
    } else {
        execute_nested_loop_join_on_runs(
            build_run,
            build_schema,
            builds,
            probe_run,
            probe_schema,
            probes,
            compiled_cross,
            disk,
            scratch,
            build_is_left,
            sink,
        )
    };
    proof {
        frame::lemma_kept_trans(d0, s0, d1, s1, *disk, *scratch, start.own(), start.own());
        if result is Ok {
            let out = result->Ok_0;
            lemma_advanced_later(start, d0, s0, d1, s1, out, *disk, *scratch);
        }
    }
    result
}

/// Joins the rows of two runs, each parted anew; where that parts neither, each
/// row with each.
#[verifier::spinoff_prover]
fn join_in_parts<R: Input, W: Output, F: RowOutput>(
    build_run: &ScratchRun,
    build_schema: &Schema,
    builds: Ghost<Seq<RowView>>,
    build_keys: &Vec<usize>,
    probe_run: &ScratchRun,
    probe_schema: &Schema,
    probes: Ghost<Seq<RowView>>,
    probe_keys: &Vec<usize>,
    compiled_cross: &Vec<CompiledPredicate>,
    disk: &mut DiskClient<R, W>,
    scratch: &mut ScratchSpace,
    memory_limit: usize,
    build_is_left: bool,
    depth: u32,
    sink: RowSink<F>,
) -> (r: Result<RowSink<F>, DbError>)
    requires
        old(scratch).wf(),
        depth < MAX_PARTITION_DEPTH,
        pair_ready(
            *build_run,
            builds@,
            build_schema.types(),
            *probe_run,
            probes@,
            probe_schema.types(),
            sink,
            *old(disk),
            *old(scratch),
        ),
        sink.types() == sink::joined_types(
            build_schema.types(),
            probe_schema.types(),
            build_is_left,
        ),
        keys::keyed(
            row::as_ints(build_keys@),
            row::as_ints(probe_keys@),
            build_schema@.len(),
            probe_schema@.len(),
            build_is_left,
            executor::compiled_views(compiled_cross@),
        ),
    ensures
        scratch_run::kept(
            *old(disk),
            *old(scratch),
            *final(disk),
            *final(scratch),
            sink.own(),
        ),
        r matches Ok(out) ==> {
            &&& sink::advanced(
                sink,
                *old(disk),
                *old(scratch),
                out,
                *final(disk),
                *final(scratch),
            )
            &&& sink::settled(sink, *old(scratch), out, *final(scratch))
            &&& frame::trusty(*final(disk), *final(scratch)) ==> outcome::emitted_bag(
                sink.log(),
                out.log(),
                semantics::probe_bag(
                    builds@,
                    probes@,
                    build_is_left,
                    executor::compiled_views(compiled_cross@),
                ),
            )
        },
        r matches Err(e) ==> !scratch_run::able(*final(disk), *final(scratch))
            || outcome::join_excuses(
            builds@,
            probes@,
            build_is_left,
            executor::compiled_views(compiled_cross@),
            sink,
            e,
            old(scratch).size() as int,
        ),
    decreases hash::depths_left(depth), 0nat,
{
    let ghost (d0, s0) = (*disk, *scratch);
    let ghost start = sink;
    let ghost none = Set::<int>::empty();
    let ghost ps = executor::compiled_views(compiled_cross@);
    let join_filter = JoinBloomFilter::new(join_filter_budget(memory_limit));
    let result = partition_run_rows::<R, W, F>(
        build_run,
        build_schema,
        builds,
        build_keys,
        disk,
        scratch,
        depth + 1,
        Some(join_filter),
        None,
    );
    proof {
        lemma_ready_kept(
                *build_run,
                builds@,
                build_schema.types(),
                *probe_run,
                probes@,
                probe_schema.types(),
                start,
                d0,
                s0,
                *disk,
                *scratch,
            );
    }
    let (next_build, filter, build_parts) = result?;
    let ghost (d1, s1) = (*disk, *scratch);
    let result = partition_run_rows::<R, W, F>(
        probe_run,
        probe_schema,
        probes,
        probe_keys,
        disk,
        scratch,
        depth + 1,
        None,
        filter,
    );
    let ghost (d2, s2) = (*disk, *scratch);
    proof {
        frame::lemma_kept_trans(d0, s0, d1, s1, d2, s2, none, none);
        lemma_ready_kept(
                *build_run,
                builds@,
                build_schema.types(),
                *probe_run,
                probes@,
                probe_schema.types(),
                start,
                d0,
                s0,
                *disk,
                *scratch,
            );
        next_build.lemma_keeps(d1, s1, d2, s2, none, build_parts@);
    }
    let (next_probe, _, probe_parts) = result?;
    let ghost own1 = next_build.own();
    let ghost own2 = next_probe.own();
    proof {
        frame::lemma_grown_trans(d0, s0, d1, s1, none, none, own2);
        frame::lemma_new_disjoint(own1, s1, own2);
        start.lemma_own_in_use(d0, s0);
        frame::lemma_new_disjoint(start.own(), s0, own1);
        frame::lemma_new_disjoint(start.own(), s0, own2);
        if frame::trusty(d2, s2) {
            lemma_parts_join(
                builds@,
                build_parts@,
                row::as_ints(build_keys@),
                build_schema.types(),
                probes@,
                probe_parts@,
                row::as_ints(probe_keys@),
                probe_schema.types(),
                depth + 1,
                filter->0,
                build_is_left,
                ps,
            );
        }
    }
    let parted: bool = next_build.non_empty_partitions > 1 || next_probe.non_empty_partitions > 1;
    if parted {
        let result = execute_partitioned_hash_join_from_runs(
            &next_build,
            build_parts,
            build_keys,
            &next_probe,
            probe_parts,
            probe_keys,
            compiled_cross,
            disk,
            scratch,
            memory_limit,
            build_is_left,
            depth + 1,
            sink,
        );
        let ghost (d3, s3) = (*disk, *scratch);
        proof {
            if result is Err && scratch_run::able(d3, s3) {
                let e = result->Err_0;
                let size = s0.size() as int;
                keys::lemma_parted_within(
                    build_parts@,
                    builds@,
                    keys::shown_picks(row::as_ints(build_keys@), depth + 1, |d: u64| true),
                );
                keys::lemma_parted_within(
                    probe_parts@,
                    probes@,
                    keys::shown_picks(
                        row::as_ints(probe_keys@),
                        depth + 1,
                        |d: u64| (filter->0).shows(d),
                    ),
                );
                let bs = hash::flat(build_parts@);
                let qs = hash::flat(probe_parts@);
                assert(outcome::join_excuses(bs, qs, build_is_left, ps, start, e, size));
                outcome::lemma_join_excuses_within(
                    bs,
                    qs,
                    builds@,
                    probes@,
                    build_is_left,
                    ps,
                    start,
                    e,
                    size,
                );
            }
            next_build.lemma_keeps(d2, s2, d3, s3, start.own(), build_parts@);
            next_probe.lemma_keeps(d2, s2, d3, s3, start.own(), probe_parts@);
            frame::lemma_kept_trans(d0, s0, d2, s2, d3, s3, start.own(), start.own());
        }
        next_build.release(disk, scratch);
        let ghost s4 = *scratch;
        proof {
            next_probe.lemma_keeps(d3, s3, d3, s4, own1, probe_parts@);
            frame::lemma_kept_trans(d0, s0, d3, s3, d3, s4, start.own(), own1);
        }
        next_probe.release(disk, scratch);
        proof {
            frame::lemma_kept_trans(d0, s0, d3, s4, d3, *scratch, start.own(), own2);
            if result is Ok {
                let out = result->Ok_0;
                lemma_advanced_later(start, d0, s0, d2, s2, out, d3, s3);
                frame::lemma_grown_apart(start.own(), s2, out.own(), own1);
                frame::lemma_grown_apart(start.own(), s2, out.own(), own2);
                lemma_advanced_released(start, d0, s0, out, d3, s3, s4, own1);
                lemma_advanced_released(start, d0, s0, out, d3, s4, *scratch, own2);
            }
        }
        return result;
    }
    next_build.release(disk, scratch);
    let ghost s3 = *scratch;
    proof {
        next_probe.lemma_keeps(d2, s2, d2, s3, own1, probe_parts@);
        frame::lemma_kept_trans(d0, s0, d2, s2, d2, s3, none, own1);
    }
    next_probe.release(disk, scratch);
    let ghost s4 = *scratch;
    proof {
        frame::lemma_kept_trans(d0, s0, d2, s3, d2, s4, none, own2);
        lemma_ready_kept(
                *build_run,
                builds@,
                build_schema.types(),
                *probe_run,
                probes@,
                probe_schema.types(),
                start,
                d0,
                s0,
                *disk,
                *scratch,
            );
    }
    let result = execute_nested_loop_join_on_runs(
        build_run,
        build_schema,
        builds,
        probe_run,
        probe_schema,
        probes,
        compiled_cross,
        disk,
        scratch,
        build_is_left,
        sink,
    );
    proof {
        frame::lemma_kept_trans(d0, s0, d2, s4, *disk, *scratch, start.own(), start.own());
        if result is Ok {
            let out = result->Ok_0;
            lemma_advanced_later(start, d0, s0, d2, s4, out, *disk, *scratch);
        }
    }
    result
}

/// A join is what its partitions make, where the digests of the build side were
/// put in the filter.
pub proof fn lemma_parts_join(
    builds: Seq<RowView>,
    build_parts: Seq<Seq<RowView>>,
    build_keys: Seq<int>,
    build_types: Seq<DataType>,
    probes: Seq<RowView>,
    probe_parts: Seq<Seq<RowView>>,
    probe_keys: Seq<int>,
    probe_types: Seq<DataType>,
    depth: int,
    filter: JoinBloomFilter,
    build_is_left: bool,
    ps: Seq<CompiledView>,
)
    requires
        filter.wf(),
        row_codec::all_conform(builds, build_types),
        row_codec::all_conform(probes, probe_types),
        keys::keyed(
            build_keys,
            probe_keys,
            build_types.len(),
            probe_types.len(),
            build_is_left,
            ps,
        ),
        keys::parted(build_parts, builds, keys::shown_picks(build_keys, depth, |d: u64| true)),
        keys::parted(
            probe_parts,
            probes,
            keys::shown_picks(probe_keys, depth, |d: u64| filter.shows(d)),
        ),
        keys::covers(builds, build_keys, |d: u64| filter.members().contains(d)),
    ensures
        keys::parts_bag(build_parts, probe_parts, PARTITION_FANOUT as int, build_is_left, ps)
            == semantics::probe_bag(builds, probes, build_is_left, ps),
{
    let shown = |d: u64| filter.shows(d);
    let has = |d: u64| filter.members().contains(d);
    keys::lemma_all_shown(build_parts, builds, build_keys, depth, |d: u64| true);
    filter.lemma_shows();
    assert forall|i: int| 0 <= i < builds.len() implies shown(
        hash::digest(#[trigger] builds[i], build_keys),
    ) by {
        assert(has(hash::digest(builds[i], build_keys)));
    }
    sink::lemma_conform_wide(builds, build_types);
    sink::lemma_conform_wide(probes, probe_types);
    keys::lemma_partitioned_join(
        builds,
        build_parts,
        build_keys,
        probes,
        probe_parts,
        probe_keys,
        build_types.len(),
        probe_types.len(),
        depth,
        shown,
        build_is_left,
        ps,
    );
}

/// Joins the rows of the partitions of two sides, each with its own.
#[verifier::spinoff_prover]
#[verifier::rlimit(40)]
pub fn execute_partitioned_hash_join_from_runs<R: Input, W: Output, F: RowOutput>(
    build_partitions: &PartitionedRuns,
    build_parts: Ghost<Seq<Seq<RowView>>>,
    build_keys: &Vec<usize>,
    probe_partitions: &PartitionedRuns,
    probe_parts: Ghost<Seq<Seq<RowView>>>,
    probe_keys: &Vec<usize>,
    compiled_cross: &Vec<CompiledPredicate>,
    disk: &mut DiskClient<R, W>,
    scratch: &mut ScratchSpace,
    memory_limit: usize,
    build_is_left: bool,
    depth: u32,
    sink: RowSink<F>,
) -> (r: Result<RowSink<F>, DbError>)
    requires
        old(scratch).wf(),
        sink.wf(*old(disk), *old(scratch)),
        build_partitions.keeps(*old(disk), *old(scratch), build_parts@),
        probe_partitions.keeps(*old(disk), *old(scratch), probe_parts@),
        build_partitions.own().disjoint(sink.own()),
        probe_partitions.own().disjoint(sink.own()),
        sink.types() == sink::joined_types(
            build_partitions.schema.types(),
            probe_partitions.schema.types(),
            build_is_left,
        ),
        keys::keyed(
            row::as_ints(build_keys@),
            row::as_ints(probe_keys@),
            build_partitions.schema@.len(),
            probe_partitions.schema@.len(),
            build_is_left,
            executor::compiled_views(compiled_cross@),
        ),
    ensures
        scratch_run::kept(
            *old(disk),
            *old(scratch),
            *final(disk),
            *final(scratch),
            sink.own(),
        ),
        r matches Ok(out) ==> {
            &&& sink::advanced(
                sink,
                *old(disk),
                *old(scratch),
                out,
                *final(disk),
                *final(scratch),
            )
            &&& sink::settled(sink, *old(scratch), out, *final(scratch))
            &&& frame::trusty(*final(disk), *final(scratch)) ==> outcome::emitted_bag(
                sink.log(),
                out.log(),
                keys::parts_bag(
                    build_parts@,
                    probe_parts@,
                    PARTITION_FANOUT as int,
                    build_is_left,
                    executor::compiled_views(compiled_cross@),
                ),
            )
        },
        r matches Err(e) ==> !scratch_run::able(*final(disk), *final(scratch))
            || outcome::join_excuses(
            hash::flat(build_parts@),
            hash::flat(probe_parts@),
            build_is_left,
            executor::compiled_views(compiled_cross@),
            sink,
            e,
            old(scratch).size() as int,
        ),
    decreases hash::depths_left(depth), 2nat,
{
    let ghost (d0, s0) = (*disk, *scratch);
    let ghost start = sink;
    let ghost ps = executor::compiled_views(compiled_cross@);
    let ghost bs = build_parts@;
    let ghost qs = probe_parts@;
    let ghost build_slots = partition::run_slots(build_partitions.runs@);
    let ghost probe_slots = partition::run_slots(probe_partitions.runs@);
    let ghost all = semantics::probe_rows(hash::flat(bs), hash::flat(qs), build_is_left, ps);
    let mut target = sink;
    let mut i: usize = 0;
    proof {
        feed::lemma_advanced_start(start, d0, s0);
        outcome::lemma_emitted(start.log(), Seq::<RowView>::empty());
        assert(start.log() + Seq::<RowView>::empty() =~= start.log());
        bag::lemma_bag_empty(Seq::<RowView>::empty());
        bag::lemma_within_front(start.log(), start.log() + all);
    }
    while i < PARTITION_FANOUT
        invariant
            i <= PARTITION_FANOUT,
            scratch.wf(),
            start == sink,
            d0 == *old(disk),
            s0 == *old(scratch),
            ps == executor::compiled_views(compiled_cross@),
            bs == build_parts@,
            qs == probe_parts@,
            build_slots == partition::run_slots(build_partitions.runs@),
            probe_slots == partition::run_slots(probe_partitions.runs@),
            start.wf(d0, s0),
            build_partitions.keeps(d0, s0, bs),
            probe_partitions.keeps(d0, s0, qs),
            build_partitions.own().disjoint(start.own()),
            probe_partitions.own().disjoint(start.own()),
            start.types() == sink::joined_types(
                build_partitions.schema.types(),
                probe_partitions.schema.types(),
                build_is_left,
            ),
            keys::keyed(
                row::as_ints(build_keys@),
                row::as_ints(probe_keys@),
                build_partitions.schema@.len(),
                probe_partitions.schema@.len(),
                build_is_left,
                ps,
            ),
            scratch_run::kept(d0, s0, *disk, *scratch, start.own()),
            sink::advanced(start, d0, s0, target, *disk, *scratch),
            sink::settled(start, s0, target, *scratch),
            frame::trusty(*disk, *scratch) ==> outcome::emitted_bag(
                start.log(),
                target.log(),
                keys::parts_bag(bs, qs, i as int, build_is_left, ps),
            ),
            all == semantics::probe_rows(hash::flat(bs), hash::flat(qs), build_is_left, ps),
            frame::trusty(*disk, *scratch) ==> bag::within(target.log(), start.log() + all),
        decreases PARTITION_FANOUT - i,
    {
        let build_run = &build_partitions.runs[i];
        let probe_run = &probe_partitions.runs[i];
        let ghost done = keys::parts_bag(bs, qs, i as int, build_is_left, ps);
        let ghost own = semantics::probe_bag(bs[i as int], qs[i as int], build_is_left, ps);
        proof {
            assert(partition::run_ok(
                build_partitions.runs@[i as int],
                bs[i as int],
                build_partitions.schema.types(),
                d0,
            ));
            assert(partition::run_ok(
                probe_partitions.runs@[i as int],
                qs[i as int],
                probe_partitions.schema.types(),
                d0,
            ));
        }
        if build_run.block_ids().len() == 0 || probe_run.block_ids().len() == 0 {
            proof {
                lemma_empty_join(bs[i as int], qs[i as int], build_is_left, ps);
                assert(done.add(own) =~= done);
            }
            i = i + 1;
            continue;
        }
        let ghost before = target;
        let ghost (d1, s1) = (*disk, *scratch);
        proof {
            assert(scratch_run::in_use(build_slots[i as int], s0));
            assert(scratch_run::in_use(probe_slots[i as int], s0));
            lemma_slot_disjoint(build_slots, i as int, start.own());
            lemma_slot_disjoint(probe_slots, i as int, start.own());
            partition::lemma_run_kept(
                *build_run,
                bs[i as int],
                build_partitions.schema.types(),
                d0,
                s0,
                d1,
                s1,
                start.own(),
            );
            partition::lemma_run_kept(
                *probe_run,
                qs[i as int],
                probe_partitions.schema.types(),
                d0,
                s0,
                d1,
                s1,
                start.own(),
            );
            frame::lemma_grown_apart(start.own(), s0, before.own(), build_slots[i as int]);
            frame::lemma_grown_apart(start.own(), s0, before.own(), probe_slots[i as int]);
            start.lemma_shape_types(before);
        }
        let result = join_partition(
            build_run,
            &build_partitions.schema,
            Ghost(bs[i as int]),
            build_keys,
            probe_run,
            &probe_partitions.schema,
            Ghost(qs[i as int]),
            probe_keys,
            compiled_cross,
            disk,
            scratch,
            memory_limit,
            build_is_left,
            depth,
            target,
        );
        let ghost part = semantics::probe_rows(bs[i as int], qs[i as int], build_is_left, ps);
        proof {
            frame::lemma_kept_trans(
                d0,
                s0,
                d1,
                s1,
                *disk,
                *scratch,
                start.own(),
                before.own(),
            );
            hash::lemma_flat_within(bs, i as int);
            hash::lemma_flat_within(qs, i as int);
            semantics::lemma_probe_within(
                bs[i as int],
                qs[i as int],
                hash::flat(bs),
                hash::flat(qs),
                build_is_left,
                ps,
            );
            if frame::trusty(*disk, *scratch) {
                lemma_more_within(before.log(), part, start.log(), all);
            }
            if result is Err && scratch_run::able(*disk, *scratch) {
                broadcast use scratch_run::lemma_oversized_within;

                let e = result->Err_0;
                let size = s0.size() as int;
                assert(outcome::join_excuses(
                    bs[i as int],
                    qs[i as int],
                    build_is_left,
                    ps,
                    before,
                    e,
                    size,
                ));
                if semantics::pairs_fail(bs[i as int], qs[i as int], build_is_left, ps, e) {
                    semantics::lemma_pairs_fail_within(
                        bs[i as int],
                        qs[i as int],
                        hash::flat(bs),
                        hash::flat(qs),
                        build_is_left,
                        ps,
                        e,
                    );
                }
                assert(outcome::join_excuses(
                    hash::flat(bs),
                    hash::flat(qs),
                    build_is_left,
                    ps,
                    start,
                    e,
                    size,
                ));
            }
        }
        target = result?;
        proof {
            frame::lemma_grown_trans(
                d0,
                s0,
                d1,
                s1,
                start.own(),
                before.own(),
                target.own(),
            );
            if frame::trusty(*disk, *scratch) {
                outcome::lemma_emitted_trans(start.log(), before.log(), target.log(), done, own);
                outcome::lemma_emitted_rows(before.log(), target.log(), own);
                let more = target.log().skip(before.log().len() as int);
                semantics::lemma_probe_rows_bag(bs[i as int], qs[i as int], build_is_left, ps);
                bag::lemma_within_bag(more, part);
                bag::lemma_within_trans(more, part, all);
                lemma_more_within(before.log(), more, start.log(), all);
            }
        }
        i = i + 1;
    }
    Ok(target)
}

/// More rows that are among some, behind others that are among them.
pub proof fn lemma_more_within(
    a: Seq<RowView>,
    more: Seq<RowView>,
    log: Seq<RowView>,
    all: Seq<RowView>,
)
    requires
        bag::within(a, log + all),
        bag::within(more, all),
    ensures
        bag::within(a + more, log + all),
{
    reveal(bag::within);
    assert forall|i: int| 0 <= i < (a + more).len() implies (log + all).contains(
        #[trigger] (a + more)[i],
    ) by {
        if i < a.len() {
            assert((log + all).contains(a[i]));
        } else {
            let x = more[i - a.len()];
            assert(all.contains(x));
            let k = choose|k: int| 0 <= k < all.len() && all[k] == x;
            assert((log + all)[log.len() + k] == x);
        }
    }
}

/// Where one side is empty nothing matches.
proof fn lemma_empty_join(
    builds: Seq<RowView>,
    probes: Seq<RowView>,
    build_is_left: bool,
    ps: Seq<CompiledView>,
)
    requires
        builds.len() == 0 || probes.len() == 0,
    ensures
        semantics::probe_bag(builds, probes, build_is_left, ps) == Multiset::<RowView>::empty(),
{
    if builds.len() == 0 {
        bag::lemma_sum_empty(
            probes,
            |p: RowView| semantics::match_bag(builds, p, build_is_left, ps),
        );
    }
}

/// Blocks that none of some sets have, one of the sets has not.
proof fn lemma_slot_disjoint(slots: Seq<Set<int>>, j: int, own: Set<int>)
    requires
        0 <= j < slots.len(),
        frame::union_all(slots).disjoint(own),
    ensures
        slots[j].disjoint(own),
{
    assert forall|b: int| !(#[trigger] slots[j].contains(b) && own.contains(b)) by {
        if slots[j].contains(b) {
            assert(frame::union_all(slots).contains(b));
        }
    }
}

} // verus!
