//! Running sorts.

use vstd::prelude::*;

use crate::bag;
use crate::catalog::db_context::DbContext;
use crate::catalog::table::ColumnView;
use crate::data;
use crate::data::Data;
use crate::error::DbError;
use crate::estimation;
use crate::estimation::{estimate_query_rows, estimated_schema_row_bytes};
use crate::executor;
use crate::executor::compact;
use crate::executor::compact::sort_rows;
use crate::executor::equality_join::product;
use crate::executor::execute_op;
use crate::executor::feed;
use crate::executor::feed::feed_rows;
use crate::executor::frame;
use crate::executor::hash;
use crate::executor::hash_build;
use crate::executor::hash_join;
use crate::executor::merge;
use crate::executor::merge::{emit_compact_rows, merge_runs};
use crate::executor::outcome;
use crate::executor::sink;
use crate::executor::sink::RowSink;
use crate::executor::sort_runs;
use crate::executor::sort_runs::{push_standard_row, SortCollector, SortedParts, SortedRuns};
use crate::executor::value;
use crate::executor::value::compare_values;
use crate::executor::{
    compile_sort_specs, effective_memory, max_of, min_of, CompiledSortSpec,
};
use crate::io::{Input, Output};
use crate::number::Order;
use crate::query;
use crate::query::{OpView, QueryOp, SortData};
use crate::query_support;
use crate::query_support::infer_schema;
use crate::row;
use crate::row::{Row, Schema};
use crate::scan_pipeline;
use crate::scan_pipeline::{try_compile_scan_pipeline, ScanPipelineCursor};
use crate::semantics;
use crate::semantics::{RowView, SortKey};
use crate::storage::block_allocator::ScratchSpace;
use crate::storage::disk_client::DiskClient;
use crate::storage::row_codec;
use crate::storage::scratch_run;
use crate::storage::scratch_run::RowOutput;

verus! {

broadcast use {
    sink::lemma_excuses_within,
    scratch_run::lemma_oversized_within,
};

/// A part of a number: so many of so many.
fn fraction(n: usize, times: usize, of: usize) -> (r: usize)
    requires
        times <= of,
        of > 0,
        times <= 16,
    ensures
        r == n as int * times as int / of as int,
        r <= n,
{
    assert(n * times <= 0xffff_ffff_ffff_ffff * 16) by (nonlinear_arith)
        requires
            0 <= n <= 0xffff_ffff_ffff_ffff,
            0 <= times <= 16,
    ;
    let part: u128 = (n as u128 * times as u128) / of as u128;
    assert(n * times / of as int <= n) by (nonlinear_arith)
        requires
            0 <= times <= of,
            of > 0,
            0 <= n,
    ;
    part as usize
}

/// Whether a cross product stands in an operator.
pub open spec fn has_cross(op: OpView) -> bool
    decreases op,
{
    match op {
        OpView::Scan(_) => false,
        OpView::Filter(_, u) => has_cross(*u),
        OpView::Project(_, u) => has_cross(*u),
        OpView::Sort(_, u) => has_cross(*u),
        OpView::Cross(_, _) => true,
    }
}

/// Whether a cross product stands in an operator.
fn contains_join_like(op: &QueryOp) -> (r: bool)
    ensures
        r == has_cross(op@),
    decreases *op,
{
    match op {
        QueryOp::Scan(_) => false,
        QueryOp::Filter(filter) => contains_join_like(&filter.underlying),
        QueryOp::Project(project) => contains_join_like(&project.underlying),
        QueryOp::Sort(sort) => contains_join_like(&sort.underlying),
        QueryOp::Cross(_) => true,
    }
}

/// The part of the working memory that a sort leaves for what runs below it.
pub open spec fn reserved(join_like: bool, row_width: int, effective: int) -> int {
    if join_like && row_width >= 512 {
        effective * 2 / 5
    } else if join_like || row_width >= 512 {
        effective / 4
    } else {
        effective / 8
    }
}

/// The part of the working memory that a sort leaves for what runs below it.
fn structural_memory_reserve(join_like: bool, row_width: usize, effective: usize) -> (r: usize)
    ensures
        r == reserved(join_like, row_width as int, effective as int),
        r <= effective,
{
    if join_like && row_width >= 512 {
        fraction(effective, 2, 5)
    } else if join_like || row_width >= 512 {
        effective / 4
    } else {
        effective / 8
    }
}

/// The working memory that a sort may use itself.
pub open spec fn left_for_sort(join_like: bool, width: int, limit: int) -> int {
    executor::working_memory(limit) - reserved(join_like, width, executor::working_memory(limit))
}

/// The memory that a run should take, by how all rows fit in what there is.
pub open spec fn run_target(width: int, total: int, available: int) -> int {
    let target = if total <= available {
        available
    } else if total <= available * 2 {
        available / 2
    } else {
        available / 3
    };
    if width >= 512 {
        executor::smaller(target, available / 4)
    } else if width >= 256 {
        executor::smaller(target, available / 3)
    } else {
        target
    }
}

/// The most memory that a run should take.
pub open spec fn run_limit(join_like: bool, width: int, available: int) -> int {
    if join_like {
        if width >= 512 {
            available / 3
        } else if width >= 256 {
            available * 2 / 5
        } else {
            available / 2
        }
    } else if width >= 512 {
        available / 2
    } else if width >= 256 {
        available * 2 / 3
    } else {
        available * 3 / 4
    }
}

/// The memory that a run may take before it is written: most of what is there
/// if everything is estimated to fit, and a part of it otherwise, less for wide
/// rows and joins.
pub open spec fn run_budget(join_like: bool, width: int, rows: int, limit: int) -> int {
    let available = left_for_sort(join_like, width, limit);
    if available == 0 {
        0x4_0000
    } else {
        let least = executor::larger(available / 8, 0x4_0000);
        let most = executor::smaller(
            executor::larger(run_limit(join_like, width, available), least),
            available,
        );
        executor::smaller(
            executor::larger(
                run_target(width, rows * width, available),
                executor::smaller(least, available),
            ),
            most,
        )
    }
}

/// The memory that stored rows of a sort may take: what there is but for a
/// margin.
pub open spec fn stored_budget(join_like: bool, width: int, limit: int) -> int {
    let available = left_for_sort(join_like, width, limit);
    if available == 0 {
        0x4_0000
    } else {
        let margin = executor::larger(available / 16, 0x1_0000);
        executor::larger(
            executor::larger(available - margin, 0),
            executor::smaller(executor::larger(available / 2, 0x4_0000), available),
        )
    }
}

/// The memory that a run may take before it is written.
fn sort_run_budget(
    op: &QueryOp,
    schema: &Schema,
    ctx: &DbContext,
    memory_limit: usize,
) -> (r: usize)
    ensures
        r == run_budget(
            has_cross(op@),
            estimation::row_bytes(schema.types()) as int,
            estimation::rows_estimate(op@, ctx.tables()),
            memory_limit as int,
        ),
{
    let effective: usize = effective_memory(memory_limit);
    let join_like: bool = contains_join_like(op);
    let row_width: usize = estimated_schema_row_bytes(schema);
    let reserve: usize = structural_memory_reserve(join_like, row_width, effective);
    let available: usize = effective - reserve;
    if available == 0 {
        return 256 * 1024;
    }
    let estimated_total: u128 = product(estimate_query_rows(op, ctx), row_width);
    let target: usize = if estimated_total <= available as u128 {
        available
    } else if estimated_total <= available as u128 * 2 {
        available / 2
    } else {
        available / 3
    };
    let target: usize = if row_width >= 512 {
        min_of(target, available / 4)
    } else if row_width >= 256 {
        min_of(target, available / 3)
    } else {
        target
    };
    let min_budget: usize = max_of(available / 8, 256 * 1024);
    let max_budget: usize = if join_like {
        if row_width >= 512 {
            available / 3
        } else if row_width >= 256 {
            fraction(available, 2, 5)
        } else {
            available / 2
        }
    } else if row_width >= 512 {
        available / 2
    } else if row_width >= 256 {
        fraction(available, 2, 3)
    } else {
        fraction(available, 3, 4)
    };
    let max_budget: usize = min_of(max_of(max_budget, min_budget), available);
    min_of(max_of(target, min_of(min_budget, available)), max_budget)
}

/// The memory that stored rows of a sort may take.
fn compact_sort_budget(op: &QueryOp, schema: &Schema, memory_limit: usize) -> (r: usize)
    ensures
        r == stored_budget(
            has_cross(op@),
            estimation::row_bytes(schema.types()) as int,
            memory_limit as int,
        ),
{
    let effective: usize = effective_memory(memory_limit);
    let join_like: bool = contains_join_like(op);
    let row_width: usize = estimated_schema_row_bytes(schema);
    let reserve: usize = structural_memory_reserve(join_like, row_width, effective);
    let available: usize = effective - reserve;
    if available == 0 {
        return 256 * 1024;
    }
    let guard_bytes: usize = max_of(available / 16, 64 * 1024);
    let floor_bytes: usize = max_of(available / 2, 256 * 1024);
    max_of(available.saturating_sub(guard_bytes), min_of(floor_bytes, available))
}

/// A copy of sort columns.
fn copy_specs(specs: &Vec<CompiledSortSpec>) -> (r: Vec<CompiledSortSpec>)
    ensures
        r@ == specs@,
{
    let mut out: Vec<CompiledSortSpec> = Vec::with_capacity(specs.len());
    let mut i: usize = 0;
    while i < specs.len()
        invariant
            i <= specs@.len(),
            out@ == specs@.take(i as int),
        decreases specs@.len() - i,
    {
        out.push(specs[i]);
        assert(specs@.take(i + 1) =~= specs@.take(i as int).push(specs@[i as int]));
        i = i + 1;
    }
    assert(specs@.take(i as int) =~= specs@);
    out
}

/// Rows in another order, behind the same.
proof fn lemma_behind_within(log: Seq<RowView>, a: Seq<RowView>, b: Seq<RowView>)
    requires
        bag::bag(a) == bag::bag(b),
    ensures
        bag::within(a, b),
        bag::within(log + a, log + b),
{
    bag::lemma_within_bag(a, b);
    bag::lemma_within_front(log, log);
    bag::lemma_within_concat(log, a, log, b);
}

/// Sends rows in memory and in runs to a sink, in order, and gives the runs
/// back.
#[verifier::spinoff_prover]
fn flush_segment<R: Input, W: Output, F: RowOutput>(
    rows: Vec<Row>,
    runs: SortedRuns,
    schema: &Schema,
    specs: &Vec<CompiledSortSpec>,
    sink: RowSink<F>,
    start: Ghost<RowSink<F>>,
    d0: Ghost<DiskClient<R, W>>,
    s0: Ghost<ScratchSpace>,
    disk: &mut DiskClient<R, W>,
    scratch: &mut ScratchSpace,
) -> (r: Result<RowSink<F>, DbError>)
    requires
        old(scratch).wf(),
        scratch_run::kept(d0@, s0@, *old(disk), *old(scratch), start@.own()),
        sink::advanced(start@, d0@, s0@, sink, *old(disk), *old(scratch)),
        start@.types() == schema.types(),
        runs.wf(schema.types(), executor::key_views(specs@), *old(disk), *old(scratch)),
        scratch_run::grown(start@.own(), s0@, runs.own()),
        runs.own().disjoint(sink.own()),
        runs.own().disjoint(sink.held()),
        row_codec::all_conform(row::row_views(rows@), schema.types()),
        compact::specs_below(specs@, schema@.len() as int),
    ensures
        scratch_run::kept(d0@, s0@, *final(disk), *final(scratch), start@.own()),
        frame::trusty(*final(disk), *final(scratch)) ==> frame::trusty(*old(disk), *old(scratch)),
        old(scratch).gave_up() ==> final(scratch).gave_up(),
        r matches Ok(out) ==> {
            &&& sink::advanced(start@, d0@, s0@, out, *final(disk), *final(scratch))
            &&& scratch_run::tidy(
                sink.own().union(runs.own()),
                *old(scratch),
                out.own(),
                *final(scratch),
            )
            &&& frame::trusty(*final(disk), *final(scratch)) ==> merge::emitted_sorted(
                sink.log(),
                out.log(),
                hash::flat(runs.groups@) + row::row_views(rows@),
                executor::key_views(specs@),
            )
        },
        r matches Err(e) ==> !scratch_run::able(*final(disk), *final(scratch)) || sink::too_large(
            e,
            hash::flat(runs.groups@) + row::row_views(rows@),
            s0@.size() as int,
        ) || start@.shape().excuses(
            e,
            s0@.size() as int,
            sink.log() + (hash::flat(runs.groups@) + row::row_views(rows@)),
        ),
{
    let ghost (d1, s1) = (*disk, *scratch);
    let ghost begin = start@;
    let ghost now = sink;
    let ghost types = schema.types();
    let ghost keys = executor::key_views(specs@);
    let ghost views = row::row_views(rows@);
    let ghost flat = hash::flat(runs.groups@);
    let mut rows = rows;
    let mut runs = runs;
    proof {
        begin.lemma_shape_types(now);
        now.lemma_own_in_use(d1, s1);
    }
    if runs.runs.len() == 0 {
        proof {
            assert(runs.groups@ =~= Seq::<Seq<RowView>>::empty());
            assert(flat + views =~= views);
            assert forall|i: int| 0 <= i < rows@.len() implies compact::specs_below(
                specs@,
                (#[trigger] rows@[i])@.len() as int,
            ) by {
                assert(data::conforms(views[i], types));
            }
        }
        sort_rows(&mut rows, specs);
        let ghost sorted = row::row_views(rows@);
        proof {
            hash_build::lemma_conform_bag(views, sorted, types);
            sort_runs::lemma_sorted_if(views, sorted, keys);
            assert(merge::sorted_rows(sorted, flat + views, keys));
            lemma_behind_within(now.log(), sorted, flat + views);
        }
        let result = feed_rows(rows, Ghost(types), sink, disk, scratch);
        proof {
            frame::lemma_kept_trans(
                d0@,
                s0@,
                d1,
                s1,
                *disk,
                *scratch,
                begin.own(),
                now.own(),
            );
        }
        let out = result?;
        proof {
            frame::lemma_grown_trans(d0@, s0@, d1, s1, begin.own(), now.own(), out.own());
        }
        return Ok(out);
    }
    let ghost own1 = runs.own();
    proof {
        reveal(bag::within);
        assert forall|i: int| 0 <= i < views.len() implies (flat + views).contains(
            #[trigger] views[i],
        ) by {
            assert((flat + views)[flat.len() + i] == views[i]);
        }
        assert(bag::within(views, flat + views));
    }
    if rows.len() > 0 {
        let result = runs.flush_run(&mut rows, schema, specs, disk, scratch);
        proof {
            frame::lemma_kept_trans(d0@, s0@, d1, s1, *disk, *scratch, begin.own(), own1);
        }
        result?;
        proof {
            frame::lemma_grown_trans(d0@, s0@, d1, s1, begin.own(), own1, runs.own());
            frame::lemma_grown_apart(own1, s1, runs.own(), now.own());
            frame::lemma_grown_apart(own1, s1, runs.own(), now.held());
            assert(now.own().disjoint(own1));
            assert(now.held().disjoint(own1));
            now.lemma_wf_kept(d1, s1, *disk, *scratch, own1);
        }
    } else {
        proof {
            assert(views =~= Seq::<RowView>::empty());
            assert(flat + views =~= flat);
        }
    }
    let ghost (d2, s2) = (*disk, *scratch);
    let ghost own2 = runs.own();
    let ghost all = hash::flat(runs.groups@);
    proof {
        lemma_behind_within(now.log(), all, flat + views);
    }
    let result = merge_runs(&runs, schema, specs, sink, disk, scratch);
    let ghost (d3, s3) = (*disk, *scratch);
    proof {
        frame::lemma_kept_trans(d0@, s0@, d2, s2, d3, s3, begin.own(), now.own());
        runs.lemma_wf_kept(types, keys, d2, s2, d3, s3, now.own());
        frame::lemma_kept_trans(
            d0@,
            s0@,
            d1,
            s1,
            d2,
            s2,
            begin.own(),
            own1,
        );
    }
    let out = result?;
    proof {
        frame::lemma_grown_trans(d0@, s0@, d2, s2, begin.own(), now.own(), out.own());
        now.lemma_own_in_use(d2, s2);
        frame::lemma_union_in_use(crate::executor::partition::run_slots(runs.runs@), s2);
        frame::lemma_grown_apart(now.own(), s2, out.own(), own2);
    }
    runs.release(disk, scratch);
    proof {
        hash_join::lemma_advanced_given_back(
            begin,
            d0@,
            s0@,
            out,
            d3,
            s3,
            *scratch,
            own2,
        );
        if frame::trusty(*disk, *scratch) {
            let sorted = choose|sorted: Seq<RowView>| #[trigger]
                merge::sorted_rows(sorted, all, keys) && out.log() == now.log() + sorted;
            assert(merge::sorted_rows(sorted, flat + views, keys));
        }
    }
    Ok(out)
}

/// Sends the rows that were collected for a sort to a sink, in order.
#[verifier::spinoff_prover]
fn emit_parts<R: Input, W: Output, F: RowOutput>(
    parts: SortedParts,
    schema: &Schema,
    specs: &Vec<CompiledSortSpec>,
    sink: RowSink<F>,
    d0: Ghost<DiskClient<R, W>>,
    s0: Ghost<ScratchSpace>,
    disk: &mut DiskClient<R, W>,
    scratch: &mut ScratchSpace,
) -> (r: Result<RowSink<F>, DbError>)
    requires
        old(scratch).wf(),
        s0@.wf(),
        sink.wf(d0@, s0@),
        scratch_run::kept(d0@, s0@, *old(disk), *old(scratch), Set::<int>::empty()),
        sink.types() == schema.types(),
        parts.wf(schema.types(), executor::key_views(specs@), *old(disk), *old(scratch)),
        scratch_run::grown(Set::<int>::empty(), s0@, parts.runs.own()),
        compact::specs_below(specs@, schema@.len() as int),
    ensures
        scratch_run::kept(d0@, s0@, *final(disk), *final(scratch), sink.own()),
        frame::trusty(*final(disk), *final(scratch)) ==> frame::trusty(*old(disk), *old(scratch)),
        old(scratch).gave_up() ==> final(scratch).gave_up(),
        r matches Ok(out) ==> {
            &&& sink::advanced(sink, d0@, s0@, out, *final(disk), *final(scratch))
            &&& scratch_run::tidy(
                sink.own().union(parts.runs.own()),
                *old(scratch),
                out.own(),
                *final(scratch),
            )
            &&& frame::trusty(*final(disk), *final(scratch)) ==> merge::emitted_sorted(
                sink.log(),
                out.log(),
                parts.all(),
                executor::key_views(specs@),
            )
        },
        r matches Err(e) ==> !scratch_run::able(*final(disk), *final(scratch)) || sink::too_large(
            e,
            parts.all(),
            s0@.size() as int,
        ) || sink.shape().excuses(
            e,
            s0@.size() as int,
            sink.log() + parts.all(),
        ),
{
    let ghost (d1, s1) = (*disk, *scratch);
    let ghost start = sink;
    let ghost none = Set::<int>::empty();
    let ghost types = schema.types();
    let ghost keys = executor::key_views(specs@);
    let ghost all = parts.all();
    let ghost flat = hash::flat(parts.runs.groups@);
    let ghost stored = sort_runs::compact_log(parts.compact);
    let ghost views = row::row_views(parts.rows@);
    let mut runs = parts.runs;
    let rows = parts.rows;
    let ghost own1 = runs.own();
    proof {
        frame::lemma_kept_more(d0@, s0@, d1, s1, none, start.own());
        start.lemma_own_in_use(d0@, s0@);
        start.lemma_wf_kept(d0@, s0@, d1, s1, none);
        frame::lemma_new_disjoint(start.own(), s0@, own1);
        frame::lemma_new_disjoint(start.held(), s0@, own1);
        start.lemma_own_in_use(d1, s1);
    }
    if let Some(state) = parts.compact {
        if runs.runs.len() == 0 && rows.len() == 0 {
            proof {
                assert(runs.groups@ =~= Seq::<Seq<RowView>>::empty());
                assert(all =~= stored);
            }
            let result = emit_compact_rows(state, schema, specs, sink, disk, scratch);
            proof {
                frame::lemma_kept_trans(
                    d0@,
                    s0@,
                    d1,
                    s1,
                    *disk,
                    *scratch,
                    start.own(),
                    start.own(),
                );
                if result is Ok {
                    hash_join::lemma_advanced_later(
                        start,
                        d0@,
                        s0@,
                        d1,
                        s1,
                        result->Ok_0,
                        *disk,
                        *scratch,
                    );
                }
            }
            return result;
        }
        if !state.is_empty() {
            proof {
                reveal(bag::within);
                assert forall|i: int| 0 <= i < stored.len() implies all.contains(
                    #[trigger] stored[i],
                ) by {
                    assert(all[flat.len() + i] == stored[i]);
                }
                assert(bag::within(stored, all));
            }
            let result = runs.flush_compact_run(state, schema, specs, disk, scratch);
            proof {
                frame::lemma_kept_trans(d0@, s0@, d1, s1, *disk, *scratch, none, own1);
                frame::lemma_kept_more(d0@, s0@, *disk, *scratch, none, start.own());
            }
            result?;
            proof {
                frame::lemma_grown_trans(d0@, s0@, d1, s1, none, own1, runs.own());
                frame::lemma_grown_apart(own1, s1, runs.own(), start.own());
                frame::lemma_grown_apart(own1, s1, runs.own(), start.held());
                start.lemma_wf_kept(d0@, s0@, *disk, *scratch, none);
                let more = hash::flat(runs.groups@);
                bag::lemma_bag_concat(more, views);
                bag::lemma_bag_concat(flat + stored, views);
            }
        } else {
            proof {
                assert(stored =~= Seq::<RowView>::empty());
                assert(flat + stored + views =~= flat + views);
            }
        }
    } else {
        proof {
            assert(stored =~= Seq::<RowView>::empty());
            assert(flat + stored + views =~= flat + views);
        }
    }
    let ghost (d2, s2) = (*disk, *scratch);
    let ghost left = hash::flat(runs.groups@) + views;
    proof {
        frame::lemma_kept_more(d0@, s0@, d2, s2, none, start.own());
        assert(sink::advanced(start, d0@, s0@, start, d2, s2));
        assert(scratch_run::grown(start.own(), s0@, runs.own()));
        lemma_behind_within(start.log(), left, all);
    }
    let result = flush_segment(
        rows,
        runs,
        schema,
        specs,
        sink,
        Ghost(start),
        d0,
        s0,
        disk,
        scratch,
    );
    proof {
        if result is Ok && frame::trusty(*disk, *scratch) {
            let out = result->Ok_0;
            let sorted = choose|sorted: Seq<RowView>| #[trigger]
                merge::sorted_rows(sorted, left, keys) && out.log() == start.log() + sorted;
            assert(merge::sorted_rows(sorted, all, keys));
        }
    }
    result
}

/// Runs a sort: over a table that is in order of the first sort column segment
/// by segment, and otherwise by sorted runs that are merged.
#[verifier::spinoff_prover]
pub fn execute_sort<R: Input, W: Output, F: RowOutput>(
    sort: &SortData,
    ctx: &DbContext,
    disk: &mut DiskClient<R, W>,
    scratch: &mut ScratchSpace,
    memory_limit: usize,
    sink: RowSink<F>,
) -> (r: Result<(Schema, RowSink<F>), DbError>)
    requires
        old(scratch).wf(),
        sink.wf(*old(disk), *old(scratch)),
        outcome::takes(sink, sort.op(), ctx.tables()),
    ensures
        scratch_run::kept(
            *old(disk),
            *old(scratch),
            *final(disk),
            *final(scratch),
            sink.own(),
        ),
        outcome::refused(
            sort.op(),
            ctx.tables(),
            r,
            *old(disk),
            *old(scratch),
            *final(disk),
            *final(scratch),
        ),
        r is Ok ==> outcome::read_whole(
            sort.op(),
            ctx.tables(),
            *old(disk),
            *final(disk),
            *final(scratch),
        ),
        r matches Ok((schema, out)) ==> outcome::ran(
            sort.op(),
            ctx.tables(),
            sink,
            *old(disk),
            *old(scratch),
            schema,
            out,
            *final(disk),
            *final(scratch),
        ),
        r matches Err(e) ==> outcome::excused(
            sort.op(),
            ctx.tables(),
            sink,
            *old(disk),
            *old(scratch),
            e,
            *final(disk),
            *final(scratch),
        ),
    decreases sort.op().size(), 3nat,
{
    let ghost (d0, s0) = (*disk, *scratch);
    let ghost start = sink;
    let ghost none = Set::<int>::empty();
    let ghost tables = ctx.tables();
    let ghost db = outcome::database_on(tables, d0);
    let ghost u = sort.underlying@;
    proof {
        frame::lemma_kept_refl(d0, s0, start.own());
        if outcome::table_of(u) is Some {
            outcome::lemma_schema_refused(u, tables);
        }
        outcome::lemma_schema_error(u, tables);
    }
    let schema = infer_schema(&sort.underlying, ctx)?;
    let specs = compile_sort_specs(&schema, &sort.sort_specs)?;
    let ghost keys = executor::key_views(specs@);
    let (done, sink) = try_execute_segmented_ordered_scan_sort(
        sort,
        ctx,
        disk,
        scratch,
        memory_limit,
        &schema,
        &specs,
        sink,
    )?;
    if done {
        return Ok((schema, sink));
    }
    let run_budget: usize = sort_run_budget(&sort.underlying, &schema, ctx, memory_limit);
    let compact_budget: usize = compact_sort_budget(&sort.underlying, &schema, memory_limit);
    let collector = SortCollector::new(
        schema.clone(),
        copy_specs(&specs),
        run_budget,
        compact_budget,
        disk,
        scratch,
    );
    let collecting: RowSink<F> = RowSink::Sort(collector);
    let ghost begun = collecting;
    assert(begun.own() == none);
    proof {
        let rows = semantics::rows_of(u, db);
        assert(Seq::<RowView>::empty() + rows =~= rows);
        assert(semantics::rows_of(sort.op(), db) == rows);
    }
    let result = execute_op(&sort.underlying, ctx, disk, scratch, memory_limit, collecting);
    let ghost (d1, s1) = (*disk, *scratch);
    proof {
        frame::lemma_kept_more(d0, s0, d1, s1, none, start.own());
    }
    let (_, out) = result?;
    match out {
        RowSink::Sort(done) => {
            let ghost log = done.log();
            let parts = done.finish(disk, scratch);
            let ghost all = parts.all();
            proof {
                if frame::trusty(d1, s1) && semantics::sound(u, db) {
                    let c = choose|c: Seq<RowView>| #[trigger]
                        semantics::delivers(u, db, c) && log == begun.log() + c;
                    assert(log =~= c);
                    lemma_behind_within(start.log(), all, semantics::rows_of(u, db));
                }
            }
            let out = emit_parts(
                parts,
                &schema,
                &specs,
                sink,
                Ghost(d0),
                Ghost(s0),
                disk,
                scratch,
            )?;
            proof {
                if frame::trusty(*disk, *scratch) && semantics::sound(u, db) {
                    let c = choose|c: Seq<RowView>| #[trigger]
                        semantics::delivers(u, db, c) && log == begun.log() + c;
                    assert(log =~= c);
                    let sorted = choose|sorted: Seq<RowView>| #[trigger]
                        merge::sorted_rows(sorted, all, keys) && out.log() == start.log()
                            + sorted;
                    lemma_sort_delivers(sort, db, sorted, keys);
                    assert(outcome::executed(sort.op(), db, start.log(), out.log()));
                }
            }
            Ok((schema, out))
        },
        _ => vstd::pervasive::unreached(),
    }
}

/// The rows of an operator in order are a right answer of its sort.
proof fn lemma_sort_delivers(
    sort: &SortData,
    db: semantics::Database,
    rows: Seq<RowView>,
    keys: Seq<SortKey>,
)
    requires
        keys == semantics::sort_keys(
            query_support::schema_of(sort.underlying@, db.tables)->Ok_0,
            query::sort_views(sort.sort_specs@),
        ),
        bag::bag(rows) == bag::bag(semantics::rows_of(sort.underlying@, db)),
        sort_runs::sorted_if(rows, keys),
    ensures
        semantics::delivers(sort.op(), db, rows),
{
    let below = semantics::rows_of(sort.underlying@, db);
    if semantics::comparable(below, keys) {
        sort_runs::lemma_comparable_bag(below, rows, keys);
    }
    assert(semantics::rows_of(sort.op(), db) == below);
}

/// The rows before a place are less than those from it on, by one column.
spec fn parted_at(rows: Seq<RowView>, column: int, m: int) -> bool {
    forall|i: int, j: int|
        0 <= i < m && m <= j < rows.len() ==> value::order(
            (#[trigger] rows[i])[column],
            (#[trigger] rows[j])[column],
        ) == Some(Order::Less)
}

/// Where a segment ends, all rows before its end are less than those behind it.
proof fn lemma_next_segment(
    rows: Seq<RowView>,
    column: int,
    m: int,
    c: int,
)
    requires
        semantics::ascending(rows, column),
        parted_at(rows, column, m),
        0 <= m < c < rows.len(),
        forall|i: int|
            m < i < c ==> value::order(rows[m][column], (#[trigger] rows[i])[column]) == Some(
                Order::Equal,
            ),
        value::order(rows[m][column], rows[c][column]) is Some,
        value::order(rows[m][column], rows[c][column]) != Some(Order::Equal),
    ensures
        parted_at(rows, column, c),
{
    let k = rows[m][column];
    assert(value::at_most(k, rows[c][column]));
    assert forall|i: int, j: int| 0 <= i < c && c <= j < rows.len() implies value::order(
        (#[trigger] rows[i])[column],
        (#[trigger] rows[j])[column],
    ) == Some(Order::Less) by {
        if i >= m {
            if j > c {
                assert(value::at_most(rows[c][column], rows[j][column]));
                value::lemma_order_transitive(k, rows[c][column], rows[j][column]);
            }
            if i > m {
                value::lemma_order_reverse(k, rows[i][column]);
                value::lemma_order_transitive(rows[i][column], k, rows[j][column]);
            }
        }
    }
}

/// A row before a place is not greater than one of a segment from it on.
proof fn lemma_parted_pair(
    rows: Seq<RowView>,
    keys: Seq<SortKey>,
    m: int,
    c: int,
    front: Seq<RowView>,
    segment: Seq<RowView>,
    i: int,
    j: int,
)
    requires
        keys.len() > 0,
        keys[0].ascending,
        0 <= m <= c <= rows.len(),
        parted_at(rows, keys[0].index, m),
        bag::bag(front) == bag::bag(rows.take(m)),
        bag::bag(segment) == bag::bag(rows.subrange(m, c)),
        0 <= i < front.len(),
        0 <= j < segment.len(),
    ensures
        !(semantics::row_order(front[i], segment[j], keys) is Greater),
{
    let part = rows.subrange(m, c);
    assert(front.contains(front[i]));
    let a = bag::lemma_same_bag_index(front, rows.take(m), front[i]);
    assert(segment.contains(segment[j]));
    let b = bag::lemma_same_bag_index(segment, part, segment[j]);
    assert(rows[a] == front[i]);
    assert(rows[m + b] == segment[j]);
    assert(value::order(rows[a][keys[0].index], rows[m + b][keys[0].index]) == Some(
        Order::Less,
    ));
}

/// Sorted rows behind sorted rows that are less are sorted.
#[verifier::spinoff_prover]
#[verifier::rlimit(30)]
proof fn lemma_append_segment(
    rows: Seq<RowView>,
    keys: Seq<SortKey>,
    m: int,
    c: int,
    front: Seq<RowView>,
    segment: Seq<RowView>,
)
    requires
        keys.len() > 0,
        keys[0].ascending,
        0 <= m <= c <= rows.len(),
        parted_at(rows, keys[0].index, m),
        bag::bag(front) == bag::bag(rows.take(m)),
        bag::bag(segment) == bag::bag(rows.subrange(m, c)),
        semantics::comparable(rows, keys) ==> semantics::sorted(front, keys),
        sort_runs::sorted_if(segment, keys),
    ensures
        bag::bag(front + segment) == bag::bag(rows.take(c)),
        semantics::comparable(rows, keys) ==> semantics::sorted(front + segment, keys),
{
    let part = rows.subrange(m, c);
    bag::lemma_bag_concat(front, segment);
    bag::lemma_bag_concat(rows.take(m), part);
    assert(rows.take(m) + part =~= rows.take(c));
    if semantics::comparable(rows, keys) {
        assert forall|i: int| 0 <= i < segment.len() implies rows.contains(
            #[trigger] segment[i],
        ) by {
            assert(segment.contains(segment[i]));
            let k = bag::lemma_same_bag_index(segment, part, segment[i]);
            assert(rows[m + k] == segment[i]);
        }
        semantics::lemma_comparable_part(rows, segment, keys);
        let all = front + segment;
        assert forall|i: int, j: int| 0 <= i < j < all.len() implies !(semantics::row_order(
            #[trigger] all[i],
            #[trigger] all[j],
            keys,
        ) is Greater) by {
            if j < front.len() {
                assert(all[i] == front[i] && all[j] == front[j]);
            } else if i >= front.len() {
                assert(all[i] == segment[i - front.len()]);
                assert(all[j] == segment[j - front.len()]);
            } else {
                lemma_parted_pair(rows, keys, m, c, front, segment, i, j - front.len());
            }
        }
    }
}

/// The rows of a segment, and those before it, are rows of the table.
proof fn lemma_segment_within(
    log: Seq<RowView>,
    rows: Seq<RowView>,
    m: int,
    c: int,
    front: Seq<RowView>,
    segment: Seq<RowView>,
)
    requires
        0 <= m <= c <= rows.len(),
        bag::bag(front) == bag::bag(rows.take(m)),
        bag::bag(segment) == bag::bag(rows.subrange(m, c)),
    ensures
        bag::within(segment, rows),
        bag::within((log + front) + segment, log + rows),
{
    let part = rows.subrange(m, c);
    bag::lemma_within_bag(front, rows.take(m));
    bag::lemma_within_front(rows.take(m), rows);
    bag::lemma_within_trans(front, rows.take(m), rows);
    bag::lemma_within_bag(segment, part);
    assert(bag::within(part, rows)) by {
        reveal(bag::within);
        assert forall|i: int| 0 <= i < part.len() implies rows.contains(#[trigger] part[i]) by {
            assert(rows[m + i] == part[i]);
        }
    }
    bag::lemma_within_trans(segment, part, rows);
    bag::lemma_within_front(log, log);
    bag::lemma_within_concat(log, front, log, rows);
    hash_join::lemma_more_within(log + front, segment, log, rows);
}

/// The rows of a segment in memory are rows of the table.
proof fn lemma_held_within(
    flat: Seq<RowView>,
    views: Seq<RowView>,
    rows: Seq<RowView>,
    m: int,
    c: int,
)
    requires
        0 <= m <= c <= rows.len(),
        bag::bag(flat + views) == bag::bag(rows.subrange(m, c)),
    ensures
        bag::within(views, rows),
{
    let segment = flat + views;
    bag::lemma_within_bag(segment, rows.subrange(m, c));
    reveal(bag::within);
    assert forall|i: int| 0 <= i < views.len() implies rows.contains(#[trigger] views[i]) by {
        assert(segment[flat.len() + i] == views[i]);
        let part = rows.subrange(m, c);
        assert(part.contains(segment[flat.len() + i]));
        let k = choose|k: int| 0 <= k < part.len() && part[k] == views[i];
        assert(rows[m + k] == views[i]);
    }
}

/// Runs a sort over a chain of operators on a table that is in order of the
/// first sort column: rows with the same value of that column are sorted
/// together, one segment behind the other.
#[verifier::spinoff_prover]
#[verifier::rlimit(40)]
fn try_execute_segmented_ordered_scan_sort<R: Input, W: Output, F: RowOutput>(
    sort: &SortData,
    ctx: &DbContext,
    disk: &mut DiskClient<R, W>,
    scratch: &mut ScratchSpace,
    memory_limit: usize,
    schema: &Schema,
    specs: &Vec<CompiledSortSpec>,
    sink: RowSink<F>,
) -> (r: Result<(bool, RowSink<F>), DbError>)
    requires
        old(scratch).wf(),
        sink.wf(*old(disk), *old(scratch)),
        query_support::schema_of(sort.underlying@, ctx.tables()) == Ok::<
            Seq<ColumnView>,
            DbError,
        >(schema@),
        sink.types() == schema.types(),
        semantics::sort_known(schema@, query::sort_views(sort.sort_specs@)),
        executor::key_views(specs@) == semantics::sort_keys(
            schema@,
            query::sort_views(sort.sort_specs@),
        ),
        compact::specs_below(specs@, schema@.len() as int),
    ensures
        scratch_run::kept(
            *old(disk),
            *old(scratch),
            *final(disk),
            *final(scratch),
            sink.own(),
        ),
        outcome::refusal(sort.op(), ctx.tables()) matches Some(e) ==> {
            &&& r matches Err(f) ==> f == e
            &&& *final(disk) == *old(disk)
            &&& *final(scratch) == *old(scratch)
        },
        r matches Ok((true, _)) ==> outcome::read_whole(
            sort.op(),
            ctx.tables(),
            *old(disk),
            *final(disk),
            *final(scratch),
        ),
        r matches Ok((true, out)) ==> outcome::ran(
            sort.op(),
            ctx.tables(),
            sink,
            *old(disk),
            *old(scratch),
            *schema,
            out,
            *final(disk),
            *final(scratch),
        ),
        r matches Ok((false, out)) ==> {
            &&& out == sink
            &&& *final(disk) == *old(disk)
            &&& *final(scratch) == *old(scratch)
        },
        specs@.len() == 0 || !specs@[0].ascending || !semantics::is_pipeline(sort.underlying@)
            ==> r == Ok::<(bool, RowSink<F>), DbError>((false, sink)),
        r matches Ok((done, _)) ==> done == (specs@.len() > 0 && specs@[0].ascending
            && semantics::is_pipeline(sort.underlying@) && scan_pipeline::output_ordered(
            sort.underlying@,
            ctx.tables(),
            specs@[0].index as int,
        )),
        r matches Err(e) ==> outcome::excused(
            sort.op(),
            ctx.tables(),
            sink,
            *old(disk),
            *old(scratch),
            e,
            *final(disk),
            *final(scratch),
        ),
{
    let ghost (d0, s0) = (*disk, *scratch);
    let ghost start = sink;
    let ghost tables = ctx.tables();
    let ghost db = outcome::database_on(tables, d0);
    let ghost u = sort.underlying@;
    let ghost keys = executor::key_views(specs@);
    proof {
        feed::lemma_advanced_start(start, d0, s0);
        if semantics::is_pipeline(u) {
            outcome::lemma_pipeline_refused(u, tables);
        }
    }
    if specs.len() == 0 || !specs[0].ascending {
        return Ok((false, sink));
    }
    let first: usize = specs[0].index;
    let plan = match try_compile_scan_pipeline(&sort.underlying, ctx)? {
        Some(plan) => plan,
        None => {
            return Ok((false, sink));
        },
    };
    if !plan.output_physically_ordered(first) {
        return Ok((false, sink));
    }
    let run_budget: usize = sort_run_budget(&sort.underlying, schema, ctx, memory_limit);
    let ghost p = plan;
    proof {
        let table = choose|table: int| p.plans(u, tables, table);
        assert forall|e: DbError| semantics::sound(u, db) && #[trigger] p.stops(
            db.layout,
            e,
        ) implies e == DbError::Incomparable && !semantics::op_answerable(u, db) by {
            p.lemma_unanswered(u, db, table, e);
        }
        if semantics::sound(u, db) {
            p.lemma_plans(u, db, table);
            p.lemma_ordered(u, db, table, first as int);
        }
    }
    let result = ScanPipelineCursor::new(plan, disk, memory_limit);
    let ghost d1 = *disk;
    proof {
        feed::lemma_advanced_read(start, d0, s0, start, d0, s0, d1);
        assert(keys[0] == specs@[0]@);
    }
    let cursor = result?;
    let result = sort_segments(
        cursor,
        schema,
        specs,
        run_budget,
        sink,
        Ghost(d0),
        Ghost(s0),
        disk,
        scratch,
    );
    let out = result?;
    proof {
        assert(outcome::legible(u, db) || !frame::trusty(*disk, *scratch)) by {
            let table = choose|table: int| p.plans(u, tables, table);
            p.lemma_plan(u, db, table);
            if p.legible(db.layout) {
                p.lemma_legible(u, db, table);
            }
        }
        outcome::lemma_pipeline_known(u, tables);
        if frame::trusty(*disk, *scratch) && semantics::sound(u, db) {
            let sorted = choose|sorted: Seq<RowView>| #[trigger]
                merge::sorted_rows(sorted, p.rows(d0.layout()), keys) && out.log() == start.log()
                    + sorted;
            lemma_sort_delivers(sort, db, sorted, keys);
            assert(outcome::executed(sort.op(), db, start.log(), out.log()));
        }
    }
    Ok((true, out))
}

/// Sorts the rows of a table that is in order of the first sort column, segment
/// by segment.
#[verifier::spinoff_prover]
#[verifier::rlimit(100)]
fn sort_segments<R: Input, W: Output, F: RowOutput>(
    cursor: ScanPipelineCursor,
    schema: &Schema,
    specs: &Vec<CompiledSortSpec>,
    run_budget: usize,
    sink: RowSink<F>,
    d0: Ghost<DiskClient<R, W>>,
    s0: Ghost<ScratchSpace>,
    disk: &mut DiskClient<R, W>,
    scratch: &mut ScratchSpace,
) -> (r: Result<RowSink<F>, DbError>)
    requires
        old(scratch).wf(),
        scratch_run::kept(d0@, s0@, *old(disk), *old(scratch), sink.own()),
        sink::advanced(sink, d0@, s0@, sink, *old(disk), *old(scratch)),
        cursor.wf(),
        cursor.emitted() == Seq::<RowView>::empty(),
        old(disk).honest() ==> cursor.in_step(d0@.layout()),
        old(disk).honest() ==> cursor.reading(d0@.layout()),
        cursor.plan().output() == schema@,
        sink.types() == schema.types(),
        specs@.len() > 0,
        specs@[0].ascending,
        compact::specs_below(specs@, schema@.len() as int),
    ensures
        scratch_run::kept(d0@, s0@, *final(disk), *final(scratch), sink.own()),
        r matches Ok(out) ==> {
            &&& sink::advanced(sink, d0@, s0@, out, *final(disk), *final(scratch))
            &&& sink::settled(sink, *old(scratch), out, *final(scratch))
            &&& frame::trusty(*final(disk), *final(scratch)) && cursor.plan().below(d0@.layout())
                ==> cursor.plan().legible(d0@.layout())
            &&& frame::trusty(*final(disk), *final(scratch)) && cursor.plan().file_ok(
                d0@.layout(),
            ) && semantics::ascending(
                cursor.plan().rows(d0@.layout()),
                specs@[0].index as int,
            ) ==> merge::emitted_sorted(
                sink.log(),
                out.log(),
                cursor.plan().rows(d0@.layout()),
                executor::key_views(specs@),
            )
        },
        cursor.plan().file_ok(d0@.layout()) && semantics::ascending(
            cursor.plan().rows(d0@.layout()),
            specs@[0].index as int,
        ) ==> (r matches Err(e) ==> !scratch_run::able(*final(disk), *final(scratch))
            || feed::can_stop(cursor, d0@.layout(), e) || sink::too_large(
            e,
            cursor.plan().rows(d0@.layout()),
            s0@.size() as int,
        ) || sink.shape().excuses(
            e,
            s0@.size() as int,
            sink.log() + cursor.plan().rows(d0@.layout()),
        )),
{
    let ghost start = sink;
    let ghost layout = d0@.layout();
    let ghost keys = executor::key_views(specs@);
    let ghost types = schema.types();
    let ghost plan = cursor.plan();
    let ghost rows = plan.rows(layout);
    let ghost column = specs@[0].index as int;
    let ghost good = plan.file_ok(layout) && semantics::ascending(rows, column);
    let first: usize = specs[0].index;
    let mut pass = cursor;
    let mut target = sink;
    let mut current_key: Option<Data> = None;
    let mut current_rows: Vec<Row> = Vec::new();
    let mut current_bytes: usize = 0;
    let mut runs = SortedRuns::new();
    let ghost mut front: Seq<RowView> = Seq::empty();
    let ghost mut m: int = 0;
    proof {
        assert(keys[0] == specs@[0]@);
        assert(start.log() + front =~= start.log());
        assert(row::row_views(current_rows@) =~= Seq::<RowView>::empty());
        assert(hash::flat(runs.groups@) + row::row_views(current_rows@)
            =~= Seq::<RowView>::empty());
        assert(rows.take(0) =~= Seq::<RowView>::empty());
        assert(rows.subrange(0, 0) =~= Seq::<RowView>::empty());
    }
    loop
        invariant
            layout == d0@.layout(),
            start == sink,
            keys == executor::key_views(specs@),
            keys.len() > 0,
            keys[0].ascending,
            keys[0].index == column,
            types == schema.types(),
            rows == plan.rows(layout),
            column == first,
            first == specs@[0].index,
            specs@.len() > 0,
            good == (plan.file_ok(layout) && semantics::ascending(rows, column)),
            plan == cursor.plan(),
            pass.plan() == plan,
            plan.output() == schema@,
            start.types() == types,
            compact::specs_below(specs@, schema@.len() as int),
            scratch.wf(),
            pass.wf(),
            scratch_run::kept(d0@, s0@, *disk, *scratch, start.own()),
            sink::advanced(start, d0@, s0@, target, *disk, *scratch),
            runs.wf(types, keys, *disk, *scratch),
            scratch_run::grown(start.own(), s0@, runs.own()),
            scratch_run::tidy(
                start.own(),
                *old(scratch),
                target.own().union(runs.own()),
                *scratch,
            ),
            runs.own().disjoint(target.own()),
            runs.own().disjoint(target.held()),
            row_codec::all_conform(row::row_views(current_rows@), types),
            frame::trusty(*disk, *scratch) && plan.below(layout) ==> pass.reading(layout),
            frame::trusty(*disk, *scratch) && good ==> {
                let c = pass.emitted().len() as int;
                &&& pass.in_step(layout)
                &&& 0 <= m <= c
                &&& target.log() == start.log() + front
                &&& bag::bag(front) == bag::bag(rows.take(m))
                &&& semantics::comparable(rows, keys) ==> semantics::sorted(front, keys)
                &&& bag::bag(hash::flat(runs.groups@) + row::row_views(current_rows@))
                    == bag::bag(rows.subrange(m, c))
                &&& parted_at(rows, column, m)
                &&& current_key is None <==> c == 0
                &&& current_key matches Some(k) ==> {
                    &&& m < c
                    &&& k@ == rows[m][column]
                    &&& forall|i: int|
                        m < i < c ==> value::order(
                            rows[m][column],
                            (#[trigger] rows[i])[column],
                        ) == Some(Order::Equal)
                }
            },
        decreases pass.blocks_left(), pass.rows_left(),
    {
        let ghost (d1, s1) = (*disk, *scratch);
        let ghost here = pass;
        let ghost c = pass.emitted().len() as int;
        let ghost own1 = runs.own();
        let result = pass.next_row(disk);
        let ghost d2 = *disk;
        proof {
            feed::lemma_advanced_read(start, d0@, s0@, target, d1, s1, d2);
            frame::lemma_kept_read(d1, s1, d2, Set::<int>::empty());
            runs.lemma_wf_kept(types, keys, d1, s1, d2, s1, Set::<int>::empty());
            if result is Err && scratch_run::able(d2, s1) && good {
                assert(feed::can_stop(cursor, layout, result->Err_0));
            }
        }
        match result? {
            None => {
                let ghost all = hash::flat(runs.groups@) + row::row_views(current_rows@);
                let ghost before = target.log();
                proof {
                    if frame::trusty(d2, s1) && good {
                        here.lemma_prefix(layout);
                        lemma_segment_within(start.log(), rows, m, c, front, all);
                    }
                }
                let out = flush_segment(
                    current_rows,
                    runs,
                    schema,
                    specs,
                    target,
                    Ghost(start),
                    d0,
                    s0,
                    disk,
                    scratch,
                )?;
                proof {
                    if frame::trusty(*disk, *scratch) && good {
                        let segment = choose|segment: Seq<RowView>| #[trigger]
                            merge::sorted_rows(segment, all, keys) && out.log() == before
                                + segment;
                        here.lemma_prefix(layout);
                        assert(rows.take(c) =~= rows);
                        lemma_append_segment(rows, keys, m, c, front, segment);
                        let sorted = front + segment;
                        sort_runs::lemma_sorted_if(rows, sorted, keys);
                        assert(merge::sorted_rows(sorted, rows, keys));
                        assert(out.log() =~= start.log() + sorted);
                    }
                }
                return Ok(out);
            },
            Some(row) => {
                let ghost view = row@;
                let key = row.values()[first].clone();
                proof {
                    if frame::trusty(d2, s1) && good {
                        pass.lemma_prefix(layout);
                        assert(pass.emitted()[c] == view);
                        assert(rows[c] == view);
                        if current_key is Some {
                            assert(value::at_most(rows[m][column], rows[c][column]));
                            assert(value::order((current_key->0)@, key@) is Some);
                        }
                    }
                }
                let same: bool = match &current_key {
                    Some(existing) => match compare_values(existing, &key)? {
                        Order::Equal => true,
                        _ => false,
                    },
                    None => false,
                };
                if !same {
                    let had: bool = current_key.is_some();
                    if had {
                        let ghost all = hash::flat(runs.groups@) + row::row_views(current_rows@);
                        let ghost before = target.log();
                        proof {
                            if frame::trusty(d2, s1) && good {
                                lemma_segment_within(start.log(), rows, m, c, front, all);
                            }
                        }
                        target = flush_segment(
                            current_rows,
                            runs,
                            schema,
                            specs,
                            target,
                            Ghost(start),
                            d0,
                            s0,
                            disk,
                            scratch,
                        )?;
                        current_rows = Vec::new();
                        current_bytes = 0;
                        runs = SortedRuns::new();
                        proof {
                            if frame::trusty(*disk, *scratch) && good {
                                let segment = choose|segment: Seq<RowView>| #[trigger]
                                    merge::sorted_rows(segment, all, keys) && target.log()
                                        == before + segment;
                                lemma_append_segment(rows, keys, m, c, front, segment);
                                lemma_next_segment(rows, column, m, c);
                                assert(start.log() + front + segment =~= start.log() + (front
                                    + segment));
                                front = front + segment;
                                assert(rows.subrange(c, c) =~= Seq::<RowView>::empty());
                            }
                            m = c;
                            assert(row::row_views(current_rows@) =~= Seq::<RowView>::empty());
                            assert(hash::flat(runs.groups@) + row::row_views(current_rows@)
                                =~= Seq::<RowView>::empty());
                        }
                    }
                    current_key = Some(key);
                }
                let ghost (d3, s3) = (*disk, *scratch);
                let ghost own3 = runs.own();
                let ghost held = hash::flat(runs.groups@) + row::row_views(current_rows@);
                proof {
                    target.lemma_own_in_use(d3, s3);
                    if frame::trusty(d3, s3) && good {
                        lemma_held_within(
                            hash::flat(runs.groups@),
                            row::row_views(current_rows@),
                            rows,
                            m,
                            c,
                        );
                    }
                }
                let result = push_standard_row(
                    row,
                    schema,
                    specs,
                    run_budget,
                    &mut current_rows,
                    &mut current_bytes,
                    &mut runs,
                    disk,
                    scratch,
                );
                proof {
                    frame::lemma_kept_trans(
                        d0@,
                        s0@,
                        d3,
                        s3,
                        *disk,
                        *scratch,
                        start.own(),
                        own3,
                    );
                }
                result?;
                proof {
                    frame::lemma_grown_trans(
                        d0@,
                        s0@,
                        d3,
                        s3,
                        start.own(),
                        own3,
                        runs.own(),
                    );
                    frame::lemma_grown_apart(own3, s3, runs.own(), target.own());
                    frame::lemma_grown_apart(own3, s3, runs.own(), target.held());
                    assert(target.own().disjoint(own3));
                    assert(target.held().disjoint(own3));
                    target.lemma_wf_kept(d3, s3, *disk, *scratch, own3);
                    if frame::trusty(*disk, *scratch) && good {
                        bag::lemma_bag_push(held, view);
                        bag::lemma_bag_push(rows.subrange(m, c), view);
                        assert(rows.subrange(m, c + 1) =~= rows.subrange(m, c).push(view));
                    }
                }
            },
        }
    }
}

} // verus!
