//! Sending rows into a sink.

use vstd::prelude::*;

use crate::bag;
use crate::data::DataType;
use crate::error::DbError;
use crate::executor::frame;
use crate::executor::sink;
use crate::executor::sink::RowSink;
use crate::io::{Input, Output};
use crate::row;
use crate::row::{Row, Schema};
use crate::scan_pipeline::{ScanPipelineCursor, ScanPipelinePlan};
use crate::semantics;
use crate::semantics::RowView;
use crate::storage::block_allocator::{ScratchRun, ScratchSpace};
use crate::storage::disk_client::{DiskClient, DiskLayout};
use crate::storage::row_codec;
use crate::storage::scratch_run;
use crate::storage::scratch_run::{RowOutput, ScratchRunCursor, SCRATCH_STREAM_BATCH_BLOCKS};

verus! {

broadcast use {
    sink::lemma_excuses_within,
};

/// Sends one row into a sink that has taken others.
pub fn push_further<R: Input, W: Output, F: RowOutput>(
    sink: &mut RowSink<F>,
    row: Row,
    start: Ghost<RowSink<F>>,
    d0: Ghost<DiskClient<R, W>>,
    s0: Ghost<ScratchSpace>,
    disk: &mut DiskClient<R, W>,
    scratch: &mut ScratchSpace,
) -> (r: Result<(), DbError>)
    requires
        old(scratch).wf(),
        scratch_run::kept(d0@, s0@, *old(disk), *old(scratch), start@.own()),
        sink::advanced(start@, d0@, s0@, *old(sink), *old(disk), *old(scratch)),
        crate::data::conforms(row@, start@.types()),
    ensures
        scratch_run::kept(d0@, s0@, *final(disk), *final(scratch), start@.own()),
        r is Ok ==> sink::advanced(start@, d0@, s0@, *final(sink), *final(disk), *final(scratch)),
        r is Ok ==> sink::settled(*old(sink), *old(scratch), *final(sink), *final(scratch)),
        old(sink).dry() ==> *final(scratch) == *old(scratch),
        r is Ok ==> final(sink).log() == old(sink).log().push(row@),
        frame::trusty(*final(disk), *final(scratch)) ==> frame::trusty(*old(disk), *old(scratch)),
        start@.shape().local() ==> *final(disk) == *old(disk) && *final(scratch) == *old(scratch),
        r matches Err(e) ==> !(start@.shape().local() || scratch_run::able(
            *final(disk),
            *final(scratch),
        )) || start@.shape().excuses(
            e,
            s0@.size() as int,
            old(sink).log().push(row@),
        ),
{
    let ghost (d1, s1) = (*disk, *scratch);
    let ghost before = *sink;
    proof {
        start@.lemma_shape_types(before);
    }
    let result = sink.push(row, disk, scratch);
    proof {
        frame::lemma_kept_trans(
            d0@,
            s0@,
            d1,
            s1,
            *disk,
            *scratch,
            start@.own(),
            before.own(),
        );
        if result is Ok {
            frame::lemma_grown_trans(
                d0@,
                s0@,
                d1,
                s1,
                start@.own(),
                before.own(),
                sink.own(),
            );
        }
    }
    result
}

/// A sink that has taken rows, behind a read.
pub proof fn lemma_advanced_read<R: Input, W: Output, F: RowOutput>(
    start: RowSink<F>,
    d0: DiskClient<R, W>,
    s0: ScratchSpace,
    now: RowSink<F>,
    d1: DiskClient<R, W>,
    s1: ScratchSpace,
    d2: DiskClient<R, W>,
)
    requires
        s1.wf(),
        scratch_run::kept(d0, s0, d1, s1, start.own()),
        sink::advanced(start, d0, s0, now, d1, s1),
        d2.unwritten_since(d1),
    ensures
        scratch_run::kept(d0, s0, d2, s1, start.own()),
        sink::advanced(start, d0, s0, now, d2, s1),
        frame::trusty(d2, s1) ==> frame::trusty(d1, s1),
{
    frame::lemma_kept_read(d1, s1, d2, Set::<int>::empty());
    frame::lemma_kept_trans(d0, s0, d1, s1, d2, s1, start.own(), Set::<int>::empty());
    now.lemma_wf_kept(d1, s1, d2, s1, Set::<int>::empty());
}

/// A sink that has taken nothing yet.
pub proof fn lemma_advanced_start<R: Input, W: Output, F: RowOutput>(
    start: RowSink<F>,
    disk: DiskClient<R, W>,
    scratch: ScratchSpace,
)
    requires
        scratch.wf(),
        start.wf(disk, scratch),
    ensures
        scratch_run::kept(disk, scratch, disk, scratch, start.own()),
        sink::advanced(start, disk, scratch, start, disk, scratch),
{
    frame::lemma_kept_refl(disk, scratch, start.own());
}

/// Sends the rows of a run into a sink.
pub fn feed_run<R: Input, W: Output, F: RowOutput>(
    run: &ScratchRun,
    schema: &Schema,
    rows: Ghost<Seq<RowView>>,
    sink: RowSink<F>,
    disk: &mut DiskClient<R, W>,
    scratch: &mut ScratchSpace,
) -> (r: Result<RowSink<F>, DbError>)
    requires
        sink.wf(*old(disk), *old(scratch)),
        old(scratch).wf(),
        sink.types() == schema.types(),
        scratch_run::in_use(scratch_run::ids_set(run@), *old(scratch)),
        scratch_run::ids_set(run@).disjoint(sink.own()),
        scratch_run::run_rows(old(disk).scratch(), run@, schema.types()) == Ok::<
            Seq<RowView>,
            DbError,
        >(rows@),
    ensures
        scratch_run::kept(
            *old(disk),
            *old(scratch),
            *final(disk),
            *final(scratch),
            sink.own(),
        ),
        sink.dry() ==> *final(scratch) == *old(scratch),
        r matches Ok(out) ==> {
            &&& sink::advanced(
                sink,
                *old(disk),
                *old(scratch),
                out,
                *final(disk),
                *final(scratch),
            )
            &&& sink::settled(sink, *old(scratch), out, *final(scratch))
            &&& frame::trusty(*final(disk), *final(scratch)) ==> out.log() == sink.log() + rows@
        },
        r matches Err(e) ==> !scratch_run::able(*final(disk), *final(scratch))
            || sink.shape().excuses(
            e,
            old(scratch).size() as int,
            sink.log() + rows@,
        ),
{
    let ghost (d0, s0) = (*disk, *scratch);
    let ghost start = sink;
    let ghost types = schema.types();
    let mut target = sink;
    let mut cursor = ScratchRunCursor::with_batch(run, SCRATCH_STREAM_BATCH_BLOCKS);
    proof {
        lemma_advanced_start(start, d0, s0);
        assert(cursor.rest(d0.scratch(), types) == Ok::<Seq<RowView>, DbError>(rows@));
    }
    loop
        invariant
            types == schema.types(),
            start.types() == types,
            cursor.wf(types),
            cursor.ids() == run@,
            cursor.batch() == SCRATCH_STREAM_BATCH_BLOCKS,
            scratch_run::in_use(scratch_run::ids_set(run@), s0),
            scratch_run::ids_set(run@).disjoint(start.own()),
            scratch.wf(),
            scratch_run::kept(d0, s0, *disk, *scratch, start.own()),
            sink::advanced(start, d0, s0, target, *disk, *scratch),
            sink::settled(start, s0, target, *scratch),
            start.dry() ==> *scratch == s0,
            frame::trusty(*disk, *scratch) ==> (cursor.rest(d0.scratch(), types) matches Ok(rest)
                && target.log() + rest == start.log() + rows@),
            d0 == *old(disk),
            start == sink,
            s0 == *old(scratch),
        decreases cursor.blocks_left(), cursor.held(),
    {
        let ghost (d1, s1) = (*disk, *scratch);
        let ghost before = target;
        let ghost old_cursor = cursor;
        proof {
            sink::lemma_run_still(run@, d0, s0, d1, s1, start.own());
            cursor.lemma_rest_same(d0.scratch(), d1.scratch(), types);
        }
        let result = cursor.next_row(schema, disk);
        let ghost d2 = *disk;
        proof {
            lemma_advanced_read(start, d0, s0, target, d1, s1, d2);
        }
        match result? {
            Some(row) => {
                proof {
                    if frame::trusty(d2, s1) {
                        cursor.lemma_rest_same(d0.scratch(), d1.scratch(), types);
                        let rest = old_cursor.rest(d0.scratch(), types)->Ok_0;
                        let tail = cursor.rest(d1.scratch(), types)->Ok_0;
                        assert(rest == seq![row@] + tail);
                        assert(rest[0] == row@);
                        assert(before.log() + (seq![row@] + tail) =~= before.log().push(row@)
                            + tail);
                        bag::lemma_within_front(before.log().push(row@), start.log() + rows@);
                    }
                }
                push_further(
                    &mut target,
                    row,
                    Ghost(start),
                    Ghost(d0),
                    Ghost(s0),
                    disk,
                    scratch,
                )?;
                proof {
                    if frame::trusty(*disk, *scratch) {
                        cursor.lemma_rest_same(d0.scratch(), d1.scratch(), types);
                        let rest = old_cursor.rest(d0.scratch(), types)->Ok_0;
                        let tail = cursor.rest(d1.scratch(), types)->Ok_0;
                        assert(rest == seq![row@] + tail);
                        assert(before.log() + (seq![row@] + tail) =~= before.log().push(row@)
                            + tail);
                    }
                }
            },
            None => {
                proof {
                    assert(target.log() + Seq::<RowView>::empty() =~= target.log());
                }
                return Ok(target);
            },
        }
    }
}

/// Sends rows in memory into a sink.
pub fn feed_rows<R: Input, W: Output, F: RowOutput>(
    rows: Vec<Row>,
    types: Ghost<Seq<DataType>>,
    sink: RowSink<F>,
    disk: &mut DiskClient<R, W>,
    scratch: &mut ScratchSpace,
) -> (r: Result<RowSink<F>, DbError>)
    requires
        sink.wf(*old(disk), *old(scratch)),
        old(scratch).wf(),
        sink.types() == types@,
        row_codec::all_conform(row::row_views(rows@), types@),
    ensures
        scratch_run::kept(
            *old(disk),
            *old(scratch),
            *final(disk),
            *final(scratch),
            sink.own(),
        ),
        r matches Ok(out) ==> {
            &&& sink::advanced(
                sink,
                *old(disk),
                *old(scratch),
                out,
                *final(disk),
                *final(scratch),
            )
            &&& sink::settled(sink, *old(scratch), out, *final(scratch))
            &&& out.log() == sink.log() + row::row_views(rows@)
        },
        sink.shape().local() ==> *final(disk) == *old(disk) && *final(scratch) == *old(scratch),
        r matches Err(e) ==> !(sink.shape().local() || scratch_run::able(
            *final(disk),
            *final(scratch),
        )) || sink.shape().excuses(
            e,
            old(scratch).size() as int,
            sink.log() + row::row_views(rows@),
        ),
{
    let ghost (d0, s0) = (*disk, *scratch);
    let ghost start = sink;
    let ghost views = row::row_views(rows@);
    let mut target = sink;
    proof {
        lemma_advanced_start(start, d0, s0);
        assert(start.log() + views.take(0) =~= start.log());
    }
    for row in it: rows
        invariant
            it.seq() == rows@,
            views == row::row_views(rows@),
            row_codec::all_conform(views, types@),
            start.types() == types@,
            scratch.wf(),
            scratch_run::kept(d0, s0, *disk, *scratch, start.own()),
            sink::advanced(start, d0, s0, target, *disk, *scratch),
            sink::settled(start, s0, target, *scratch),
            start.shape().local() ==> *disk == d0 && *scratch == s0,
            target.log() == start.log() + views.take(it.index() as int),
            d0 == *old(disk),
            start == sink,
            s0 == *old(scratch),
    {
        let ghost i = it.index() as int;
        proof {
            assert(views[i] == row@);
            assert(crate::data::conforms(views[i], types@));
            assert((start.log() + views.take(i)).push(row@) =~= start.log() + views.take(i + 1));
            bag::lemma_within_front(target.log().push(row@), start.log() + views);
        }
        push_further(&mut target, row, Ghost(start), Ghost(d0), Ghost(s0), disk, scratch)?;
    }
    assert(views.take(views.len() as int) =~= views);
    Ok(target)
}

/// The predicates of the pass fail with the error on some row of the table.
pub open spec fn can_stop(cursor: ScanPipelineCursor, layout: DiskLayout, e: DbError) -> bool {
    cursor.plan().stops(layout, e)
}

/// Sends the rows of a plan into a sink.
pub fn execute_scan_pipeline<R: Input, W: Output, F: RowOutput>(
    plan: ScanPipelinePlan,
    disk: &mut DiskClient<R, W>,
    scratch: &mut ScratchSpace,
    memory_limit: usize,
    sink: RowSink<F>,
) -> (r: Result<RowSink<F>, DbError>)
    requires
        plan.wf(),
        sink.wf(*old(disk), *old(scratch)),
        old(scratch).wf(),
        sink.types() == row::types_of(plan.output()),
    ensures
        scratch_run::kept(
            *old(disk),
            *old(scratch),
            *final(disk),
            *final(scratch),
            sink.own(),
        ),
        sink.dry() ==> *final(scratch) == *old(scratch),
        r matches Ok(out) ==> {
            &&& sink::advanced(
                sink,
                *old(disk),
                *old(scratch),
                out,
                *final(disk),
                *final(scratch),
            )
            &&& sink::settled(sink, *old(scratch), out, *final(scratch))
            &&& frame::trusty(*final(disk), *final(scratch)) && plan.file_ok(old(disk).layout())
                ==> out.log() == sink.log() + plan.rows(old(disk).layout())
            &&& frame::trusty(*final(disk), *final(scratch)) && plan.below(old(disk).layout())
                ==> plan.legible(old(disk).layout())
        },
        plan.file_ok(old(disk).layout()) ==> (r matches Err(e) ==> !scratch_run::able(
            *final(disk),
            *final(scratch),
        ) || plan.stops(old(disk).layout(), e) || sink.shape().excuses(
            e,
            old(scratch).size() as int,
            sink.log() + plan.rows(old(disk).layout()),
        )),
{
    let ghost (d0, s0) = (*disk, *scratch);
    let ghost start = sink;
    let ghost layout = disk.layout();
    let mut target = sink;
    proof {
        lemma_advanced_start(start, d0, s0);
    }
    let result = ScanPipelineCursor::new(plan, disk, memory_limit);
    proof {
        lemma_advanced_read(start, d0, s0, start, d0, s0, *disk);
    }
    let mut cursor = result?;
    proof {
        assert(start.log() + Seq::<RowView>::empty() =~= start.log());
    }
    loop
        invariant
            cursor.wf(),
            cursor.plan() == plan,
            start.types() == row::types_of(plan.output()),
            scratch.wf(),
            disk.layout() == layout,
            layout == d0.layout(),
            scratch_run::kept(d0, s0, *disk, *scratch, start.own()),
            sink::advanced(start, d0, s0, target, *disk, *scratch),
            sink::settled(start, s0, target, *scratch),
            start.dry() ==> *scratch == s0,
            frame::trusty(*disk, *scratch) && plan.file_ok(layout) ==> {
                &&& cursor.in_step(layout)
                &&& target.log() == start.log() + cursor.emitted()
            },
            frame::trusty(*disk, *scratch) && plan.below(layout) ==> cursor.reading(layout),
            d0 == *old(disk),
            start == sink,
            s0 == *old(scratch),
        decreases cursor.blocks_left(), cursor.rows_left(),
    {
        let ghost (d1, s1) = (*disk, *scratch);
        let ghost before = cursor;
        let result = cursor.next_row(disk);
        proof {
            lemma_advanced_read(start, d0, s0, target, d1, s1, *disk);
        }
        match result? {
            Some(row) => {
                proof {
                    if frame::trusty(*disk, s1) && plan.file_ok(layout) {
                        cursor.lemma_prefix(layout);
                        let n = before.emitted().len() as int;
                        assert(cursor.emitted()[n] == row@);
                        assert(plan.rows(layout)[n] == row@);
                        assert((start.log() + before.emitted()).push(row@) =~= start.log()
                            + cursor.emitted());
                        bag::lemma_within_front(
                            target.log().push(row@),
                            start.log() + plan.rows(layout),
                        );
                    }
                }
                push_further(
                    &mut target,
                    row,
                    Ghost(start),
                    Ghost(d0),
                    Ghost(s0),
                    disk,
                    scratch,
                )?;
                proof {
                    assert((start.log() + before.emitted()).push(row@) =~= start.log()
                        + before.emitted().push(row@));
                }
            },
            None => {
                return Ok(target);
            },
        }
    }
}

} // verus!
