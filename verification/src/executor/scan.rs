//! Running scans.

use vstd::prelude::*;

use crate::catalog::db_context::DbContext;
use crate::error::DbError;
use crate::executor::feed::execute_scan_pipeline;
use crate::executor::frame;
use crate::executor::outcome;
use crate::executor::sink;
use crate::executor::sink::RowSink;
use crate::io::{Input, Output};
use crate::query;
use crate::query::{clone_map, OpView, ProjectData, QueryOp, ScanData};
use crate::row::Schema;
use crate::scan_pipeline::try_compile_scan_pipeline;
use crate::semantics;
use crate::storage::block_allocator::ScratchSpace;
use crate::storage::disk_client::DiskClient;
use crate::storage::scratch_run;
use crate::storage::scratch_run::RowOutput;

verus! {

/// What became of an attempt to run an operator in one way: it was run, or
/// nothing was done and the sink is handed back.
pub enum Tried<F: RowOutput> {
    Done(Schema, RowSink<F>),
    Not(RowSink<F>),
}

/// Runs an operator in one pass over a table, if it is a chain of operators on
/// one.
pub fn try_execute_scan_pipeline_op<R: Input, W: Output, F: RowOutput>(
    op: &QueryOp,
    ctx: &DbContext,
    disk: &mut DiskClient<R, W>,
    scratch: &mut ScratchSpace,
    memory_limit: usize,
    sink: RowSink<F>,
) -> (r: Result<Tried<F>, DbError>)
    requires
        old(scratch).wf(),
        sink.wf(*old(disk), *old(scratch)),
        outcome::takes(sink, op@, ctx.tables()),
    ensures
        scratch_run::kept(
            *old(disk),
            *old(scratch),
            *final(disk),
            *final(scratch),
            sink.own(),
        ),
        r is Err ==> semantics::is_pipeline(op@),
        semantics::is_pipeline(op@) ==> outcome::refused(
            op@,
            ctx.tables(),
            r,
            *old(disk),
            *old(scratch),
            *final(disk),
            *final(scratch),
        ),
        semantics::is_pipeline(op@) && sink.dry() ==> *final(scratch) == *old(scratch),
        r matches Ok(Tried::Done(_, _)) ==> outcome::read_whole(
            op@,
            ctx.tables(),
            *old(disk),
            *final(disk),
            *final(scratch),
        ),
        r matches Ok(Tried::Done(schema, out)) ==> outcome::ran(
            op@,
            ctx.tables(),
            sink,
            *old(disk),
            *old(scratch),
            schema,
            out,
            *final(disk),
            *final(scratch),
        ),
        r matches Ok(Tried::Not(unused)) ==> {
            &&& unused == sink
            &&& *final(disk) == *old(disk)
            &&& *final(scratch) == *old(scratch)
            &&& !semantics::is_pipeline(op@)
        },
        r matches Err(e) ==> outcome::excused(
            op@,
            ctx.tables(),
            sink,
            *old(disk),
            *old(scratch),
            e,
            *final(disk),
            *final(scratch),
        ),
{
    let ghost (d0, s0) = (*disk, *scratch);
    let ghost start = sink;
    let ghost tables = ctx.tables();
    proof {
        frame::lemma_kept_refl(d0, s0, sink.own());
        if semantics::is_pipeline(op@) {
            outcome::lemma_pipeline_refused(op@, tables);
        }
    }
    match try_compile_scan_pipeline(op, ctx)? {
        None => Ok(Tried::Not(sink)),
        Some(plan) => {
            let schema = plan.schema().clone();
            proof {
                let db = outcome::database_on(tables, d0);
                let table = choose|table: int| plan.plans(op@, tables, table);
                if semantics::sound(op@, db) {
                    plan.lemma_plans(op@, db, table);
                }
            }
            let ghost used = plan;
            let result = execute_scan_pipeline(plan, disk, scratch, memory_limit, sink);
            proof {
                let db = outcome::database_on(tables, d0);
                let table = choose|table: int| used.plans(op@, tables, table);
                if result is Err && semantics::sound(op@, db) && used.stops(
                    db.layout,
                    result->Err_0,
                ) {
                    used.lemma_unanswered(op@, db, table, result->Err_0);
                }
                if result is Ok && used.legible(db.layout) {
                    used.lemma_legible(op@, db, table);
                }
                used.lemma_plan(op@, db, table);
            }
            let out = result?;
            proof {
                outcome::lemma_pipeline_known(op@, tables);
                let db = outcome::database_on(tables, d0);
                if frame::trusty(*disk, *scratch) && semantics::sound(op@, db) {
                    outcome::lemma_pipeline_delivers(op@, db);
                    assert(outcome::executed(op@, db, start.log(), out.log()));
                }
            }
            Ok(Tried::Done(schema, out))
        },
    }
}

/// Runs a scan: the rows of the table, in their order on the device.
pub fn execute_scan<R: Input, W: Output, F: RowOutput>(
    scan: &ScanData,
    ctx: &DbContext,
    disk: &mut DiskClient<R, W>,
    scratch: &mut ScratchSpace,
    memory_limit: usize,
    sink: RowSink<F>,
) -> (r: Result<(Schema, RowSink<F>), DbError>)
    requires
        old(scratch).wf(),
        sink.wf(*old(disk), *old(scratch)),
        outcome::takes(sink, scan.op(), ctx.tables()),
    ensures
        scratch_run::kept(
            *old(disk),
            *old(scratch),
            *final(disk),
            *final(scratch),
            sink.own(),
        ),
        outcome::refused(
            scan.op(),
            ctx.tables(),
            r,
            *old(disk),
            *old(scratch),
            *final(disk),
            *final(scratch),
        ),
        semantics::is_pipeline(scan.op()) && sink.dry() ==> *final(scratch) == *old(scratch),
        r is Ok ==> outcome::read_whole(
            scan.op(),
            ctx.tables(),
            *old(disk),
            *final(disk),
            *final(scratch),
        ),
        r matches Ok((schema, out)) ==> outcome::ran(
            scan.op(),
            ctx.tables(),
            sink,
            *old(disk),
            *old(scratch),
            schema,
            out,
            *final(disk),
            *final(scratch),
        ),
        r matches Err(e) ==> outcome::excused(
            scan.op(),
            ctx.tables(),
            sink,
            *old(disk),
            *old(scratch),
            e,
            *final(disk),
            *final(scratch),
        ),
{
    let op = QueryOp::Scan(ScanData { table_id: scan.table_id.clone() });
    match try_execute_scan_pipeline_op(&op, ctx, disk, scratch, memory_limit, sink)? {
        Tried::Done(schema, out) => Ok((schema, out)),
        Tried::Not(_) => vstd::pervasive::unreached(),
    }
}

/// Runs a scan with columns picked.
pub fn execute_scan_project<R: Input, W: Output, F: RowOutput>(
    scan: &ScanData,
    column_name_map: &Vec<(String, String)>,
    ctx: &DbContext,
    disk: &mut DiskClient<R, W>,
    scratch: &mut ScratchSpace,
    memory_limit: usize,
    sink: RowSink<F>,
) -> (r: Result<(Schema, RowSink<F>), DbError>)
    requires
        old(scratch).wf(),
        sink.wf(*old(disk), *old(scratch)),
        outcome::takes(
            sink,
            OpView::Project(query::map_views(column_name_map@), Box::new(scan.op())),
            ctx.tables(),
        ),
    ensures
        scratch_run::kept(
            *old(disk),
            *old(scratch),
            *final(disk),
            *final(scratch),
            sink.own(),
        ),
        outcome::refused(
            OpView::Project(query::map_views(column_name_map@), Box::new(scan.op())),
            ctx.tables(),
            r,
            *old(disk),
            *old(scratch),
            *final(disk),
            *final(scratch),
        ),
        sink.dry() ==> *final(scratch) == *old(scratch),
        r is Ok ==> outcome::read_whole(
            OpView::Project(query::map_views(column_name_map@), Box::new(scan.op())),
            ctx.tables(),
            *old(disk),
            *final(disk),
            *final(scratch),
        ),
        r matches Ok((schema, out)) ==> outcome::ran(
            OpView::Project(query::map_views(column_name_map@), Box::new(scan.op())),
            ctx.tables(),
            sink,
            *old(disk),
            *old(scratch),
            schema,
            out,
            *final(disk),
            *final(scratch),
        ),
        r matches Err(e) ==> outcome::excused(
            OpView::Project(query::map_views(column_name_map@), Box::new(scan.op())),
            ctx.tables(),
            sink,
            *old(disk),
            *old(scratch),
            e,
            *final(disk),
            *final(scratch),
        ),
{
    let below = QueryOp::Scan(ScanData { table_id: scan.table_id.clone() });
    let op = QueryOp::Project(
        ProjectData {
            column_name_map: clone_map(column_name_map),
            underlying: Box::new(below),
        },
    );
    proof {
        reveal_with_fuel(query::op_view, 2);
        reveal_with_fuel(semantics::is_pipeline, 2);
    }
    match try_execute_scan_pipeline_op(&op, ctx, disk, scratch, memory_limit, sink)? {
        Tried::Done(schema, out) => Ok((schema, out)),
        Tried::Not(_) => vstd::pervasive::unreached(),
    }
}

} // verus!
