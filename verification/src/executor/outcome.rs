//! What running an operator delivers.

use vstd::multiset::Multiset;
use vstd::prelude::*;

use crate::bag;
use crate::catalog::db_context;
use crate::catalog::table::{ColumnView, TableSpec};
use crate::data;
use crate::data::DataType;
use crate::error::DbError;
use crate::executor::frame;
use crate::executor::project;
use crate::executor::sink;
use crate::executor::sink::{RowSink, Shape, StageView};
use crate::executor::value;
use crate::io::{Input, Output};
use crate::query::{OpView, OperandView, PredicateView};
use crate::query_support;
use crate::query_support::PredicateSide;
use crate::row;
use crate::row::Schema;
use crate::scan_pipeline;
use crate::scan_pipeline::ScanPipelinePlan;
use crate::semantics;
use crate::semantics::{CompiledView, Database, Kind, RowView};
use crate::storage::block_allocator::ScratchSpace;
use crate::storage::disk_client::DiskClient;
use crate::storage::row_codec;
use crate::storage::scratch_run;
use crate::storage::scratch_run::RowOutput;

verus! {

/// A right answer of an operator was emitted.
pub open spec fn executed(
    op: OpView,
    db: Database,
    before: Seq<RowView>,
    after: Seq<RowView>,
) -> bool {
    exists|out: Seq<RowView>| #[trigger]
        semantics::delivers(op, db, out) && after == before + out
}

/// The rows of an operator that meet predicates.
pub open spec fn side_rows(op: OpView, ps: Seq<PredicateView>, db: Database) -> Seq<RowView> {
    semantics::filter_rows(
        semantics::rows_of(op, db),
        semantics::compiled_all(query_support::schema_of(op, db.tables)->Ok_0, ps),
    )
}

/// Rows were emitted, in some order.
pub open spec fn emitted_bag(
    before: Seq<RowView>,
    after: Seq<RowView>,
    rows: Multiset<RowView>,
) -> bool {
    &&& before.len() <= after.len()
    &&& after.take(before.len() as int) == before
    &&& bag::bag(after.skip(before.len() as int)) == rows
}

/// What was appended was emitted.
pub proof fn lemma_emitted(before: Seq<RowView>, rows: Seq<RowView>)
    ensures
        emitted_bag(before, before + rows, bag::bag(rows)),
{
    let after = before + rows;
    assert(after.take(before.len() as int) =~= before);
    assert(after.skip(before.len() as int) =~= rows);
}

/// What was emitted was appended.
pub proof fn lemma_emitted_rows(
    before: Seq<RowView>,
    after: Seq<RowView>,
    rows: Multiset<RowView>,
)
    requires
        emitted_bag(before, after, rows),
    ensures
        after == before + after.skip(before.len() as int),
{
    assert(after =~= after.take(before.len() as int) + after.skip(before.len() as int));
}

/// What was emitted in two steps.
pub proof fn lemma_emitted_trans(
    a: Seq<RowView>,
    b: Seq<RowView>,
    c: Seq<RowView>,
    m: Multiset<RowView>,
    n: Multiset<RowView>,
)
    requires
        emitted_bag(a, b, m),
        emitted_bag(b, c, n),
    ensures
        emitted_bag(a, c, m.add(n)),
{
    lemma_emitted_rows(a, b, m);
    lemma_emitted_rows(b, c, n);
    let x = b.skip(a.len() as int);
    let y = c.skip(b.len() as int);
    assert(c =~= a + (x + y));
    bag::lemma_bag_concat(x, y);
    lemma_emitted(a, x + y);
}

/// The database on a device.
pub open spec fn database_on<R: Input, W: Output>(
    tables: Seq<TableSpec>,
    disk: DiskClient<R, W>,
) -> Database {
    Database { tables, layout: disk.layout() }
}

/// The sink takes the rows of the operator.
pub open spec fn takes<F: RowOutput>(
    sink: RowSink<F>,
    op: OpView,
    tables: Seq<TableSpec>,
) -> bool {
    query_support::schema_of(op, tables) matches Ok(columns) ==> sink.types() == row::types_of(
        columns,
    )
}

/// Every block that running the operator takes is given back when it is done.
pub open spec fn gives_back(op: OpView) -> bool
    decreases op,
{
    match op {
        OpView::Scan(_) => true,
        OpView::Filter(_, u) => gives_back_filtered(*u),
        OpView::Project(_, u) => gives_back(*u),
        OpView::Sort(_, u) => gives_back(*u),
        OpView::Cross(l, r) => gives_back(*l) && gives_back(*r),
    }
}

/// Every block that running the operator under predicates takes is given back
/// when it is done. Predicates can make keys of a join, and a side of a join by
/// keys that holds blocks keeps them where it is given up for want of memory.
pub open spec fn gives_back_filtered(op: OpView) -> bool
    decreases op,
{
    match op {
        OpView::Scan(_) => true,
        OpView::Filter(_, u) => gives_back_filtered(*u),
        OpView::Project(_, u) => gives_back_filtered(*u),
        OpView::Sort(_, u) => gives_back(*u),
        OpView::Cross(l, r) => semantics::is_pipeline(*l) && semantics::is_pipeline(*r),
    }
}

/// A chain of operators on a table takes no blocks that it could keep.
pub proof fn lemma_pipeline_gives_back(op: OpView)
    requires
        semantics::is_pipeline(op),
    ensures
        gives_back(op),
        gives_back_filtered(op),
    decreases op,
{
    match op {
        OpView::Filter(_, u) => lemma_pipeline_gives_back(*u),
        OpView::Project(_, u) => lemma_pipeline_gives_back(*u),
        _ => {},
    }
}

/// What gives blocks back under predicates does so without.
pub proof fn lemma_filtered_gives_back(op: OpView)
    requires
        gives_back_filtered(op),
    ensures
        gives_back(op),
    decreases op,
{
    match op {
        OpView::Project(_, u) => lemma_filtered_gives_back(*u),
        OpView::Cross(l, r) => {
            lemma_pipeline_gives_back(*l);
            lemma_pipeline_gives_back(*r);
        },
        _ => {},
    }
}

/// The table of a chain of operators on one.
pub open spec fn table_of(op: OpView) -> Option<Seq<char>>
    decreases op,
{
    match op {
        OpView::Scan(id) => Some(id),
        OpView::Filter(_, u) => table_of(*u),
        OpView::Project(_, u) => table_of(*u),
        OpView::Sort(_, u) => table_of(*u),
        OpView::Cross(_, _) => None,
    }
}

/// Why a chain of operators on a table cannot be run, if it names what is not
/// there.
pub open spec fn refusal(op: OpView, tables: Seq<TableSpec>) -> Option<DbError> {
    match table_of(op) {
        Some(id) => if semantics::op_known(op, tables) {
            None
        } else if db_context::table_index(tables, id) is Some {
            Some(DbError::UnknownColumn)
        } else {
            Some(DbError::UnknownTable)
        },
        None => None,
    }
}

/// A chain of operators on a table that names what is not there is refused, and
/// nothing is asked of the device.
pub open spec fn refused<R: Input, W: Output, T>(
    op: OpView,
    tables: Seq<TableSpec>,
    r: Result<T, DbError>,
    d0: DiskClient<R, W>,
    s0: ScratchSpace,
    d1: DiskClient<R, W>,
    s1: ScratchSpace,
) -> bool {
    refusal(op, tables) matches Some(e) ==> {
        &&& r matches Err(f) && f == e
        &&& d1 == d0
        &&& s1 == s0
    }
}

/// Where a chain of operators has no columns it is refused for it, and where it
/// has, its table is there.
pub proof fn lemma_schema_refused(op: OpView, tables: Seq<TableSpec>)
    requires
        table_of(op) is Some,
    ensures
        match query_support::schema_of(op, tables) {
            Ok(_) => db_context::table_index(tables, table_of(op)->0) is Some,
            Err(e) => refusal(op, tables) == Some(e),
        },
    decreases op,
{
    match op {
        OpView::Scan(_) => {},
        OpView::Filter(_, u) => lemma_schema_refused(*u, tables),
        OpView::Project(_, u) => lemma_schema_refused(*u, tables),
        OpView::Sort(_, u) => lemma_schema_refused(*u, tables),
        OpView::Cross(_, _) => {},
    }
}

/// What is wrong with a chain of operators in one pass is why it is refused.
pub proof fn lemma_pipeline_refused(op: OpView, tables: Seq<TableSpec>)
    requires
        semantics::is_pipeline(op),
    ensures
        table_of(op) is Some,
        scan_pipeline::pipeline_error(op, tables) == refusal(op, tables),
    decreases op,
{
    match op {
        OpView::Filter(_, u) => {
            lemma_pipeline_refused(*u, tables);
            if semantics::op_known(*u, tables) {
                semantics::lemma_known_schema(*u, tables);
            }
            lemma_schema_refused(*u, tables);
        },
        OpView::Project(_, u) => {
            lemma_pipeline_refused(*u, tables);
            if semantics::op_known(*u, tables) {
                semantics::lemma_known_schema(*u, tables);
            }
            lemma_schema_refused(*u, tables);
        },
        _ => {},
    }
}

/// The operator was run: what it names is there, the sink has taken rows, and
/// they are a right answer where the device can be trusted and the tables are
/// sound.
pub open spec fn ran<R: Input, W: Output, F: RowOutput>(
    op: OpView,
    tables: Seq<TableSpec>,
    sink: RowSink<F>,
    d0: DiskClient<R, W>,
    s0: ScratchSpace,
    schema: Schema,
    out: RowSink<F>,
    d1: DiskClient<R, W>,
    s1: ScratchSpace,
) -> bool {
    &&& semantics::op_known(op, tables)
    &&& query_support::schema_of(op, tables) == Ok::<Seq<ColumnView>, DbError>(schema@)
    &&& sink::advanced(sink, d0, s0, out, d1, s1)
    &&& gives_back(op) || !s1.gave_up() ==> sink::settled(sink, s0, out, s1)
    &&& frame::trusty(d1, s1) && semantics::sound(op, database_on(tables, d0)) ==> executed(
        op,
        database_on(tables, d0),
        sink.log(),
        out.log(),
    )
}

/// The values that an operator reads can be read, in every row of its tables, where
/// their files lie below the scratch area. A projection over a sort reads only the
/// columns that the two need. Nothing is said of filters over joins: a join of
/// tables that are in order need not read them to their ends.
pub open spec fn legible(op: OpView, db: Database) -> bool
    decreases op.size(),
    via legible_decreases
{
    if semantics::is_pipeline(op) {
        scan_pipeline::table_below(op, db) ==> scan_pipeline::table_legible(op, db)
    } else {
        match op {
            OpView::Scan(_) => true,
            OpView::Filter(_, u) => *u is Sort ==> legible(*u, db),
            OpView::Project(map, u) => match *u {
                OpView::Sort(specs, v) => legible(
                    OpView::Project(project::reduced_map(map, specs), v),
                    db,
                ),
                _ => legible(*u, db),
            },
            OpView::Sort(_, u) => legible(*u, db),
            OpView::Cross(l, r) => legible(*l, db) && legible(*r, db),
        }
    }
}

#[via_fn]
proof fn legible_decreases(op: OpView, db: Database) {
    reveal_with_fuel(OpView::size, 3);
}

/// The operator was run: the values that it reads can be read, where the device can
/// be trusted.
pub open spec fn read_whole<R: Input, W: Output>(
    op: OpView,
    tables: Seq<TableSpec>,
    d0: DiskClient<R, W>,
    d1: DiskClient<R, W>,
    s1: ScratchSpace,
) -> bool {
    frame::trusty(d1, s1) ==> legible(op, database_on(tables, d0))
}

/// A name that is not there.
pub open spec fn misnamed(e: DbError) -> bool {
    e == DbError::UnknownTable || e == DbError::UnknownColumn
}

/// A row that running the operator stores is too long for a block of the size:
/// one of a side of a join, or one that is sorted. A projection over a sort stores
/// only the columns that the two need.
pub open spec fn outgrowing(op: OpView, db: Database, size: int) -> bool
    decreases op.size(),
    via outgrowing_decreases
{
    match op {
        OpView::Scan(_) => false,
        OpView::Filter(_, u) => outgrowing(*u, db, size),
        OpView::Project(map, u) => match *u {
            OpView::Sort(specs, v) => {
                let below = OpView::Project(project::reduced_map(map, specs), v);
                scratch_run::oversized(semantics::rows_of(below, db), size) || outgrowing(
                    below,
                    db,
                    size,
                )
            },
            _ => outgrowing(*u, db, size),
        },
        OpView::Sort(_, u) => scratch_run::oversized(semantics::rows_of(*u, db), size)
            || outgrowing(*u, db, size),
        OpView::Cross(l, r) => {
            ||| scratch_run::oversized(semantics::rows_of(*l, db), size)
            ||| scratch_run::oversized(semantics::rows_of(*r, db), size)
            ||| outgrowing(*l, db, size)
            ||| outgrowing(*r, db, size)
        },
    }
}

#[via_fn]
proof fn outgrowing_decreases(op: OpView, db: Database, size: int) {
    reveal_with_fuel(OpView::size, 3);
}

/// The errors that running an operator can meet where the device answers and
/// the tables are sound: a name that is not there, a comparison without an
/// outcome, a row that is stored and too long for a block of the size.
pub open spec fn excuses(op: OpView, db: Database, size: int, e: DbError) -> bool {
    ||| misnamed(e) && !semantics::op_known(op, db.tables)
    ||| e == DbError::Incomparable && !semantics::op_answerable(op, db)
    ||| e == DbError::RowTooLarge && outgrowing(op, db, size)
}

/// The errors that running an operator under predicates can meet where the
/// device answers and the tables are sound.
pub open spec fn side_excuses(
    op: OpView,
    ps: Seq<PredicateView>,
    db: Database,
    size: int,
    e: DbError,
) -> bool {
    ||| misnamed(e) && !side_known(op, ps, db.tables)
    ||| e == DbError::Incomparable && !(semantics::op_answerable(op, db)
        && semantics::filter_answerable(op, ps, db))
    ||| e == DbError::RowTooLarge && outgrowing(op, db, size)
}

/// The run of an operator failed for a reason: the device did not answer, the
/// tables are not sound, the operator cannot be run, or the sink refused a row.
pub open spec fn excused<R: Input, W: Output, F: RowOutput>(
    op: OpView,
    tables: Seq<TableSpec>,
    sink: RowSink<F>,
    d0: DiskClient<R, W>,
    s0: ScratchSpace,
    e: DbError,
    d1: DiskClient<R, W>,
    s1: ScratchSpace,
) -> bool {
    scratch_run::able(d1, s1) && semantics::sound(op, database_on(tables, d0)) ==> {
        ||| excuses(op, database_on(tables, d0), s0.size() as int, e)
        ||| sink.shape().excuses(
            e,
            s0.size() as int,
            sink.log() + semantics::rows_of(op, database_on(tables, d0)),
        )
    }
}

/// The run of an operator under predicates failed for a reason.
pub open spec fn excused_filtered<R: Input, W: Output, F: RowOutput>(
    op: OpView,
    ps: Seq<PredicateView>,
    tables: Seq<TableSpec>,
    sink: RowSink<F>,
    d0: DiskClient<R, W>,
    s0: ScratchSpace,
    e: DbError,
    d1: DiskClient<R, W>,
    s1: ScratchSpace,
) -> bool {
    scratch_run::able(d1, s1) && semantics::sound(op, database_on(tables, d0)) ==> {
        ||| side_excuses(op, ps, database_on(tables, d0), s0.size() as int, e)
        ||| sink.shape().excuses(
            e,
            s0.size() as int,
            sink.log() + side_rows(op, ps, database_on(tables, d0)),
        )
    }
}

/// The run of a side of a join, whose rows are stored, failed for a reason.
pub open spec fn excused_side<R: Input, W: Output>(
    op: OpView,
    ps: Seq<PredicateView>,
    tables: Seq<TableSpec>,
    d0: DiskClient<R, W>,
    s0: ScratchSpace,
    e: DbError,
    d1: DiskClient<R, W>,
    s1: ScratchSpace,
) -> bool {
    scratch_run::able(d1, s1) && semantics::sound(op, database_on(tables, d0)) ==> {
        ||| side_excuses(op, ps, database_on(tables, d0), s0.size() as int, e)
        ||| sink::too_large(e, side_rows(op, ps, database_on(tables, d0)), s0.size() as int)
    }
}

/// The join of two operators under predicates failed for a reason: that of a
/// side, a row of a side too long for a block, a predicate of the join without
/// an answer, or the sink's.
pub open spec fn excused_joined<R: Input, W: Output, F: RowOutput>(
    l: OpView,
    lp: Seq<PredicateView>,
    r: OpView,
    rp: Seq<PredicateView>,
    ps: Seq<CompiledView>,
    tables: Seq<TableSpec>,
    sink: RowSink<F>,
    d0: DiskClient<R, W>,
    s0: ScratchSpace,
    e: DbError,
    d1: DiskClient<R, W>,
    s1: ScratchSpace,
) -> bool {
    scratch_run::able(d1, s1) && semantics::both_sound(l, r, database_on(tables, d0)) ==> {
        ||| side_excuses(l, lp, database_on(tables, d0), s0.size() as int, e)
        ||| side_excuses(r, rp, database_on(tables, d0), s0.size() as int, e)
        ||| sink::too_large(e, side_rows(l, lp, database_on(tables, d0)), s0.size() as int)
        ||| sink::too_large(e, side_rows(r, rp, database_on(tables, d0)), s0.size() as int)
        ||| semantics::pairs_fail(
            side_rows(l, lp, database_on(tables, d0)),
            side_rows(r, rp, database_on(tables, d0)),
            true,
            ps,
            e,
        )
        ||| sink.shape().excuses(
            e,
            s0.size() as int,
            sink.log() + joined_rows(l, lp, r, rp, ps, database_on(tables, d0)),
        )
    }
}

/// The rows of a join of two operators under predicates.
pub open spec fn joined_rows(
    l: OpView,
    lp: Seq<PredicateView>,
    r: OpView,
    rp: Seq<PredicateView>,
    ps: Seq<CompiledView>,
    db: Database,
) -> Seq<RowView> {
    semantics::filter_rows(
        semantics::cross_rows(side_rows(l, lp, db), side_rows(r, rp, db)),
        ps,
    )
}

/// The errors that joining stored rows of two sides can meet where the device
/// answers: a row of a side too long for a block, a predicate of the join
/// without an answer, and what the sink refuses.
pub open spec fn join_excuses<F: RowOutput>(
    builds: Seq<RowView>,
    probes: Seq<RowView>,
    build_is_left: bool,
    ps: Seq<CompiledView>,
    sink: RowSink<F>,
    e: DbError,
    size: int,
) -> bool {
    ||| sink::too_large(e, builds, size)
    ||| sink::too_large(e, probes, size)
    ||| semantics::pairs_fail(builds, probes, build_is_left, ps, e)
    ||| sink.shape().excuses(
        e,
        size,
        sink.log() + semantics::probe_rows(builds, probes, build_is_left, ps),
    )
}

/// What joining some of the rows of two sides can meet, joining all can.
pub proof fn lemma_join_excuses_within<F: RowOutput>(
    builds: Seq<RowView>,
    probes: Seq<RowView>,
    more_builds: Seq<RowView>,
    more_probes: Seq<RowView>,
    build_is_left: bool,
    ps: Seq<CompiledView>,
    sink: RowSink<F>,
    e: DbError,
    size: int,
)
    requires
        join_excuses(builds, probes, build_is_left, ps, sink, e, size),
        bag::within(builds, more_builds),
        bag::within(probes, more_probes),
    ensures
        join_excuses(more_builds, more_probes, build_is_left, ps, sink, e, size),
{
    broadcast use {sink::lemma_excuses_within, scratch_run::lemma_oversized_within};

    let log = sink.log();
    let rows = semantics::probe_rows(builds, probes, build_is_left, ps);
    let more = semantics::probe_rows(more_builds, more_probes, build_is_left, ps);
    semantics::lemma_probe_within(builds, probes, more_builds, more_probes, build_is_left, ps);
    bag::lemma_within_front(log, log);
    bag::lemma_within_concat(log, rows, log, more);
    if semantics::pairs_fail(builds, probes, build_is_left, ps, e) {
        semantics::lemma_pairs_fail_within(
            builds,
            probes,
            more_builds,
            more_probes,
            build_is_left,
            ps,
            e,
        );
    }
}

/// The join of two operators under predicates failed for a reason: that of a
/// side, or one of joining their rows.
pub open spec fn excused_sides<R: Input, W: Output, F: RowOutput>(
    build: OpView,
    build_ps: Seq<PredicateView>,
    probe: OpView,
    probe_ps: Seq<PredicateView>,
    build_is_left: bool,
    ps: Seq<CompiledView>,
    tables: Seq<TableSpec>,
    sink: RowSink<F>,
    d0: DiskClient<R, W>,
    s0: ScratchSpace,
    e: DbError,
    d1: DiskClient<R, W>,
    s1: ScratchSpace,
) -> bool {
    scratch_run::able(d1, s1) && semantics::both_sound(build, probe, database_on(tables, d0)) ==> {
        ||| side_excuses(build, build_ps, database_on(tables, d0), s0.size() as int, e)
        ||| side_excuses(probe, probe_ps, database_on(tables, d0), s0.size() as int, e)
        ||| join_excuses(
            side_rows(build, build_ps, database_on(tables, d0)),
            side_rows(probe, probe_ps, database_on(tables, d0)),
            build_is_left,
            ps,
            sink,
            e,
            s0.size() as int,
        )
    }
}

/// What joining rows of two sides can meet, joining the sides can.
pub proof fn lemma_excused_by_rows<R: Input, W: Output, F: RowOutput>(
    build: OpView,
    build_ps: Seq<PredicateView>,
    probe: OpView,
    probe_ps: Seq<PredicateView>,
    build_is_left: bool,
    ps: Seq<CompiledView>,
    tables: Seq<TableSpec>,
    sink: RowSink<F>,
    d0: DiskClient<R, W>,
    s0: ScratchSpace,
    e: DbError,
    d1: DiskClient<R, W>,
    s1: ScratchSpace,
    builds: Seq<RowView>,
    probes: Seq<RowView>,
)
    requires
        join_excuses(
            builds,
            probes,
            build_is_left,
            ps,
            sink,
            e,
            s0.size() as int,
        ),
        bag::bag(builds) == bag::bag(side_rows(build, build_ps, database_on(tables, d0))),
        bag::bag(probes) == bag::bag(side_rows(probe, probe_ps, database_on(tables, d0))),
    ensures
        excused_sides(
            build,
            build_ps,
            probe,
            probe_ps,
            build_is_left,
            ps,
            tables,
            sink,
            d0,
            s0,
            e,
            d1,
            s1,
        ),
{
    let db = database_on(tables, d0);
    bag::lemma_within_bag(builds, side_rows(build, build_ps, db));
    bag::lemma_within_bag(probes, side_rows(probe, probe_ps, db));
    lemma_join_excuses_within(
        builds,
        probes,
        side_rows(build, build_ps, db),
        side_rows(probe, probe_ps, db),
        build_is_left,
        ps,
        sink,
        e,
        s0.size() as int,
    );
}

/// Why a join failed does not depend on which side is the build side.
pub proof fn lemma_excused_sides<R: Input, W: Output, F: RowOutput>(
    build: OpView,
    build_ps: Seq<PredicateView>,
    probe: OpView,
    probe_ps: Seq<PredicateView>,
    build_is_left: bool,
    ps: Seq<CompiledView>,
    tables: Seq<TableSpec>,
    sink: RowSink<F>,
    d0: DiskClient<R, W>,
    s0: ScratchSpace,
    e: DbError,
    d1: DiskClient<R, W>,
    s1: ScratchSpace,
)
    requires
        excused_sides(
            build,
            build_ps,
            probe,
            probe_ps,
            build_is_left,
            ps,
            tables,
            sink,
            d0,
            s0,
            e,
            d1,
            s1,
        ),
    ensures
        excused_sides(
            probe,
            probe_ps,
            build,
            build_ps,
            !build_is_left,
            ps,
            tables,
            sink,
            d0,
            s0,
            e,
            d1,
            s1,
        ),
        build_is_left ==> excused_joined(
            build,
            build_ps,
            probe,
            probe_ps,
            ps,
            tables,
            sink,
            d0,
            s0,
            e,
            d1,
            s1,
        ),
        !build_is_left ==> excused_joined(
            probe,
            probe_ps,
            build,
            build_ps,
            ps,
            tables,
            sink,
            d0,
            s0,
            e,
            d1,
            s1,
        ),
{
    broadcast use sink::lemma_excuses_within;

    let db = database_on(tables, d0);
    let bs = side_rows(build, build_ps, db);
    let qs = side_rows(probe, probe_ps, db);
    let log = sink.log();
    let rows = semantics::probe_rows(bs, qs, build_is_left, ps);
    let swapped = semantics::probe_rows(qs, bs, !build_is_left, ps);
    let pairs = if build_is_left {
        semantics::filter_rows(semantics::cross_rows(bs, qs), ps)
    } else {
        semantics::filter_rows(semantics::cross_rows(qs, bs), ps)
    };
    semantics::lemma_probe_joined(bs, qs, build_is_left, ps);
    semantics::lemma_probe_swapped(qs, bs, !build_is_left, ps);
    bag::lemma_within_front(log, log);
    bag::lemma_within_concat(log, rows, log, pairs);
    bag::lemma_within_concat(log, rows, log, swapped);
    if semantics::pairs_fail(bs, qs, build_is_left, ps, e) {
        semantics::lemma_pairs_fail_swapped(bs, qs, build_is_left, ps, e);
    }
}

/// What an operator and predicates on its rows name is there.
pub open spec fn side_known(
    op: OpView,
    ps: Seq<PredicateView>,
    tables: Seq<TableSpec>,
) -> bool {
    semantics::op_known(op, tables) && semantics::all_known(
        query_support::schema_of(op, tables)->Ok_0,
        ps,
    )
}

/// The operator was run under predicates: what they name is there, and the sink
/// has taken the rows that meet them, in some order, or in that of its table where
/// nothing is joined or sorted.
pub open spec fn ran_filtered<R: Input, W: Output, F: RowOutput>(
    op: OpView,
    ps: Seq<PredicateView>,
    tables: Seq<TableSpec>,
    sink: RowSink<F>,
    d0: DiskClient<R, W>,
    s0: ScratchSpace,
    schema: Schema,
    out: RowSink<F>,
    d1: DiskClient<R, W>,
    s1: ScratchSpace,
) -> bool {
    &&& side_known(op, ps, tables)
    &&& query_support::schema_of(op, tables) == Ok::<Seq<ColumnView>, DbError>(schema@)
    &&& sink::advanced(sink, d0, s0, out, d1, s1)
    &&& gives_back_filtered(op) || !s1.gave_up() ==> sink::settled(sink, s0, out, s1)
    &&& frame::trusty(d1, s1) && semantics::sound(op, database_on(tables, d0)) ==> emitted_bag(
        sink.log(),
        out.log(),
        bag::bag(side_rows(op, ps, database_on(tables, d0))),
    )
    &&& frame::trusty(d1, s1) && semantics::sound(op, database_on(tables, d0))
        && semantics::is_pipeline(op) ==> out.log() == sink.log() + side_rows(
        op,
        ps,
        database_on(tables, d0),
    )
}

/// Two operators under predicates were run and joined: what they name is there,
/// and the sink has taken what the join makes of their rows.
pub open spec fn ran_joined<R: Input, W: Output, F: RowOutput>(
    l: OpView,
    lp: Seq<PredicateView>,
    r: OpView,
    rp: Seq<PredicateView>,
    ps: Seq<CompiledView>,
    tables: Seq<TableSpec>,
    sink: RowSink<F>,
    d0: DiskClient<R, W>,
    s0: ScratchSpace,
    out: RowSink<F>,
    d1: DiskClient<R, W>,
    s1: ScratchSpace,
) -> bool {
    &&& side_known(l, lp, tables)
    &&& side_known(r, rp, tables)
    &&& sink::advanced(sink, d0, s0, out, d1, s1)
    &&& (semantics::is_pipeline(l) && semantics::is_pipeline(r)) || !s1.gave_up() ==> sink::settled(
        sink,
        s0,
        out,
        s1,
    )
    &&& frame::trusty(d1, s1) && semantics::both_sound(l, r, database_on(tables, d0)) ==> emitted_bag(
        sink.log(),
        out.log(),
        semantics::join_bag(
            side_rows(l, lp, database_on(tables, d0)),
            side_rows(r, rp, database_on(tables, d0)),
            ps,
        ),
    )
}

/// Two operators under predicates were run and joined, one of them as the build
/// side.
pub open spec fn ran_sides<R: Input, W: Output, F: RowOutput>(
    build: OpView,
    build_ps: Seq<PredicateView>,
    probe: OpView,
    probe_ps: Seq<PredicateView>,
    build_is_left: bool,
    ps: Seq<CompiledView>,
    tables: Seq<TableSpec>,
    sink: RowSink<F>,
    d0: DiskClient<R, W>,
    s0: ScratchSpace,
    out: RowSink<F>,
    d1: DiskClient<R, W>,
    s1: ScratchSpace,
) -> bool {
    &&& side_known(build, build_ps, tables)
    &&& side_known(probe, probe_ps, tables)
    &&& sink::advanced(sink, d0, s0, out, d1, s1)
    &&& (semantics::is_pipeline(build) && semantics::is_pipeline(probe)) || !s1.gave_up() ==> sink::settled(
        sink,
        s0,
        out,
        s1,
    )
    &&& frame::trusty(d1, s1) && semantics::both_sound(build, probe, database_on(tables, d0)) ==> emitted_bag(
        sink.log(),
        out.log(),
        semantics::probe_bag(
            side_rows(build, build_ps, database_on(tables, d0)),
            side_rows(probe, probe_ps, database_on(tables, d0)),
            build_is_left,
            ps,
        ),
    )
}

/// A join does not depend on which side is the build side.
pub proof fn lemma_ran_sides<R: Input, W: Output, F: RowOutput>(
    build: OpView,
    build_ps: Seq<PredicateView>,
    probe: OpView,
    probe_ps: Seq<PredicateView>,
    build_is_left: bool,
    ps: Seq<CompiledView>,
    tables: Seq<TableSpec>,
    sink: RowSink<F>,
    d0: DiskClient<R, W>,
    s0: ScratchSpace,
    out: RowSink<F>,
    d1: DiskClient<R, W>,
    s1: ScratchSpace,
)
    requires
        ran_sides(
            build,
            build_ps,
            probe,
            probe_ps,
            build_is_left,
            ps,
            tables,
            sink,
            d0,
            s0,
            out,
            d1,
            s1,
        ),
    ensures
        ran_sides(
            probe,
            probe_ps,
            build,
            build_ps,
            !build_is_left,
            ps,
            tables,
            sink,
            d0,
            s0,
            out,
            d1,
            s1,
        ),
        build_is_left ==> ran_joined(
            build,
            build_ps,
            probe,
            probe_ps,
            ps,
            tables,
            sink,
            d0,
            s0,
            out,
            d1,
            s1,
        ),
        !build_is_left ==> ran_joined(
            probe,
            probe_ps,
            build,
            build_ps,
            ps,
            tables,
            sink,
            d0,
            s0,
            out,
            d1,
            s1,
        ),
{
    let db = database_on(tables, d0);
    let a = side_rows(build, build_ps, db);
    let b = side_rows(probe, probe_ps, db);
    semantics::lemma_probe_bag(a, b, build_is_left, ps);
    semantics::lemma_probe_bag(b, a, !build_is_left, ps);
}

/// The rows of an operator over sound tables have the types of its columns.
pub proof fn lemma_rows_conform(op: OpView, db: Database)
    requires
        semantics::sound(op, db),
        query_support::schema_of(op, db.tables) is Ok,
    ensures
        row_codec::all_conform(
            semantics::rows_of(op, db),
            row::types_of(query_support::schema_of(op, db.tables)->Ok_0),
        ),
    decreases op,
{
    let rows = semantics::rows_of(op, db);
    let columns = query_support::schema_of(op, db.tables)->Ok_0;
    let types = row::types_of(columns);
    match op {
        OpView::Scan(id) => {
            db_context::lemma_table_index(db.tables, id);
            let t = db.tables[db_context::table_index(db.tables, id)->0];
            assert(semantics::table_sound(t, db.layout));
            scan_pipeline::lemma_file_rows_conform(
                db.layout.file_blocks(t.file_id@),
                row::types_of(t.columns()),
            );
        },
        OpView::Filter(ps, u) => {
            lemma_rows_conform(*u, db);
            let below = semantics::rows_of(*u, db);
            let cs = semantics::compiled_all(columns, ps);
            semantics::lemma_filter_members(below, cs);
            assert forall|i: int| 0 <= i < rows.len() implies data::conforms(
                #[trigger] rows[i],
                types,
            ) by {
                assert(below.contains(rows[i]));
                let k = choose|k: int| 0 <= k < below.len() && below[k] == rows[i];
                assert(data::conforms(below[k], types));
            }
        },
        OpView::Project(map, u) => {
            lemma_rows_conform(*u, db);
            let below = semantics::rows_of(*u, db);
            let cols = query_support::schema_of(*u, db.tables)->Ok_0;
            assert forall|i: int| 0 <= i < rows.len() implies data::conforms(
                #[trigger] rows[i],
                types,
            ) by {
                assert(data::conforms(below[i], row::types_of(cols)));
                assert forall|c: int| 0 <= c < rows[i].len() implies (
                #[trigger] rows[i][c]).data_type() == types[c] && rows[i][c].storable() by {
                    row::lemma_column_index(cols, map[c].0);
                    let k = row::column_index(cols, map[c].0)->0;
                    assert(row::column_index(cols, map[c].0) is Some);
                    assert(below[i][k].data_type() == row::types_of(cols)[k]);
                }
            }
        },
        OpView::Cross(l, r) => {
            lemma_rows_conform(*l, db);
            lemma_rows_conform(*r, db);
            let lt = row::types_of(query_support::schema_of(*l, db.tables)->Ok_0);
            let rt = row::types_of(query_support::schema_of(*r, db.tables)->Ok_0);
            assert(types =~= lt + rt);
            lemma_cross_conform(
                semantics::rows_of(*l, db),
                semantics::rows_of(*r, db),
                lt,
                rt,
            );
        },
        OpView::Sort(_, u) => {
            lemma_rows_conform(*u, db);
        },
    }
}

proof fn lemma_cross_conform(
    lefts: Seq<RowView>,
    rights: Seq<RowView>,
    lt: Seq<DataType>,
    rt: Seq<DataType>,
)
    requires
        row_codec::all_conform(lefts, lt),
        row_codec::all_conform(rights, rt),
    ensures
        row_codec::all_conform(semantics::cross_rows(lefts, rights), lt + rt),
    decreases lefts.len(),
{
    if lefts.len() > 0 {
        let front = lefts.drop_last();
        assert(row_codec::all_conform(front, lt)) by {
            assert forall|i: int| 0 <= i < front.len() implies data::conforms(
                #[trigger] front[i],
                lt,
            ) by {
                assert(front[i] == lefts[i]);
            }
        }
        lemma_cross_conform(front, rights, lt, rt);
        let before = semantics::cross_rows(front, rights);
        let last = semantics::pair_rows(lefts.last(), rights);
        let all = before + last;
        assert(data::conforms(lefts[lefts.len() - 1], lt));
        assert forall|i: int| 0 <= i < all.len() implies data::conforms(
            #[trigger] all[i],
            lt + rt,
        ) by {
            if i < before.len() {
                assert(all[i] == before[i]);
            } else {
                assert(data::conforms(rights[i - before.len()], rt));
            }
        }
    }
}

/// An operator has a kind for each of its columns.
pub proof fn lemma_kinds_len(op: OpView, db: Database)
    requires
        query_support::schema_of(op, db.tables) is Ok,
    ensures
        semantics::kinds(op, db).len() == query_support::schema_of(op, db.tables)->Ok_0.len(),
    decreases op,
{
    match op {
        OpView::Scan(_) => {},
        OpView::Filter(_, u) => lemma_kinds_len(*u, db),
        OpView::Project(_, _) => {},
        OpView::Cross(l, r) => {
            lemma_kinds_len(*l, db);
            lemma_kinds_len(*r, db);
        },
        OpView::Sort(_, u) => lemma_kinds_len(*u, db),
    }
}

/// The rows of an operator are of the kinds of its columns.
pub proof fn lemma_kinds(op: OpView, db: Database)
    requires
        semantics::sound(op, db),
        query_support::schema_of(op, db.tables) is Ok,
    ensures
        semantics::kinds(op, db).len() == query_support::schema_of(op, db.tables)->Ok_0.len(),
        semantics::rows_fit(semantics::rows_of(op, db), semantics::kinds(op, db)),
    decreases op, 0nat,
{
    let rows = semantics::rows_of(op, db);
    let kinds = semantics::kinds(op, db);
    match op {
        OpView::Scan(id) => {
            db_context::lemma_table_index(db.tables, id);
            lemma_rows_conform(op, db);
            let t = db.tables[db_context::table_index(db.tables, id)->0];
            assert forall|i: int| 0 <= i < rows.len() implies semantics::row_fits(
                #[trigger] rows[i],
                kinds,
            ) by {
                assert(data::conforms(rows[i], row::types_of(t.columns())));
                assert forall|c: int| 0 <= c < rows[i].len() implies semantics::fits(
                    #[trigger] rows[i][c],
                    kinds[c],
                ) by {
                    assert(rows[i][c].data_type() == t.columns()[c].data_type);
                }
            }
        },
        OpView::Filter(ps, u) => {
            lemma_side_fits(*u, ps, db);
        },
        OpView::Project(map, u) => {
            lemma_kinds(*u, db);
            lemma_rows_conform(*u, db);
            let below = semantics::rows_of(*u, db);
            let cols = query_support::schema_of(*u, db.tables)->Ok_0;
            let under = semantics::kinds(*u, db);
            assert forall|i: int| 0 <= i < rows.len() implies semantics::row_fits(
                #[trigger] rows[i],
                kinds,
            ) by {
                assert(semantics::row_fits(below[i], under));
                assert forall|c: int| 0 <= c < rows[i].len() implies semantics::fits(
                    #[trigger] rows[i][c],
                    kinds[c],
                ) by {
                    row::lemma_column_index(cols, map[c].0);
                    let k = row::column_index(cols, map[c].0)->0;
                    assert(row::column_index(cols, map[c].0) is Some);
                    assert(rows[i][c] == below[i][k]);
                    assert(semantics::fits(below[i][k], under[k]));
                }
            }
        },
        OpView::Cross(l, r) => {
            lemma_kinds(*l, db);
            lemma_kinds(*r, db);
            lemma_cross_fits(
                semantics::rows_of(*l, db),
                semantics::rows_of(*r, db),
                semantics::kinds(*l, db),
                semantics::kinds(*r, db),
            );
        },
        OpView::Sort(_, u) => {
            lemma_kinds(*u, db);
        },
    }
}

/// The rows of an operator that meet predicates are of the kinds of its columns.
pub proof fn lemma_side_fits(u: OpView, ps: Seq<PredicateView>, db: Database)
    requires
        semantics::sound(u, db),
        query_support::schema_of(u, db.tables) is Ok,
    ensures
        semantics::kinds(u, db).len() == query_support::schema_of(u, db.tables)->Ok_0.len(),
        semantics::rows_fit(side_rows(u, ps, db), semantics::kinds(u, db)),
    decreases u, 1nat,
{
    let below = semantics::rows_of(u, db);
    let rows = side_rows(u, ps, db);
    let kinds = semantics::kinds(u, db);
    lemma_kinds(u, db);
    semantics::lemma_filter_members(
        below,
        semantics::compiled_all(query_support::schema_of(u, db.tables)->Ok_0, ps),
    );
    assert forall|i: int| 0 <= i < rows.len() implies semantics::row_fits(
        #[trigger] rows[i],
        kinds,
    ) by {
        assert(below.contains(rows[i]));
        let k = choose|k: int| 0 <= k < below.len() && below[k] == rows[i];
        assert(semantics::row_fits(below[k], kinds));
    }
}

/// Joined rows are of the kinds of their parts.
proof fn lemma_cross_fits(
    lefts: Seq<RowView>,
    rights: Seq<RowView>,
    lk: Seq<Kind>,
    rk: Seq<Kind>,
)
    requires
        semantics::rows_fit(lefts, lk),
        semantics::rows_fit(rights, rk),
    ensures
        semantics::rows_fit(semantics::cross_rows(lefts, rights), lk + rk),
    decreases lefts.len(),
{
    if lefts.len() > 0 {
        let front = lefts.drop_last();
        assert forall|i: int| 0 <= i < front.len() implies semantics::row_fits(
            #[trigger] front[i],
            lk,
        ) by {
            assert(front[i] == lefts[i]);
        }
        lemma_cross_fits(front, rights, lk, rk);
        let before = semantics::cross_rows(front, rights);
        let last = semantics::pair_rows(lefts.last(), rights);
        let all = before + last;
        let left = lefts[lefts.len() - 1];
        assert(semantics::row_fits(left, lk));
        assert forall|i: int| 0 <= i < all.len() implies semantics::row_fits(
            #[trigger] all[i],
            lk + rk,
        ) by {
            if i < before.len() {
                assert(all[i] == before[i]);
            } else {
                let r = rights[i - before.len()];
                assert(semantics::row_fits(r, rk));
                assert(all[i] == left + r);
                assert forall|c: int| 0 <= c < all[i].len() implies semantics::fits(
                    #[trigger] all[i][c],
                    (lk + rk)[c],
                ) by {
                    if c < left.len() {
                        assert(all[i][c] == left[c]);
                    } else {
                        assert(all[i][c] == r[c - left.len()]);
                    }
                }
            }
        }
    }
}

/// A predicate of a join without an answer on rows of two sides has none on what
/// their columns hold.
pub proof fn lemma_join_unanswered(
    l: OpView,
    lp: Seq<PredicateView>,
    r: OpView,
    rp: Seq<PredicateView>,
    cp: Seq<PredicateView>,
    db: Database,
    e: DbError,
)
    requires
        semantics::both_sound(l, r, db),
        query_support::schema_of(l, db.tables) is Ok,
        query_support::schema_of(r, db.tables) is Ok,
        semantics::all_known(
            query_support::schema_of(l, db.tables)->Ok_0 + query_support::schema_of(
                r,
                db.tables,
            )->Ok_0,
            cp,
        ),
        semantics::pairs_fail(
            side_rows(l, lp, db),
            side_rows(r, rp, db),
            true,
            semantics::compiled_all(
                query_support::schema_of(l, db.tables)->Ok_0 + query_support::schema_of(
                    r,
                    db.tables,
                )->Ok_0,
                cp,
            ),
            e,
        ),
    ensures
        e == DbError::Incomparable,
        !semantics::all_answerable(
            semantics::compiled_all(
                query_support::schema_of(l, db.tables)->Ok_0 + query_support::schema_of(
                    r,
                    db.tables,
                )->Ok_0,
                cp,
            ),
            semantics::kinds(l, db) + semantics::kinds(r, db),
        ),
{
    let lc = query_support::schema_of(l, db.tables)->Ok_0;
    let rc = query_support::schema_of(r, db.tables)->Ok_0;
    lemma_side_fits(l, lp, db);
    lemma_side_fits(r, rp, db);
    semantics::lemma_known_placed(lc + rc, cp);
    semantics::lemma_pairs_unanswered(
        side_rows(l, lp, db),
        side_rows(r, rp, db),
        semantics::compiled_all(lc + rc, cp),
        semantics::kinds(l, db),
        semantics::kinds(r, db),
        e,
    );
}

/// A pipeline sorts nothing.
pub proof fn lemma_pipeline_not_sorted(op: OpView)
    ensures
        semantics::is_pipeline(op) ==> !semantics::is_sorted_chain(op),
    decreases op,
{
    match op {
        OpView::Filter(_, u) => lemma_pipeline_not_sorted(*u),
        OpView::Project(_, u) => lemma_pipeline_not_sorted(*u),
        _ => {},
    }
}

/// The rows of a pipeline in their order are a right answer.
pub proof fn lemma_pipeline_delivers(op: OpView, db: Database)
    requires
        semantics::is_pipeline(op),
    ensures
        semantics::delivers(op, db, semantics::rows_of(op, db)),
{
    lemma_pipeline_not_sorted(op);
}

/// Filtering a right answer gives a right answer of the filter.
pub proof fn lemma_filter_delivers(
    ps: Seq<PredicateView>,
    u: OpView,
    db: Database,
    c: Seq<RowView>,
)
    requires
        semantics::delivers(u, db, c),
    ensures
        semantics::delivers(
            OpView::Filter(ps, Box::new(u)),
            db,
            semantics::filter_rows(
                c,
                semantics::compiled_all(query_support::schema_of(u, db.tables)->Ok_0, ps),
            ),
        ),
{
    let cs = semantics::compiled_all(query_support::schema_of(u, db.tables)->Ok_0, ps);
    semantics::lemma_filter_same_bag(c, semantics::rows_of(u, db), cs);
    let op = OpView::Filter(ps, Box::new(u));
    let out = semantics::filter_rows(c, cs);
    assert(bag::bag(out) == bag::bag(semantics::rows_of(op, db)));
    assert(semantics::is_pipeline(op) ==> out == semantics::rows_of(op, db));
    assert(semantics::is_filtered(out, c, cs));
    assert(semantics::delivers(op, db, out));
}

/// Projecting a right answer gives a right answer of the projection.
pub proof fn lemma_project_delivers(
    map: Seq<(Seq<char>, Seq<char>)>,
    u: OpView,
    db: Database,
    c: Seq<RowView>,
)
    requires
        semantics::delivers(u, db, c),
    ensures
        semantics::delivers(
            OpView::Project(map, Box::new(u)),
            db,
            semantics::project_rows(
                c,
                row::map_indexes(query_support::schema_of(u, db.tables)->Ok_0, map),
            ),
        ),
{
    let indexes = row::map_indexes(query_support::schema_of(u, db.tables)->Ok_0, map);
    semantics::lemma_project_bag(c, semantics::rows_of(u, db), indexes);
    let op = OpView::Project(map, Box::new(u));
    let out = semantics::project_rows(c, indexes);
    assert(semantics::is_projected(out, c, indexes));
    assert(bag::bag(out) == bag::bag(semantics::rows_of(op, db)));
    assert(semantics::is_pipeline(op) ==> out == semantics::rows_of(op, db));
    assert(semantics::delivers(op, db, out));
}

/// No predicates leave every row.
pub proof fn lemma_filter_none(rows: Seq<RowView>, ps: Seq<CompiledView>)
    requires
        ps.len() == 0,
    ensures
        semantics::filter_rows(rows, ps) == rows,
    decreases rows.len(),
{
    if rows.len() > 0 {
        lemma_filter_none(rows.drop_last(), ps);
        assert(semantics::holds(rows.last(), ps));
        assert(rows.drop_last().push(rows.last()) =~= rows);
    }
}

/// A filtered cross product is the join of its filtered sides.
pub proof fn lemma_cross_filtered(
    l: OpView,
    r: OpView,
    ps: Seq<PredicateView>,
    db: Database,
)
    requires
        semantics::both_sound(l, r, db),
        query_support::schema_of(l, db.tables) is Ok,
        query_support::schema_of(r, db.tables) is Ok,
    ensures
        ({
            let lc = query_support::schema_of(l, db.tables)->Ok_0;
            let rc = query_support::schema_of(r, db.tables)->Ok_0;
            bag::bag(side_rows(OpView::Cross(Box::new(l), Box::new(r)), ps, db))
                == semantics::join_bag(
                side_rows(
                    l,
                    query_support::side_predicates(ps, lc, rc, PredicateSide::Left),
                    db,
                ),
                side_rows(
                    r,
                    query_support::side_predicates(ps, lc, rc, PredicateSide::Right),
                    db,
                ),
                semantics::compiled_all(
                    lc + rc,
                    query_support::side_predicates(ps, lc, rc, PredicateSide::Cross),
                ),
            )
        }),
{
    let lc = query_support::schema_of(l, db.tables)->Ok_0;
    let rc = query_support::schema_of(r, db.tables)->Ok_0;
    let lr = semantics::rows_of(l, db);
    let rr = semantics::rows_of(r, db);
    lemma_rows_conform(l, db);
    lemma_rows_conform(r, db);
    sink::lemma_conform_wide(lr, row::types_of(lc));
    sink::lemma_conform_wide(rr, row::types_of(rc));
    semantics::lemma_split_join(lc, rc, ps, lr, rr);
    semantics::lemma_join_bag(lr, rr, semantics::compiled_all(lc + rc, ps));
}

/// An operator without columns names what is not there.
pub proof fn lemma_schema_error(op: OpView, tables: Seq<TableSpec>)
    ensures
        query_support::schema_of(op, tables) matches Err(e) ==> misnamed(e)
            && !semantics::op_known(op, tables),
    decreases op,
{
    match op {
        OpView::Scan(_) => {},
        OpView::Filter(_, u) => lemma_schema_error(*u, tables),
        OpView::Project(_, u) => lemma_schema_error(*u, tables),
        OpView::Sort(_, u) => lemma_schema_error(*u, tables),
        OpView::Cross(l, r) => {
            lemma_schema_error(*l, tables);
            lemma_schema_error(*r, tables);
        },
    }
}

/// A predicate of a side is one of all, and belongs to the side.
proof fn lemma_side_member(
    ps: Seq<PredicateView>,
    lc: Seq<ColumnView>,
    rc: Seq<ColumnView>,
    side: PredicateSide,
    i: int,
) -> (j: int)
    requires
        0 <= i < query_support::side_predicates(ps, lc, rc, side).len(),
    ensures
        0 <= j < ps.len(),
        ps[j] == query_support::side_predicates(ps, lc, rc, side)[i],
        query_support::predicate_side(ps[j], lc, rc) == side,
    decreases ps.len(),
{
    let front = query_support::side_predicates(ps.drop_last(), lc, rc, side);
    if i < front.len() {
        lemma_side_member(ps.drop_last(), lc, rc, side, i)
    } else {
        ps.len() - 1
    }
}

/// Predicates that have answers on the rows of a cross product have them where
/// they are split: on the rows of the sides and on those of the join. The
/// columns of those on the sides are there, and those of the others where all
/// are.
pub proof fn lemma_split_answerable(
    lc: Seq<ColumnView>,
    rc: Seq<ColumnView>,
    ps: Seq<PredicateView>,
    lk: Seq<Kind>,
    rk: Seq<Kind>,
)
    requires
        lk.len() == lc.len(),
        rk.len() == rc.len(),
    ensures
        semantics::all_known(
            lc,
            query_support::side_predicates(ps, lc, rc, PredicateSide::Left),
        ),
        semantics::all_known(
            rc,
            query_support::side_predicates(ps, lc, rc, PredicateSide::Right),
        ),
        semantics::all_known(lc + rc, ps) ==> semantics::all_known(
            lc + rc,
            query_support::side_predicates(ps, lc, rc, PredicateSide::Cross),
        ),
        semantics::all_answerable(
            semantics::compiled_all(lc + rc, ps),
            lk + rk,
        ) ==> {
            &&& semantics::all_answerable(
                semantics::compiled_all(
                    lc,
                    query_support::side_predicates(ps, lc, rc, PredicateSide::Left),
                ),
                lk,
            )
            &&& semantics::all_answerable(
                semantics::compiled_all(
                    rc,
                    query_support::side_predicates(ps, lc, rc, PredicateSide::Right),
                ),
                rk,
            )
            &&& semantics::all_answerable(
                semantics::compiled_all(
                    lc + rc,
                    query_support::side_predicates(ps, lc, rc, PredicateSide::Cross),
                ),
                lk + rk,
            )
        },
{
    let all = semantics::compiled_all(lc + rc, ps);
    let kinds = lk + rk;
    let lp = query_support::side_predicates(ps, lc, rc, PredicateSide::Left);
    let rp = query_support::side_predicates(ps, lc, rc, PredicateSide::Right);
    let cp = query_support::side_predicates(ps, lc, rc, PredicateSide::Cross);
    let ls = semantics::compiled_all(lc, lp);
    let rs = semantics::compiled_all(rc, rp);
    let cs = semantics::compiled_all(lc + rc, cp);
    assert forall|i: int| 0 <= i < lp.len() implies semantics::predicate_known(lc, #[trigger] lp[i])
        && (semantics::all_answerable(all, kinds) ==> semantics::answerable(
        ls[i],
        lk,
    )) by {
        let j = lemma_side_member(ps, lc, rc, PredicateSide::Left, i);
        lemma_side_compiled(lc, rc, ps[j], lk, rk);
        if semantics::all_answerable(all, kinds) {
            assert(semantics::answerable(all[j], kinds));
        }
    }
    assert forall|i: int| 0 <= i < rp.len() implies semantics::predicate_known(rc, #[trigger] rp[i])
        && (semantics::all_answerable(all, kinds) ==> semantics::answerable(
        rs[i],
        rk,
    )) by {
        let j = lemma_side_member(ps, lc, rc, PredicateSide::Right, i);
        lemma_side_compiled(lc, rc, ps[j], lk, rk);
        if semantics::all_answerable(all, kinds) {
            assert(semantics::answerable(all[j], kinds));
        }
    }
    if semantics::all_known(lc + rc, ps) {
        assert forall|i: int| 0 <= i < cp.len() implies semantics::predicate_known(
            lc + rc,
            #[trigger] cp[i],
        ) by {
            let j = lemma_side_member(ps, lc, rc, PredicateSide::Cross, i);
            assert(semantics::predicate_known(lc + rc, ps[j]));
        }
    }
    if semantics::all_answerable(all, kinds) {
        assert forall|i: int| 0 <= i < ls.len() implies semantics::answerable(
            #[trigger] ls[i],
            lk,
        ) by {
            assert(lp[i] == lp[i]);
        }
        assert forall|i: int| 0 <= i < rs.len() implies semantics::answerable(
            #[trigger] rs[i],
            rk,
        ) by {
            assert(rp[i] == rp[i]);
        }
        assert forall|i: int| 0 <= i < cs.len() implies semantics::answerable(
            #[trigger] cs[i],
            kinds,
        ) by {
            let j = lemma_side_member(ps, lc, rc, PredicateSide::Cross, i);
            assert(semantics::answerable(all[j], kinds));
        }
    }
}

/// A predicate on one side has an answer on its rows where it has on joined
/// rows.
proof fn lemma_side_compiled(
    lc: Seq<ColumnView>,
    rc: Seq<ColumnView>,
    p: PredicateView,
    lk: Seq<Kind>,
    rk: Seq<Kind>,
)
    requires
        lk.len() == lc.len(),
        rk.len() == rc.len(),
    ensures
        query_support::predicate_side(p, lc, rc) is Left ==> semantics::predicate_known(lc, p) && (
        semantics::answerable(semantics::compiled(lc + rc, p), lk + rk)
            ==> semantics::answerable(semantics::compiled(lc, p), lk)),
        query_support::predicate_side(p, lc, rc) is Right ==> semantics::predicate_known(rc, p) && (
        semantics::answerable(semantics::compiled(lc + rc, p), lk + rk)
            ==> semantics::answerable(semantics::compiled(rc, p), rk)),
{
    semantics::lemma_combined_index(lc, rc, p.column);
    row::lemma_column_index(lc, p.column);
    row::lemma_column_index(rc, p.column);
    if let OperandView::Column(other) = p.value {
        semantics::lemma_combined_index(lc, rc, other);
        row::lemma_column_index(lc, other);
        row::lemma_column_index(rc, other);
    }
    assert(row::types_of(lc + rc) =~= row::types_of(lc) + row::types_of(rc));
}

/// Where running a side of a cross product under predicates can meet an error,
/// so can running the product.
pub proof fn lemma_cross_excuses(
    l: OpView,
    r: OpView,
    ps: Seq<PredicateView>,
    db: Database,
    size: int,
    e: DbError,
)
    requires
        query_support::schema_of(l, db.tables) is Ok,
        query_support::schema_of(r, db.tables) is Ok,
    ensures
        ({
            let lc = query_support::schema_of(l, db.tables)->Ok_0;
            let rc = query_support::schema_of(r, db.tables)->Ok_0;
            let lp = query_support::side_predicates(ps, lc, rc, PredicateSide::Left);
            let rp = query_support::side_predicates(ps, lc, rc, PredicateSide::Right);
            let cp = query_support::side_predicates(ps, lc, rc, PredicateSide::Cross);
            let whole = OpView::Cross(Box::new(l), Box::new(r));
            &&& side_excuses(l, lp, db, size, e) ==> side_excuses(whole, ps, db, size, e)
            &&& side_excuses(r, rp, db, size, e) ==> side_excuses(whole, ps, db, size, e)
            &&& sink::too_large(e, side_rows(l, lp, db), size) || sink::too_large(
                e,
                side_rows(r, rp, db),
                size,
            ) ==> side_excuses(whole, ps, db, size, e)
            &&& e == DbError::Incomparable && !semantics::all_answerable(
                semantics::compiled_all(lc + rc, cp),
                semantics::kinds(l, db) + semantics::kinds(r, db),
            ) ==> side_excuses(whole, ps, db, size, e)
        }),
{
    broadcast use {
        scratch_run::lemma_oversized_within,
    
    
    };

    let tables = db.tables;
    lemma_kinds_len(l, db);
    lemma_kinds_len(r, db);
    let ls = semantics::rows_of(l, db);
    let rs = semantics::rows_of(r, db);
    let lc = query_support::schema_of(l, tables)->Ok_0;
    let rc = query_support::schema_of(r, tables)->Ok_0;
    let lp = query_support::side_predicates(ps, lc, rc, PredicateSide::Left);
    let rp = query_support::side_predicates(ps, lc, rc, PredicateSide::Right);
    bag::lemma_within_front(ls, ls);
    bag::lemma_within_front(rs, rs);
    semantics::lemma_filter_within(ls, ls, semantics::compiled_all(lc, lp));
    semantics::lemma_filter_within(rs, rs, semantics::compiled_all(rc, rp));
    let whole = OpView::Cross(Box::new(l), Box::new(r));
    lemma_split_answerable(lc, rc, ps, semantics::kinds(l, db), semantics::kinds(r, db));
    assert(query_support::schema_of(whole, tables)->Ok_0 == lc + rc);
    assert(semantics::op_answerable(whole, db) == (semantics::op_answerable(l, db)
        && semantics::op_answerable(r, db)));
    assert(semantics::op_known(whole, tables) == (semantics::op_known(l, tables)
        && semantics::op_known(r, tables)));
}

/// The columns of predicates on a cross product are there where those of the
/// predicates on both sides are.
pub proof fn lemma_cross_known(
    lc: Seq<ColumnView>,
    rc: Seq<ColumnView>,
    ps: Seq<PredicateView>,
)
    requires
        semantics::all_known(
            lc + rc,
            query_support::side_predicates(ps, lc, rc, PredicateSide::Cross),
        ),
    ensures
        semantics::all_known(lc + rc, ps),
    decreases ps.len(),
{
    if ps.len() > 0 {
        let front = ps.drop_last();
        let p = ps.last();
        let cs = query_support::side_predicates(ps, lc, rc, PredicateSide::Cross);
        let before = query_support::side_predicates(front, lc, rc, PredicateSide::Cross);
        assert forall|i: int| 0 <= i < before.len() implies semantics::predicate_known(
            lc + rc,
            #[trigger] before[i],
        ) by {
            assert(cs[i] == before[i]);
        }
        lemma_cross_known(lc, rc, front);
        if query_support::predicate_side(p, lc, rc) is Cross {
            assert(cs[cs.len() - 1] == p);
        } else {
            semantics::lemma_combined_index(lc, rc, p.column);
            if let OperandView::Column(other) = p.value {
                semantics::lemma_combined_index(lc, rc, other);
            }
        }
        assert forall|i: int| 0 <= i < ps.len() implies semantics::predicate_known(
            lc + rc,
            #[trigger] ps[i],
        ) by {
            if i < front.len() {
                assert(ps[i] == front[i]);
            }
        }
    }
}

/// A predicate on projected columns, on those that they are picked from.
pub open spec fn remapped(
    p: PredicateView,
    q: PredicateView,
    map: Seq<(Seq<char>, Seq<char>)>,
) -> bool {
    &&& renames(map, p.column, q.column)
    &&& q.operator == p.operator
    &&& match (p.value, q.value) {
        (OperandView::Column(a), OperandView::Column(b)) => renames(map, a, b),
        (OperandView::Literal(a), OperandView::Literal(b)) => a == b,
        _ => false,
    }
}

/// The first column that is projected to a name is picked from another.
pub open spec fn renames(map: Seq<(Seq<char>, Seq<char>)>, to: Seq<char>, from: Seq<char>) -> bool {
    exists|i: int|
        0 <= i < map.len() && (#[trigger] map[i]).1 == to && map[i].0 == from && forall|j: int|
            0 <= j < i ==> (#[trigger] map[j]).1 != to
}

/// Predicates on projected columns, on those that they are picked from.
pub open spec fn all_remapped(
    ps: Seq<PredicateView>,
    qs: Seq<PredicateView>,
    map: Seq<(Seq<char>, Seq<char>)>,
) -> bool {
    &&& ps.len() == qs.len()
    &&& forall|i: int| 0 <= i < ps.len() ==> remapped(#[trigger] ps[i], qs[i], map)
}

/// Where a projection makes a column, and where it picks it from.
pub proof fn lemma_renamed_index(
    columns: Seq<ColumnView>,
    map: Seq<(Seq<char>, Seq<char>)>,
    to: Seq<char>,
    from: Seq<char>,
) -> (i: int)
    requires
        renames(map, to, from),
    ensures
        0 <= i < map.len(),
        row::column_index(row::map_columns(columns, map), to) == Some(i),
        map[i].0 == from,
        row::map_indexes(columns, map)[i] == row::column_index(columns, from)->0,
{
    let i = choose|i: int|
        0 <= i < map.len() && (#[trigger] map[i]).1 == to && map[i].0 == from && forall|j: int|
            0 <= j < i ==> (#[trigger] map[j]).1 != to;
    let projected = row::map_columns(columns, map);
    assert forall|j: int| 0 <= j < i implies (#[trigger] projected[j]).name != to by {
        assert(map[j].1 != to);
    }
    row::lemma_column_index_is(projected, to, i);
    i
}

/// The columns of predicates that are on projected columns are there.
pub proof fn lemma_remapped_known(
    columns: Seq<ColumnView>,
    map: Seq<(Seq<char>, Seq<char>)>,
    ps: Seq<PredicateView>,
    qs: Seq<PredicateView>,
)
    requires
        all_remapped(ps, qs, map),
    ensures
        semantics::all_known(row::map_columns(columns, map), ps),
{
    assert forall|i: int| 0 <= i < ps.len() implies semantics::predicate_known(
        row::map_columns(columns, map),
        #[trigger] ps[i],
    ) by {
        let p = ps[i];
        let q = qs[i];
        assert(remapped(p, q, map));
        let k = lemma_renamed_index(columns, map, p.column, q.column);
        if let (OperandView::Column(a), OperandView::Column(b)) = (p.value, q.value) {
            let j = lemma_renamed_index(columns, map, a, b);
        }
    }
}

/// What the columns of a projection hold.
pub open spec fn mapped_kinds(
    columns: Seq<ColumnView>,
    map: Seq<(Seq<char>, Seq<char>)>,
    kinds: Seq<Kind>,
) -> Seq<Kind> {
    Seq::new(map.len(), |c: int| kinds[row::column_index(columns, map[c].0)->0 as int])
}

/// Predicates that have answers on projected rows have them on the columns that
/// are picked, which are there.
pub proof fn lemma_remapped_answerable(
    columns: Seq<ColumnView>,
    map: Seq<(Seq<char>, Seq<char>)>,
    ps: Seq<PredicateView>,
    qs: Seq<PredicateView>,
    kinds: Seq<Kind>,
)
    requires
        all_remapped(ps, qs, map),
        row::map_known(columns, map),
        kinds.len() == columns.len(),
    ensures
        semantics::all_known(columns, qs),
        semantics::all_answerable(
            semantics::compiled_all(row::map_columns(columns, map), ps),
            mapped_kinds(columns, map, kinds),
        ) ==> semantics::all_answerable(
            semantics::compiled_all(columns, qs),
            kinds,
        ),
{
    let above = row::map_columns(columns, map);
    let cs = semantics::compiled_all(above, ps);
    let ds = semantics::compiled_all(columns, qs);
    assert forall|i: int| 0 <= i < qs.len() implies semantics::predicate_known(
        columns,
        #[trigger] qs[i],
    ) && (semantics::answerable(cs[i], mapped_kinds(columns, map, kinds)) ==> semantics::answerable(
        ds[i],
        kinds,
    )) by {
        let p = ps[i];
        let q = qs[i];
        assert(remapped(p, q, map));
        let k = lemma_renamed_index(columns, map, p.column, q.column);
        assert(row::column_index(columns, map[k].0) is Some);
        row::lemma_column_index(columns, map[k].0);
        if let (OperandView::Column(a), OperandView::Column(b)) = (p.value, q.value) {
            let j = lemma_renamed_index(columns, map, a, b);
            assert(row::column_index(columns, map[j].0) is Some);
            row::lemma_column_index(columns, map[j].0);
        }
    }
    if semantics::all_answerable(cs, mapped_kinds(columns, map, kinds)) {
        assert forall|i: int| 0 <= i < ds.len() implies semantics::answerable(
            #[trigger] ds[i],
            kinds,
        ) by {
            assert(qs[i] == qs[i]);
            assert(semantics::answerable(cs[i], mapped_kinds(columns, map, kinds)));
        }
    }
}

/// A predicate says of a projected row what it says of the row on the columns
/// that are picked.
proof fn lemma_remapped_result(
    columns: Seq<ColumnView>,
    map: Seq<(Seq<char>, Seq<char>)>,
    p: PredicateView,
    q: PredicateView,
    r: RowView,
)
    requires
        remapped(p, q, map),
        row::map_known(columns, map),
        r.len() == columns.len(),
    ensures
        semantics::meets(
            row::project_row(r, row::map_indexes(columns, map)),
            semantics::compiled(row::map_columns(columns, map), p),
        ) == semantics::meets(r, semantics::compiled(columns, q)),
{
    let indexes = row::map_indexes(columns, map);
    let i = lemma_renamed_index(columns, map, p.column, q.column);
    row::lemma_column_index(columns, q.column);
    assert(row::column_index(columns, map[i].0) is Some);
    match (p.value, q.value) {
        (OperandView::Column(a), OperandView::Column(b)) => {
            let j = lemma_renamed_index(columns, map, a, b);
            row::lemma_column_index(columns, b);
            assert(row::column_index(columns, map[j].0) is Some);
        },
        _ => {},
    }
}

/// Filtering what a projection makes is projecting what a filter leaves.
pub proof fn lemma_filter_project(
    columns: Seq<ColumnView>,
    map: Seq<(Seq<char>, Seq<char>)>,
    ps: Seq<PredicateView>,
    qs: Seq<PredicateView>,
    rows: Seq<RowView>,
)
    requires
        all_remapped(ps, qs, map),
        row::map_known(columns, map),
        semantics::all_wide(rows, columns.len()),
    ensures
        semantics::filter_rows(
            semantics::project_rows(rows, row::map_indexes(columns, map)),
            semantics::compiled_all(row::map_columns(columns, map), ps),
        ) == semantics::project_rows(
            semantics::filter_rows(rows, semantics::compiled_all(columns, qs)),
            row::map_indexes(columns, map),
        ),
    decreases rows.len(),
{
    let indexes = row::map_indexes(columns, map);
    let outer = semantics::compiled_all(row::map_columns(columns, map), ps);
    let inner = semantics::compiled_all(columns, qs);
    let projected = semantics::project_rows(rows, indexes);
    if rows.len() == 0 {
        assert(semantics::filter_rows(projected, outer) =~= semantics::project_rows(
            semantics::filter_rows(rows, inner),
            indexes,
        ));
    } else {
        let front = rows.drop_last();
        let r = rows.last();
        assert(semantics::all_wide(front, columns.len())) by {
            assert forall|i: int| 0 <= i < front.len() implies (#[trigger] front[i]).len()
                == columns.len() by {
                assert(front[i] == rows[i]);
            }
        }
        assert(rows[rows.len() - 1].len() == columns.len());
        lemma_filter_project(columns, map, ps, qs, front);
        assert(projected.drop_last() =~= semantics::project_rows(front, indexes));
        let pr = row::project_row(r, indexes);
        assert(projected.last() == pr);
        assert(semantics::holds(pr, outer) == semantics::holds(r, inner)) by {
            assert forall|i: int| 0 <= i < ps.len() implies semantics::meets(pr, outer[i])
                == semantics::meets(r, inner[i]) by {
                assert(remapped(ps[i], qs[i], map));
                lemma_remapped_result(columns, map, ps[i], qs[i], r);
            }
            if semantics::holds(pr, outer) {
                assert forall|i: int| 0 <= i < inner.len() implies semantics::meets(
                    r,
                    #[trigger] inner[i],
                ) by {
                    assert(semantics::meets(pr, outer[i]));
                }
            }
            if semantics::holds(r, inner) {
                assert forall|i: int| 0 <= i < outer.len() implies semantics::meets(
                    pr,
                    #[trigger] outer[i],
                ) by {
                    assert(semantics::meets(r, inner[i]));
                }
            }
        }
        let kept = semantics::filter_rows(front, inner);
        assert(semantics::project_rows(kept.push(r), indexes) =~= semantics::project_rows(
            kept,
            indexes,
        ).push(pr));
    }
}

/// Joining with no predicates is the cross product.
pub proof fn lemma_probe_cross(lefts: Seq<RowView>, rights: Seq<RowView>, ps: Seq<CompiledView>)
    requires
        ps.len() == 0,
    ensures
        semantics::probe_rows(rights, lefts, false, ps) == semantics::cross_rows(lefts, rights),
    decreases lefts.len(),
{
    if lefts.len() > 0 {
        lemma_probe_cross(lefts.drop_last(), rights, ps);
        lemma_matches_pairs(lefts.last(), rights, ps);
    }
}

proof fn lemma_matches_pairs(l: RowView, rights: Seq<RowView>, ps: Seq<CompiledView>)
    requires
        ps.len() == 0,
    ensures
        semantics::matches_of(rights, l, false, ps) == semantics::pair_rows(l, rights),
    decreases rights.len(),
{
    let pairs = semantics::pair_rows(l, rights);
    if rights.len() == 0 {
        assert(semantics::matches_of(rights, l, false, ps) =~= pairs);
    } else {
        lemma_matches_pairs(l, rights.drop_last(), ps);
        assert(semantics::holds(l + rights.last(), ps));
        assert(pairs =~= semantics::pair_rows(l, rights.drop_last()).push(l + rights.last()));
    }
}

/// A cross product does not depend on the order of its sides.
pub proof fn lemma_cross_bag(
    l1: Seq<RowView>,
    r1: Seq<RowView>,
    l2: Seq<RowView>,
    r2: Seq<RowView>,
)
    requires
        bag::bag(l1) == bag::bag(l2),
        bag::bag(r1) == bag::bag(r2),
    ensures
        bag::bag(semantics::cross_rows(l1, r1)) == bag::bag(semantics::cross_rows(l2, r2)),
{
    let none = Seq::<CompiledView>::empty();
    semantics::lemma_join_bag(l1, r1, none);
    semantics::lemma_join_bag(l2, r2, none);
    lemma_filter_none(semantics::cross_rows(l1, r1), none);
    lemma_filter_none(semantics::cross_rows(l2, r2), none);
    semantics::lemma_join_same_bags(l1, r1, l2, r2, none);
}

/// A stage was put before a sink, rows went through it, and it is taken away.
pub proof fn lemma_node_done<R: Input, W: Output, F: RowOutput>(
    sink: RowSink<F>,
    d0: DiskClient<R, W>,
    s0: ScratchSpace,
    inner: RowSink<F>,
    view: StageView,
    held: Set<int>,
    d1: DiskClient<R, W>,
    s1: ScratchSpace,
    out: RowSink<F>,
    d2: DiskClient<R, W>,
    s2: ScratchSpace,
)
    requires
        scratch_run::kept(d0, s0, d1, s1, sink.own()),
        inner.shape() == Shape::Node(view, sink.log(), held, Box::new(sink.shape())),
        scratch_run::grown(sink.own(), s0, inner.own()),
        scratch_run::kept(d1, s1, d2, s2, inner.own()),
        sink::advanced(inner, d1, s1, out, d2, s2),
    ensures
        scratch_run::kept(d0, s0, d2, s2, sink.own()),
        out matches RowSink::Node(node) && {
            &&& node.stage.view() == view
            &&& node.stage.held() == held
            &&& scratch_run::in_use(held, s2)
            &&& held.disjoint(node.next.own())
            &&& sink::advanced(sink, d0, s0, *node.next, d2, s2)
            &&& scratch_run::grown(sink.own(), s0, node.stage.own())
            &&& scratch_run::in_use(node.stage.own(), s2)
            &&& node.stage.own().disjoint(node.next.own())
            &&& node.stage.own().disjoint(node.next.held())
            &&& node.stage.wf(d2, s2, node.next.types(), out.log())
            &&& frame::trusty(d2, s2) ==> node.next.log() == sink.log() + view.image(out.log())
        },
{
    frame::lemma_kept_trans(d0, s0, d1, s1, d2, s2, sink.own(), inner.own());
    frame::lemma_grown_trans(d0, s0, d1, s1, sink.own(), inner.own(), out.own());
    assert(out is Node);
    let node = out->Node_0;
    out.lemma_own_in_use(d2, s2);
    assert forall|b: int| #[trigger] node.next.own().contains(b) implies sink.own().contains(b)
        || !s0.allocated(b) by {
        assert(out.own().contains(b));
    }
    assert forall|b: int| #[trigger] held.contains(b) implies s2.allocated(b) by {
        assert(out.held().contains(b));
    }
    assert forall|b: int| #[trigger] node.stage.own().contains(b) implies (sink.own().contains(b)
        || !s0.allocated(b)) && s2.allocated(b) by {
        assert(out.own().contains(b));
    }
}

/// An operator that is a pipeline names only what is there, where nothing is
/// wrong with it.
pub proof fn lemma_pipeline_known(op: OpView, tables: Seq<TableSpec>)
    requires
        semantics::is_pipeline(op),
        scan_pipeline::pipeline_error(op, tables) is None,
    ensures
        semantics::op_known(op, tables),
    decreases op,
{
    match op {
        OpView::Filter(_, u) => lemma_pipeline_known(*u, tables),
        OpView::Project(_, u) => lemma_pipeline_known(*u, tables),
        _ => {},
    }
}

/// A cross product, or columns picked from one.
pub open spec fn is_join_chain(op: OpView) -> bool
    decreases op,
{
    match op {
        OpView::Cross(_, _) => true,
        OpView::Project(_, u) => is_join_chain(*u),
        _ => false,
    }
}

/// The rows of a cross product come in no given order.
pub proof fn lemma_join_chain_unordered(op: OpView)
    requires
        is_join_chain(op),
    ensures
        !semantics::is_pipeline(op),
        !semantics::is_sorted_chain(op),
    decreases op,
{
    if let OpView::Project(_, u) = op {
        lemma_join_chain_unordered(*u);
    }
}

} // verus!
