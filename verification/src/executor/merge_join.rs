//! Joins of tables that are in order on the device.

use vstd::prelude::*;

use crate::bag;
use crate::catalog::db_context::DbContext;
use crate::catalog::table::{ColumnView, TableSpec};
use crate::data;
use crate::data::{Data, DataType};
use crate::error::DbError;
use crate::estimation;
use crate::estimation::{estimate_distinct_values, estimate_query_rows};
use crate::executor;
use crate::executor::feed;
use crate::executor::feed::push_further;
use crate::executor::frame;
use crate::executor::hash;
use crate::executor::keys;
use crate::executor::outcome;
use crate::executor::partition;
use crate::executor::rewrite;
use crate::executor::rewrite::wrap_filter_if_needed;
use crate::executor::sink;
use crate::executor::sink::RowSink;
use crate::executor::value;
use crate::executor::value::compare_values;
use crate::executor::{row_satisfies_predicates, CompiledPredicate};
use crate::io::{Input, Output};
use crate::number::Order;
use crate::query;
use crate::query::{clone_predicates, OpView, Predicate, PredicateView, QueryOp};
use crate::query_support;
use crate::row;
use crate::row::{Row, Schema};
use crate::scan_pipeline;
use crate::scan_pipeline::{try_compile_scan_pipeline, ScanPipelineCursor, ScanPipelinePlan};
use crate::semantics;
use crate::semantics::{CompiledView, Kind, RowView};
use crate::storage::block_allocator::ScratchSpace;
use crate::storage::disk_client::{DiskClient, DiskLayout};
use crate::storage::row_codec;
use crate::storage::scratch_run;
use crate::storage::scratch_run::RowOutput;

verus! {

broadcast use {
    sink::lemma_excuses_within,
};

/// One side of a join by keys: an operator under predicates, its columns, its
/// key columns, and what a table of its rows is estimated to take.
#[derive(Clone, Copy)]
pub struct JoinInput<'a> {
    pub op: &'a QueryOp,
    pub predicates: &'a Vec<Predicate>,
    pub schema: &'a Schema,
    pub key_indexes: &'a Vec<usize>,
    pub estimated_hash_bytes: u128,
}

impl JoinInput<'_> {
    /// The key columns.
    pub open spec fn keys(self) -> Seq<int> {
        row::as_ints(self.key_indexes@)
    }

    /// The predicates.
    pub open spec fn ps(self) -> Seq<PredicateView> {
        query::predicate_views(self.predicates@)
    }

    /// The operator under its predicates.
    pub open spec fn whole(self) -> OpView {
        rewrite::wrapped(self.ps(), self.op@)
    }

    /// The side is a chain of operators on a table that is in order of its only
    /// key.
    pub open spec fn in_order(self, tables: Seq<TableSpec>) -> bool {
        &&& self.keys().len() == 1
        &&& semantics::is_pipeline(self.whole())
        &&& scan_pipeline::output_ordered(self.whole(), tables, self.keys()[0])
    }

    /// The columns are those of the operator, and the keys are among them.
    pub open spec fn ready(self, tables: Seq<TableSpec>) -> bool {
        &&& query_support::schema_of(self.op@, tables) == Ok::<Seq<ColumnView>, DbError>(
            self.schema@,
        )
        &&& hash::keys_below(self.keys(), self.schema@.len() as int)
    }
}

/// The value has an order with those of a column.
spec fn ordered_with_key(rows: Seq<RowView>, key: int, v: data::DataValue) -> bool {
    forall|i: int| 0 <= i < rows.len() ==> value::order(#[trigger] rows[i][key], v) is Some
}

/// The values of a column are of the kind.
spec fn column_fits(rows: Seq<RowView>, key: int, kind: Kind) -> bool {
    forall|i: int| 0 <= i < rows.len() ==> semantics::fits(#[trigger] rows[i][key], kind)
}

/// The values of two columns are texts, or are numbers and none of them NaN.
spec fn ordered_keys(lefts: Seq<RowView>, l: int, rights: Seq<RowView>, r: int) -> bool {
    ||| column_fits(lefts, l, Kind::Text) && column_fits(rights, r, Kind::Text)
    ||| column_fits(lefts, l, Kind::Number) && column_fits(rights, r, Kind::Number)
}

/// One side of a join: a pass over a table and the row that it stands at.
struct OrderedSide {
    cursor: ScanPipelineCursor,
    key: usize,
    row: Option<Row>,
}

impl OrderedSide {
    spec fn plan(self) -> ScanPipelinePlan {
        self.cursor.plan()
    }

    spec fn types(self) -> Seq<DataType> {
        row::types_of(self.plan().output())
    }

    /// The error that the predicates of the pass can give.
    spec fn fails(self, layout: DiskLayout, e: DbError) -> bool {
        feed::can_stop(self.cursor, layout, e)
    }

    spec fn wf(self) -> bool {
        &&& self.row is Some ==> self.cursor.wf()
        &&& self.key < self.types().len()
        &&& self.row matches Some(r) ==> data::conforms(r@, self.types())
    }

    /// The side stands at row `i` of its table, or behind the last.
    spec fn stands_at(self, layout: DiskLayout, i: int) -> bool {
        let rows = self.plan().rows(layout);
        match self.row {
            Some(r) => {
                &&& self.cursor.in_step(layout)
                &&& 0 <= i < rows.len()
                &&& rows[i] == r@
                &&& self.cursor.emitted() == rows.take(i + 1)
            },
            None => i == rows.len(),
        }
    }

    spec fn live(self) -> nat {
        if self.row is Some {
            1
        } else {
            0
        }
    }

    /// Starts at the first row.
    fn open<R: Input, W: Output>(
        cursor: ScanPipelineCursor,
        key: usize,
        disk: &mut DiskClient<R, W>,
    ) -> (r: Result<OrderedSide, DbError>)
        requires
            cursor.wf(),
            cursor.emitted() == Seq::<RowView>::empty(),
            key < cursor.plan().output().len(),
        ensures
            final(disk).unwritten_since(*old(disk)),
            r matches Ok(side) ==> {
                &&& side.wf()
                &&& side.plan() == cursor.plan()
                &&& side.key == key
                &&& final(disk).honest() && cursor.in_step(old(disk).layout())
                    && cursor.plan().file_ok(old(disk).layout()) ==> side.stands_at(
                    old(disk).layout(),
                    0,
                )
            },
            final(disk).honest() && cursor.in_step(old(disk).layout()) && cursor.plan().file_ok(
                old(disk).layout(),
            ) ==> (r matches Err(e) ==> feed::can_stop(cursor, old(disk).layout(), e)),
    {
        let ghost layout = disk.layout();
        let mut cursor = cursor;
        let ghost before = cursor;
        let row = cursor.next_row(disk)?;
        proof {
            if row is Some && disk.honest() && before.in_step(layout) && before.plan().file_ok(
                layout,
            ) {
                cursor.lemma_prefix(layout);
                assert(cursor.emitted()[0] == row->0@);
            }
        }
        Ok(OrderedSide { cursor, key, row })
    }

    /// Hands out the row and goes on to the next.
    fn advance<R: Input, W: Output>(&mut self, disk: &mut DiskClient<R, W>) -> (r: Result<
        Row,
        DbError,
    >)
        requires
            old(self).wf(),
            old(self).row is Some,
        ensures
            final(disk).unwritten_since(*old(disk)),
            r matches Ok(row) ==> {
                &&& row@ == old(self).row->0@
                &&& final(self).wf()
                &&& final(self).plan() == old(self).plan()
                &&& final(self).key == old(self).key
                &&& final(self).row is Some ==> final(self).cursor.blocks_left() < old(
                    self).cursor.blocks_left() || (final(self).cursor.blocks_left() == old(
                    self).cursor.blocks_left() && final(self).cursor.rows_left() < old(
                    self).cursor.rows_left())
                &&& forall|i: int|
                    final(disk).honest() && #[trigger] old(self).stands_at(old(disk).layout(), i)
                        && old(self).plan().file_ok(old(disk).layout()) ==> final(self).stands_at(
                        old(disk).layout(),
                        i + 1,
                    )
            },
            forall|i: int|
                final(disk).honest() && #[trigger] old(self).stands_at(old(disk).layout(), i)
                    && old(self).plan().file_ok(old(disk).layout()) ==> (r matches Err(e) ==> old(
                    self,
                ).fails(old(disk).layout(), e)),
    {
        let ghost layout = disk.layout();
        let ghost before = *self;
        let mut held: Option<Row> = None;
        core::mem::swap(&mut held, &mut self.row);
        self.row = self.cursor.next_row(disk)?;
        proof {
            let rows = before.plan().rows(layout);
            assert forall|i: int|
                disk.honest() && #[trigger] before.stands_at(layout, i) && before.plan().file_ok(
                    layout,
                ) implies self.stands_at(layout, i + 1) by {
                if self.row is Some {
                    self.cursor.lemma_prefix(layout);
                    let emitted = self.cursor.emitted();
                    assert(emitted == rows.take(i + 1).push(self.row->0@));
                    assert(emitted.len() == i + 2);
                    assert(emitted[i + 1] == rows[i + 1]);
                } else {
                    assert(rows.take(i + 1) == rows);
                }
            }
        }
        match held {
            Some(row) => Ok(row),
            None => vstd::pervasive::unreached(),
        }
    }

    /// Hands out the row and those behind it with the same key.
    fn take_group<R: Input, W: Output>(&mut self, join_key: &Data, disk: &mut DiskClient<R, W>) -> (r:
        Result<Vec<Row>, DbError>)
        requires
            old(self).wf(),
            old(self).row matches Some(row) && value::order(row@[old(self).key as int], join_key@)
                == Some(Order::Equal),
        ensures
            final(disk).unwritten_since(*old(disk)),
            r matches Ok(group) ==> {
                let views = row::row_views(group@);
                &&& group@.len() > 0
                &&& final(self).wf()
                &&& final(self).plan() == old(self).plan()
                &&& final(self).key == old(self).key
                &&& final(self).live() < old(self).live() || final(self).cursor.blocks_left()
                    < old(self).cursor.blocks_left() || (final(self).cursor.blocks_left() == old(
                    self).cursor.blocks_left() && final(self).cursor.rows_left() < old(
                    self).cursor.rows_left())
                &&& row_codec::all_conform(views, old(self).types())
                &&& forall|k: int|
                    0 <= k < views.len() ==> value::order(
                        (#[trigger] views[k])[old(self).key as int],
                        join_key@,
                    ) == Some(Order::Equal)
                &&& final(self).row matches Some(next) ==> value::order(
                    next@[old(self).key as int],
                    join_key@,
                ) is Some && value::order(next@[old(self).key as int], join_key@) != Some(
                    Order::Equal,
                )
                &&& forall|i: int|
                    final(disk).honest() && #[trigger] old(self).stands_at(old(disk).layout(), i)
                        && old(self).plan().file_ok(old(disk).layout()) ==> {
                        &&& final(self).stands_at(old(disk).layout(), i + views.len())
                        &&& i + views.len() <= old(self).plan().rows(old(disk).layout()).len()
                        &&& views == old(self).plan().rows(old(disk).layout()).subrange(
                            i,
                            i + views.len(),
                        )
                    }
            },
            forall|i: int|
                final(disk).honest() && #[trigger] old(self).stands_at(old(disk).layout(), i)
                    && old(self).plan().file_ok(old(disk).layout()) ==> (r matches Err(e) ==> old(
                    self,
                ).fails(old(disk).layout(), e) || (e == DbError::Incomparable && !ordered_with_key(
                    old(self).plan().rows(old(disk).layout()),
                    old(self).key as int,
                    join_key@,
                ))),
    {
        let ghost layout = disk.layout();
        let ghost start = *self;
        let ghost d0 = *disk;
        let ghost rows = start.plan().rows(layout);
        let ghost good = start.plan().file_ok(layout);
        let mut group: Vec<Row> = Vec::new();
        loop
            invariant
                start == *old(self),
                start.row is Some,
                d0 == *old(disk),
                layout == d0.layout(),
                rows == start.plan().rows(layout),
                good == start.plan().file_ok(layout),
                disk.unwritten_since(d0),
                self.wf(),
                self.plan() == start.plan(),
                self.key == start.key,
                self.row matches Some(row) && value::order(row@[self.key as int], join_key@)
                    == Some(Order::Equal),
                row_codec::all_conform(row::row_views(group@), start.types()),
                forall|k: int|
                    0 <= k < group@.len() ==> value::order(
                        (#[trigger] row::row_views(group@)[k])[self.key as int],
                        join_key@,
                    ) == Some(Order::Equal),
                group@.len() == 0 ==> *self == start,
                group@.len() > 0 ==> self.cursor.blocks_left() < start.cursor.blocks_left() || (
                self.cursor.blocks_left() == start.cursor.blocks_left() && self.cursor.rows_left()
                    < start.cursor.rows_left()),
                forall|i: int|
                    disk.honest() && #[trigger] start.stands_at(layout, i) && good ==> {
                        &&& self.stands_at(layout, i + group@.len())
                        &&& row::row_views(group@) == rows.subrange(i, i + group@.len())
                    },
            decreases self.cursor.blocks_left(), self.cursor.rows_left(),
        {
            let ghost before = group@;
            let ghost here = *self;
            let row = self.advance(disk)?;
            let ghost view = row@;
            group.push(row);
            proof {
                let views = row::row_views(group@);
                assert(views =~= row::row_views(before).push(view));
                partition::lemma_conform_push(row::row_views(before), view, start.types());
                assert forall|k: int| 0 <= k < group@.len() implies value::order(
                    (#[trigger] views[k])[self.key as int],
                    join_key@,
                ) == Some(Order::Equal) by {
                    if k < before.len() {
                        assert(views[k] == row::row_views(before)[k]);
                    }
                }
                assert forall|i: int|
                    disk.honest() && #[trigger] start.stands_at(layout, i) && good implies {
                    &&& self.stands_at(layout, i + group@.len())
                    &&& i + group@.len() <= rows.len()
                    &&& views == rows.subrange(i, i + group@.len())
                } by {
                    assert(here.stands_at(layout, i + before.len()));
                    assert(rows[i + before.len()] == view);
                    assert(rows.subrange(i, i + group@.len()) =~= rows.subrange(
                        i,
                        i + before.len(),
                    ).push(view));
                }
            }
            match &self.row {
                None => {
                    return Ok(group);
                },
                Some(next) => {
                    proof {
                        assert(next@[self.key as int].data_type()
                            == start.types()[self.key as int]);
                        assert forall|i: int|
                            disk.honest() && #[trigger] start.stands_at(layout, i) && good
                                && ordered_with_key(
                                rows,
                                start.key as int,
                                join_key@,
                            ) implies value::order(next@[self.key as int], join_key@) is Some by {
                            assert(self.stands_at(layout, i + group@.len()));
                            assert(rows[i + group@.len()] == next@);
                        }
                    }
                    match compare_values(&next.values()[self.key], join_key)? {
                        Order::Equal => {},
                        _ => {
                            return Ok(group);
                        },
                    }
                },
            }
        }
    }
}

/// Sends what a row makes with others to a sink.
fn emit_pairs<R: Input, W: Output, F: RowOutput>(
    left: &Row,
    rights: &Vec<Row>,
    left_types: Ghost<Seq<DataType>>,
    right_types: Ghost<Seq<DataType>>,
    compiled_cross: &Vec<CompiledPredicate>,
    sink: &mut RowSink<F>,
    start: Ghost<RowSink<F>>,
    d0: Ghost<DiskClient<R, W>>,
    s0: Ghost<ScratchSpace>,
    disk: &mut DiskClient<R, W>,
    scratch: &mut ScratchSpace,
) -> (r: Result<(), DbError>)
    requires
        old(scratch).wf(),
        scratch_run::kept(d0@, s0@, *old(disk), *old(scratch), start@.own()),
        sink::advanced(start@, d0@, s0@, *old(sink), *old(disk), *old(scratch)),
        start@.types() == left_types@ + right_types@,
        data::conforms(left@, left_types@),
        row_codec::all_conform(row::row_views(rights@), right_types@),
    ensures
        scratch_run::kept(d0@, s0@, *final(disk), *final(scratch), start@.own()),
        r is Ok ==> sink::advanced(start@, d0@, s0@, *final(sink), *final(disk), *final(scratch)),
        r is Ok ==> sink::settled(*old(sink), *old(scratch), *final(sink), *final(scratch)),
        r is Ok ==> final(sink).log() == old(sink).log() + semantics::filter_rows(
            semantics::pair_rows(left@, row::row_views(rights@)),
            executor::compiled_views(compiled_cross@),
        ),
        frame::trusty(*final(disk), *final(scratch)) ==> frame::trusty(*old(disk), *old(scratch)),
        r matches Err(e) ==> !scratch_run::able(*final(disk), *final(scratch)) || semantics::probe_fails(
            row::row_views(rights@),
            left@,
            false,
            executor::compiled_views(compiled_cross@),
            e,
        ) || start@.shape().excuses(
            e,
            s0@.size() as int,
            old(sink).log() + semantics::filter_rows(
                semantics::pair_rows(left@, row::row_views(rights@)),
                executor::compiled_views(compiled_cross@),
            ),
        ),
{
    let ghost views = row::row_views(rights@);
    let ghost ps = executor::compiled_views(compiled_cross@);
    let ghost log = sink.log();
    let ghost pairs = semantics::pair_rows(left@, views);
    let mut i: usize = 0;
    proof {
        assert(pairs.take(0) =~= Seq::<RowView>::empty());
        assert(log + semantics::filter_rows(pairs.take(0), ps) =~= log);
    }
    while i < rights.len()
        invariant
            i <= rights@.len(),
            scratch.wf(),
            views == row::row_views(rights@),
            ps == executor::compiled_views(compiled_cross@),
            pairs == semantics::pair_rows(left@, views),
            log == old(sink).log(),
            start@.types() == left_types@ + right_types@,
            data::conforms(left@, left_types@),
            row_codec::all_conform(views, right_types@),
            scratch_run::kept(d0@, s0@, *disk, *scratch, start@.own()),
            sink::advanced(start@, d0@, s0@, *sink, *disk, *scratch),
            sink::settled(*old(sink), *old(scratch), *sink, *scratch),
            sink.log() == log + semantics::filter_rows(pairs.take(i as int), ps),
            frame::trusty(*disk, *scratch) ==> frame::trusty(*old(disk), *old(scratch)),
        decreases rights@.len() - i,
    {
        let joined = Row::combine(left, &rights[i]);
        proof {
            assert(views[i as int] == rights@[i as int]@);
            assert(data::conforms(views[i as int], right_types@));
            assert(data::conforms(joined@, start@.types()));
            assert(semantics::joined_row(views[i as int], left@, false) == joined@);
            assert(pairs[i as int] == joined@);
            assert(pairs.take(i + 1) =~= pairs.take(i as int).push(joined@));
            semantics::lemma_filter_push(pairs.take(i as int), joined@, ps);
            let front = semantics::filter_rows(pairs.take(i as int), ps);
            assert((log + front).push(joined@) =~= log + front.push(joined@));
            if semantics::holds(joined@, ps) {
                assert(pairs =~= pairs.take(i + 1) + pairs.skip(i + 1));
                semantics::lemma_filter_concat(pairs.take(i + 1), pairs.skip(i + 1), ps);
                bag::lemma_within_front(
                    sink.log().push(joined@),
                    log + semantics::filter_rows(pairs, ps),
                );
            }
        }
        if row_satisfies_predicates(&joined, compiled_cross)? {
            push_further(sink, joined, start, d0, s0, disk, scratch)?;
        }
        i = i + 1;
    }
    assert(pairs.take(i as int) =~= pairs);
    Ok(())
}

/// Sends what rows make with others to a sink, each with each.
fn emit_group<R: Input, W: Output, F: RowOutput>(
    lefts: &Vec<Row>,
    rights: &Vec<Row>,
    left_types: Ghost<Seq<DataType>>,
    right_types: Ghost<Seq<DataType>>,
    compiled_cross: &Vec<CompiledPredicate>,
    sink: &mut RowSink<F>,
    start: Ghost<RowSink<F>>,
    d0: Ghost<DiskClient<R, W>>,
    s0: Ghost<ScratchSpace>,
    disk: &mut DiskClient<R, W>,
    scratch: &mut ScratchSpace,
) -> (r: Result<(), DbError>)
    requires
        old(scratch).wf(),
        scratch_run::kept(d0@, s0@, *old(disk), *old(scratch), start@.own()),
        sink::advanced(start@, d0@, s0@, *old(sink), *old(disk), *old(scratch)),
        start@.types() == left_types@ + right_types@,
        row_codec::all_conform(row::row_views(lefts@), left_types@),
        row_codec::all_conform(row::row_views(rights@), right_types@),
    ensures
        scratch_run::kept(d0@, s0@, *final(disk), *final(scratch), start@.own()),
        r is Ok ==> sink::advanced(start@, d0@, s0@, *final(sink), *final(disk), *final(scratch)),
        r is Ok ==> sink::settled(*old(sink), *old(scratch), *final(sink), *final(scratch)),
        r is Ok ==> final(sink).log() == old(sink).log() + semantics::filter_rows(
            semantics::cross_rows(row::row_views(lefts@), row::row_views(rights@)),
            executor::compiled_views(compiled_cross@),
        ),
        frame::trusty(*final(disk), *final(scratch)) ==> frame::trusty(*old(disk), *old(scratch)),
        r matches Err(e) ==> !scratch_run::able(*final(disk), *final(scratch)) || semantics::pairs_fail(
            row::row_views(rights@),
            row::row_views(lefts@),
            false,
            executor::compiled_views(compiled_cross@),
            e,
        ) || start@.shape().excuses(
            e,
            s0@.size() as int,
            old(sink).log() + semantics::filter_rows(
                semantics::cross_rows(row::row_views(lefts@), row::row_views(rights@)),
                executor::compiled_views(compiled_cross@),
            ),
        ),
{
    let ghost lv = row::row_views(lefts@);
    let ghost rv = row::row_views(rights@);
    let ghost ps = executor::compiled_views(compiled_cross@);
    let ghost log = sink.log();
    let mut i: usize = 0;
    proof {
        assert(lv.take(0) =~= Seq::<RowView>::empty());
        assert(log + semantics::filter_rows(semantics::cross_rows(lv.take(0), rv), ps) =~= log);
    }
    while i < lefts.len()
        invariant
            i <= lefts@.len(),
            scratch.wf(),
            lv == row::row_views(lefts@),
            rv == row::row_views(rights@),
            ps == executor::compiled_views(compiled_cross@),
            log == old(sink).log(),
            start@.types() == left_types@ + right_types@,
            row_codec::all_conform(lv, left_types@),
            row_codec::all_conform(rv, right_types@),
            scratch_run::kept(d0@, s0@, *disk, *scratch, start@.own()),
            sink::advanced(start@, d0@, s0@, *sink, *disk, *scratch),
            sink::settled(*old(sink), *old(scratch), *sink, *scratch),
            sink.log() == log + semantics::filter_rows(
                semantics::cross_rows(lv.take(i as int), rv),
                ps,
            ),
            frame::trusty(*disk, *scratch) ==> frame::trusty(*old(disk), *old(scratch)),
        decreases lefts@.len() - i,
    {
        proof {
            assert(lv[i as int] == lefts@[i as int]@);
            assert(data::conforms(lv[i as int], left_types@));
            assert(lv.take(i + 1).drop_last() =~= lv.take(i as int));
            let front = semantics::cross_rows(lv.take(i as int), rv);
            let more = semantics::pair_rows(lv[i as int], rv);
            semantics::lemma_filter_concat(front, more, ps);
            assert(log + semantics::filter_rows(front, ps) + semantics::filter_rows(more, ps)
                =~= log + (semantics::filter_rows(front, ps) + semantics::filter_rows(more, ps)));
            assert(lv =~= lv.take(i + 1) + lv.skip(i + 1));
            lemma_join_concat_left(lv.take(i + 1), lv.skip(i + 1), rv, ps);
            assert(semantics::cross_rows(lv.take(i + 1), rv) == front + more);
            bag::lemma_within_front(
                sink.log() + semantics::filter_rows(more, ps),
                log + semantics::filter_rows(semantics::cross_rows(lv, rv), ps),
            );
        }
        emit_pairs(
            &lefts[i],
            rights,
            left_types,
            right_types,
            compiled_cross,
            sink,
            start,
            d0,
            s0,
            disk,
            scratch,
        )?;
        i = i + 1;
    }
    assert(lv.take(i as int) =~= lv);
    Ok(())
}

/// No row of one side matches one of the other.
spec fn no_match(a: Seq<RowView>, b: Seq<RowView>, ps: Seq<CompiledView>) -> bool {
    forall|i: int, j: int|
        0 <= i < a.len() && 0 <= j < b.len() ==> !semantics::holds(
            #[trigger] a[i] + #[trigger] b[j],
            ps,
        )
}

/// The rows of a join, those of each left row in the order of the right rows.
spec fn joined(lefts: Seq<RowView>, rights: Seq<RowView>, ps: Seq<CompiledView>) -> Seq<RowView> {
    semantics::filter_rows(semantics::cross_rows(lefts, rights), ps)
}

/// A row that matches none of some makes nothing with them.
proof fn lemma_no_pair(l: RowView, b: Seq<RowView>, ps: Seq<CompiledView>)
    requires
        forall|j: int| 0 <= j < b.len() ==> !semantics::holds(l + #[trigger] b[j], ps),
    ensures
        semantics::filter_rows(semantics::pair_rows(l, b), ps) == Seq::<RowView>::empty(),
{
    let pairs = semantics::pair_rows(l, b);
    let out = semantics::filter_rows(pairs, ps);
    semantics::lemma_filter_members(pairs, ps);
    if out.len() > 0 {
        assert(pairs.contains(out[0]) && semantics::holds(out[0], ps));
        let j = choose|j: int| 0 <= j < pairs.len() && pairs[j] == out[0];
        assert(!semantics::holds(l + b[j], ps));
    }
    assert(out =~= Seq::<RowView>::empty());
}

proof fn lemma_no_match(a: Seq<RowView>, b: Seq<RowView>, ps: Seq<CompiledView>)
    requires
        no_match(a, b, ps),
    ensures
        joined(a, b, ps) == Seq::<RowView>::empty(),
    decreases a.len(),
{
    if a.len() > 0 {
        let front = a.drop_last();
        assert(no_match(front, b, ps)) by {
            assert forall|i: int, j: int|
                0 <= i < front.len() && 0 <= j < b.len() implies !semantics::holds(
                #[trigger] front[i] + #[trigger] b[j],
                ps,
            ) by {
                assert(a[i] == front[i]);
            }
        }
        lemma_no_match(front, b, ps);
        let l = a[a.len() - 1];
        assert forall|j: int| 0 <= j < b.len() implies !semantics::holds(
            l + #[trigger] b[j],
            ps,
        ) by {
            assert(!semantics::holds(a[a.len() - 1] + b[j], ps));
        }
        lemma_no_pair(l, b, ps);
        semantics::lemma_filter_concat(
            semantics::cross_rows(front, b),
            semantics::pair_rows(l, b),
            ps,
        );
        assert(joined(a, b, ps) =~= Seq::<RowView>::empty());
    }
}

/// A join of the left side in two parts.
proof fn lemma_join_concat_left(
    a: Seq<RowView>,
    b: Seq<RowView>,
    rights: Seq<RowView>,
    ps: Seq<CompiledView>,
)
    ensures
        joined(a + b, rights, ps) == joined(a, rights, ps) + joined(b, rights, ps),
    decreases b.len(),
{
    if b.len() == 0 {
        assert(a + b =~= a);
        assert(joined(a, rights, ps) + joined(b, rights, ps) =~= joined(a, rights, ps));
    } else {
        let front = b.drop_last();
        let more = semantics::pair_rows(b.last(), rights);
        lemma_join_concat_left(a, front, rights, ps);
        assert((a + b).drop_last() =~= a + front);
        assert((a + b).last() == b.last());
        semantics::lemma_filter_concat(semantics::cross_rows(a + front, rights), more, ps);
        semantics::lemma_filter_concat(semantics::cross_rows(front, rights), more, ps);
        let x = joined(a, rights, ps);
        let y = joined(front, rights, ps);
        let z = semantics::filter_rows(more, ps);
        assert((x + y) + z =~= x + (y + z));
    }
}

/// A join of the right side in two parts, one of which matches nothing.
proof fn lemma_join_concat_right(
    lefts: Seq<RowView>,
    a: Seq<RowView>,
    b: Seq<RowView>,
    ps: Seq<CompiledView>,
)
    requires
        no_match(lefts, a, ps) || no_match(lefts, b, ps),
    ensures
        no_match(lefts, b, ps) ==> joined(lefts, a + b, ps) == joined(lefts, a, ps),
        no_match(lefts, a, ps) ==> joined(lefts, a + b, ps) == joined(lefts, b, ps),
    decreases lefts.len(),
{
    if lefts.len() > 0 {
        let front = lefts.drop_last();
        let l = lefts[lefts.len() - 1];
        assert forall|i: int| 0 <= i < front.len() implies front[i] == lefts[i] by {}
        if no_match(lefts, a, ps) {
            assert forall|i: int, j: int|
                0 <= i < front.len() && 0 <= j < a.len() implies !semantics::holds(
                #[trigger] front[i] + #[trigger] a[j],
                ps,
            ) by {
                assert(lefts[i] == front[i]);
            }
            assert forall|j: int| 0 <= j < a.len() implies !semantics::holds(
                l + #[trigger] a[j],
                ps,
            ) by {
                assert(!semantics::holds(lefts[lefts.len() - 1] + a[j], ps));
            }
            lemma_no_pair(l, a, ps);
        }
        if no_match(lefts, b, ps) {
            assert forall|i: int, j: int|
                0 <= i < front.len() && 0 <= j < b.len() implies !semantics::holds(
                #[trigger] front[i] + #[trigger] b[j],
                ps,
            ) by {
                assert(lefts[i] == front[i]);
            }
            assert forall|j: int| 0 <= j < b.len() implies !semantics::holds(
                l + #[trigger] b[j],
                ps,
            ) by {
                assert(!semantics::holds(lefts[lefts.len() - 1] + b[j], ps));
            }
            lemma_no_pair(l, b, ps);
        }
        lemma_join_concat_right(front, a, b, ps);
        let x = semantics::pair_rows(l, a);
        let y = semantics::pair_rows(l, b);
        let xy = semantics::pair_rows(l, a + b);
        assert(xy =~= x + y);
        semantics::lemma_filter_concat(x, y, ps);
        let none = Seq::<RowView>::empty();
        assert(none + semantics::filter_rows(y, ps) =~= semantics::filter_rows(y, ps));
        assert(semantics::filter_rows(x, ps) + none =~= semantics::filter_rows(x, ps));
        semantics::lemma_filter_concat(semantics::cross_rows(front, a + b), xy, ps);
        semantics::lemma_filter_concat(semantics::cross_rows(front, a), x, ps);
        semantics::lemma_filter_concat(semantics::cross_rows(front, b), y, ps);
    }
}

/// Two sides in order, each in two parts, of which only the first match one
/// another and only the second match one another.
proof fn lemma_join_parts(
    a: Seq<RowView>,
    b: Seq<RowView>,
    c: Seq<RowView>,
    d: Seq<RowView>,
    ps: Seq<CompiledView>,
)
    requires
        no_match(a, d, ps),
        no_match(b, c, ps),
    ensures
        joined(a + b, c + d, ps) == joined(a, c, ps) + joined(b, d, ps),
{
    lemma_join_concat_left(a, b, c + d, ps);
    lemma_join_concat_right(a, c, d, ps);
    lemma_join_concat_right(b, c, d, ps);
}

/// Rows that match one another have equal keys.
spec fn key_matched(
    left: Seq<RowView>,
    right: Seq<RowView>,
    left_key: int,
    right_key: int,
    ps: Seq<CompiledView>,
) -> bool {
    forall|i: int, j: int|
        0 <= i < left.len() && 0 <= j < right.len() && semantics::holds(
            #[trigger] left[i] + #[trigger] right[j],
            ps,
        ) ==> value::order(left[i][left_key], right[j][right_key]) == Some(Order::Equal)
}

/// The first rows of two sides in order, up to places `n` and `m` behind `i`
/// and `j`, match only one another, where their keys are less than those of
/// the rows behind the other's.
proof fn lemma_split(
    left: Seq<RowView>,
    right: Seq<RowView>,
    left_key: int,
    right_key: int,
    ps: Seq<CompiledView>,
    i: int,
    j: int,
    n: int,
    m: int,
)
    requires
        key_matched(left, right, left_key, right_key, ps),
        0 <= i <= n <= left.len(),
        0 <= j <= m <= right.len(),
        forall|a: int, b: int|
            i <= a < n && m <= b < right.len() ==> value::order(
                (#[trigger] left[a])[left_key],
                (#[trigger] right[b])[right_key],
            ) == Some(Order::Less),
        forall|a: int, b: int|
            n <= a < left.len() && j <= b < m ==> value::order(
                (#[trigger] left[a])[left_key],
                (#[trigger] right[b])[right_key],
            ) == Some(Order::Greater),
    ensures
        joined(left.skip(i), right.skip(j), ps) == joined(
            left.subrange(i, n),
            right.subrange(j, m),
            ps,
        ) + joined(left.skip(n), right.skip(m), ps),
{
    let a = left.subrange(i, n);
    let b = left.skip(n);
    let c = right.subrange(j, m);
    let d = right.skip(m);
    assert(left.skip(i) =~= a + b);
    assert(right.skip(j) =~= c + d);
    assert forall|x: int, y: int| 0 <= x < a.len() && 0 <= y < d.len() implies !semantics::holds(
        #[trigger] a[x] + #[trigger] d[y],
        ps,
    ) by {
        assert(a[x] == left[i + x] && d[y] == right[m + y]);
    }
    assert forall|x: int, y: int| 0 <= x < b.len() && 0 <= y < c.len() implies !semantics::holds(
        #[trigger] b[x] + #[trigger] c[y],
        ps,
    ) by {
        assert(b[x] == left[n + x] && c[y] == right[j + y]);
    }
    lemma_join_parts(a, b, c, d, ps);
}

/// Where rows are in order, what comes behind a row that is greater is greater
/// too.
proof fn lemma_behind(
    rows: Seq<RowView>,
    key: int,
    from: int,
    at: data::DataValue,
)
    requires
        semantics::ascending(rows, key),
        0 <= from < rows.len(),
        value::order(at, rows[from][key]) == Some(Order::Less),
    ensures
        forall|b: int|
            from <= b < rows.len() ==> value::order(at, (#[trigger] rows[b])[key]) == Some(
                Order::Less,
            ),
{
    assert forall|b: int| from <= b < rows.len() implies value::order(
        at,
        (#[trigger] rows[b])[key],
    ) == Some(Order::Less) by {
        if b > from {
            assert(value::at_most(rows[from][key], rows[b][key]));
            value::lemma_order_transitive(at, rows[from][key], rows[b][key]);
        }
    }
}

/// A row of the left side that is less than the row of the right side matches
/// nothing that is left.
proof fn lemma_less(
    left: Seq<RowView>,
    right: Seq<RowView>,
    left_key: int,
    right_key: int,
    ps: Seq<CompiledView>,
    i: int,
    j: int,
)
    requires
        key_matched(left, right, left_key, right_key, ps),
        semantics::ascending(right, right_key),
        0 <= i < left.len(),
        0 <= j < right.len(),
        value::order(left[i][left_key], right[j][right_key]) == Some(Order::Less),
    ensures
        joined(left.skip(i), right.skip(j), ps) == joined(
            left.skip(i + 1),
            right.skip(j),
            ps,
        ),
{
    lemma_behind(right, right_key, j, left[i][left_key]);
    lemma_split(left, right, left_key, right_key, ps, i, j, i + 1, j);
    let none = right.subrange(j, j);
    assert(no_match(left.subrange(i, i + 1), none, ps));
    lemma_no_match(left.subrange(i, i + 1), none, ps);
    let rest = joined(left.skip(i + 1), right.skip(j), ps);
    assert(Seq::<RowView>::empty() + rest =~= rest);
}

/// A row of the right side that is less than the row of the left side matches
/// nothing that is left.
proof fn lemma_greater(
    left: Seq<RowView>,
    right: Seq<RowView>,
    left_key: int,
    right_key: int,
    ps: Seq<CompiledView>,
    i: int,
    j: int,
)
    requires
        key_matched(left, right, left_key, right_key, ps),
        semantics::ascending(left, left_key),
        0 <= i < left.len(),
        0 <= j < right.len(),
        value::order(left[i][left_key], right[j][right_key]) == Some(Order::Greater),
    ensures
        joined(left.skip(i), right.skip(j), ps) == joined(
            left.skip(i),
            right.skip(j + 1),
            ps,
        ),
{
    let r = right[j][right_key];
    value::lemma_order_reverse(left[i][left_key], r);
    lemma_behind(left, left_key, i, r);
    assert forall|a: int, b: int|
        i <= a < left.len() && j <= b < j + 1 implies value::order(
        (#[trigger] left[a])[left_key],
        (#[trigger] right[b])[right_key],
    ) == Some(Order::Greater) by {
        assert(value::order(r, left[a][left_key]) == Some(Order::Less));
        value::lemma_order_reverse(r, left[a][left_key]);
    }
    lemma_split(left, right, left_key, right_key, ps, i, j, i, j + 1);
    let none = left.subrange(i, i);
    assert(no_match(none, right.subrange(j, j + 1), ps));
    lemma_no_match(none, right.subrange(j, j + 1), ps);
    let rest = joined(left.skip(i), right.skip(j + 1), ps);
    assert(Seq::<RowView>::empty() + rest =~= rest);
}

/// Values equal to one stand to another as it does.
proof fn lemma_equal_less(x: data::DataValue, key: data::DataValue, y: data::DataValue)
    requires
        value::order(x, key) == Some(Order::Equal),
        value::order(key, y) == Some(Order::Less),
    ensures
        value::order(x, y) == Some(Order::Less),
{
    value::lemma_order_transitive(x, key, y);
}

/// All rows behind a group with the same key come behind the key.
proof fn lemma_group_behind(
    rows: Seq<RowView>,
    key: int,
    from: int,
    to: int,
    at: data::DataValue,
)
    requires
        semantics::ascending(rows, key),
        0 <= from < to <= rows.len(),
        value::order(rows[from][key], at) == Some(Order::Equal),
        to < rows.len() ==> value::order(rows[to][key], at) is Some && value::order(
            rows[to][key],
            at,
        ) != Some(Order::Equal),
    ensures
        forall|b: int|
            to <= b < rows.len() ==> value::order(at, (#[trigger] rows[b])[key]) == Some(
                Order::Less,
            ),
{
    if to < rows.len() {
        assert(value::at_most(rows[from][key], rows[to][key]));
        value::lemma_order_reverse(rows[from][key], at);
        value::lemma_order_reverse(rows[to][key], at);
        value::lemma_order_transitive(at, rows[from][key], rows[to][key]);
        lemma_behind(rows, key, to, at);
    }
}

/// Groups of rows with the same key match only one another.
proof fn lemma_equal(
    left: Seq<RowView>,
    right: Seq<RowView>,
    left_key: int,
    right_key: int,
    ps: Seq<CompiledView>,
    i: int,
    j: int,
    n: int,
    m: int,
    at: data::DataValue,
)
    requires
        key_matched(left, right, left_key, right_key, ps),
        semantics::ascending(left, left_key),
        semantics::ascending(right, right_key),
        0 <= i < n <= left.len(),
        0 <= j < m <= right.len(),
        forall|a: int|
            i <= a < n ==> value::order((#[trigger] left[a])[left_key], at) == Some(Order::Equal),
        forall|b: int|
            j <= b < m ==> value::order((#[trigger] right[b])[right_key], at) == Some(
                Order::Equal,
            ),
        n < left.len() ==> value::order(left[n][left_key], at) is Some && value::order(
            left[n][left_key],
            at,
        ) != Some(Order::Equal),
        m < right.len() ==> value::order(right[m][right_key], at) is Some && value::order(
            right[m][right_key],
            at,
        ) != Some(Order::Equal),
    ensures
        joined(left.skip(i), right.skip(j), ps) == joined(
            left.subrange(i, n),
            right.subrange(j, m),
            ps,
        ) + joined(left.skip(n), right.skip(m), ps),
{
    lemma_group_behind(left, left_key, i, n, at);
    lemma_group_behind(right, right_key, j, m, at);
    assert forall|a: int, b: int|
        i <= a < n && m <= b < right.len() implies value::order(
        (#[trigger] left[a])[left_key],
        (#[trigger] right[b])[right_key],
    ) == Some(Order::Less) by {
        lemma_equal_less(left[a][left_key], at, right[b][right_key]);
    }
    assert forall|a: int, b: int|
        n <= a < left.len() && j <= b < m implies value::order(
        (#[trigger] left[a])[left_key],
        (#[trigger] right[b])[right_key],
    ) == Some(Order::Greater) by {
        lemma_equal_less(right[b][right_key], at, left[a][left_key]);
        value::lemma_order_reverse(right[b][right_key], left[a][left_key]);
    }
    lemma_split(left, right, left_key, right_key, ps, i, j, n, m);
}

/// A column is estimated to hold no value twice.
pub open spec fn unique_key(
    op: OpView,
    columns: Seq<ColumnView>,
    key: int,
    tables: Seq<TableSpec>,
) -> bool {
    &&& 0 <= key < columns.len()
    &&& estimation::distinct_estimate(op, columns[key].name, tables) matches Some(n)
    &&& n >= executor::larger(estimation::rows_estimate(op, tables), 1)
}

/// Whether a column is estimated to hold no value twice.
fn is_estimated_unique_key(
    op: &QueryOp,
    schema: &Schema,
    key_index: usize,
    ctx: &DbContext,
) -> (r: bool)
    ensures
        r == unique_key(op@, schema@, key_index as int, ctx.tables()),
{
    let column = match schema.column_at(key_index) {
        Some(column) => column,
        None => {
            return false;
        },
    };
    let estimated: u64 = estimate_query_rows(op, ctx);
    let rows: u64 = if estimated > 1 {
        estimated
    } else {
        1
    };
    match estimate_distinct_values(op, column.name.as_str(), ctx) {
        Some(distinct) => distinct >= rows,
        None => false,
    }
}

/// Joins two operators in one pass over their tables, if each is a chain of
/// operators on a table that is in order of its only key, and the keys of one
/// are estimated to occur once.
#[verifier::spinoff_prover]
#[verifier::rlimit(40)]
pub fn try_execute_ordered_unique_merge_join<R: Input, W: Output, F: RowOutput>(
    left: JoinInput<'_>,
    right: JoinInput<'_>,
    compiled_cross: &Vec<CompiledPredicate>,
    ctx: &DbContext,
    disk: &mut DiskClient<R, W>,
    scratch: &mut ScratchSpace,
    memory_limit: usize,
    sink: RowSink<F>,
) -> (r: Result<(bool, RowSink<F>), DbError>)
    requires
        old(scratch).wf(),
        sink.wf(*old(disk), *old(scratch)),
        left.ready(ctx.tables()),
        right.ready(ctx.tables()),
        sink.types() == left.schema.types() + right.schema.types(),
        keys::keyed(
            left.keys(),
            right.keys(),
            left.schema@.len(),
            right.schema@.len(),
            true,
            executor::compiled_views(compiled_cross@),
        ),
    ensures
        scratch_run::kept(
            *old(disk),
            *old(scratch),
            *final(disk),
            *final(scratch),
            sink.own(),
        ),
        r matches Ok((true, out)) ==> outcome::ran_joined(
            left.op@,
            left.ps(),
            right.op@,
            right.ps(),
            executor::compiled_views(compiled_cross@),
            ctx.tables(),
            sink,
            *old(disk),
            *old(scratch),
            out,
            *final(disk),
            *final(scratch),
        ),
        r matches Ok((false, out)) ==> {
            &&& out == sink
            &&& *final(disk) == *old(disk)
            &&& *final(scratch) == *old(scratch)
        },
        r matches Ok((merged, _)) ==> merged == (left.in_order(ctx.tables()) && right.in_order(
            ctx.tables(),
        ) && (unique_key(left.whole(), left.schema@, left.keys()[0], ctx.tables()) || unique_key(
            right.whole(),
            right.schema@,
            right.keys()[0],
            ctx.tables(),
        ))),
        r matches Err(e) ==> outcome::excused_joined(
            left.op@,
            left.ps(),
            right.op@,
            right.ps(),
            executor::compiled_views(compiled_cross@),
            ctx.tables(),
            sink,
            *old(disk),
            *old(scratch),
            e,
            *final(disk),
            *final(scratch),
        ) || (e == DbError::Incomparable && !keys::comparable(
            semantics::kinds(left.op@, outcome::database_on(ctx.tables(), *old(disk))),
            left.keys(),
            semantics::kinds(right.op@, outcome::database_on(ctx.tables(), *old(disk))),
            right.keys(),
        )),
{
    let ghost (d0, s0) = (*disk, *scratch);
    let ghost start = sink;
    let ghost tables = ctx.tables();
    let ghost db = outcome::database_on(tables, d0);
    let ghost ps = executor::compiled_views(compiled_cross@);
    proof {
        feed::lemma_advanced_start(start, d0, s0);
        rewrite::lemma_wrapped(left.ps(), left.op@, db);
        rewrite::lemma_wrapped(right.ps(), right.op@, db);
    }
    if left.key_indexes.len() != 1 || right.key_indexes.len() != 1 {
        return Ok((false, sink));
    }
    let left_wrapped = wrap_filter_if_needed(clone_predicates(left.predicates), left.op.clone());
    let right_wrapped = wrap_filter_if_needed(
        clone_predicates(right.predicates),
        right.op.clone(),
    );
    proof {
        if semantics::is_pipeline(left_wrapped@) {
            outcome::lemma_pipeline_refused(left_wrapped@, tables);
        }
        if semantics::is_pipeline(right_wrapped@) {
            outcome::lemma_pipeline_refused(right_wrapped@, tables);
        }
        assert(forall|e: DbError|
            outcome::excuses(left_wrapped@, db, s0.size() as int, e)
                == #[trigger] outcome::side_excuses(
                left.op@,
                left.ps(),
                db,
                s0.size() as int,
                e,
            ));
        assert(forall|e: DbError|
            outcome::excuses(right_wrapped@, db, s0.size() as int, e)
                == #[trigger] outcome::side_excuses(
                right.op@,
                right.ps(),
                db,
                s0.size() as int,
                e,
            ));
    }
    let left_plan = match try_compile_scan_pipeline(&left_wrapped, ctx)? {
        Some(plan) => plan,
        None => {
            return Ok((false, sink));
        },
    };
    let right_plan = match try_compile_scan_pipeline(&right_wrapped, ctx)? {
        Some(plan) => plan,
        None => {
            return Ok((false, sink));
        },
    };
    let left_key: usize = left.key_indexes[0];
    let right_key: usize = right.key_indexes[0];
    if !left_plan.output_physically_ordered(left_key) || !right_plan.output_physically_ordered(
        right_key,
    ) {
        return Ok((false, sink));
    }
    let left_unique: bool = is_estimated_unique_key(&left_wrapped, left.schema, left_key, ctx);
    let right_unique: bool = is_estimated_unique_key(
        &right_wrapped,
        right.schema,
        right_key,
        ctx,
    );
    if !left_unique && !right_unique {
        return Ok((false, sink));
    }
    let ghost lp = left_plan;
    let ghost rp = right_plan;
    proof {
        let lt = choose|table: int| lp.plans(left_wrapped@, tables, table);
        let rt = choose|table: int| rp.plans(right_wrapped@, tables, table);
        if semantics::both_sound(left.op@, right.op@, db) {
            assert forall|e: DbError| #[trigger] lp.stops(
                db.layout,
                e,
            ) implies e == DbError::Incomparable && !semantics::op_answerable(
                left_wrapped@,
                db,
            ) by {
                lp.lemma_unanswered(left_wrapped@, db, lt, e);
            }
            assert forall|e: DbError| #[trigger] rp.stops(
                db.layout,
                e,
            ) implies e == DbError::Incomparable && !semantics::op_answerable(
                right_wrapped@,
                db,
            ) by {
                rp.lemma_unanswered(right_wrapped@, db, rt, e);
            }
            lp.lemma_plans(left_wrapped@, db, lt);
            rp.lemma_plans(right_wrapped@, db, rt);
            lp.lemma_ordered(left_wrapped@, db, lt, left_key as int);
            rp.lemma_ordered(right_wrapped@, db, rt, right_key as int);
        }
    }
    let result = ScanPipelineCursor::new(left_plan, disk, memory_limit);
    let ghost d1 = *disk;
    proof {
        feed::lemma_advanced_read(start, d0, s0, start, d0, s0, d1);
    }
    let left_cursor = result?;
    let result = ScanPipelineCursor::new(right_plan, disk, memory_limit);
    let ghost d2 = *disk;
    proof {
        feed::lemma_advanced_read(start, d0, s0, start, d1, s0, d2);
        assert(left.keys() =~= seq![left_key as int]);
        assert(right.keys() =~= seq![right_key as int]);
        assert(left.keys()[0] == left_key && right.keys()[0] == right_key);
    }
    let right_cursor = result?;
    let result = execute_ordered_merge_join(
        left_cursor,
        left_key,
        right_cursor,
        right_key,
        compiled_cross,
        disk,
        scratch,
        sink,
    );
    proof {
        frame::lemma_kept_trans(
            d0,
            s0,
            d2,
            s0,
            *disk,
            *scratch,
            start.own(),
            start.own(),
        );
        if semantics::both_sound(left.op@, right.op@, db) {
            outcome::lemma_side_fits(left.op@, left.ps(), db);
            outcome::lemma_side_fits(right.op@, right.ps(), db);
            lemma_comparable_keys(
                outcome::side_rows(left.op@, left.ps(), db),
                outcome::side_rows(right.op@, right.ps(), db),
                semantics::kinds(left.op@, db),
                semantics::kinds(right.op@, db),
                left.keys(),
                right.keys(),
            );
        }
    }
    let out = result?;
    proof {
        frame::lemma_grown_trans(d0, s0, d2, s0, start.own(), start.own(), out.own());
        outcome::lemma_pipeline_known(left_wrapped@, tables);
        outcome::lemma_pipeline_known(right_wrapped@, tables);
        if frame::trusty(*disk, *scratch) && semantics::both_sound(left.op@, right.op@, db) {
            let ls = outcome::side_rows(left.op@, left.ps(), db);
            let rs = outcome::side_rows(right.op@, right.ps(), db);
            semantics::lemma_join_bag(ls, rs, ps);
            outcome::lemma_emitted(
                start.log(),
                semantics::filter_rows(semantics::cross_rows(ls, rs), ps),
            );
        }
    }
    Ok((true, out))
}

/// Keys of columns that can be compared are texts, or are numbers and none of them
/// NaN.
proof fn lemma_comparable_keys(
    lefts: Seq<RowView>,
    rights: Seq<RowView>,
    lk: Seq<Kind>,
    rk: Seq<Kind>,
    left_keys: Seq<int>,
    right_keys: Seq<int>,
)
    requires
        semantics::rows_fit(lefts, lk),
        semantics::rows_fit(rights, rk),
        left_keys.len() == 1,
        right_keys.len() == 1,
        0 <= left_keys[0] < lk.len(),
        0 <= right_keys[0] < rk.len(),
    ensures
        keys::comparable(lk, left_keys, rk, right_keys) ==> ordered_keys(
            lefts,
            left_keys[0],
            rights,
            right_keys[0],
        ),
{
    let (l, r) = (left_keys[0], right_keys[0]);
    assert forall|i: int| 0 <= i < lefts.len() implies semantics::fits(
        #[trigger] lefts[i][l],
        lk[l],
    ) by {
        assert(semantics::row_fits(lefts[i], lk));
    }
    assert forall|i: int| 0 <= i < rights.len() implies semantics::fits(
        #[trigger] rights[i][r],
        rk[r],
    ) by {
        assert(semantics::row_fits(rights[i], rk));
    }
    if keys::comparable(lk, left_keys, rk, right_keys) {
        assert(semantics::ordered_kinds(lk[left_keys[0]], rk[right_keys[0]]));
    }
}

/// A cursor walks rows of a plan that lie in order.
pub open spec fn walks(cursor: ScanPipelineCursor, layout: DiskLayout, key: int) -> bool {
    &&& cursor.in_step(layout)
    &&& cursor.plan().file_ok(layout)
    &&& semantics::ascending(cursor.plan().rows(layout), key)
    &&& row_codec::all_conform(
        cursor.plan().rows(layout),
        row::types_of(cursor.plan().output()),
    )
}

/// Joins two tables that are in order of their keys: both are walked once, and
/// rows with the same key are joined each with each.
#[verifier::spinoff_prover]
#[verifier::rlimit(60)]
fn execute_ordered_merge_join<R: Input, W: Output, F: RowOutput>(
    left_cursor: ScanPipelineCursor,
    left_key: usize,
    right_cursor: ScanPipelineCursor,
    right_key: usize,
    compiled_cross: &Vec<CompiledPredicate>,
    disk: &mut DiskClient<R, W>,
    scratch: &mut ScratchSpace,
    sink: RowSink<F>,
) -> (r: Result<RowSink<F>, DbError>)
    requires
        old(scratch).wf(),
        sink.wf(*old(disk), *old(scratch)),
        left_cursor.wf(),
        right_cursor.wf(),
        left_cursor.emitted() == Seq::<RowView>::empty(),
        right_cursor.emitted() == Seq::<RowView>::empty(),
        left_key < left_cursor.plan().output().len(),
        right_key < right_cursor.plan().output().len(),
        sink.types() == row::types_of(left_cursor.plan().output()) + row::types_of(
            right_cursor.plan().output(),
        ),
        keys::keyed(
            seq![left_key as int],
            seq![right_key as int],
            left_cursor.plan().output().len(),
            right_cursor.plan().output().len(),
            true,
            executor::compiled_views(compiled_cross@),
        ),
    ensures
        scratch_run::kept(
            *old(disk),
            *old(scratch),
            *final(disk),
            *final(scratch),
            sink.own(),
        ),
        r matches Ok(out) ==> {
            &&& sink::advanced(
                sink,
                *old(disk),
                *old(scratch),
                out,
                *final(disk),
                *final(scratch),
            )
            &&& sink::settled(sink, *old(scratch), out, *final(scratch))
            &&& frame::trusty(*final(disk), *final(scratch)) && walks(
                left_cursor,
                old(disk).layout(),
                left_key as int,
            ) && walks(right_cursor, old(disk).layout(), right_key as int)
                ==> out.log() == sink.log() + semantics::filter_rows(
                semantics::cross_rows(
                    left_cursor.plan().rows(old(disk).layout()),
                    right_cursor.plan().rows(old(disk).layout()),
                ),
                executor::compiled_views(compiled_cross@),
            )
        },
        walks(left_cursor, old(disk).layout(), left_key as int) && walks(
            right_cursor,
            old(disk).layout(),
            right_key as int,
        ) ==> (r matches Err(e) ==> {
            ||| !scratch_run::able(*final(disk), *final(scratch))
            ||| feed::can_stop(left_cursor, old(disk).layout(), e)
            ||| feed::can_stop(right_cursor, old(disk).layout(), e)
            ||| e == DbError::Incomparable && !ordered_keys(
                left_cursor.plan().rows(old(disk).layout()),
                left_key as int,
                right_cursor.plan().rows(old(disk).layout()),
                right_key as int,
            )
            ||| semantics::pairs_fail(
                left_cursor.plan().rows(old(disk).layout()),
                right_cursor.plan().rows(old(disk).layout()),
                true,
                executor::compiled_views(compiled_cross@),
                e,
            )
            ||| sink.shape().excuses(
                e,
                old(scratch).size() as int,
                sink.log() + semantics::filter_rows(
                    semantics::cross_rows(
                        left_cursor.plan().rows(old(disk).layout()),
                        right_cursor.plan().rows(old(disk).layout()),
                    ),
                    executor::compiled_views(compiled_cross@),
                ),
            )
        }),
{
    let ghost (d0, s0) = (*disk, *scratch);
    let ghost layout = disk.layout();
    let ghost start = sink;
    let ghost ps = executor::compiled_views(compiled_cross@);
    let ghost lrows = left_cursor.plan().rows(layout);
    let ghost rrows = right_cursor.plan().rows(layout);
    let ghost lt = row::types_of(left_cursor.plan().output());
    let ghost rt = row::types_of(right_cursor.plan().output());
    let ghost good = walks(left_cursor, layout, left_key as int) && walks(
        right_cursor,
        layout,
        right_key as int,
    );
    let ghost all = joined(lrows, rrows, ps);
    let mut target = sink;
    proof {
        feed::lemma_advanced_start(start, d0, s0);
        if good {
            lemma_keyed_rows(lrows, rrows, left_key as int, right_key as int, lt, rt, ps);
        }
    }
    let result = OrderedSide::open(left_cursor, left_key, disk);
    let ghost d1 = *disk;
    proof {
        feed::lemma_advanced_read(start, d0, s0, start, d0, s0, d1);
    }
    let mut left = result?;
    let result = OrderedSide::open(right_cursor, right_key, disk);
    proof {
        feed::lemma_advanced_read(start, d0, s0, start, d1, s0, *disk);
        assert(lrows.skip(0) =~= lrows);
        assert(rrows.skip(0) =~= rrows);
    }
    let mut right = result?;
    let ghost mut i: int = 0;
    let ghost mut j: int = 0;
    while left.row.is_some() && right.row.is_some()
        invariant
            start == sink,
            d0 == *old(disk),
            s0 == *old(scratch),
            layout == d0.layout(),
            ps == executor::compiled_views(compiled_cross@),
            lrows == left_cursor.plan().rows(layout),
            rrows == right_cursor.plan().rows(layout),
            lt == row::types_of(left_cursor.plan().output()),
            rt == row::types_of(right_cursor.plan().output()),
            start.types() == lt + rt,
            good == (walks(left_cursor, layout, left_key as int) && walks(
                right_cursor,
                layout,
                right_key as int,
            )),
            good ==> key_matched(lrows, rrows, left_key as int, right_key as int, ps),
            all == joined(lrows, rrows, ps),
            scratch.wf(),
            left.wf(),
            right.wf(),
            left.plan() == left_cursor.plan(),
            right.plan() == right_cursor.plan(),
            left.key == left_key,
            right.key == right_key,
            scratch_run::kept(d0, s0, *disk, *scratch, start.own()),
            sink::advanced(start, d0, s0, target, *disk, *scratch),
            sink::settled(start, s0, target, *scratch),
            frame::trusty(*disk, *scratch) && good ==> {
                &&& left.stands_at(layout, i)
                &&& right.stands_at(layout, j)
                &&& 0 <= i <= lrows.len()
                &&& 0 <= j <= rrows.len()
                &&& target.log() + joined(lrows.skip(i), rrows.skip(j), ps) == start.log() + all
            },
        decreases
                left.live(),
                left.cursor.blocks_left(),
                left.cursor.rows_left(),
                right.live(),
                right.cursor.blocks_left(),
                right.cursor.rows_left(),
    {
        let ghost (d2, s2) = (*disk, *scratch);
        let ghost now = target;
        let ghost here_left = left;
        let ghost here_right = right;
        proof {
            if frame::trusty(d2, s2) && good {
                let l = left.row->0@;
                let r = right.row->0@;
                assert(lrows[i] == l && rrows[j] == r);
                if ordered_keys(lrows, left_key as int, rrows, right_key as int) {
                    lemma_ordered_keys(lrows, i, left_key as int, rrows, right_key as int);
                    assert(value::order(rrows[j][right_key as int], l[left_key as int]) is Some);
                }
            }
        }
        let ordering = match (&left.row, &right.row) {
            (Some(l), Some(r)) => compare_values(&l.values()[left_key], &r.values()[right_key])?,
            _ => vstd::pervasive::unreached(),
        };
        match ordering {
            Order::Less => {
                let result = left.advance(disk);
                proof {
                    feed::lemma_advanced_read(start, d0, s0, now, d2, s2, *disk);
                }
                let _ = result?;
                proof {
                    if frame::trusty(*disk, *scratch) && good {
                        assert(here_left.stands_at(layout, i));
                        lemma_less(lrows, rrows, left_key as int, right_key as int, ps, i, j);
                        i = i + 1;
                    }
                }
            },
            Order::Greater => {
                let result = right.advance(disk);
                proof {
                    feed::lemma_advanced_read(start, d0, s0, now, d2, s2, *disk);
                }
                let _ = result?;
                proof {
                    if frame::trusty(*disk, *scratch) && good {
                        assert(here_right.stands_at(layout, j));
                        lemma_greater(lrows, rrows, left_key as int, right_key as int, ps, i, j);
                        j = j + 1;
                    }
                }
            },
            Order::Equal => {
                let join_key = match &left.row {
                    Some(l) => l.values()[left_key].clone(),
                    None => vstd::pervasive::unreached(),
                };
                proof {
                    value::lemma_order_reverse(
                        here_left.row->0@[left_key as int],
                        here_right.row->0@[right_key as int],
                    );
                    lemma_order_self(
                        here_left.row->0@[left_key as int],
                        here_right.row->0@[right_key as int],
                    );
                }
                let result = left.take_group(&join_key, disk);
                let ghost d3 = *disk;
                proof {
                    feed::lemma_advanced_read(start, d0, s0, now, d2, s2, d3);
                }
                let left_group = result?;
                let result = right.take_group(&join_key, disk);
                proof {
                    feed::lemma_advanced_read(start, d0, s0, now, d3, s2, *disk);
                }
                let right_group = result?;
                let ghost lv = row::row_views(left_group@);
                let ghost rv = row::row_views(right_group@);
                proof {
                    if frame::trusty(*disk, s2) && good {
                        assert(here_left.stands_at(layout, i));
                        assert(here_right.stands_at(layout, j));
                        lemma_range_within(lrows, i, i + lv.len());
                        lemma_range_within(rrows, j, j + rv.len());
                        assert forall|e: DbError| #[trigger]
                            semantics::pairs_fail(rv, lv, false, ps, e) implies semantics::pairs_fail(
                            lrows,
                            rrows,
                            true,
                            ps,
                            e,
                        ) by {
                            semantics::lemma_pairs_fail_within(rv, lv, rrows, lrows, false, ps, e);
                            semantics::lemma_pairs_fail_swapped(rrows, lrows, false, ps, e);
                        }
                        lemma_groups(
                            lrows,
                            rrows,
                            left_key as int,
                            right_key as int,
                            ps,
                            i,
                            j,
                            lv,
                            rv,
                            join_key@,
                        );
                        let own = joined(lv, rv, ps);
                        let rest = joined(
                            lrows.skip(i + lv.len()),
                            rrows.skip(j + rv.len()),
                            ps,
                        );
                        assert(now.log() + (own + rest) =~= (now.log() + own) + rest);
                        bag::lemma_within_front(now.log() + own, start.log() + all);
                    }
                }
                emit_group(
                    &left_group,
                    &right_group,
                    Ghost(lt),
                    Ghost(rt),
                    compiled_cross,
                    &mut target,
                    Ghost(start),
                    Ghost(d0),
                    Ghost(s0),
                    disk,
                    scratch,
                )?;
                proof {
                    if frame::trusty(*disk, *scratch) && good {
                        i = i + lv.len();
                        j = j + rv.len();
                    }
                }
            },
        }
    }
    proof {
        if frame::trusty(*disk, *scratch) && good {
            let a = lrows.skip(i);
            let b = rrows.skip(j);
            assert(no_match(a, b, ps));
            lemma_no_match(a, b, ps);
            assert(target.log() + Seq::<RowView>::empty() =~= target.log());
        }
    }
    Ok(target)
}

/// A key of one side has an order with all keys of both, where they are texts or
/// numbers and none of them NaN.
proof fn lemma_ordered_keys(
    lefts: Seq<RowView>,
    i: int,
    l: int,
    rights: Seq<RowView>,
    r: int,
)
    requires
        0 <= i < lefts.len(),
        ordered_keys(lefts, l, rights, r),
    ensures
        ordered_with_key(lefts, l, lefts[i][l]),
        ordered_with_key(rights, r, lefts[i][l]),
        forall|j: int|
            0 <= j < rights.len() ==> value::order(lefts[i][l], #[trigger] rights[j][r]) is Some,
{
    let kind = if column_fits(lefts, l, Kind::Text) && column_fits(rights, r, Kind::Text) {
        Kind::Text
    } else {
        Kind::Number
    };
    assert(semantics::fits(lefts[i][l], kind));
    assert forall|k: int| 0 <= k < lefts.len() implies value::order(
        #[trigger] lefts[k][l],
        lefts[i][l],
    ) is Some by {
        assert(semantics::fits(lefts[k][l], kind));
    }
    assert forall|j: int| 0 <= j < rights.len() implies value::order(
        #[trigger] rights[j][r],
        lefts[i][l],
    ) is Some && value::order(lefts[i][l], rights[j][r]) is Some by {
        assert(semantics::fits(rights[j][r], kind));
    }
}

/// The rows between two places are among all.
proof fn lemma_range_within(rows: Seq<RowView>, from: int, to: int)
    requires
        0 <= from <= to <= rows.len(),
    ensures
        bag::within(rows.subrange(from, to), rows),
{
    reveal(bag::within);
    let part = rows.subrange(from, to);
    assert forall|i: int| 0 <= i < part.len() implies rows.contains(#[trigger] part[i]) by {
        assert(rows[from + i] == part[i]);
    }
}

/// A value that equals another equals itself.
proof fn lemma_order_self(a: data::DataValue, b: data::DataValue)
    requires
        value::order(a, b) == Some(Order::Equal),
    ensures
        value::order(a, a) == Some(Order::Equal),
{
    value::lemma_order_reverse(a, b);
    value::lemma_order_transitive(a, b, a);
    value::lemma_order_reverse(a, a);
}

proof fn lemma_groups(
    left: Seq<RowView>,
    right: Seq<RowView>,
    left_key: int,
    right_key: int,
    ps: Seq<CompiledView>,
    i: int,
    j: int,
    lv: Seq<RowView>,
    rv: Seq<RowView>,
    at: data::DataValue,
)
    requires
        key_matched(left, right, left_key, right_key, ps),
        semantics::ascending(left, left_key),
        semantics::ascending(right, right_key),
        0 <= i < i + lv.len() <= left.len(),
        0 <= j < j + rv.len() <= right.len(),
        lv == left.subrange(i, i + lv.len()),
        rv == right.subrange(j, j + rv.len()),
        forall|k: int|
            0 <= k < lv.len() ==> value::order((#[trigger] lv[k])[left_key], at) == Some(
                Order::Equal,
            ),
        forall|k: int|
            0 <= k < rv.len() ==> value::order((#[trigger] rv[k])[right_key], at) == Some(
                Order::Equal,
            ),
        i + lv.len() < left.len() ==> value::order(left[i + lv.len()][left_key], at) is Some
            && value::order(left[i + lv.len()][left_key], at) != Some(Order::Equal),
        j + rv.len() < right.len() ==> value::order(right[j + rv.len()][right_key], at) is Some
            && value::order(right[j + rv.len()][right_key], at) != Some(Order::Equal),
    ensures
        joined(left.skip(i), right.skip(j), ps) == joined(
            lv,
            rv,
            ps,
        ) + joined(left.skip(i + lv.len()), right.skip(j + rv.len()), ps),
{
    let n = i + lv.len();
    let m = j + rv.len();
    assert forall|a: int| i <= a < n implies value::order((#[trigger] left[a])[left_key], at)
        == Some(Order::Equal) by {
        assert(lv[a - i] == left[a]);
    }
    assert forall|b: int| j <= b < m implies value::order((#[trigger] right[b])[right_key], at)
        == Some(Order::Equal) by {
        assert(rv[b - j] == right[b]);
    }
    lemma_equal(left, right, left_key, right_key, ps, i, j, n, m, at);
}

/// Rows of two tables match only where their keys are equal.
proof fn lemma_keyed_rows(
    left: Seq<RowView>,
    right: Seq<RowView>,
    left_key: int,
    right_key: int,
    lt: Seq<DataType>,
    rt: Seq<DataType>,
    ps: Seq<CompiledView>,
)
    requires
        row_codec::all_conform(left, lt),
        row_codec::all_conform(right, rt),
        keys::keyed(seq![left_key], seq![right_key], lt.len(), rt.len(), true, ps),
    ensures
        key_matched(left, right, left_key, right_key, ps),
{
    assert forall|i: int, j: int|
        0 <= i < left.len() && 0 <= j < right.len() && semantics::holds(
            #[trigger] left[i] + #[trigger] right[j],
            ps,
        ) implies value::order(left[i][left_key], right[j][right_key]) == Some(Order::Equal) by {
        assert(data::conforms(left[i], lt));
        assert(data::conforms(right[j], rt));
        assert(semantics::joined_row(left[i], right[j], true) == left[i] + right[j]);
        assert(hash::keys_equal(left[i], seq![left_key], right[j], seq![right_key]));
        assert(seq![left_key][0] == left_key);
        assert(seq![right_key][0] == right_key);
    }
}

} // verus!
