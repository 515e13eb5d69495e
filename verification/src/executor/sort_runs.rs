//! Rows on their way to be sorted: in memory, and in sorted runs where they do
//! not fit.

use vstd::prelude::*;

use crate::bag;
use crate::data;
use crate::data::DataType;
use crate::error::DbError;
use crate::executor;
use crate::executor::compact;
use crate::executor::compact::{sort_rows, CompactSortState};
use crate::executor::frame;
use crate::executor::hash;
use crate::executor::hash_build;
use crate::executor::partition;
use crate::executor::partition::release_runs;
use crate::executor::CompiledSortSpec;
use crate::io::{Input, Output};
use crate::row;
use crate::row::{Row, Schema};
use crate::semantics;
use crate::semantics::{RowView, SortKey};
use crate::storage::block_allocator::{ScratchRun, ScratchSpace};
use crate::storage::disk_client::DiskClient;
use crate::storage::row_codec;
use crate::storage::scratch_run;
use crate::storage::scratch_run::{write_rows_to_scratch, ScratchRunWriter};

verus! {

/// Rows are in order, if their values have one.
pub open spec fn sorted_if(rows: Seq<RowView>, keys: Seq<SortKey>) -> bool {
    semantics::comparable(rows, keys) ==> semantics::sorted(rows, keys)
}

/// Runs, each of rows in order.
pub struct SortedRuns {
    pub runs: Vec<ScratchRun>,
    pub groups: Ghost<Seq<Seq<RowView>>>,
}

/// A run of rows in order.
pub open spec fn sorted_run<R: Input, W: Output>(
    run: ScratchRun,
    rows: Seq<RowView>,
    types: Seq<DataType>,
    keys: Seq<SortKey>,
    disk: DiskClient<R, W>,
) -> bool {
    &&& partition::run_ok(run, rows, types, disk)
    &&& sorted_if(rows, keys)
}

impl SortedRuns {
    /// The blocks of the runs.
    pub open spec fn own(self) -> Set<int> {
        frame::union_all(partition::run_slots(self.runs@))
    }

    /// The runs hold the groups of rows, each in order.
    pub open spec fn wf<R: Input, W: Output>(
        self,
        types: Seq<DataType>,
        keys: Seq<SortKey>,
        disk: DiskClient<R, W>,
        scratch: ScratchSpace,
    ) -> bool {
        &&& self.runs@.len() == self.groups@.len()
        &&& frame::apart(partition::run_slots(self.runs@))
        &&& frame::all_in_use(partition::run_slots(self.runs@), scratch)
        &&& forall|k: int|
            0 <= k < self.runs@.len() ==> sorted_run(
                #[trigger] self.runs@[k],
                self.groups@[k],
                types,
                keys,
                disk,
            )
    }

    /// The runs stay where other blocks change.
    pub proof fn lemma_wf_kept<R: Input, W: Output>(
        self,
        types: Seq<DataType>,
        keys: Seq<SortKey>,
        d0: DiskClient<R, W>,
        s0: ScratchSpace,
        d1: DiskClient<R, W>,
        s1: ScratchSpace,
        own: Set<int>,
    )
        requires
            self.wf(types, keys, d0, s0),
            scratch_run::kept(d0, s0, d1, s1, own),
            self.own().disjoint(own),
        ensures
            self.wf(types, keys, d1, s1),
            scratch_run::in_use(self.own(), s1),
    {
        let slots = partition::run_slots(self.runs@);
        frame::lemma_all_in_use_kept(slots, d0, s0, d1, s1, own);
        frame::lemma_union_in_use(slots, s1);
        assert forall|k: int| 0 <= k < self.runs@.len() implies sorted_run(
            #[trigger] self.runs@[k],
            self.groups@[k],
            types,
            keys,
            d1,
        ) by {
            assert(sorted_run(self.runs@[k], self.groups@[k], types, keys, d0));
            assert(scratch_run::in_use(slots[k], s0));
            assert(slots[k].disjoint(own));
            partition::lemma_run_kept(self.runs@[k], self.groups@[k], types, d0, s0, d1, s1, own);
        }
    }

    /// No runs.
    pub fn new() -> (r: SortedRuns)
        ensures
            r.runs@.len() == 0,
            r.groups@ == Seq::<Seq<RowView>>::empty(),
            r.own() == Set::<int>::empty(),
    {
        let r = SortedRuns { runs: Vec::new(), groups: Ghost(Seq::empty()) };
        proof {
            assert(r.own() =~= Set::<int>::empty());
        }
        r
    }

    /// One run more.
    fn push<R: Input, W: Output>(
        &mut self,
        run: ScratchRun,
        rows: Ghost<Seq<RowView>>,
        types: Ghost<Seq<DataType>>,
        keys: Ghost<Seq<SortKey>>,
        d0: Ghost<DiskClient<R, W>>,
        s0: Ghost<ScratchSpace>,
        disk: &DiskClient<R, W>,
        scratch: &ScratchSpace,
    )
        requires
            old(self).wf(types@, keys@, d0@, s0@),
            scratch_run::kept(d0@, s0@, *disk, *scratch, Set::<int>::empty()),
            scratch_run::grown(Set::<int>::empty(), s0@, scratch_run::ids_set(run@)),
            scratch_run::tidy(Set::<int>::empty(), s0@, scratch_run::ids_set(run@), *scratch),
            scratch_run::in_use(scratch_run::ids_set(run@), *scratch),
            sorted_run(run, rows@, types@, keys@, *disk),
        ensures
            final(self).wf(types@, keys@, *disk, *scratch),
            final(self).groups@ == old(self).groups@.push(rows@),
            scratch_run::grown(old(self).own(), s0@, final(self).own()),
            scratch_run::tidy(old(self).own(), s0@, final(self).own(), *scratch),
    {
        let ghost before = *self;
        let ghost slots = partition::run_slots(self.runs@);
        let ghost fresh = scratch_run::ids_set(run@);
        proof {
            frame::lemma_union_in_use(slots, s0@);
            frame::lemma_new_disjoint(before.own(), s0@, fresh);
            before.lemma_wf_kept(types@, keys@, d0@, s0@, *disk, *scratch, Set::<int>::empty());
        }
        self.runs.push(run);
        proof {
            self.groups@ = self.groups@.push(rows@);
            let more = partition::run_slots(self.runs@);
            assert(more =~= slots.push(fresh));
            assert forall|i: int, j: int|
                0 <= i < more.len() && 0 <= j < more.len() && i != j implies (
            #[trigger] more[i]).disjoint(#[trigger] more[j]) by {
                if i < slots.len() && j < slots.len() {
                    assert(slots[i].disjoint(slots[j]));
                } else if i < slots.len() {
                    lemma_slot_disjoint(slots, i, fresh);
                } else {
                    lemma_slot_disjoint(slots, j, fresh);
                }
            }
            assert forall|j: int| 0 <= j < more.len() implies scratch_run::in_use(
                #[trigger] more[j],
                *scratch,
            ) by {
                if j < slots.len() {
                    assert(scratch_run::in_use(slots[j], *scratch));
                }
            }
            assert forall|k: int| 0 <= k < self.runs@.len() implies sorted_run(
                #[trigger] self.runs@[k],
                self.groups@[k],
                types@,
                keys@,
                *disk,
            ) by {
                if k < before.runs@.len() {
                    assert(sorted_run(before.runs@[k], before.groups@[k], types@, keys@, *disk));
                }
            }
            assert forall|b: int| #[trigger] self.own().contains(b) implies before.own().contains(b)
                || !s0@.allocated(b) by {
                let j = choose|j: int| 0 <= j < more.len() && (#[trigger] more[j]).contains(b);
                if j < slots.len() {
                    assert(slots[j].contains(b));
                } else {
                    assert(fresh.contains(b));
                }
            }
            assert forall|b: int| #[trigger] scratch.allocated(b) implies (s0@.allocated(b)
                && !before.own().contains(b)) || self.own().contains(b) by {
                if fresh.contains(b) {
                    assert(more[slots.len() as int].contains(b));
                } else if before.own().contains(b) {
                    let j = choose|j: int|
                        0 <= j < slots.len() && (#[trigger] slots[j]).contains(b);
                    assert(more[j].contains(b));
                }
            }
        }
    }

    /// Sorts rows in memory and sends them to a run.
    pub fn flush_run<R: Input, W: Output>(
        &mut self,
        rows: &mut Vec<Row>,
        schema: &Schema,
        specs: &Vec<CompiledSortSpec>,
        disk: &mut DiskClient<R, W>,
        scratch: &mut ScratchSpace,
    ) -> (r: Result<(), DbError>)
        requires
            old(self).wf(
                schema.types(),
                executor::key_views(specs@),
                *old(disk),
                *old(scratch),
            ),
            old(scratch).wf(),
            row_codec::all_conform(row::row_views(old(rows)@), schema.types()),
            compact::specs_below(specs@, schema@.len() as int),
        ensures
            scratch_run::kept(
                *old(disk),
                *old(scratch),
                *final(disk),
                *final(scratch),
                old(self).own(),
            ),
            r is Ok ==> {
                &&& scratch_run::grown(old(self).own(), *old(scratch), final(self).own())
                &&& scratch_run::tidy(
                    old(self).own(),
                    *old(scratch),
                    final(self).own(),
                    *final(scratch),
                )
                &&& final(self).wf(
                    schema.types(),
                    executor::key_views(specs@),
                    *final(disk),
                    *final(scratch),
                )
                &&& final(rows)@.len() == 0
                &&& bag::bag(hash::flat(final(self).groups@)) == bag::bag(
                    hash::flat(old(self).groups@) + row::row_views(old(rows)@),
                )
            },
            r matches Err(e) ==> !scratch_run::able(*final(disk), *final(scratch)) || (e
                == DbError::RowTooLarge && scratch_run::oversized(
                row::row_views(old(rows)@),
                old(scratch).size() as int,
            )),
    {
        let ghost before = *self;
        let ghost keys = executor::key_views(specs@);
        let ghost views = row::row_views(rows@);
        let ghost (d0, s0) = (*disk, *scratch);
        proof {
            assert forall|i: int| 0 <= i < rows@.len() implies compact::specs_below(
                specs@,
                (#[trigger] rows@[i])@.len() as int,
            ) by {
                assert(data::conforms(views[i], schema.types()));
            }
        }
        sort_rows(rows, specs);
        let ghost sorted = row::row_views(rows@);
        proof {
            hash_build::lemma_conform_bag(views, sorted, schema.types());
            lemma_sorted_if(views, sorted, keys);
        }
        let result = write_rows_to_scratch(rows, disk, scratch);
        proof {
            bag::lemma_within_bag(sorted, views);
            if scratch_run::oversized(sorted, s0.size() as int) {
                scratch_run::lemma_oversized_within(sorted, views, s0.size() as int);
            }
            frame::lemma_kept_more(d0, s0, *disk, *scratch, Set::<int>::empty(), before.own());
        }
        let run = result?;
        proof {
            assert(sorted.len() == rows@.len());
            assert(scratch_run::run_rows(disk.scratch(), run@, schema.types()) == Ok::<
                Seq<RowView>,
                DbError,
            >(sorted));
        }
        self.push(
            run,
            Ghost(sorted),
            Ghost(schema.types()),
            Ghost(keys),
            Ghost(d0),
            Ghost(s0),
            disk,
            scratch,
        );
        rows.clear();
        proof {
            let front = hash::flat(before.groups@);
            hash::lemma_flat_push(before.groups@, sorted);
            bag::lemma_bag_concat(front, sorted);
            bag::lemma_bag_concat(front, views);
        }
        Ok(())
    }

    /// Sorts stored rows and sends them to a run.
    pub fn flush_compact_run<R: Input, W: Output>(
        &mut self,
        rows: CompactSortState,
        schema: &Schema,
        specs: &Vec<CompiledSortSpec>,
        disk: &mut DiskClient<R, W>,
        scratch: &mut ScratchSpace,
    ) -> (r: Result<(), DbError>)
        requires
            old(self).wf(
                schema.types(),
                executor::key_views(specs@),
                *old(disk),
                *old(scratch),
            ),
            old(scratch).wf(),
            rows.wf(schema.types()),
            compact::specs_below(specs@, schema@.len() as int),
        ensures
            scratch_run::kept(
                *old(disk),
                *old(scratch),
                *final(disk),
                *final(scratch),
                old(self).own(),
            ),
            r is Ok ==> {
                &&& scratch_run::grown(old(self).own(), *old(scratch), final(self).own())
                &&& scratch_run::tidy(
                    old(self).own(),
                    *old(scratch),
                    final(self).own(),
                    *final(scratch),
                )
                &&& final(self).wf(
                    schema.types(),
                    executor::key_views(specs@),
                    *final(disk),
                    *final(scratch),
                )
                &&& bag::bag(hash::flat(final(self).groups@)) == bag::bag(
                    hash::flat(old(self).groups@) + rows.log(),
                )
            },
            r matches Err(e) ==> !scratch_run::able(*final(disk), *final(scratch)) || (e
                == DbError::RowTooLarge && scratch_run::oversized(
                rows.log(),
                old(scratch).size() as int,
            )),
    {
        let ghost before = *self;
        let ghost keys = executor::key_views(specs@);
        let ghost types = schema.types();
        let ghost log = rows.log();
        let ghost (d0, s0) = (*disk, *scratch);
        proof {
            frame::lemma_kept_refl(*disk, *scratch, before.own());
        }
        if rows.is_empty() {
            assert(hash::flat(before.groups@) + log =~= hash::flat(before.groups@));
            return Ok(());
        }
        let ordered = rows.sort(schema, specs);
        let ghost sorted = ordered.rows();
        proof {
            bag::lemma_within_bag(sorted, log);
        }
        let mut writer = ScratchRunWriter::new(disk, scratch, scratch.block_size());
        let total: usize = ordered.len();
        let ghost all = scratch_run::encodings(sorted);
        let mut i: usize = 0;
        proof {
            frame::lemma_kept_refl(*disk, *scratch, Set::<int>::empty());
            assert(all.take(0) =~= Seq::<Seq<u8>>::empty());
        }
        while i < total
            invariant
                i <= total,
                total == sorted.len(),
                ordered.wf(types),
                types == schema.types(),
                sorted == ordered.rows(),
                bag::within(sorted, log),
                log == rows.log(),
                all == scratch_run::encodings(sorted),
                scratch.wf(),
                writer.wf(*disk, *scratch),
                writer.items() == all.take(i as int),
                writer.block_size() == s0.size(),
                scratch_run::kept(d0, s0, *disk, *scratch, Set::<int>::empty()),
                scratch_run::grown(Set::<int>::empty(), s0, writer.own()),
                scratch_run::tidy(Set::<int>::empty(), s0, writer.own(), *scratch),
                d0 == *old(disk),
                s0 == *old(scratch),
                before == *old(self),
                forall|k: int|
                    0 <= k < i ==> data::conforms(#[trigger] sorted[k], types),
            decreases total - i,
        {
            let row = ordered.get(i, schema);
            let result = writer.push_row(&row, disk, scratch);
            proof {
                if row::encoded_row(sorted[i as int]).len() + 2 > s0.size() {
                    assert(scratch_run::oversized(sorted, s0.size() as int));
                    scratch_run::lemma_oversized_within(sorted, log, s0.size() as int);
                }
                if result is Err {
                    frame::lemma_kept_more(
                        d0,
                        s0,
                        *disk,
                        *scratch,
                        Set::<int>::empty(),
                        before.own(),
                    );
                }
            }
            result?;
            assert(all.take(i + 1) =~= all.take(i as int).push(all[i as int]));
            i = i + 1;
        }
        let ghost own1 = writer.own();
        let ghost (d1, s1) = (*disk, *scratch);
        let result = writer.finish(disk, scratch);
        proof {
            frame::lemma_kept_trans(
                d0,
                s0,
                d1,
                s1,
                *disk,
                *scratch,
                Set::<int>::empty(),
                own1,
            );
            frame::lemma_kept_more(d0, s0, *disk, *scratch, Set::<int>::empty(), before.own());
        }
        let run = result?;
        proof {
            assert(all.take(i as int) =~= all);
            assert(row_codec::all_conform(sorted, types));
            assert(scratch_run::encodings(sorted) == writer.items());
            assert(scratch_run::run_rows(disk.scratch(), run@, types) == Ok::<
                Seq<RowView>,
                DbError,
            >(sorted));
            frame::lemma_grown_trans(
                d0,
                s0,
                d1,
                s1,
                Set::<int>::empty(),
                own1,
                scratch_run::ids_set(run@),
            );
            lemma_sorted_if(log, sorted, keys);
        }
        self.push(
            run,
            Ghost(sorted),
            Ghost(types),
            Ghost(keys),
            Ghost(d0),
            Ghost(s0),
            disk,
            scratch,
        );
        proof {
            let front = hash::flat(before.groups@);
            hash::lemma_flat_push(before.groups@, sorted);
            bag::lemma_bag_concat(front, sorted);
            bag::lemma_bag_concat(front, log);
        }
        Ok(())
    }

    /// Gives the blocks of the runs back.
    pub fn release<R: Input, W: Output>(self, disk: &DiskClient<R, W>, scratch: &mut ScratchSpace)
        requires
            old(scratch).wf(),
            frame::apart(partition::run_slots(self.runs@)),
            frame::all_in_use(partition::run_slots(self.runs@), *old(scratch)),
        ensures
            scratch_run::kept(*disk, *old(scratch), *disk, *final(scratch), self.own()),
            final(scratch).next() == old(scratch).next(),
            scratch_run::tidy(
                self.own(),
                *old(scratch),
                Set::<int>::empty(),
                *final(scratch),
            ),
    {
        release_runs(self.runs, disk, scratch)
    }
}

proof fn lemma_slot_disjoint(slots: Seq<Set<int>>, i: int, fresh: Set<int>)
    requires
        0 <= i < slots.len(),
        frame::union_all(slots).disjoint(fresh),
    ensures
        slots[i].disjoint(fresh),
        fresh.disjoint(slots[i]),
{
    assert forall|b: int| !(#[trigger] slots[i].contains(b) && fresh.contains(b)) by {
        if slots[i].contains(b) {
            assert(frame::union_all(slots).contains(b));
        }
    }
}

/// What was sorted is in order, if its values have one.
pub proof fn lemma_sorted_if(rows: Seq<RowView>, sorted: Seq<RowView>, keys: Seq<SortKey>)
    requires
        bag::bag(rows) == bag::bag(sorted),
        semantics::comparable(rows, keys) ==> semantics::sorted(sorted, keys),
    ensures
        sorted_if(sorted, keys),
{
    if semantics::comparable(sorted, keys) {
        lemma_comparable_bag(sorted, rows, keys);
    }
}

/// Rows in another order have an order too.
pub proof fn lemma_comparable_bag(a: Seq<RowView>, b: Seq<RowView>, keys: Seq<SortKey>)
    requires
        bag::bag(a) == bag::bag(b),
        semantics::comparable(a, keys),
    ensures
        semantics::comparable(b, keys),
{
    assert forall|i: int| 0 <= i < b.len() implies a.contains(#[trigger] b[i]) by {
        assert(b.contains(b[i]));
        let k = bag::lemma_same_bag_index(b, a, b[i]);
    }
    semantics::lemma_comparable_part(a, b, keys);
}

/// Rows on their way to be sorted.
pub struct SortCollector {
    schema: Schema,
    specs: Vec<CompiledSortSpec>,
    run_budget: usize,
    compact_budget: usize,
    compact: Option<CompactSortState>,
    rows: Vec<Row>,
    bytes: usize,
    runs: SortedRuns,
    log: Ghost<Seq<RowView>>,
}

/// What was collected.
pub struct SortedParts {
    pub compact: Option<CompactSortState>,
    pub rows: Vec<Row>,
    pub runs: SortedRuns,
}

/// The rows that are held in their stored form.
pub open spec fn compact_log(c: Option<CompactSortState>) -> Seq<RowView> {
    match c {
        Some(state) => state.log(),
        None => Seq::empty(),
    }
}

impl SortedParts {
    /// The rows of all parts.
    pub open spec fn all(self) -> Seq<RowView> {
        hash::flat(self.runs.groups@) + compact_log(self.compact) + row::row_views(self.rows@)
    }

    /// The parts hold rows with the types.
    pub open spec fn wf<R: Input, W: Output>(
        self,
        types: Seq<DataType>,
        keys: Seq<SortKey>,
        disk: DiskClient<R, W>,
        scratch: ScratchSpace,
    ) -> bool {
        &&& self.runs.wf(types, keys, disk, scratch)
        &&& self.compact matches Some(state) ==> state.wf(types)
        &&& row_codec::all_conform(row::row_views(self.rows@), types)
    }
}

/// An estimate of the memory that a row takes while it is sorted.
pub fn estimated_sort_row_bytes(row: &Row) -> (r: usize)
    ensures
        r >= row::saturated((row::encoded_row(row@).len() + 64) as nat),
{
    row.estimated_heap_bytes().saturating_add(row.serialized_size()).saturating_add(64)
}

/// The bytes that rows sorted in memory take with one row more, or none where
/// those before it have to go to a run first: there are some, and with the row they
/// would take more than the budget.
pub open spec fn sort_room(held: nat, bytes: nat, size: nat, budget: nat) -> Option<nat> {
    if held > 0 && row::saturated(bytes + size) > budget {
        None
    } else {
        Some(row::saturated(bytes + size))
    }
}

/// The bytes that rows sorted in memory are held to take at least: their stored
/// forms, and as much again for each as a row takes beside its values.
pub open spec fn kept_bytes(rows: Seq<RowView>) -> nat
    decreases rows.len(),
{
    if rows.len() == 0 {
        0
    } else {
        kept_bytes(rows.drop_last()) + row::encoded_row(rows.last()).len() + 64
    }
}

/// Puts a row among those that are sorted in memory; those before it go to a run
/// where they would take more than the budget with it.
pub fn push_standard_row<R: Input, W: Output>(
    row: Row,
    schema: &Schema,
    specs: &Vec<CompiledSortSpec>,
    run_budget: usize,
    rows: &mut Vec<Row>,
    bytes: &mut usize,
    runs: &mut SortedRuns,
    disk: &mut DiskClient<R, W>,
    scratch: &mut ScratchSpace,
) -> (r: Result<(), DbError>)
    requires
        old(runs).wf(schema.types(), executor::key_views(specs@), *old(disk), *old(scratch)),
        old(scratch).wf(),
        row_codec::all_conform(row::row_views(old(rows)@), schema.types()),
        data::conforms(row@, schema.types()),
        compact::specs_below(specs@, schema@.len() as int),
    ensures
        scratch_run::kept(
            *old(disk),
            *old(scratch),
            *final(disk),
            *final(scratch),
            old(runs).own(),
        ),
        r is Ok ==> {
            &&& scratch_run::grown(old(runs).own(), *old(scratch), final(runs).own())
            &&& scratch_run::tidy(
                old(runs).own(),
                *old(scratch),
                final(runs).own(),
                *final(scratch),
            )
            &&& final(runs).wf(
                schema.types(),
                executor::key_views(specs@),
                *final(disk),
                *final(scratch),
            )
            &&& row_codec::all_conform(row::row_views(final(rows)@), schema.types())
            &&& bag::bag(hash::flat(final(runs).groups@) + row::row_views(final(rows)@))
                == bag::bag(
                (hash::flat(old(runs).groups@) + row::row_views(old(rows)@)).push(row@),
            )
            &&& exists|size: usize|
                size >= row::saturated((row::encoded_row(row@).len() + 64) as nat)
                    && #[trigger] sort_room(
                    old(rows)@.len(),
                    *old(bytes) as nat,
                    size as nat,
                    run_budget as nat,
                ) == (if final(rows)@.len() == old(rows)@.len() + 1 {
                    Some(*final(bytes) as nat)
                } else {
                    None
                }) && (final(rows)@.len() != old(rows)@.len() + 1 ==> *final(bytes) == size)
            &&& *final(bytes) <= run_budget || final(rows)@.len() <= 1
            &&& row::saturated(kept_bytes(row::row_views(old(rows)@))) <= *old(bytes)
                ==> row::saturated(kept_bytes(row::row_views(final(rows)@))) <= *final(bytes)
            &&& if final(rows)@.len() == old(rows)@.len() + 1 {
                &&& row::row_views(final(rows)@) == row::row_views(old(rows)@).push(row@)
                &&& *final(runs) == *old(runs)
                &&& *final(disk) == *old(disk)
                &&& *final(scratch) == *old(scratch)
            } else {
                row::row_views(final(rows)@) == seq![row@]
            }
        },
        r matches Err(e) ==> !scratch_run::able(*final(disk), *final(scratch)) || (e
            == DbError::RowTooLarge && scratch_run::oversized(
            row::row_views(old(rows)@),
            old(scratch).size() as int,
        )),
{
    let ghost before = hash::flat(runs.groups@);
    let ghost views = row::row_views(rows@);
    proof {
        frame::lemma_kept_refl(*disk, *scratch, runs.own());
    }
    let size: usize = estimated_sort_row_bytes(&row);
    if rows.len() > 0 && bytes.saturating_add(size) > run_budget {
        runs.flush_run(rows, schema, specs, disk, scratch)?;
        *bytes = 0;
        proof {
            assert(row::row_views(rows@) =~= Seq::<RowView>::empty());
            assert(hash::flat(runs.groups@) + row::row_views(rows@) =~= hash::flat(runs.groups@));
        }
    }
    *bytes = bytes.saturating_add(size);
    proof {
        let room = sort_room(
            old(rows)@.len(),
            *old(bytes) as nat,
            size as nat,
            run_budget as nat,
        );
        assert(room is None ==> rows@.len() == 0 && *bytes == size);
        assert(room is Some ==> room == Some(*bytes as nat));
    }
    let ghost middle = row::row_views(rows@);
    let ghost flat = hash::flat(runs.groups@);
    rows.push(row);
    proof {
        let all = row::row_views(rows@);
        assert(all =~= middle.push(row@));
        assert(all.drop_last() =~= middle);
        assert(all.last() == row@);
        assert(kept_bytes(all) == kept_bytes(middle) + row::encoded_row(row@).len() + 64);
        partition::lemma_conform_push(middle, row@, schema.types());
        assert(flat + all =~= (flat + middle).push(row@));
        bag::lemma_bag_push(flat + middle, row@);
        bag::lemma_bag_push(before + views, row@);
    }
    Ok(())
}

impl SortCollector {
    /// The rows that were pushed.
    pub closed spec fn log(self) -> Seq<RowView> {
        self.log@
    }

    /// The columns of the rows.
    pub closed spec fn schema(self) -> Schema {
        self.schema
    }

    /// The types of the rows.
    pub open spec fn types(self) -> Seq<DataType> {
        self.schema().types()
    }

    /// The sort columns.
    pub closed spec fn specs(self) -> Seq<CompiledSortSpec> {
        self.specs@
    }

    /// The blocks in which rows are kept.
    pub closed spec fn own(self) -> Set<int> {
        self.runs.own()
    }

    /// The bytes that rows in memory may take.
    pub closed spec fn run_budget(self) -> usize {
        self.run_budget
    }

    /// The bytes that rows in memory may take in their stored form.
    pub closed spec fn compact_budget(self) -> usize {
        self.compact_budget
    }

    /// The rows in memory.
    pub closed spec fn kept(self) -> Seq<RowView> {
        row::row_views(self.rows@)
    }

    /// The rows in memory in their stored form.
    pub closed spec fn packed(self) -> Seq<RowView> {
        compact_log(self.compact)
    }

    /// What is in memory keeps to the budgets, or is a single row.
    pub open spec fn thrifty(self) -> bool {
        &&& row::saturated(kept_bytes(self.kept())) <= self.run_budget() || self.kept().len() <= 1
        &&& compact::held_bytes(self.packed()) <= self.compact_budget()
    }

    spec fn all(self) -> Seq<RowView> {
        hash::flat(self.runs.groups@) + compact_log(self.compact) + row::row_views(self.rows@)
    }

    /// What was pushed is kept.
    pub closed spec fn wf<R: Input, W: Output>(
        self,
        disk: DiskClient<R, W>,
        scratch: ScratchSpace,
    ) -> bool {
        &&& self.runs.wf(self.types(), executor::key_views(self.specs@), disk, scratch)
        &&& compact::specs_below(self.specs@, self.schema@.len() as int)
        &&& self.compact matches Some(state) ==> state.wf(self.types()) && state.budget()
            == self.compact_budget
        &&& row_codec::all_conform(row::row_views(self.rows@), self.types())
        &&& bag::bag(self.all()) == bag::bag(self.log@)
        &&& row::saturated(kept_bytes(self.kept())) <= self.bytes
        &&& self.bytes <= self.run_budget || self.rows@.len() <= 1
        &&& self.thrifty()
    }

    /// The rows in memory were pushed.
    proof fn lemma_parts_within(self)
        requires
            bag::bag(self.all()) == bag::bag(self.log@),
        ensures
            bag::within(compact_log(self.compact), self.log@),
            bag::within(row::row_views(self.rows@), self.log@),
    {
        reveal(bag::within);
        let all = self.all();
        let flat = hash::flat(self.runs.groups@);
        let middle = compact_log(self.compact);
        let rows = row::row_views(self.rows@);
        bag::lemma_within_bag(all, self.log@);
        assert forall|i: int| 0 <= i < middle.len() implies self.log@.contains(
            #[trigger] middle[i],
        ) by {
            assert(all[flat.len() + i] == middle[i]);
            bag::lemma_within_has(all, self.log@, middle[i]);
        }
        assert forall|i: int| 0 <= i < rows.len() implies self.log@.contains(
            #[trigger] rows[i],
        ) by {
            assert(all[flat.len() + middle.len() + i] == rows[i]);
            bag::lemma_within_has(all, self.log@, rows[i]);
        }
    }

    /// What was pushed stays where other blocks change.
    pub proof fn lemma_wf_kept<R: Input, W: Output>(
        self,
        d0: DiskClient<R, W>,
        s0: ScratchSpace,
        d1: DiskClient<R, W>,
        s1: ScratchSpace,
        own: Set<int>,
    )
        requires
            self.wf(d0, s0),
            scratch_run::kept(d0, s0, d1, s1, own),
            self.own().disjoint(own),
        ensures
            self.wf(d1, s1),
    {
        self.runs.lemma_wf_kept(
            self.types(),
            executor::key_views(self.specs@),
            d0,
            s0,
            d1,
            s1,
            own,
        );
    }

    /// The blocks are in use.
    pub proof fn lemma_own_in_use<R: Input, W: Output>(
        self,
        disk: DiskClient<R, W>,
        scratch: ScratchSpace,
    )
        requires
            self.wf(disk, scratch),
        ensures
            scratch_run::in_use(self.own(), scratch),
    {
        frame::lemma_union_in_use(partition::run_slots(self.runs.runs@), scratch);
    }

    /// Nothing yet.
    pub fn new<R: Input, W: Output>(
        schema: Schema,
        specs: Vec<CompiledSortSpec>,
        run_budget: usize,
        compact_budget: usize,
        disk: &DiskClient<R, W>,
        scratch: &ScratchSpace,
    ) -> (r: SortCollector)
        requires
            compact::specs_below(specs@, schema@.len() as int),
        ensures
            r.wf(*disk, *scratch),
            r.log() == Seq::<RowView>::empty(),
            r.schema() == schema,
            r.specs() == specs@,
            r.own() == Set::<int>::empty(),
            r.run_budget() == run_budget,
            r.compact_budget() == compact_budget,
    {
        let compact = if compact_budget > 0 {
            Some(CompactSortState::with_capacity(compact_budget))
        } else {
            None
        };
        let r = SortCollector {
            schema,
            specs,
            run_budget,
            compact_budget,
            compact,
            rows: Vec::new(),
            bytes: 0,
            runs: SortedRuns::new(),
            log: Ghost(Seq::empty()),
        };
        proof {
            assert(r.all() =~= Seq::<RowView>::empty());
            assert(r.kept() =~= Seq::<RowView>::empty());
            assert(r.packed() =~= Seq::<RowView>::empty());
        }
        r
    }

    /// Takes a row.
    pub fn push<R: Input, W: Output>(
        &mut self,
        row: Row,
        disk: &mut DiskClient<R, W>,
        scratch: &mut ScratchSpace,
    ) -> (r: Result<(), DbError>)
        requires
            old(self).wf(*old(disk), *old(scratch)),
            old(scratch).wf(),
            data::conforms(row@, old(self).types()),
        ensures
            scratch_run::kept(
                *old(disk),
                *old(scratch),
                *final(disk),
                *final(scratch),
                old(self).own(),
            ),
            r is Ok ==> {
                &&& scratch_run::grown(old(self).own(), *old(scratch), final(self).own())
                &&& scratch_run::tidy(
                    old(self).own(),
                    *old(scratch),
                    final(self).own(),
                    *final(scratch),
                )
                &&& final(self).wf(*final(disk), *final(scratch))
                &&& final(self).schema() == old(self).schema()
                &&& final(self).specs() == old(self).specs()
                &&& final(self).log() == old(self).log().push(row@)
                &&& final(self).run_budget() == old(self).run_budget()
                &&& final(self).compact_budget() == old(self).compact_budget()
                &&& final(self).thrifty()
            },
            r matches Err(e) ==> !scratch_run::able(*final(disk), *final(scratch)) || (e
                == DbError::RowTooLarge && scratch_run::oversized(
                old(self).log().push(row@),
                old(scratch).size() as int,
            )),
    {
        let ghost start = *self;
        let ghost (d0, s0) = (*disk, *scratch);
        let ghost log = self.log@.push(row@);
        proof {
            broadcast use scratch_run::lemma_oversized_within;

            self.lemma_parts_within();
            bag::lemma_within_front(self.log@, log);
            bag::lemma_within_trans(compact_log(self.compact), self.log@, log);
            bag::lemma_within_trans(row::row_views(self.rows@), self.log@, log);
            frame::lemma_kept_refl(*disk, *scratch, self.own());
            bag::lemma_bag_push(self.log@, row@);
            bag::lemma_bag_push(self.all(), row@);
        }
        let mut held: Option<CompactSortState> = None;
        core::mem::swap(&mut held, &mut self.compact);
        if let Some(state) = held {
            let mut state = state;
            let ghost before = state;
            let pushed: bool = state.try_push_row(&row)?;
            if pushed {
                let ghost after = state;
                self.compact = Some(state);
                proof {
                    self.log@ = log;
                    lemma_move_middle(
                        hash::flat(start.runs.groups@),
                        before.log(),
                        row::row_views(start.rows@),
                        row@,
                    );
                    assert(after.log() == before.log().push(row@));
                }
                return Ok(());
            }
            let ghost kept_log = state.log();
            self.runs.flush_compact_run(state, &self.schema, &self.specs, disk, scratch)?;
            proof {
                assert(compact_log(self.compact) =~= Seq::<RowView>::empty());
                lemma_flushed_middle(
                    hash::flat(start.runs.groups@),
                    kept_log,
                    row::row_views(start.rows@),
                    hash::flat(self.runs.groups@),
                );
            }
            let mut fresh = CompactSortState::with_capacity(self.compact_budget);
            let ghost none = fresh;
            let fits: bool = fresh.try_push_row(&row)?;
            if fits {
                let ghost after = fresh;
                self.compact = Some(fresh);
                proof {
                    self.log@ = log;
                    assert(none.wf(self.types()));
                    lemma_move_middle(
                        hash::flat(self.runs.groups@),
                        none.log(),
                        row::row_views(start.rows@),
                        row@,
                    );
                    bag::lemma_bag_push(
                        hash::flat(self.runs.groups@) + none.log() + row::row_views(start.rows@),
                        row@,
                    );
                }
                return Ok(());
            }
        }
        let ghost flat = hash::flat(self.runs.groups@);
        let ghost views = row::row_views(self.rows@);
        proof {
            assert(flat + compact_log(self.compact) + views =~= flat + views);
            assert(bag::bag(flat + views) == bag::bag(start.all()));
        }
        let ghost (d1, s1) = (*disk, *scratch);
        let ghost own1 = self.runs.own();
        let result = push_standard_row(
            row,
            &self.schema,
            &self.specs,
            self.run_budget,
            &mut self.rows,
            &mut self.bytes,
            &mut self.runs,
            disk,
            scratch,
        );
        proof {
            frame::lemma_kept_trans(d0, s0, d1, s1, *disk, *scratch, start.own(), own1);
        }
        result?;
        proof {
            frame::lemma_grown_trans(d0, s0, d1, s1, start.own(), own1, self.own());
            self.log@ = log;
            bag::lemma_bag_push(flat + views, row@);
            assert(self.all() =~= hash::flat(self.runs.groups@) + row::row_views(self.rows@));
            assert(self.kept().drop_last() =~= views || self.kept() == seq![row@]);
            assert(seq![row@].drop_last() =~= Seq::<RowView>::empty());
            assert(self.packed() =~= Seq::<RowView>::empty());
        }
        Ok(())
    }

    /// All that was pushed.
    pub fn finish<R: Input, W: Output>(
        self,
        disk: &DiskClient<R, W>,
        scratch: &ScratchSpace,
    ) -> (r: SortedParts)
        requires
            self.wf(*disk, *scratch),
        ensures
            r.wf(self.types(), executor::key_views(self.specs()), *disk, *scratch),
            r.runs.own() == self.own(),
            bag::bag(r.all()) == bag::bag(self.log()),
            row::row_views(r.rows@) == self.kept(),
            compact_log(r.compact) == self.packed(),
            self.thrifty(),
    {
        SortedParts { compact: self.compact, rows: self.rows, runs: self.runs }
    }
}

proof fn lemma_move_middle(a: Seq<RowView>, b: Seq<RowView>, c: Seq<RowView>, x: RowView)
    ensures
        bag::bag(a + b.push(x) + c) == bag::bag((a + b + c).push(x)),
{
    bag::lemma_bag_concat(a + b.push(x), c);
    bag::lemma_bag_concat(a + b, c);
    assert(a + b.push(x) =~= (a + b).push(x));
    bag::lemma_bag_push(a + b, x);
    bag::lemma_bag_push(a + b + c, x);
    assert(bag::bag(a + b).insert(x).add(bag::bag(c)) =~= bag::bag(a + b).add(
        bag::bag(c),
    ).insert(x));
}

proof fn lemma_flushed_middle(a: Seq<RowView>, b: Seq<RowView>, c: Seq<RowView>, d: Seq<RowView>)
    requires
        bag::bag(d) == bag::bag(a + b),
    ensures
        bag::bag(d + Seq::<RowView>::empty() + c) == bag::bag(a + b + c),
        bag::bag(d + c) == bag::bag(a + b + c),
{
    assert(d + Seq::<RowView>::empty() =~= d);
    bag::lemma_bag_concat(d, c);
    bag::lemma_bag_concat(a + b, c);
}

} // verus!
