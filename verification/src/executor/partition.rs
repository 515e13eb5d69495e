//! Rows in partitions, each in a run of its own.

use vstd::prelude::*;

use crate::bag;
use crate::data;
use crate::data::DataType;
use crate::error::DbError;
use crate::executor::frame;
use crate::executor::hash;
use crate::executor::hash::{
    join_key_digest_for_row, partition_index_for_digest, JoinBloomFilter, PARTITION_FANOUT,
};
use crate::executor::keys;
use crate::io::{Input, Output};
use crate::row;
use crate::row::{Row, Schema};
use crate::semantics::RowView;
use crate::storage::block_allocator::{ScratchRun, ScratchSpace};
use crate::storage::disk_client::DiskClient;
use crate::storage::row_codec;
use crate::storage::scratch_run;
use crate::storage::scratch_run::ScratchRunWriter;

verus! {

/// One writer for each partition, once a row came to it.
pub struct PartitionWriters {
    writers: Vec<Option<ScratchRunWriter>>,
    parts: Ghost<Seq<Seq<RowView>>>,
}

spec fn writer_own(writer: Option<ScratchRunWriter>) -> Set<int> {
    match writer {
        Some(w) => w.own(),
        None => Set::empty(),
    }
}

spec fn writer_ok<R: Input, W: Output>(
    writer: Option<ScratchRunWriter>,
    rows: Seq<RowView>,
    disk: DiskClient<R, W>,
    scratch: ScratchSpace,
) -> bool {
    match writer {
        Some(w) => {
            &&& w.wf(disk, scratch)
            &&& w.items() == scratch_run::encodings(rows)
            &&& w.block_size() == scratch.size()
        },
        None => rows.len() == 0,
    }
}

spec fn writer_slots(writers: Seq<Option<ScratchRunWriter>>) -> Seq<Set<int>> {
    Seq::new(writers.len(), |j: int| writer_own(writers[j]))
}

impl PartitionWriters {
    /// The rows of each partition.
    pub closed spec fn parts(self) -> Seq<Seq<RowView>> {
        self.parts@
    }

    /// The blocks of all writers.
    pub closed spec fn own(self) -> Set<int> {
        frame::union_all(writer_slots(self.writers@))
    }

    /// What came to each partition is on its way to its run.
    pub closed spec fn wf<R: Input, W: Output>(
        self,
        disk: DiskClient<R, W>,
        scratch: ScratchSpace,
    ) -> bool {
        &&& self.writers@.len() == PARTITION_FANOUT
        &&& self.parts@.len() == PARTITION_FANOUT
        &&& frame::apart(writer_slots(self.writers@))
        &&& frame::all_in_use(writer_slots(self.writers@), scratch)
        &&& forall|j: int|
            0 <= j < PARTITION_FANOUT ==> writer_ok(
                #[trigger] self.writers@[j],
                self.parts@[j],
                disk,
                scratch,
            )
    }

    /// What came to each partition stays where other blocks change.
    pub proof fn lemma_wf_kept<R: Input, W: Output>(
        self,
        d0: DiskClient<R, W>,
        s0: ScratchSpace,
        d1: DiskClient<R, W>,
        s1: ScratchSpace,
        own: Set<int>,
    )
        requires
            self.wf(d0, s0),
            scratch_run::kept(d0, s0, d1, s1, own),
            self.own().disjoint(own),
        ensures
            self.wf(d1, s1),
    {
        let slots = writer_slots(self.writers@);
        frame::lemma_all_in_use_kept(slots, d0, s0, d1, s1, own);
        assert forall|j: int| 0 <= j < PARTITION_FANOUT implies writer_ok(
            #[trigger] self.writers@[j],
            self.parts@[j],
            d1,
            s1,
        ) by {
            assert(writer_ok(self.writers@[j], self.parts@[j], d0, s0));
            assert(slots[j].disjoint(own));
            if let Some(w) = self.writers@[j] {
                w.lemma_wf_kept(d0, s0, d1, s1, own);
            }
        }
    }

    /// The blocks are in use.
    pub proof fn lemma_own_in_use<R: Input, W: Output>(
        self,
        disk: DiskClient<R, W>,
        scratch: ScratchSpace,
    )
        requires
            self.wf(disk, scratch),
        ensures
            scratch_run::in_use(self.own(), scratch),
    {
        frame::lemma_union_in_use(writer_slots(self.writers@), scratch);
    }

    /// Writers to which nothing came.
    pub fn new<R: Input, W: Output>(disk: &DiskClient<R, W>, scratch: &ScratchSpace) -> (r:
        PartitionWriters)
        ensures
            r.wf(*disk, *scratch),
            r.own() == Set::<int>::empty(),
            r.parts().len() == PARTITION_FANOUT,
            forall|j: int|
                0 <= j < PARTITION_FANOUT ==> #[trigger] r.parts()[j] == Seq::<RowView>::empty(),
    {
        let mut writers: Vec<Option<ScratchRunWriter>> = Vec::new();
        let mut i: usize = 0;
        while i < PARTITION_FANOUT
            invariant
                i <= PARTITION_FANOUT,
                writers@.len() == i,
                forall|j: int| 0 <= j < i ==> (#[trigger] writers@[j]) is None,
            decreases PARTITION_FANOUT - i,
        {
            writers.push(None);
            i = i + 1;
        }
        let ghost parts = Seq::new(PARTITION_FANOUT as nat, |j: int| Seq::<RowView>::empty());
        let r = PartitionWriters { writers, parts: Ghost(parts) };
        proof {
            assert(r.own() =~= Set::<int>::empty()) by {
                assert forall|b: int| !#[trigger] r.own().contains(b) by {
                    if r.own().contains(b) {
                        let slots = writer_slots(r.writers@);
                        let j = choose|j: int|
                            0 <= j < slots.len() && (#[trigger] slots[j]).contains(b);
                        assert(r.writers@[j] is None);
                    }
                }
            }
        }
        r
    }

    /// Sends a stored row to a partition.
    pub fn push_encoded<R: Input, W: Output>(
        &mut self,
        partition: usize,
        encoded: &[u8],
        row: Ghost<RowView>,
        disk: &mut DiskClient<R, W>,
        scratch: &mut ScratchSpace,
    ) -> (r: Result<(), DbError>)
        requires
            old(self).wf(*old(disk), *old(scratch)),
            old(scratch).wf(),
            partition < PARTITION_FANOUT,
            encoded@ == row::encoded_row(row@),
        ensures
            scratch_run::kept(
                *old(disk),
                *old(scratch),
                *final(disk),
                *final(scratch),
                old(self).own(),
            ),
            r is Ok ==> {
                &&& scratch_run::grown(old(self).own(), *old(scratch), final(self).own())
                &&& scratch_run::tidy(
                    old(self).own(),
                    *old(scratch),
                    final(self).own(),
                    *final(scratch),
                )
                &&& final(self).wf(*final(disk), *final(scratch))
                &&& final(self).parts() == old(self).parts().update(
                    partition as int,
                    old(self).parts()[partition as int].push(row@),
                )
            },
            r matches Err(e) ==> !scratch_run::able(*final(disk), *final(scratch)) || (e
                == DbError::RowTooLarge && encoded@.len() + 2 > old(scratch).size()),
    {
        let ghost before = *self;
        let ghost slots = writer_slots(self.writers@);
        let ghost (d0, s0) = (*disk, *scratch);
        let mut slot: Option<ScratchRunWriter> = None;
        self.writers.set_and_swap(partition, &mut slot);
        let mut writer: ScratchRunWriter = match slot {
            Some(writer) => writer,
            None => ScratchRunWriter::new(disk, scratch, scratch.block_size()),
        };
        let ghost first = writer;
        proof {
            assert(slot == before.writers@[partition as int]);
            assert(writer_ok(
                before.writers@[partition as int],
                before.parts@[partition as int],
                d0,
                s0,
            ));
            assert(slots[partition as int] == writer_own(slot));
            assert(first.own() == slots[partition as int]);
            assert(first.items() =~= scratch_run::encodings(before.parts@[partition as int]));
        }
        let result = writer.push_encoded_row(encoded, disk, scratch);
        proof {
            frame::lemma_kept_more(d0, s0, *disk, *scratch, first.own(), before.own());
        }
        result?;
        let ghost after = writer;
        proof {
            writer.lemma_own_in_use(*disk, *scratch);
        }
        self.writers.set(partition, Some(writer));
        proof {
            let rows = self.parts@[partition as int];
            self.parts@ = self.parts@.update(partition as int, rows.push(row@));
            assert(scratch_run::encodings(rows.push(row@)) =~= scratch_run::encodings(rows).push(
                row::encoded_row(row@),
            ));
            let fresh = writer_slots(self.writers@);
            assert(fresh =~= slots.update(partition as int, after.own()));
            frame::lemma_slot_grows(
                slots,
                partition as int,
                after.own(),
                d0,
                s0,
                *disk,
                *scratch,
            );
            assert forall|j: int| 0 <= j < PARTITION_FANOUT implies writer_ok(
                #[trigger] self.writers@[j],
                self.parts@[j],
                *disk,
                *scratch,
            ) by {
                if j != partition {
                    assert(self.writers@[j] == before.writers@[j]);
                    assert(writer_ok(before.writers@[j], before.parts@[j], d0, s0));
                    assert(slots[j].disjoint(slots[partition as int]));
                    if let Some(w) = self.writers@[j] {
                        w.lemma_wf_kept(d0, s0, *disk, *scratch, first.own());
                    }
                }
            }
        }
        Ok(())
    }

    /// Sends a row to a partition.
    pub fn push<R: Input, W: Output>(
        &mut self,
        partition: usize,
        row: &Row,
        disk: &mut DiskClient<R, W>,
        scratch: &mut ScratchSpace,
    ) -> (r: Result<(), DbError>)
        requires
            old(self).wf(*old(disk), *old(scratch)),
            old(scratch).wf(),
            partition < PARTITION_FANOUT,
        ensures
            scratch_run::kept(
                *old(disk),
                *old(scratch),
                *final(disk),
                *final(scratch),
                old(self).own(),
            ),
            r is Ok ==> {
                &&& scratch_run::grown(old(self).own(), *old(scratch), final(self).own())
                &&& scratch_run::tidy(
                    old(self).own(),
                    *old(scratch),
                    final(self).own(),
                    *final(scratch),
                )
                &&& final(self).wf(*final(disk), *final(scratch))
                &&& final(self).parts() == old(self).parts().update(
                    partition as int,
                    old(self).parts()[partition as int].push(row@),
                )
            },
            r matches Err(e) ==> !scratch_run::able(*final(disk), *final(scratch)) || (e
                == DbError::RowTooLarge && row::encoded_row(row@).len() + 2 > old(scratch).size()),
    {
        match row.to_stored() {
            Some(stored) => self.push_encoded(
                partition,
                stored.as_slice(),
                Ghost(row@),
                disk,
                scratch,
            ),
            None => {
                proof {
                    frame::lemma_kept_refl(*disk, *scratch, self.own());
                }
                Err(DbError::RowTooLarge)
            },
        }
    }
}

/// The runs of partitions.
pub struct PartitionedRuns {
    pub schema: Schema,
    pub runs: Vec<ScratchRun>,
    pub non_empty_partitions: usize,
}

/// The blocks of each run.
pub open spec fn run_slots(runs: Seq<ScratchRun>) -> Seq<Set<int>> {
    Seq::new(runs.len(), |j: int| scratch_run::ids_set(runs[j]@))
}

/// A run holds these rows.
pub open spec fn run_ok<R: Input, W: Output>(
    run: ScratchRun,
    rows: Seq<RowView>,
    types: Seq<DataType>,
    disk: DiskClient<R, W>,
) -> bool {
    &&& row_codec::all_conform(rows, types)
    &&& scratch_run::run_rows(disk.scratch(), run@, types) == Ok::<Seq<RowView>, DbError>(rows)
    &&& run@.len() == 0 <==> rows.len() == 0
}

/// A run holds what it held where other blocks change.
pub proof fn lemma_run_kept<R: Input, W: Output>(
    run: ScratchRun,
    rows: Seq<RowView>,
    types: Seq<DataType>,
    d0: DiskClient<R, W>,
    s0: ScratchSpace,
    d1: DiskClient<R, W>,
    s1: ScratchSpace,
    own: Set<int>,
)
    requires
        run_ok(run, rows, types, d0),
        scratch_run::in_use(scratch_run::ids_set(run@), s0),
        scratch_run::kept(d0, s0, d1, s1, own),
        scratch_run::ids_set(run@).disjoint(own),
    ensures
        run_ok(run, rows, types, d1),
        scratch_run::in_use(scratch_run::ids_set(run@), s1),
{
    let ids = scratch_run::ids_set(run@);
    frame::lemma_in_use_kept(d0, s0, d1, s1, own, ids);
    assert forall|k: int| 0 <= k < run@.len() implies d0.scratch()[#[trigger] run@[k] as int]
        == d1.scratch()[run@[k] as int] by {
        assert(ids.contains(run@[k] as int));
    }
    scratch_run::lemma_run_rows_same(d0.scratch(), d1.scratch(), run@, types);
}

impl PartitionedRuns {
    /// The blocks of all runs.
    pub open spec fn own(self) -> Set<int> {
        frame::union_all(run_slots(self.runs@))
    }

    /// The runs hold these rows.
    pub open spec fn keeps<R: Input, W: Output>(
        self,
        disk: DiskClient<R, W>,
        scratch: ScratchSpace,
        parts: Seq<Seq<RowView>>,
    ) -> bool {
        &&& self.runs@.len() == PARTITION_FANOUT
        &&& parts.len() == PARTITION_FANOUT
        &&& frame::apart(run_slots(self.runs@))
        &&& frame::all_in_use(run_slots(self.runs@), scratch)
        &&& forall|j: int|
            0 <= j < PARTITION_FANOUT ==> run_ok(
                #[trigger] self.runs@[j],
                parts[j],
                self.schema.types(),
                disk,
            )
    }

    /// The runs hold what they held where other blocks change.
    pub proof fn lemma_keeps<R: Input, W: Output>(
        self,
        d0: DiskClient<R, W>,
        s0: ScratchSpace,
        d1: DiskClient<R, W>,
        s1: ScratchSpace,
        own: Set<int>,
        parts: Seq<Seq<RowView>>,
    )
        requires
            self.keeps(d0, s0, parts),
            scratch_run::kept(d0, s0, d1, s1, own),
            self.own().disjoint(own),
        ensures
            self.keeps(d1, s1, parts),
            scratch_run::in_use(self.own(), s1),
    {
        let slots = run_slots(self.runs@);
        frame::lemma_all_in_use_kept(slots, d0, s0, d1, s1, own);
        frame::lemma_union_in_use(slots, s1);
        assert forall|j: int| 0 <= j < PARTITION_FANOUT implies run_ok(
            #[trigger] self.runs@[j],
            parts[j],
            self.schema.types(),
            d1,
        ) by {
            assert(scratch_run::in_use(slots[j], s0));
            assert(slots[j].disjoint(own));
            lemma_run_kept(self.runs@[j], parts[j], self.schema.types(), d0, s0, d1, s1, own);
        }
    }

    /// Gives the blocks of the runs back.
    pub fn release<R: Input, W: Output>(self, disk: &DiskClient<R, W>, scratch: &mut ScratchSpace)
        requires
            old(scratch).wf(),
            frame::apart(run_slots(self.runs@)),
            frame::all_in_use(run_slots(self.runs@), *old(scratch)),
        ensures
            final(scratch).next() == old(scratch).next(),
            scratch_run::kept(*disk, *old(scratch), *disk, *final(scratch), self.own()),
            scratch_run::tidy(
                self.own(),
                *old(scratch),
                Set::<int>::empty(),
                *final(scratch),
            ),
    {
        release_runs(self.runs, disk, scratch)
    }
}

/// Gives the blocks of runs back.
pub fn release_runs<R: Input, W: Output>(
    runs: Vec<ScratchRun>,
    disk: &DiskClient<R, W>,
    scratch: &mut ScratchSpace,
)
    requires
        old(scratch).wf(),
        frame::apart(run_slots(runs@)),
        frame::all_in_use(run_slots(runs@), *old(scratch)),
    ensures
        final(scratch).next() == old(scratch).next(),
        scratch_run::kept(
            *disk,
            *old(scratch),
            *disk,
            *final(scratch),
            frame::union_all(run_slots(runs@)),
        ),
        scratch_run::tidy(
            frame::union_all(run_slots(runs@)),
            *old(scratch),
            Set::<int>::empty(),
            *final(scratch),
        ),
{
    let ghost slots = run_slots(runs@);
    let ghost own = frame::union_all(slots);
    proof {
        frame::lemma_kept_refl(*disk, *scratch, own);
    }
    for run in it: runs
        invariant
            it.seq() == runs@,
            slots == run_slots(runs@),
            own == frame::union_all(slots),
            frame::apart(slots),
            scratch.next() == old(scratch).next(),
            scratch_run::kept(*disk, *old(scratch), *disk, *scratch, own),
            scratch.wf(),
            forall|j: int|
                it.index() <= j < runs@.len() ==> scratch_run::in_use(#[trigger] slots[j], *scratch),
            forall|b: int, j: int|
                0 <= j < it.index() && (#[trigger] slots[j]).contains(b) ==> !(#[trigger]
                scratch.allocated(b)),
            forall|b: int| #[trigger] scratch.allocated(b) ==> old(scratch).allocated(b),
    {
        let ghost i = it.index() as int;
        let ghost before = *scratch;
        proof {
            assert(slots[i] == scratch_run::ids_set(run@));
            assert(scratch_run::in_use(slots[i], *scratch));
        }
        frame::release_run(run, disk, scratch);
        proof {
            assert forall|b: int| #[trigger] slots[i].contains(b) implies own.contains(b) by {}
            frame::lemma_kept_trans(
                *disk,
                *old(scratch),
                *disk,
                before,
                *disk,
                *scratch,
                own,
                slots[i],
            );
            assert forall|j: int| i + 1 <= j < runs@.len() implies scratch_run::in_use(
                #[trigger] slots[j],
                *scratch,
            ) by {
                assert(slots[i].disjoint(slots[j]));
                assert(slots[j].disjoint(slots[i]));
                frame::lemma_in_use_kept(*disk, before, *disk, *scratch, slots[i], slots[j]);
            }
        }
    }
}

/// How many of the first `n` partitions hold rows.
pub open spec fn non_empty(parts: Seq<Seq<RowView>>, n: int) -> int
    decreases n,
{
    if n <= 0 {
        0
    } else if parts[n - 1].len() > 0 {
        non_empty(parts, n - 1) + 1
    } else {
        non_empty(parts, n - 1)
    }
}

/// The run of what came to one partition.
fn finish_writer<R: Input, W: Output>(
    slot: Option<ScratchRunWriter>,
    rows: Ghost<Seq<RowView>>,
    types: Ghost<Seq<DataType>>,
    disk: &mut DiskClient<R, W>,
    scratch: &mut ScratchSpace,
) -> (r: Result<ScratchRun, DbError>)
    requires
        writer_ok(slot, rows@, *old(disk), *old(scratch)),
        old(scratch).wf(),
        row_codec::all_conform(rows@, types@),
    ensures
        scratch_run::kept(
            *old(disk),
            *old(scratch),
            *final(disk),
            *final(scratch),
            writer_own(slot),
        ),
        r matches Ok(run) ==> {
            &&& scratch_run::grown(writer_own(slot), *old(scratch), scratch_run::ids_set(run@))
            &&& scratch_run::tidy(
                writer_own(slot),
                *old(scratch),
                scratch_run::ids_set(run@),
                *final(scratch),
            )
            &&& scratch_run::in_use(scratch_run::ids_set(run@), *final(scratch))
            &&& run_ok(run, rows@, types@, *final(disk))
        },
        r is Err ==> !scratch_run::able(*final(disk), *final(scratch)),
{
    match slot {
        Some(writer) => {
            let run = writer.finish(disk, scratch)?;
            proof {
                assert(scratch_run::encodings(rows@) == writer.items());
                assert(scratch_run::run_rows(disk.scratch(), run@, types@) == Ok::<
                    Seq<RowView>,
                    DbError,
                >(rows@));
            }
            Ok(run)
        },
        None => {
            let run = ScratchRun::empty();
            proof {
                frame::lemma_kept_refl(*disk, *scratch, Set::<int>::empty());
                assert(rows@ =~= Seq::<RowView>::empty());
            }
            Ok(run)
        },
    }
}

/// The runs of what came to the partitions.
pub fn finish_partition_writers<R: Input, W: Output>(
    schema: Schema,
    writers: PartitionWriters,
    disk: &mut DiskClient<R, W>,
    scratch: &mut ScratchSpace,
) -> (r: Result<PartitionedRuns, DbError>)
    requires
        writers.wf(*old(disk), *old(scratch)),
        old(scratch).wf(),
        forall|j: int|
            0 <= j < PARTITION_FANOUT ==> row_codec::all_conform(
                #[trigger] writers.parts()[j],
                schema.types(),
            ),
    ensures
        scratch_run::kept(
            *old(disk),
            *old(scratch),
            *final(disk),
            *final(scratch),
            writers.own(),
        ),
        r matches Ok(runs) ==> {
            &&& scratch_run::grown(writers.own(), *old(scratch), runs.own())
            &&& scratch_run::tidy(writers.own(), *old(scratch), runs.own(), *final(scratch))
            &&& scratch_run::in_use(runs.own(), *final(scratch))
            &&& runs.keeps(*final(disk), *final(scratch), writers.parts())
            &&& runs.schema == schema
            &&& runs.non_empty_partitions == non_empty(writers.parts(), PARTITION_FANOUT as int)
        },
        r is Err ==> !scratch_run::able(*final(disk), *final(scratch)),
{
    let ghost parts = writers.parts@;
    let ghost types = schema.types();
    let ghost (d0, s0) = (*disk, *scratch);
    let ghost own0 = writers.own();
    let mut slots = writers.writers;
    let ghost mut sets = writer_slots(slots@);
    let mut runs: Vec<ScratchRun> = Vec::new();
    let mut non_empty_partitions: usize = 0;
    let mut i: usize = 0;
    proof {
        frame::lemma_kept_refl(*disk, *scratch, own0);
        assert forall|j: int| 0 <= j < PARTITION_FANOUT implies row_codec::all_conform(
            #[trigger] parts[j],
            types,
        ) by {
            assert(row_codec::all_conform(writers.parts()[j], types));
        }
    }
    while i < PARTITION_FANOUT
        invariant
            i <= PARTITION_FANOUT,
            types == schema.types(),
            scratch.wf(),
            slots@.len() == PARTITION_FANOUT,
            parts.len() == PARTITION_FANOUT,
            sets.len() == PARTITION_FANOUT,
            runs@.len() == i,
            non_empty_partitions == non_empty(parts, i as int),
            non_empty_partitions <= i,
            frame::apart(sets),
            frame::all_in_use(sets, *scratch),
            forall|j: int|
                0 <= j < i ==> #[trigger] sets[j] == scratch_run::ids_set(runs@[j]@) && run_ok(
                    runs@[j],
                    parts[j],
                    types,
                    *disk,
                ),
            forall|j: int|
                i <= j < PARTITION_FANOUT ==> #[trigger] sets[j] == writer_own(slots@[j])
                    && writer_ok(slots@[j], parts[j], *disk, *scratch),
            forall|j: int|
                0 <= j < PARTITION_FANOUT ==> row_codec::all_conform(#[trigger] parts[j], types),
            scratch_run::kept(d0, s0, *disk, *scratch, own0),
            scratch_run::grown(own0, s0, frame::union_all(sets)),
            scratch_run::tidy(own0, s0, frame::union_all(sets), *scratch),
            d0 == *old(disk),
            s0 == *old(scratch),
            own0 == writers.own(),
        decreases PARTITION_FANOUT - i,
    {
        let ghost (d1, s1) = (*disk, *scratch);
        let ghost old_slots = slots@;
        let mut slot: Option<ScratchRunWriter> = None;
        slots.set_and_swap(i, &mut slot);
        proof {
            assert(slot == old_slots[i as int]);
            assert(sets[i as int] == writer_own(slot));
            assert(row_codec::all_conform(parts[i as int], types));
            assert forall|b: int| #[trigger] sets[i as int].contains(b) implies frame::union_all(
                sets,
            ).contains(b) by {}
            assert(scratch_run::grown(own0, s0, sets[i as int]));
        }
        let result = finish_writer(slot, Ghost(parts[i as int]), Ghost(types), disk, scratch);
        proof {
            frame::lemma_kept_trans(d0, s0, d1, s1, *disk, *scratch, own0, sets[i as int]);
        }
        let run = result?;
        if run.block_ids().len() > 0 {
            non_empty_partitions = non_empty_partitions + 1;
        }
        proof {
            let fresh = scratch_run::ids_set(run@);
            let before = sets;
            frame::lemma_slot_grows(before, i as int, fresh, d1, s1, *disk, *scratch);
            sets = before.update(i as int, fresh);
            frame::lemma_grown_trans(
                d0,
                s0,
                d1,
                s1,
                own0,
                frame::union_all(before),
                frame::union_all(sets),
            );
            assert forall|j: int| 0 <= j < i implies #[trigger] sets[j] == scratch_run::ids_set(
                runs@[j]@,
            ) && run_ok(runs@[j], parts[j], types, *disk) by {
                assert(before[j] == sets[j]);
                assert(before[j].disjoint(before[i as int]));
                assert(scratch_run::in_use(before[j], s1));
                lemma_run_kept(
                    runs@[j],
                    parts[j],
                    types,
                    d1,
                    s1,
                    *disk,
                    *scratch,
                    before[i as int],
                );
            }
            assert forall|j: int| i < j < PARTITION_FANOUT implies #[trigger] sets[j]
                == writer_own(slots@[j]) && writer_ok(slots@[j], parts[j], *disk, *scratch) by {
                assert(before[j] == sets[j]);
                assert(slots@[j] == old_slots[j]);
                assert(before[j].disjoint(before[i as int]));
                if let Some(w) = slots@[j] {
                    w.lemma_wf_kept(d1, s1, *disk, *scratch, before[i as int]);
                }
            }
        }
        runs.push(run);
        i = i + 1;
    }
    proof {
        assert(run_slots(runs@) =~= sets);
        frame::lemma_union_in_use(sets, *scratch);
        assert forall|j: int| 0 <= j < PARTITION_FANOUT implies run_ok(
            #[trigger] runs@[j],
            parts[j],
            types,
            *disk,
        ) by {
            assert(sets[j] == scratch_run::ids_set(runs@[j]@));
        }
    }
    Ok(PartitionedRuns { schema, runs, non_empty_partitions })
}

/// Rows on their way to partitions. A build side leaves its digests in a
/// filter; of a probe side only what a filter shows is kept.
pub struct Partitioner {
    schema: Schema,
    key_indexes: Vec<usize>,
    depth: u32,
    build_filter: Option<JoinBloomFilter>,
    probe_filter: Option<JoinBloomFilter>,
    writers: PartitionWriters,
    log: Ghost<Seq<RowView>>,
}

/// Every row has the types when one more has.
pub proof fn lemma_conform_push(rows: Seq<RowView>, r: RowView, types: Seq<DataType>)
    requires
        row_codec::all_conform(rows, types),
        data::conforms(r, types),
    ensures
        row_codec::all_conform(rows.push(r), types),
{
    assert forall|i: int| 0 <= i < rows.push(r).len() implies data::conforms(
        #[trigger] rows.push(r)[i],
        types,
    ) by {
        if i < rows.len() {
            assert(rows.push(r)[i] == rows[i]);
        }
    }
}

/// Rows that are picked have the types too.
pub proof fn lemma_conform_select(
    rows: Seq<RowView>,
    pick: spec_fn(RowView) -> bool,
    types: Seq<DataType>,
)
    requires
        row_codec::all_conform(rows, types),
    ensures
        row_codec::all_conform(bag::select(rows, pick), types),
{
    bag::lemma_select_forall(rows, pick, |r: RowView| data::conforms(r, types));
    let out = bag::select(rows, pick);
    assert forall|i: int| 0 <= i < out.len() implies data::conforms(#[trigger] out[i], types) by {
        assert((|r: RowView| data::conforms(r, types))(out[i]));
    }
}

impl Partitioner {
    /// The rows that were pushed.
    pub closed spec fn log(self) -> Seq<RowView> {
        self.log@
    }

    /// The columns of the rows.
    pub closed spec fn schema(self) -> Schema {
        self.schema
    }

    /// The types of the rows.
    pub open spec fn types(self) -> Seq<DataType> {
        self.schema().types()
    }

    /// The key columns.
    pub closed spec fn keys(self) -> Seq<int> {
        row::as_ints(self.key_indexes@)
    }

    /// The depth of the partitions.
    pub closed spec fn depth(self) -> int {
        self.depth as int
    }

    /// The digests that are kept.
    pub closed spec fn shown(self) -> spec_fn(u64) -> bool {
        match self.probe_filter {
            Some(filter) => |d: u64| filter.shows(d),
            None => |d: u64| true,
        }
    }

    /// Whether digests are left in a filter.
    pub closed spec fn filters(self) -> bool {
        self.build_filter is Some
    }

    /// The blocks in which rows are kept.
    pub closed spec fn own(self) -> Set<int> {
        self.writers.own()
    }

    /// What was pushed is in its partition.
    pub closed spec fn wf<R: Input, W: Output>(
        self,
        disk: DiskClient<R, W>,
        scratch: ScratchSpace,
    ) -> bool {
        &&& self.writers.wf(disk, scratch)
        &&& self.depth < hash::DIGEST_DEPTHS
        &&& self.writers.parts().len() == PARTITION_FANOUT
        &&& hash::keys_below(self.keys(), self.types().len() as int)
        &&& row_codec::all_conform(self.log@, self.types())
        &&& self.probe_filter matches Some(filter) ==> filter.wf()
        &&& self.build_filter matches Some(filter) ==> filter.wf() && keys::covers(
            self.log@,
            self.keys(),
            |d: u64| filter.members().contains(d),
        )
        &&& forall|j: int|
            0 <= j < PARTITION_FANOUT ==> #[trigger] self.writers.parts()[j] == bag::select(
                self.log@,
                keys::in_shown_part(self.keys(), self.depth(), j, self.shown()),
            )
    }

    /// What was pushed stays where other blocks change.
    pub proof fn lemma_wf_kept<R: Input, W: Output>(
        self,
        d0: DiskClient<R, W>,
        s0: ScratchSpace,
        d1: DiskClient<R, W>,
        s1: ScratchSpace,
        own: Set<int>,
    )
        requires
            self.wf(d0, s0),
            scratch_run::kept(d0, s0, d1, s1, own),
            self.own().disjoint(own),
        ensures
            self.wf(d1, s1),
    {
        self.writers.lemma_wf_kept(d0, s0, d1, s1, own);
    }

    /// The blocks are in use.
    pub proof fn lemma_own_in_use<R: Input, W: Output>(
        self,
        disk: DiskClient<R, W>,
        scratch: ScratchSpace,
    )
        requires
            self.wf(disk, scratch),
        ensures
            scratch_run::in_use(self.own(), scratch),
    {
        self.writers.lemma_own_in_use(disk, scratch);
    }

    /// Nothing yet.
    pub fn new<R: Input, W: Output>(
        schema: Schema,
        key_indexes: Vec<usize>,
        depth: u32,
        build_filter: Option<JoinBloomFilter>,
        probe_filter: Option<JoinBloomFilter>,
        disk: &DiskClient<R, W>,
        scratch: &ScratchSpace,
    ) -> (r: Partitioner)
        requires
            depth < hash::DIGEST_DEPTHS,
            hash::keys_below(row::as_ints(key_indexes@), schema@.len() as int),
            build_filter matches Some(filter) ==> filter.wf(),
            probe_filter matches Some(filter) ==> filter.wf(),
        ensures
            r.wf(*disk, *scratch),
            r.log() == Seq::<RowView>::empty(),
            r.schema() == schema,
            r.keys() == row::as_ints(key_indexes@),
            r.depth() == depth,
            r.filters() == (build_filter is Some),
            r.own() == Set::<int>::empty(),
            r.shown() == match probe_filter {
                Some(filter) => |d: u64| filter.shows(d),
                None => |d: u64| true,
            },
    {
        let writers = PartitionWriters::new(disk, scratch);
        Partitioner {
            schema,
            key_indexes,
            depth,
            build_filter,
            probe_filter,
            writers,
            log: Ghost(Seq::empty()),
        }
    }

    /// Takes a row.
    pub fn push<R: Input, W: Output>(
        &mut self,
        row: Row,
        disk: &mut DiskClient<R, W>,
        scratch: &mut ScratchSpace,
    ) -> (r: Result<(), DbError>)
        requires
            old(self).wf(*old(disk), *old(scratch)),
            old(scratch).wf(),
            data::conforms(row@, old(self).types()),
        ensures
            scratch_run::kept(
                *old(disk),
                *old(scratch),
                *final(disk),
                *final(scratch),
                old(self).own(),
            ),
            r is Ok ==> {
                &&& scratch_run::grown(old(self).own(), *old(scratch), final(self).own())
                &&& scratch_run::tidy(
                    old(self).own(),
                    *old(scratch),
                    final(self).own(),
                    *final(scratch),
                )
                &&& final(self).wf(*final(disk), *final(scratch))
                &&& final(self).schema() == old(self).schema()
                &&& final(self).keys() == old(self).keys()
                &&& final(self).depth() == old(self).depth()
                &&& final(self).shown() == old(self).shown()
                &&& final(self).filters() == old(self).filters()
                &&& final(self).log() == old(self).log().push(row@)
            },
            r matches Err(e) ==> !scratch_run::able(*final(disk), *final(scratch)) || (e
                == DbError::RowTooLarge && row::encoded_row(row@).len() + 2 > old(scratch).size()),
    {
        let ghost rows = self.log@;
        let ghost keys = self.keys();
        let ghost shown = self.shown();
        let ghost depth = self.depth();
        let ghost d = hash::digest(row@, keys);
        proof {
            lemma_conform_push(rows, row@, self.types());
            frame::lemma_kept_refl(*disk, *scratch, self.own());
        }
        let key: u64 = join_key_digest_for_row(&row, &self.key_indexes)?;
        let ghost before = *self;
        if let Some(filter) = &mut self.build_filter {
            filter.insert(key);
        }
        proof {
            self.log@ = rows.push(row@);
            if self.build_filter is Some {
                let filter = self.build_filter->0;
                let has = |d: u64| filter.members().contains(d);
                let had = before.build_filter->0;
                assert forall|i: int| 0 <= i < rows.push(row@).len() implies has(
                    hash::digest(#[trigger] rows.push(row@)[i], keys),
                ) by {
                    if i < rows.len() {
                        assert(rows.push(row@)[i] == rows[i]);
                        assert((|d: u64| had.members().contains(d))(hash::digest(rows[i], keys)));
                    }
                }
            }
            assert forall|j: int| 0 <= j < PARTITION_FANOUT implies #[trigger] bag::select(
                rows.push(row@),
                keys::in_shown_part(keys, depth, j, shown),
            ) == if hash::partition_of(d, depth) == j && shown(d) {
                bag::select(rows, keys::in_shown_part(keys, depth, j, shown)).push(row@)
            } else {
                bag::select(rows, keys::in_shown_part(keys, depth, j, shown))
            } by {
                bag::lemma_select_push(
                    rows,
                    row@,
                    keys::in_shown_part(keys, depth, j, shown),
                );
            }
        }
        if let Some(filter) = &self.probe_filter {
            if !filter.may_contain(key) {
                return Ok(());
            }
        }
        assert(shown(d));
        let partition: usize = partition_index_for_digest(key, self.depth);
        self.writers.push(partition, &row, disk, scratch)
    }

    /// The runs of what was pushed, and the filter of its digests.
    pub fn finish<R: Input, W: Output>(
        self,
        disk: &mut DiskClient<R, W>,
        scratch: &mut ScratchSpace,
    ) -> (r: Result<(PartitionedRuns, Option<JoinBloomFilter>), DbError>)
        requires
            self.wf(*old(disk), *old(scratch)),
            old(scratch).wf(),
        ensures
            scratch_run::kept(
                *old(disk),
                *old(scratch),
                *final(disk),
                *final(scratch),
                self.own(),
            ),
            r matches Ok((runs, filter)) ==> {
                &&& scratch_run::grown(self.own(), *old(scratch), runs.own())
                &&& scratch_run::tidy(self.own(), *old(scratch), runs.own(), *final(scratch))
                &&& scratch_run::in_use(runs.own(), *final(scratch))
                &&& runs.schema == self.schema()
                &&& exists|parts: Seq<Seq<RowView>>|
                    {
                        &&& #[trigger] runs.keeps(*final(disk), *final(scratch), parts)
                        &&& keys::parted(
                            parts,
                            self.log(),
                            keys::shown_picks(self.keys(), self.depth(), self.shown()),
                        )
                        &&& runs.non_empty_partitions == non_empty(parts, PARTITION_FANOUT as int)
                    }
                &&& row_codec::all_conform(self.log(), self.types())
                &&& filter is Some <==> self.filters()
                &&& filter matches Some(f) ==> f.wf() && keys::covers(
                    self.log(),
                    self.keys(),
                    |d: u64| f.members().contains(d),
                )
            },
            r is Err ==> !scratch_run::able(*final(disk), *final(scratch)),
    {
        proof {
            assert forall|j: int| 0 <= j < PARTITION_FANOUT implies row_codec::all_conform(
                #[trigger] self.writers.parts()[j],
                self.schema.types(),
            ) by {
                lemma_conform_select(
                    self.log@,
                    keys::in_shown_part(self.keys(), self.depth(), j, self.shown()),
                    self.types(),
                );
            }
        }
        let ghost parts = self.writers.parts();
        let runs = finish_partition_writers(self.schema, self.writers, disk, scratch)?;
        proof {
            let picks = keys::shown_picks(self.keys(), self.depth(), self.shown());
            assert forall|j: int| 0 <= j < parts.len() implies bag::bag(#[trigger] parts[j])
                == bag::bag(bag::select(self.log@, picks(j))) by {}
            assert(runs.keeps(*disk, *scratch, parts));
        }
        Ok((runs, self.build_filter))
    }
}

} // verus!
