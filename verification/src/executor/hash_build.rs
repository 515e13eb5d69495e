//! The build side of a hash join.

use vstd::prelude::*;

use crate::bag;
use crate::data;
use crate::data::DataType;
use crate::error::DbError;
use crate::executor::frame;
use crate::executor::hash;
use crate::executor::hash::{
    join_key_digest_for_row, partition_index_for_digest, JoinBloomFilter, JoinHashTable,
    PARTITION_FANOUT,
};
use crate::executor::keys;
use crate::executor::partition;
use crate::executor::partition::{finish_partition_writers, PartitionWriters, PartitionedRuns};
use crate::io::{Input, Output};
use crate::row;
use crate::row::{Row, Schema};
use crate::semantics::RowView;
use crate::storage::block_allocator::ScratchSpace;
use crate::storage::disk_client::DiskClient;
use crate::storage::row_codec;
use crate::storage::scratch_run;

verus! {

/// A table holds rows under the digests of their keys.
pub open spec fn table_of(table: JoinHashTable, rows: Seq<RowView>, keys: Seq<int>) -> bool {
    &&& table.wf()
    &&& forall|d: u64| #[trigger]
        table.rows_for(d) == bag::select(rows, keys::has_digest(keys, d))
}

/// The stored form of a row, or [`DbError::RowTooLarge`] where it has none.
fn encode_row(row: &Row) -> (r: Result<Vec<u8>, DbError>)
    ensures
        match r {
            Ok(encoded) => encoded@ == row::encoded_row(row@),
            Err(e) => e == DbError::RowTooLarge && row::encoded_row(row@).len() >= usize::MAX,
        },
{
    match row.to_stored() {
        Some(encoded) => Ok(encoded),
        None => Err(DbError::RowTooLarge),
    }
}

/// The rows of a build side that fit in memory, by the digests of their keys.
pub struct CompactHashRows {
    pub schema: Schema,
    pub rows_by_key: JoinHashTable,
}

/// Rows on their way to a table in memory.
pub struct HashBuilder {
    schema: Schema,
    key_indexes: Vec<usize>,
    table: JoinHashTable,
    used_bytes: usize,
    budget: usize,
    log: Ghost<Seq<RowView>>,
}

impl HashBuilder {
    /// The rows that were pushed.
    pub closed spec fn log(self) -> Seq<RowView> {
        self.log@
    }

    /// The columns of the rows.
    pub closed spec fn schema(self) -> Schema {
        self.schema
    }

    /// The types of the rows.
    pub open spec fn types(self) -> Seq<DataType> {
        self.schema().types()
    }

    /// The key columns.
    pub closed spec fn keys(self) -> Seq<int> {
        row::as_ints(self.key_indexes@)
    }

    /// The bytes that the rows are held to use.
    pub closed spec fn used(self) -> usize {
        self.used_bytes
    }

    /// The bytes that the rows may use.
    pub closed spec fn budget(self) -> usize {
        self.budget
    }

    /// What was pushed is in the table.
    pub closed spec fn wf(self) -> bool {
        &&& hash::keys_below(self.keys(), self.types().len() as int)
        &&& row_codec::all_conform(self.log@, self.types())
        &&& table_of(self.table, self.log@, self.keys())
    }

    /// Nothing yet.
    pub fn new(schema: Schema, key_indexes: Vec<usize>, budget: usize) -> (r: HashBuilder)
        requires
            hash::keys_below(row::as_ints(key_indexes@), schema@.len() as int),
        ensures
            r.wf(),
            r.log() == Seq::<RowView>::empty(),
            r.schema() == schema,
            r.keys() == row::as_ints(key_indexes@),
            r.used() == 0,
            r.budget() == budget,
    {
        HashBuilder {
            schema,
            key_indexes,
            table: JoinHashTable::new(),
            used_bytes: 0,
            budget,
            log: Ghost(Seq::empty()),
        }
    }

    /// Takes a row, or returns [`DbError::BudgetExceeded`] where it does not fit:
    /// where the rows would use more than the budget, or the allocator has
    /// reserved too much.
    pub fn push(&mut self, row: Row) -> (r: Result<(), DbError>)
        requires
            old(self).wf(),
            data::conforms(row@, old(self).types()),
        ensures
            final(self).budget() == old(self).budget(),
            r is Ok ==> {
                &&& final(self).wf()
                &&& final(self).schema() == old(self).schema()
                &&& final(self).keys() == old(self).keys()
                &&& final(self).log() == old(self).log().push(row@)
                &&& final(self).used() <= final(self).budget()
                &&& final(self).used() == hash::used_after(
                    old(self).used(),
                    row::encoded_row(row@).len(),
                    !exists|i: int|
                        0 <= i < old(self).log().len() && hash::digest(
                            #[trigger] old(self).log()[i],
                            old(self).keys(),
                        ) == hash::digest(row@, old(self).keys()),
                )
            },
            r matches Err(e) ==> e == DbError::BudgetExceeded || (e == DbError::RowTooLarge
                && row::encoded_row(row@).len() >= usize::MAX),
    {
        let ghost rows = self.log@;
        let ghost keys = self.keys();
        let key: u64 = join_key_digest_for_row(&row, &self.key_indexes)?;
        let encoded = encode_row(&row)?;
        let ghost before = self.table;
        let mut used: usize = self.used_bytes;
        let fits: bool = self.table.insert(key, encoded, Ghost(row@), &mut used, self.budget);
        if !fits {
            return Err(DbError::BudgetExceeded);
        }
        proof {
            lemma_first_of_digest(before, rows, keys, key);
        }
        self.used_bytes = used;
        proof {
            self.log@ = rows.push(row@);
            partition::lemma_conform_push(rows, row@, self.types());
            lemma_table_push(before, self.table, rows, row@, keys);
        }
        Ok(())
    }

    /// All that was pushed.
    pub fn finish(self) -> (r: CompactHashRows)
        requires
            self.wf(),
        ensures
            r.schema == self.schema(),
            table_of(r.rows_by_key, self.log(), self.keys()),
            row_codec::all_conform(self.log(), self.types()),
    {
        CompactHashRows { schema: self.schema, rows_by_key: self.table }
    }
}

/// A table has no rows under the digests of no rows.
proof fn lemma_first_of_digest(table: JoinHashTable, rows: Seq<RowView>, keys: Seq<int>, d: u64)
    requires
        table_of(table, rows, keys),
    ensures
        table.rows_for(d).len() == 0 <==> !exists|i: int|
            0 <= i < rows.len() && hash::digest(#[trigger] rows[i], keys) == d,
{
    let pick = keys::has_digest(keys, d);
    assert(table.rows_for(d) == bag::select(rows, pick));
    bag::lemma_select_members(rows, pick);
    if table.rows_for(d).len() > 0 {
        let r = bag::select(rows, pick)[0];
        assert(rows.contains(r) && pick(r));
        let i = choose|i: int| 0 <= i < rows.len() && rows[i] == r;
        assert(hash::digest(rows[i], keys) == d);
    }
    if exists|i: int| 0 <= i < rows.len() && hash::digest(#[trigger] rows[i], keys) == d {
        let i = choose|i: int| 0 <= i < rows.len() && hash::digest(#[trigger] rows[i], keys) == d;
        lemma_select_some(rows, pick, i);
    }
}

/// Where one element is picked, something is.
proof fn lemma_select_some(rows: Seq<RowView>, pick: spec_fn(RowView) -> bool, i: int)
    requires
        0 <= i < rows.len(),
        pick(rows[i]),
    ensures
        bag::select(rows, pick).len() > 0,
    decreases rows.len(),
{
    if i < rows.len() - 1 {
        lemma_select_some(rows.drop_last(), pick, i);
    }
}

proof fn lemma_table_push(
    before: JoinHashTable,
    after: JoinHashTable,
    rows: Seq<RowView>,
    r: RowView,
    keys: Seq<int>,
)
    requires
        table_of(before, rows, keys),
        after.wf(),
        forall|d: u64| #[trigger]
            after.rows_for(d) == if d == hash::digest(r, keys) {
                before.rows_for(d).push(r)
            } else {
                before.rows_for(d)
            },
    ensures
        table_of(after, rows.push(r), keys),
{
    assert forall|d: u64| #[trigger] after.rows_for(d) == bag::select(
        rows.push(r),
        keys::has_digest(keys, d),
    ) by {
        assert(before.rows_for(d) == bag::select(rows, keys::has_digest(keys, d)));
        bag::lemma_select_push(rows, r, keys::has_digest(keys, d));
    }
}

/// A partition of a build side: in memory until it is sent to its run.
pub struct HybridBuildPartition {
    pub rows_by_key: JoinHashTable,
    pub used_bytes: usize,
    pub spilled: bool,
}

/// A partition in memory holds its rows under the digests of their keys.
pub open spec fn resident_ok(
    p: HybridBuildPartition,
    rows: Seq<RowView>,
    keys: Seq<int>,
    j: int,
) -> bool {
    &&& p.rows_by_key.wf()
    &&& !p.spilled ==> {
        &&& bag::bag(p.rows_by_key.all_rows()) == bag::bag(
            bag::select(rows, keys::in_part(keys, 0, j)),
        )
        &&& forall|d: u64|
            hash::partition_of(d, 0) == j ==> #[trigger] p.rows_by_key.rows_for(d) == bag::select(
                rows,
                keys::has_digest(keys, d),
            )
    }
}

/// All partitions in memory hold their rows.
pub open spec fn residents_ok(
    ps: Seq<HybridBuildPartition>,
    rows: Seq<RowView>,
    keys: Seq<int>,
) -> bool {
    &&& ps.len() == PARTITION_FANOUT
    &&& forall|j: int| 0 <= j < PARTITION_FANOUT ==> resident_ok(#[trigger] ps[j], rows, keys, j)
}

/// The rows that went to runs are those of the partitions that were sent there.
pub open spec fn spilled_ok(
    ps: Seq<HybridBuildPartition>,
    parts: Seq<Seq<RowView>>,
    rows: Seq<RowView>,
    keys: Seq<int>,
) -> bool {
    forall|j: int|
        0 <= j < PARTITION_FANOUT ==> bag::bag(#[trigger] parts[j]) == if ps[j].spilled {
            bag::bag(bag::select(rows, keys::in_part(keys, 0, j)))
        } else {
            bag::bag(Seq::<RowView>::empty())
        }
}

/// Sends the rows of a table to a partition.
fn flush_table<R: Input, W: Output>(
    table: &JoinHashTable,
    writers: &mut PartitionWriters,
    partition: usize,
    disk: &mut DiskClient<R, W>,
    scratch: &mut ScratchSpace,
) -> (r: Result<(), DbError>)
    requires
        table.wf(),
        old(writers).wf(*old(disk), *old(scratch)),
        old(writers).parts().len() == PARTITION_FANOUT,
        old(scratch).wf(),
        partition < PARTITION_FANOUT,
    ensures
        scratch_run::kept(
            *old(disk),
            *old(scratch),
            *final(disk),
            *final(scratch),
            old(writers).own(),
        ),
        r is Ok ==> {
            &&& scratch_run::grown(old(writers).own(), *old(scratch), final(writers).own())
            &&& scratch_run::tidy(
                old(writers).own(),
                *old(scratch),
                final(writers).own(),
                *final(scratch),
            )
            &&& final(writers).wf(*final(disk), *final(scratch))
            &&& final(writers).parts() == old(writers).parts().update(
                partition as int,
                old(writers).parts()[partition as int] + table.all_rows(),
            )
        },
        r matches Err(e) ==> !scratch_run::able(*final(disk), *final(scratch)) || (e
            == DbError::RowTooLarge && scratch_run::oversized(
            table.all_rows(),
            old(scratch).size() as int,
        )),
{
    let ghost (d0, s0) = (*disk, *scratch);
    let ghost own0 = writers.own();
    let ghost parts0 = writers.parts();
    let ghost mine = parts0[partition as int];
    let groups = table.groups();
    let ghost rows = choose|rows: Seq<Seq<RowView>>| #[trigger]
        hash::flat(rows) == table.all_rows() && rows.len() == groups@.len() && forall|k: int|
            0 <= k < groups@.len() ==> hash::stored((#[trigger] groups@[k])@)
                == scratch_run::encodings(rows[k]);
    let total: usize = groups.len();
    let mut k: usize = 0;
    proof {
        frame::lemma_kept_refl(*disk, *scratch, own0);
        assert(rows.take(0) =~= Seq::<Seq<RowView>>::empty());
        assert(mine + hash::flat(rows.take(0)) =~= mine);
        assert(parts0.update(partition as int, mine) =~= parts0);
    }
    while k < total
        invariant
            k <= total,
            total == groups@.len(),
            rows.len() == total,
            partition < PARTITION_FANOUT,
            parts0.len() == PARTITION_FANOUT,
            forall|k: int|
                0 <= k < groups@.len() ==> hash::stored((#[trigger] groups@[k])@)
                    == scratch_run::encodings(rows[k]),
            scratch.wf(),
            writers.wf(*disk, *scratch),
            hash::flat(rows) == table.all_rows(),
            writers.parts() == parts0.update(
                partition as int,
                mine + hash::flat(rows.take(k as int)),
            ),
            scratch_run::kept(d0, s0, *disk, *scratch, own0),
            scratch_run::grown(own0, s0, writers.own()),
            scratch_run::tidy(own0, s0, writers.own(), *scratch),
            d0 == *old(disk),
            s0 == *old(scratch),
            own0 == old(writers).own(),
        decreases total - k,
    {
        let group = &groups[k];
        let ghost members = rows[k as int];
        let ghost front = mine + hash::flat(rows.take(k as int));
        let count: usize = group.len();
        let mut m: usize = 0;
        proof {
            assert(hash::stored(group@) == scratch_run::encodings(members));
            assert(hash::stored(group@).len() == scratch_run::encodings(members).len());
            assert(front + members.take(0) =~= front);
        }
        while m < count
            invariant
                m <= count,
                count == group@.len(),
                members.len() == count,
                hash::stored(group@) == scratch_run::encodings(members),
                partition < PARTITION_FANOUT,
                parts0.len() == PARTITION_FANOUT,
                scratch.wf(),
                writers.wf(*disk, *scratch),
                k < rows.len(),
                members == rows[k as int],
                hash::flat(rows) == table.all_rows(),
                writers.parts() == parts0.update(
                    partition as int,
                    front + members.take(m as int),
                ),
                scratch_run::kept(d0, s0, *disk, *scratch, own0),
                scratch_run::grown(own0, s0, writers.own()),
                scratch_run::tidy(own0, s0, writers.own(), *scratch),
                d0 == *old(disk),
                s0 == *old(scratch),
                own0 == old(writers).own(),
            decreases count - m,
        {
            let ghost (d1, s1) = (*disk, *scratch);
            let ghost own1 = writers.own();
            proof {
                assert(hash::stored(group@)[m as int] == scratch_run::encodings(members)[m as int]);
                let at = hash::lemma_flat_member(rows, k as int, m as int);
                assert(table.all_rows()[at] == members[m as int]);
            }
            let result = writers.push_encoded(
                partition,
                &group[m],
                Ghost(members[m as int]),
                disk,
                scratch,
            );
            proof {
                frame::lemma_kept_trans(d0, s0, d1, s1, *disk, *scratch, own0, own1);
            }
            result?;
            proof {
                frame::lemma_grown_trans(d0, s0, d1, s1, own0, own1, writers.own());
                assert((front + members.take(m as int)).push(members[m as int]) =~= front
                    + members.take(m + 1));
                assert(writers.parts() =~= parts0.update(
                    partition as int,
                    front + members.take(m + 1),
                ));
            }
            m = m + 1;
        }
        proof {
            assert(members.take(m as int) =~= members);
            assert(rows.take(k + 1).drop_last() =~= rows.take(k as int));
            assert(front + members =~= mine + hash::flat(rows.take(k + 1)));
        }
        k = k + 1;
    }
    assert(rows.take(k as int) =~= rows);
    Ok(())
}

/// Rows of a build side on their way to partitions, in memory as far as they
/// fit.
pub struct HybridBuilder {
    schema: Schema,
    key_indexes: Vec<usize>,
    filter: JoinBloomFilter,
    partitions: Vec<HybridBuildPartition>,
    writers: PartitionWriters,
    total_resident_bytes: usize,
    resident_budget: usize,
    log: Ghost<Seq<RowView>>,
}

/// A build side in partitions.
pub struct HybridBuild {
    pub filter: JoinBloomFilter,
    pub partitions: Vec<HybridBuildPartition>,
    pub runs: PartitionedRuns,
}

impl HybridBuilder {
    /// The rows that were pushed.
    pub closed spec fn log(self) -> Seq<RowView> {
        self.log@
    }

    /// The columns of the rows.
    pub closed spec fn schema(self) -> Schema {
        self.schema
    }

    /// The types of the rows.
    pub open spec fn types(self) -> Seq<DataType> {
        self.schema().types()
    }

    /// The key columns.
    pub closed spec fn keys(self) -> Seq<int> {
        row::as_ints(self.key_indexes@)
    }

    /// The blocks in which rows are kept.
    pub closed spec fn own(self) -> Set<int> {
        self.writers.own()
    }

    /// What was pushed is in its partition.
    pub closed spec fn wf<R: Input, W: Output>(
        self,
        disk: DiskClient<R, W>,
        scratch: ScratchSpace,
    ) -> bool {
        &&& self.writers.wf(disk, scratch)
        &&& self.writers.parts().len() == PARTITION_FANOUT
        &&& hash::keys_below(self.keys(), self.types().len() as int)
        &&& row_codec::all_conform(self.log@, self.types())
        &&& self.filter.wf()
        &&& keys::covers(self.log@, self.keys(), |d: u64| self.filter.members().contains(d))
        &&& residents_ok(self.partitions@, self.log@, self.keys())
        &&& spilled_ok(self.partitions@, self.writers.parts(), self.log@, self.keys())
    }

    /// What was pushed stays where other blocks change.
    pub proof fn lemma_wf_kept<R: Input, W: Output>(
        self,
        d0: DiskClient<R, W>,
        s0: ScratchSpace,
        d1: DiskClient<R, W>,
        s1: ScratchSpace,
        own: Set<int>,
    )
        requires
            self.wf(d0, s0),
            scratch_run::kept(d0, s0, d1, s1, own),
            self.own().disjoint(own),
        ensures
            self.wf(d1, s1),
    {
        self.writers.lemma_wf_kept(d0, s0, d1, s1, own);
    }

    /// The blocks are in use.
    pub proof fn lemma_own_in_use<R: Input, W: Output>(
        self,
        disk: DiskClient<R, W>,
        scratch: ScratchSpace,
    )
        requires
            self.wf(disk, scratch),
        ensures
            scratch_run::in_use(self.own(), scratch),
    {
        self.writers.lemma_own_in_use(disk, scratch);
    }

    /// Nothing yet.
    pub fn new<R: Input, W: Output>(
        schema: Schema,
        key_indexes: Vec<usize>,
        filter: JoinBloomFilter,
        resident_budget: usize,
        disk: &DiskClient<R, W>,
        scratch: &ScratchSpace,
    ) -> (r: HybridBuilder)
        requires
            hash::keys_below(row::as_ints(key_indexes@), schema@.len() as int),
            filter.wf(),
        ensures
            r.wf(*disk, *scratch),
            r.log() == Seq::<RowView>::empty(),
            r.schema() == schema,
            r.keys() == row::as_ints(key_indexes@),
            r.own() == Set::<int>::empty(),
    {
        let writers = PartitionWriters::new(disk, scratch);
        let mut partitions: Vec<HybridBuildPartition> = Vec::new();
        let ghost keys = row::as_ints(key_indexes@);
        let ghost none = Seq::<RowView>::empty();
        let mut i: usize = 0;
        while i < PARTITION_FANOUT
            invariant
                i <= PARTITION_FANOUT,
                partitions@.len() == i,
                none == Seq::<RowView>::empty(),
                forall|j: int|
                    0 <= j < i ==> resident_ok(#[trigger] partitions@[j], none, keys, j)
                        && !partitions@[j].spilled,
            decreases PARTITION_FANOUT - i,
        {
            partitions.push(
                HybridBuildPartition {
                    rows_by_key: JoinHashTable::new(),
                    used_bytes: 0,
                    spilled: false,
                },
            );
            i = i + 1;
        }
        HybridBuilder {
            schema,
            key_indexes,
            filter,
            partitions,
            writers,
            total_resident_bytes: 0,
            resident_budget,
            log: Ghost(Seq::empty()),
        }
    }

    /// Sends the rows of a partition to its run.
    fn spill<R: Input, W: Output>(
        &mut self,
        partition: usize,
        disk: &mut DiskClient<R, W>,
        scratch: &mut ScratchSpace,
    ) -> (r: Result<(), DbError>)
        requires
            partition < PARTITION_FANOUT,
            old(self).partitions@.len() == PARTITION_FANOUT,
            old(self).partitions@[partition as int].rows_by_key.wf(),
            old(self).writers.wf(*old(disk), *old(scratch)),
            old(self).writers.parts().len() == PARTITION_FANOUT,
            old(scratch).wf(),
        ensures
            scratch_run::kept(
                *old(disk),
                *old(scratch),
                *final(disk),
                *final(scratch),
                old(self).own(),
            ),
            r is Ok ==> {
                &&& scratch_run::grown(old(self).own(), *old(scratch), final(self).own())
                &&& scratch_run::tidy(
                    old(self).own(),
                    *old(scratch),
                    final(self).own(),
                    *final(scratch),
                )
                &&& final(self).writers.wf(*final(disk), *final(scratch))
                &&& final(self).writers.parts() == old(self).writers.parts().update(
                    partition as int,
                    old(self).writers.parts()[partition as int] + old(
                        self).partitions@[partition as int].rows_by_key.all_rows(),
                )
                &&& final(self).schema == old(self).schema
                &&& final(self).key_indexes == old(self).key_indexes
                &&& final(self).filter == old(self).filter
                &&& final(self).log == old(self).log
                &&& final(self).partitions@.len() == PARTITION_FANOUT
                &&& final(self).partitions@[partition as int].spilled
                &&& final(self).partitions@[partition as int].rows_by_key.wf()
                &&& forall|j: int|
                    0 <= j < PARTITION_FANOUT && j != partition ==> #[trigger] final(
                        self).partitions@[j] == old(self).partitions@[j]
            },
            r matches Err(e) ==> !scratch_run::able(*final(disk), *final(scratch)) || (e
                == DbError::RowTooLarge && scratch_run::oversized(
                old(self).partitions@[partition as int].rows_by_key.all_rows(),
                old(scratch).size() as int,
            )),
    {
        let mut emptied = HybridBuildPartition {
            rows_by_key: JoinHashTable::new(),
            used_bytes: 0,
            spilled: true,
        };
        self.partitions.set_and_swap(partition, &mut emptied);
        flush_table(&emptied.rows_by_key, &mut self.writers, partition, disk, scratch)
    }

    /// Takes a row.
    pub fn push<R: Input, W: Output>(
        &mut self,
        row: Row,
        disk: &mut DiskClient<R, W>,
        scratch: &mut ScratchSpace,
    ) -> (r: Result<(), DbError>)
        requires
            old(self).wf(*old(disk), *old(scratch)),
            old(scratch).wf(),
            data::conforms(row@, old(self).types()),
        ensures
            scratch_run::kept(
                *old(disk),
                *old(scratch),
                *final(disk),
                *final(scratch),
                old(self).own(),
            ),
            r is Ok ==> {
                &&& scratch_run::grown(old(self).own(), *old(scratch), final(self).own())
                &&& scratch_run::tidy(
                    old(self).own(),
                    *old(scratch),
                    final(self).own(),
                    *final(scratch),
                )
                &&& final(self).wf(*final(disk), *final(scratch))
                &&& final(self).schema() == old(self).schema()
                &&& final(self).keys() == old(self).keys()
                &&& final(self).log() == old(self).log().push(row@)
            },
            r matches Err(e) ==> !scratch_run::able(*final(disk), *final(scratch)) || (e
                == DbError::RowTooLarge && scratch_run::oversized(
                old(self).log().push(row@),
                old(scratch).size() as int,
            )),
    {
        let ghost start = *self;
        let ghost rows = self.log@;
        let ghost more = rows.push(row@);
        let ghost keys = self.keys();
        let ghost (d0, s0) = (*disk, *scratch);
        proof {
            partition::lemma_conform_push(rows, row@, self.types());
            frame::lemma_kept_refl(*disk, *scratch, self.own());
            assert(more[rows.len() as int] == row@);
        }
        let key: u64 = join_key_digest_for_row(&row, &self.key_indexes)?;
        self.filter.insert(key);
        let index: usize = partition_index_for_digest(key, 0);
        proof {
            self.log@ = more;
            lemma_covers_push(rows, row@, keys, start.filter, self.filter);
            lemma_residents_push(start.partitions@, rows, row@, keys, index as int);
            lemma_parts_push(rows, row@, keys, index as int);
        }
        if self.partitions[index].spilled {
            self.writers.push(index, &row, disk, scratch)?;
            proof {
                bag::lemma_bag_push(start.writers.parts()[index as int], row@);
                bag::lemma_bag_push(bag::select(rows, keys::in_part(keys, 0, index as int)), row@);
                lemma_spilled_push(
                    start.partitions@,
                    self.partitions@,
                    start.writers.parts(),
                    self.writers.parts(),
                    rows,
                    row@,
                    keys,
                    index as int,
                );
            }
            return Ok(());
        }
        let encoded = encode_row(&row)?;
        let previous_used: usize = self.partitions[index].used_bytes;
        let others: usize = self.total_resident_bytes.saturating_sub(previous_used);
        let budget: usize = crate::executor::max_of(
            self.resident_budget.saturating_sub(others),
            previous_used,
        );
        let mut used: usize = previous_used;
        let mut held = HybridBuildPartition {
            rows_by_key: JoinHashTable::new(),
            used_bytes: 0,
            spilled: false,
        };
        self.partitions.set_and_swap(index, &mut held);
        let ghost table = held.rows_by_key;
        assert(table == start.partitions@[index as int].rows_by_key);
        assert(resident_ok(start.partitions@[index as int], rows, keys, index as int));
        let fits: bool = held.rows_by_key.insert(key, encoded, Ghost(row@), &mut used, budget);
        held.used_bytes = used;
        let ghost full = held;
        self.partitions.set(index, held);
        proof {
            let front = bag::select(rows, keys::in_part(keys, 0, index as int));
            let kept = full.rows_by_key.all_rows();
            partition::lemma_conform_select(rows, keys::in_part(keys, 0, index as int), start.types());
            if fits {
                bag::lemma_bag_push(front, row@);
                partition::lemma_conform_push(front, row@, start.types());
                lemma_conform_bag(front.push(row@), kept, start.types());
            } else {
                lemma_conform_bag(front, kept, start.types());
            }
            bag::lemma_within_front(rows, more);
            bag::lemma_within_select(rows, more, keys::in_part(keys, 0, index as int));
            if fits {
                bag::lemma_select_push(rows, row@, keys::in_part(keys, 0, index as int));
                bag::lemma_within_front(more, more);
                bag::lemma_within_select(more, more, keys::in_part(keys, 0, index as int));
                bag::lemma_within_bag(kept, front.push(row@));
                bag::lemma_within_trans(kept, front.push(row@), more);
            } else {
                bag::lemma_within_bag(kept, front);
                bag::lemma_within_trans(kept, front, more);
            }
            broadcast use scratch_run::lemma_oversized_within;
        }
        if fits {
            proof {
                lemma_resident_insert(
                    start.partitions@[index as int],
                    full,
                    rows,
                    row@,
                    keys,
                    index as int,
                );
            }
            let delta: usize = used.saturating_sub(previous_used);
            if self.total_resident_bytes.saturating_add(delta) > self.resident_budget {
                self.spill(index, disk, scratch)?;
                self.total_resident_bytes = self.total_resident_bytes.saturating_sub(previous_used);
                proof {
                    bag::lemma_bag_concat(
                        start.writers.parts()[index as int],
                        full.rows_by_key.all_rows(),
                    );
                    bag::lemma_bag_empty(start.writers.parts()[index as int]);
                    bag::lemma_bag_empty(Seq::<RowView>::empty());
                    lemma_empty_first(
                        start.writers.parts()[index as int],
                        full.rows_by_key.all_rows(),
                    );
                    lemma_spilled_push(
                        start.partitions@,
                        self.partitions@,
                        start.writers.parts(),
                        self.writers.parts(),
                        rows,
                        row@,
                        keys,
                        index as int,
                    );
                }
            } else {
                self.total_resident_bytes = self.total_resident_bytes.saturating_add(delta);
                proof {
                    lemma_spilled_push(
                        start.partitions@,
                        self.partitions@,
                        start.writers.parts(),
                        self.writers.parts(),
                        rows,
                        row@,
                        keys,
                        index as int,
                    );
                }
            }
            return Ok(());
        }
        self.spill(index, disk, scratch)?;
        self.total_resident_bytes = self.total_resident_bytes.saturating_sub(previous_used);
        let ghost (d1, s1) = (*disk, *scratch);
        let ghost own1 = self.own();
        let ghost middle = self.writers.parts();
        let result = self.writers.push(index, &row, disk, scratch);
        proof {
            frame::lemma_kept_trans(d0, s0, d1, s1, *disk, *scratch, start.own(), own1);
        }
        result?;
        proof {
            frame::lemma_grown_trans(d0, s0, d1, s1, start.own(), own1, self.own());
            let part = start.writers.parts()[index as int];
            let all = full.rows_by_key.all_rows();
            lemma_empty_first(part, all);
            bag::lemma_bag_push(middle[index as int], row@);
            bag::lemma_bag_push(bag::select(rows, keys::in_part(keys, 0, index as int)), row@);
            assert(self.writers.parts()[index as int] == middle[index as int].push(row@));
            lemma_spilled_push(
                start.partitions@,
                self.partitions@,
                start.writers.parts(),
                self.writers.parts(),
                rows,
                row@,
                keys,
                index as int,
            );
        }
        Ok(())
    }

    /// All that was pushed.
    pub fn finish<R: Input, W: Output>(
        self,
        disk: &mut DiskClient<R, W>,
        scratch: &mut ScratchSpace,
    ) -> (r: Result<HybridBuild, DbError>)
        requires
            self.wf(*old(disk), *old(scratch)),
            old(scratch).wf(),
        ensures
            scratch_run::kept(
                *old(disk),
                *old(scratch),
                *final(disk),
                *final(scratch),
                self.own(),
            ),
            r matches Ok(build) ==> {
                &&& scratch_run::grown(self.own(), *old(scratch), build.runs.own())
                &&& scratch_run::tidy(self.own(), *old(scratch), build.runs.own(), *final(scratch))
                &&& scratch_run::in_use(build.runs.own(), *final(scratch))
                &&& build.runs.schema == self.schema()
                &&& build.filter.wf()
                &&& keys::covers(
                    self.log(),
                    self.keys(),
                    |d: u64| build.filter.members().contains(d),
                )
                &&& row_codec::all_conform(self.log(), self.types())
                &&& residents_ok(build.partitions@, self.log(), self.keys())
                &&& exists|parts: Seq<Seq<RowView>>|
                    {
                        &&& #[trigger] build.runs.keeps(*final(disk), *final(scratch), parts)
                        &&& spilled_ok(build.partitions@, parts, self.log(), self.keys())
                    }
            },
            r is Err ==> !scratch_run::able(*final(disk), *final(scratch)),
    {
        let ghost parts = self.writers.parts();
        proof {
            assert forall|j: int| 0 <= j < PARTITION_FANOUT implies row_codec::all_conform(
                #[trigger] self.writers.parts()[j],
                self.schema.types(),
            ) by {
                let pick = keys::in_part(self.keys(), 0, j);
                let types = self.types();
                if self.partitions@[j].spilled {
                    partition::lemma_conform_select(self.log@, pick, types);
                    lemma_conform_bag(bag::select(self.log@, pick), parts[j], types);
                } else {
                    lemma_conform_bag(Seq::<RowView>::empty(), parts[j], types);
                }
            }
        }
        let runs = finish_partition_writers(self.schema, self.writers, disk, scratch)?;
        assert(runs.keeps(*disk, *scratch, parts));
        Ok(HybridBuild { filter: self.filter, partitions: self.partitions, runs })
    }
}

/// Rows in another order have the same types.
pub proof fn lemma_conform_bag(a: Seq<RowView>, b: Seq<RowView>, types: Seq<DataType>)
    requires
        bag::bag(a) == bag::bag(b),
        row_codec::all_conform(a, types),
    ensures
        row_codec::all_conform(b, types),
{
    let p = |r: RowView| data::conforms(r, types);
    assert forall|i: int| 0 <= i < a.len() implies p(#[trigger] a[i]) by {
        assert(data::conforms(a[i], types));
    }
    bag::lemma_bag_forall(a, b, p);
    assert forall|i: int| 0 <= i < b.len() implies data::conforms(#[trigger] b[i], types) by {
        assert(p(b[i]));
    }
}

proof fn lemma_empty_first(a: Seq<RowView>, b: Seq<RowView>)
    requires
        bag::bag(a) == bag::bag(Seq::<RowView>::empty()),
    ensures
        a + b == b,
{
    bag::lemma_bag_empty(a);
    bag::lemma_bag_empty(Seq::<RowView>::empty());
    assert(a.len() == 0);
    assert(a + b =~= b);
}

proof fn lemma_covers_push(
    rows: Seq<RowView>,
    r: RowView,
    keys: Seq<int>,
    before: JoinBloomFilter,
    after: JoinBloomFilter,
)
    requires
        keys::covers(rows, keys, |d: u64| before.members().contains(d)),
        after.members() == before.members().insert(hash::digest(r, keys)),
    ensures
        keys::covers(rows.push(r), keys, |d: u64| after.members().contains(d)),
{
    let had = |d: u64| before.members().contains(d);
    let has = |d: u64| after.members().contains(d);
    assert forall|i: int| 0 <= i < rows.push(r).len() implies has(
        hash::digest(#[trigger] rows.push(r)[i], keys),
    ) by {
        if i < rows.len() {
            assert(rows.push(r)[i] == rows[i]);
            assert(had(hash::digest(rows[i], keys)));
        }
    }
}

/// What a row more means for the partitions of a side.
proof fn lemma_parts_push(rows: Seq<RowView>, r: RowView, keys: Seq<int>, index: int)
    requires
        index == hash::partition_of(hash::digest(r, keys), 0),
    ensures
        forall|j: int| #[trigger]
            bag::select(rows.push(r), keys::in_part(keys, 0, j)) == if j == index {
                bag::select(rows, keys::in_part(keys, 0, j)).push(r)
            } else {
                bag::select(rows, keys::in_part(keys, 0, j))
            },
{
    assert forall|j: int| #[trigger]
        bag::select(rows.push(r), keys::in_part(keys, 0, j)) == if j == index {
            bag::select(rows, keys::in_part(keys, 0, j)).push(r)
        } else {
            bag::select(rows, keys::in_part(keys, 0, j))
        } by {
        bag::lemma_select_push(rows, r, keys::in_part(keys, 0, j));
    }
}

/// A row of one partition changes nothing in the others.
proof fn lemma_residents_push(
    ps: Seq<HybridBuildPartition>,
    rows: Seq<RowView>,
    r: RowView,
    keys: Seq<int>,
    index: int,
)
    requires
        residents_ok(ps, rows, keys),
        index == hash::partition_of(hash::digest(r, keys), 0),
    ensures
        forall|j: int|
            0 <= j < PARTITION_FANOUT && j != index ==> resident_ok(
                #[trigger] ps[j],
                rows.push(r),
                keys,
                j,
            ),
{
    lemma_parts_push(rows, r, keys, index);
    assert forall|j: int| 0 <= j < PARTITION_FANOUT && j != index implies resident_ok(
        #[trigger] ps[j],
        rows.push(r),
        keys,
        j,
    ) by {
        assert(resident_ok(ps[j], rows, keys, j));
        assert(bag::select(rows.push(r), keys::in_part(keys, 0, j)) == bag::select(
            rows,
            keys::in_part(keys, 0, j),
        ));
        if !ps[j].spilled {
            assert forall|d: u64|
                hash::partition_of(d, 0) == j implies #[trigger] ps[j].rows_by_key.rows_for(d)
                == bag::select(rows.push(r), keys::has_digest(keys, d)) by {
                bag::lemma_select_push(rows, r, keys::has_digest(keys, d));
                assert(d != hash::digest(r, keys));
            }
        }
    }
}

/// A row that was put in the table of its partition.
proof fn lemma_resident_insert(
    before: HybridBuildPartition,
    after: HybridBuildPartition,
    rows: Seq<RowView>,
    r: RowView,
    keys: Seq<int>,
    index: int,
)
    requires
        index == hash::partition_of(hash::digest(r, keys), 0),
        resident_ok(before, rows, keys, index),
        !before.spilled,
        after.rows_by_key.wf(),
        forall|d: u64| #[trigger]
            after.rows_by_key.rows_for(d) == if d == hash::digest(r, keys) {
                before.rows_by_key.rows_for(d).push(r)
            } else {
                before.rows_by_key.rows_for(d)
            },
        bag::bag(after.rows_by_key.all_rows()) == bag::bag(before.rows_by_key.all_rows()).insert(r),
    ensures
        resident_ok(after, rows.push(r), keys, index),
        bag::bag(after.rows_by_key.all_rows()) == bag::bag(
            bag::select(rows.push(r), keys::in_part(keys, 0, index)),
        ),
{
    lemma_parts_push(rows, r, keys, index);
    let part = bag::select(rows, keys::in_part(keys, 0, index));
    bag::lemma_bag_push(part, r);
    assert(bag::select(rows.push(r), keys::in_part(keys, 0, index)) == part.push(r));
    assert forall|d: u64|
        hash::partition_of(d, 0) == index implies #[trigger] after.rows_by_key.rows_for(d)
        == bag::select(rows.push(r), keys::has_digest(keys, d)) by {
        assert(before.rows_by_key.rows_for(d) == bag::select(rows, keys::has_digest(keys, d)));
        bag::lemma_select_push(rows, r, keys::has_digest(keys, d));
    }
}

/// What went to runs, behind a row of one partition.
proof fn lemma_spilled_push(
    before: Seq<HybridBuildPartition>,
    after: Seq<HybridBuildPartition>,
    parts: Seq<Seq<RowView>>,
    parts_after: Seq<Seq<RowView>>,
    rows: Seq<RowView>,
    r: RowView,
    keys: Seq<int>,
    index: int,
)
    requires
        index == hash::partition_of(hash::digest(r, keys), 0),
        0 <= index < PARTITION_FANOUT,
        spilled_ok(before, parts, rows, keys),
        before.len() == PARTITION_FANOUT,
        after.len() == PARTITION_FANOUT,
        parts.len() == PARTITION_FANOUT,
        parts_after.len() == PARTITION_FANOUT,
        forall|j: int|
            0 <= j < PARTITION_FANOUT && j != index ==> #[trigger] after[j] == before[j],
        forall|j: int|
            0 <= j < PARTITION_FANOUT && j != index ==> #[trigger] parts_after[j] == parts[j],
        bag::bag(parts_after[index]) == if after[index].spilled {
            bag::bag(bag::select(rows.push(r), keys::in_part(keys, 0, index)))
        } else {
            bag::bag(Seq::<RowView>::empty())
        },
    ensures
        spilled_ok(after, parts_after, rows.push(r), keys),
{
    lemma_parts_push(rows, r, keys, index);
    assert forall|j: int| 0 <= j < PARTITION_FANOUT implies bag::bag(#[trigger] parts_after[j])
        == if after[j].spilled {
        bag::bag(bag::select(rows.push(r), keys::in_part(keys, 0, j)))
    } else {
        bag::bag(Seq::<RowView>::empty())
    } by {
        if j != index {
            assert(parts_after[j] == parts[j]);
            assert(after[j] == before[j]);
            assert(bag::select(rows.push(r), keys::in_part(keys, 0, j)) == bag::select(
                rows,
                keys::in_part(keys, 0, j),
            ));
        }
    }
}

} // verus!
