//! Runs: rows that are written to scratch blocks and read back.

use std::collections::VecDeque;

use vstd::prelude::*;

use crate::bag;
use crate::bytes;
use crate::data;
use crate::data::{DataType, DataValue};
use crate::error::DbError;
use crate::io::{push_bytes, Input, Output};
use crate::row;
use crate::row::{Row, Schema};
use crate::storage::block_allocator;
use crate::storage::block_allocator::{ScratchRun, ScratchSpace};
use crate::storage::disk_client;
use crate::storage::disk_client::DiskClient;
use crate::storage::row_codec;

verus! {

/// The number of blocks that are written at once.
pub const SCRATCH_WRITE_BATCH_BLOCKS: usize = 256;

/// The number of blocks that a cursor reads at once.
pub const SCRATCH_CURSOR_BATCH_BLOCKS: usize = 64;

/// The number of blocks that are read at once where all rows are wanted.
pub const SCRATCH_STREAM_BATCH_BLOCKS: usize = 256;

/// The number of blocks that a writer reserves at once.
pub const SCRATCH_WRITER_ALLOCATION_CHUNK_BLOCKS: usize = 64;

/// The most rows that a block can count.
pub const MAX_BLOCK_ROWS: usize = 65535;

/// Stored rows one behind the other.
pub open spec fn joined(items: Seq<Seq<u8>>) -> Seq<u8>
    decreases items.len(),
{
    if items.len() == 0 {
        Seq::empty()
    } else {
        joined(items.drop_last()) + items.last()
    }
}

/// A block of stored rows: the rows, zeros, and the number of rows.
pub open spec fn packed(block_size: int, items: Seq<Seq<u8>>) -> Seq<u8> {
    joined(items) + Seq::new((block_size - 2 - joined(items).len()) as nat, |i: int| 0u8)
        + bytes::le_bytes(items.len(), 2)
}

/// The stored forms of rows.
pub open spec fn encodings(rows: Seq<Seq<DataValue>>) -> Seq<Seq<u8>> {
    Seq::new(rows.len(), |i: int| row::encoded_row(rows[i]))
}

/// The rows of a run in blocks with these contents.
pub open spec fn run_rows(
    contents: Map<int, Seq<u8>>,
    ids: Seq<u64>,
    types: Seq<DataType>,
) -> Result<Seq<Seq<DataValue>>, DbError>
    decreases ids.len(),
{
    if ids.len() == 0 {
        Ok(Seq::empty())
    } else {
        match run_rows(contents, ids.drop_last(), types) {
            Err(e) => Err(e),
            Ok(front) => match row_codec::block_rows(contents[ids.last() as int], types) {
                Err(e) => Err(e),
                Ok(rows) => Ok(front + rows),
            },
        }
    }
}

/// How stored rows are put into blocks of a size: the rows of the full blocks,
/// and those of the block that is being filled. A block is full where the next
/// row, or its number, would not fit.
pub open spec fn packing(items: Seq<Seq<u8>>, block_size: int) -> (
    Seq<Seq<Seq<u8>>>,
    Seq<Seq<u8>>,
)
    decreases items.len(),
{
    if items.len() == 0 {
        (Seq::empty(), Seq::empty())
    } else {
        let (full, open) = packing(items.drop_last(), block_size);
        let next = items.last();
        if open.len() > 0 && (joined(open).len() + next.len() + 2 > block_size || open.len()
            >= MAX_BLOCK_ROWS) {
            (full.push(open), seq![next])
        } else {
            (full, open.push(next))
        }
    }
}

/// The stored rows of each block of a run.
pub open spec fn blocks_of(items: Seq<Seq<u8>>, block_size: int) -> Seq<Seq<Seq<u8>>> {
    let (full, open) = packing(items, block_size);
    if open.len() == 0 {
        full
    } else {
        full.push(open)
    }
}

/// All stored rows of some blocks.
pub open spec fn flattened(groups: Seq<Seq<Seq<u8>>>) -> Seq<Seq<u8>>
    decreases groups.len(),
{
    if groups.len() == 0 {
        Seq::empty()
    } else {
        flattened(groups.drop_last()) + groups.last()
    }
}

/// Joined rows are the stored form of the rows.
proof fn lemma_joined_encodings(rows: Seq<Seq<DataValue>>)
    ensures
        joined(encodings(rows)) == row_codec::encoded_rows(rows),
    decreases rows.len(),
{
    if rows.len() > 0 {
        assert(encodings(rows).drop_last() == encodings(rows.drop_last()));
        lemma_joined_encodings(rows.drop_last());
    }
}

/// A block of stored rows holds these rows.
pub proof fn lemma_packed_rows(
    block_size: int,
    rows: Seq<Seq<DataValue>>,
    types: Seq<DataType>,
)
    requires
        row_codec::all_conform(rows, types),
        joined(encodings(rows)).len() + 2 <= block_size,
        rows.len() <= MAX_BLOCK_ROWS,
    ensures
        row_codec::block_rows(packed(block_size, encodings(rows)), types) == Ok::<
            Seq<Seq<DataValue>>,
            DbError,
        >(rows),
        packed(block_size, encodings(rows)).len() == block_size,
{
    let items = encodings(rows);
    let block = packed(block_size, items);
    let zeros = Seq::new((block_size - 2 - joined(items).len()) as nat, |i: int| 0u8);
    bytes::lemma_le_bounds();
    bytes::lemma_le_round_trip(items.len(), 2);
    lemma_joined_encodings(rows);
    assert(row_codec::payload(block) == joined(items) + zeros);
    assert(block.skip(block.len() - 2) == bytes::le_bytes(items.len(), 2));
    row_codec::lemma_rows_round_trip(rows, types, zeros);
}

/// Blocks of stored rows hold these rows.
pub proof fn lemma_run_rows(
    contents: Map<int, Seq<u8>>,
    ids: Seq<u64>,
    groups: Seq<Seq<Seq<u8>>>,
    block_size: int,
    rows: Seq<Seq<DataValue>>,
    types: Seq<DataType>,
)
    requires
        row_codec::all_conform(rows, types),
        ids.len() == groups.len(),
        flattened(groups) == encodings(rows),
        forall|k: int|
            0 <= k < groups.len() ==> {
                &&& contents[#[trigger] ids[k] as int] == packed(block_size, groups[k])
                &&& joined(groups[k]).len() + 2 <= block_size
                &&& groups[k].len() <= MAX_BLOCK_ROWS
            },
    ensures
        run_rows(contents, ids, types) == Ok::<Seq<Seq<DataValue>>, DbError>(rows),
    decreases groups.len(),
{
    if groups.len() == 0 {
        assert(encodings(rows).len() == 0);
        assert(rows == Seq::<Seq<DataValue>>::empty());
    } else {
        let n = flattened(groups.drop_last()).len() as int;
        let front = rows.take(n);
        let back = rows.skip(n);
        assert(encodings(rows).len() == rows.len());
        assert(flattened(groups).len() == n + groups.last().len());
        assert(encodings(front) == encodings(rows).take(n));
        assert(encodings(back) == encodings(rows).skip(n));
        assert(flattened(groups).take(n) == flattened(groups.drop_last()));
        assert(flattened(groups).skip(n) == groups.last());
        assert forall|k: int| 0 <= k < groups.len() - 1 implies {
            &&& contents[#[trigger] ids.drop_last()[k] as int] == packed(
                block_size,
                groups.drop_last()[k],
            )
            &&& joined(groups.drop_last()[k]).len() + 2 <= block_size
            &&& groups.drop_last()[k].len() <= MAX_BLOCK_ROWS
        } by {
            assert(ids.drop_last()[k] == ids[k]);
        }
        assert(row_codec::all_conform(front, types)) by {
            assert forall|i: int| 0 <= i < front.len() implies data::conforms(
                #[trigger] front[i],
                types,
            ) by {
                assert(front[i] == rows[i]);
            }
        }
        assert(row_codec::all_conform(back, types)) by {
            assert forall|i: int| 0 <= i < back.len() implies data::conforms(
                #[trigger] back[i],
                types,
            ) by {
                assert(back[i] == rows[n + i]);
            }
        }
        lemma_run_rows(contents, ids.drop_last(), groups.drop_last(), block_size, front, types);
        let last = groups.len() - 1;
        assert(contents[ids[last] as int] == packed(block_size, groups[last]));
        lemma_packed_rows(block_size, back, types);
        assert(front + back == rows);
    }
}

/// The rows of a run depend only on the contents of its blocks.
pub proof fn lemma_run_rows_same(
    a: Map<int, Seq<u8>>,
    b: Map<int, Seq<u8>>,
    ids: Seq<u64>,
    types: Seq<DataType>,
)
    requires
        forall|k: int| 0 <= k < ids.len() ==> a[#[trigger] ids[k] as int] == b[ids[k] as int],
    ensures
        run_rows(a, ids, types) == run_rows(b, ids, types),
    decreases ids.len(),
{
    if ids.len() > 0 {
        assert forall|k: int| 0 <= k < ids.len() - 1 implies a[#[trigger] ids.drop_last()[k] as int]
            == b[ids.drop_last()[k] as int] by {
            assert(ids.drop_last()[k] == ids[k]);
        }
        lemma_run_rows_same(a, b, ids.drop_last(), types);
        assert(a[ids[ids.len() - 1] as int] == b[ids[ids.len() - 1] as int]);
    }
}

/// The rows of the first blocks of a run are read before those of the others.
pub proof fn lemma_run_rows_prefix(
    contents: Map<int, Seq<u8>>,
    ids: Seq<u64>,
    types: Seq<DataType>,
    i: int,
)
    requires
        0 <= i <= ids.len(),
    ensures
        match run_rows(contents, ids.take(i), types) {
            Err(e) => run_rows(contents, ids, types) == Err::<Seq<Seq<DataValue>>, DbError>(e),
            Ok(front) => run_rows(contents, ids, types) matches Ok(rows) ==> front.len()
                <= rows.len() && rows.take(front.len() as int) == front,
        },
        i < ids.len() ==> run_rows(contents, ids.take(i + 1), types) == match run_rows(
            contents,
            ids.take(i),
            types,
        ) {
            Err(e) => Err(e),
            Ok(front) => match row_codec::block_rows(contents[ids[i] as int], types) {
                Err(e) => Err(e),
                Ok(rows) => Ok::<Seq<Seq<DataValue>>, DbError>(front + rows),
            },
        },
    decreases ids.len() - i,
{
    if i == ids.len() {
        assert(ids.take(i) == ids);
        match run_rows(contents, ids, types) {
            Ok(rows) => {
                assert(rows.take(rows.len() as int) == rows);
            },
            Err(_) => {},
        }
    } else {
        assert(ids.take(i + 1).drop_last() == ids.take(i));
        lemma_run_rows_prefix(contents, ids, types, i + 1);
        match run_rows(contents, ids.take(i), types) {
            Ok(front) => {
                match run_rows(contents, ids.take(i + 1), types) {
                    Ok(more) => {
                        assert(more.take(front.len() as int) == front);
                        match run_rows(contents, ids, types) {
                            Ok(rows) => {
                                assert(rows.take(more.len() as int).take(front.len() as int)
                                    == rows.take(front.len() as int));
                            },
                            Err(_) => {},
                        }
                    },
                    Err(_) => {},
                }
            },
            Err(_) => {},
        }
    }
}

/// Every row of a run has the types.
pub proof fn lemma_run_rows_conform(
    contents: Map<int, Seq<u8>>,
    ids: Seq<u64>,
    types: Seq<DataType>,
)
    ensures
        run_rows(contents, ids, types) matches Ok(rows) ==> row_codec::all_conform(rows, types),
    decreases ids.len(),
{
    if ids.len() > 0 {
        lemma_run_rows_conform(contents, ids.drop_last(), types);
        let block = contents[ids.last() as int];
        row_codec::lemma_decoded_rows(
            row_codec::payload(block),
            types,
            row_codec::row_count(block) as int,
        );
    }
}

/// Of two states of a device and its scratch space: blocks that were in use
/// still are and hold what they held, but for those of `own`.
pub open spec fn kept<R: Input, W: Output>(
    disk: DiskClient<R, W>,
    scratch: ScratchSpace,
    disk_after: DiskClient<R, W>,
    scratch_after: ScratchSpace,
    own: Set<int>,
) -> bool {
    &&& disk_after.layout() == disk.layout()
    &&& disk_after.honest() ==> disk.honest()
    &&& disk.known_block_size() is Some ==> disk_after.known_block_size()
        == disk.known_block_size()
    &&& scratch_after.wf()
    &&& scratch_after.first() == scratch.first()
    &&& scratch.next() <= scratch_after.next()
    &&& scratch.gave_up() ==> scratch_after.gave_up()
    &&& scratch_after.size() == scratch.size()
    &&& forall|b: int|
        #![trigger scratch.allocated(b)]
        #![trigger scratch_after.allocated(b)]
        scratch.allocated(b) && !own.contains(b) ==> {
            &&& scratch_after.allocated(b)
            &&& disk_after.scratch()[b] == disk.scratch()[b]
        }
}

/// The device has answered every command, its blocks are those of the scratch
/// space, memory holds a batch of them, and there are block numbers left.
pub open spec fn able<R: Input, W: Output>(
    disk: DiskClient<R, W>,
    scratch: ScratchSpace,
) -> bool {
    &&& disk.honest()
    &&& disk.layout().anon_start <= scratch.first()
    &&& disk.layout().block_size == scratch.size()
    &&& scratch.size() * SCRATCH_STREAM_BATCH_BLOCKS <= usize::MAX
    &&& scratch.next() + SCRATCH_WRITER_ALLOCATION_CHUNK_BLOCKS <= u64::MAX
}

/// A row is too long for a block of the size.
pub open spec fn oversized(rows: Seq<Seq<DataValue>>, size: int) -> bool {
    exists|i: int| 0 <= i < rows.len() && row::encoded_row(#[trigger] rows[i]).len() + 2 > size
}

/// A row that is too long is so among others.
pub broadcast proof fn lemma_oversized_within(
    a: Seq<Seq<DataValue>>,
    b: Seq<Seq<DataValue>>,
    size: int,
)
    requires
        #[trigger] oversized(a, size),
        #[trigger] bag::within(a, b),
    ensures
        oversized(b, size),
{
    let i = choose|i: int|
        0 <= i < a.len() && row::encoded_row(#[trigger] a[i]).len() + 2 > size;
    assert(a.contains(a[i]));
    bag::lemma_within_has(a, b, a[i]);
    let k = choose|k: int| 0 <= k < b.len() && b[k] == a[i];
    assert(row::encoded_row(b[k]).len() + 2 > size);
}

/// The blocks of a run.
pub open spec fn ids_set(ids: Seq<u64>) -> Set<int> {
    Set::new(|b: int| exists|k: int| 0 <= k < ids.len() && #[trigger] ids[k] == b)
}

/// A set of blocks that grew only by blocks that were not in use.
pub open spec fn grown(own: Set<int>, scratch: ScratchSpace, own_after: Set<int>) -> bool {
    forall|b: int| #[trigger] own_after.contains(b) ==> own.contains(b) || !scratch.allocated(b)
}

/// Every block that is in use was so before, outside a set, or is in the set
/// that came of it.
pub open spec fn tidy(
    own: Set<int>,
    scratch: ScratchSpace,
    own_after: Set<int>,
    scratch_after: ScratchSpace,
) -> bool {
    forall|b: int| #[trigger]
        scratch_after.allocated(b) ==> (scratch.allocated(b) && !own.contains(b))
            || own_after.contains(b)
}

/// Every block of the set is in use.
pub open spec fn in_use(own: Set<int>, scratch: ScratchSpace) -> bool {
    forall|b: int| #[trigger] own.contains(b) ==> scratch.allocated(b)
}

/// Blocks that wait to be written at once.
pub struct Queue {
    pub start: Option<u64>,
    pub count: int,
    pub bytes: Seq<u8>,
}

/// No block waits.
pub open spec fn no_queue() -> Queue {
    Queue { start: None, count: 0, bytes: Seq::empty() }
}

/// What is sent to write the blocks that wait.
pub open spec fn put(q: Queue) -> Seq<u8> {
    if q.count == 0 {
        Seq::empty()
    } else {
        disk_client::block_command("put block "@, q.start->0, q.count as u64) + q.bytes
    }
}

/// What is sent, and what waits, once a block has joined those that wait: it
/// joins them only where its number follows theirs, and as many as are written at
/// once do not wait.
pub open spec fn queued(q: Queue, id: u64, block: Seq<u8>) -> (Seq<u8>, Queue) {
    let joins = q.count == 0 || (q.count < SCRATCH_WRITE_BATCH_BLOCKS && q.start->0 + q.count
        == id);
    let (out, base) = if joins {
        (Seq::empty(), q)
    } else {
        (put(q), no_queue())
    };
    let more = Queue {
        start: if base.count == 0 {
            Some(id)
        } else {
            base.start
        },
        count: base.count + 1,
        bytes: base.bytes + block,
    };
    if more.count >= SCRATCH_WRITE_BATCH_BLOCKS {
        (out + put(more), no_queue())
    } else {
        (out, more)
    }
}

/// Of two states of a device: just these bytes were sent between them, behind the
/// question for the block size where it was not known.
pub open spec fn sent<R: Input, W: Output>(
    before: DiskClient<R, W>,
    bytes: Seq<u8>,
    after: DiskClient<R, W>,
) -> bool {
    if bytes.len() == 0 {
        &&& after.written() == before.written()
        &&& after.passed_on() == before.passed_on()
        &&& after.pending() == before.pending()
        &&& after.known_block_size() == before.known_block_size()
    } else {
        &&& after.written() == before.written() + before.size_sent() + bytes
        &&& after.passed_on() == after.written()
        &&& after.pending() == before.pending().skip(before.size_heard().len() as int)
        &&& after.known_block_size() is Some
    }
}

proof fn lemma_sent_trans<R: Input, W: Output>(
    a: DiskClient<R, W>,
    x: Seq<u8>,
    b: DiskClient<R, W>,
    y: Seq<u8>,
    c: DiskClient<R, W>,
)
    requires
        sent(a, x, b),
        sent(b, y, c),
        b.known_block_size() is Some ==> c.known_block_size() is Some,
    ensures
        sent(a, x + y, c),
{
    if x.len() == 0 {
        assert(x + y =~= y);
    } else if y.len() == 0 {
        assert(x + y =~= x);
    } else {
        assert(b.pending().skip(0) =~= b.pending());
        assert(a.written() + a.size_sent() + x + Seq::<u8>::empty() + y =~= a.written()
            + a.size_sent() + (x + y));
    }
}

/// A device that does what it is asked, with blocks of the size.
pub open spec fn serves<R: Input, W: Output>(disk: DiskClient<R, W>, size: int) -> bool {
    disk.obliging() && (disk.told_size() matches Some(n) && n == size)
}

/// A block is taken for a run: the next of those that are held for it, or the
/// first of a batch that the space hands out where none are.
pub open spec fn took(
    held: Seq<u64>,
    before: ScratchSpace,
    id: u64,
    rest: Seq<u64>,
    after: ScratchSpace,
) -> bool {
    if held.len() > 0 {
        &&& id == held[0]
        &&& rest == held.skip(1)
        &&& after == before
    } else {
        &&& block_allocator::hands_out(
            before,
            SCRATCH_WRITER_ALLOCATION_CHUNK_BLOCKS,
            seq![id] + rest,
            after,
        )
    }
}

/// There is a block to take.
pub open spec fn has_block(held: Seq<u64>, scratch: ScratchSpace) -> bool {
    held.len() > 0 || scratch.free() != Set::<u64>::empty() || scratch.next()
        + SCRATCH_WRITER_ALLOCATION_CHUNK_BLOCKS <= u64::MAX
}

/// Rows on their way to a run.
pub struct ScratchRunWriter {
    current_block: Vec<u8>,
    used: usize,
    row_count: usize,
    block_ids: Vec<u64>,
    reserved_blocks: Vec<u64>,
    pending_start_block: Option<u64>,
    pending_block_count: usize,
    pending_bytes: Vec<u8>,
    groups: Ghost<Seq<Seq<Seq<u8>>>>,
    current: Ghost<Seq<Seq<u8>>>,
}

impl ScratchRunWriter {
    /// The size of a block.
    pub closed spec fn block_size(self) -> int {
        self.current_block@.len() as int
    }

    /// The stored rows that were pushed.
    pub closed spec fn items(self) -> Seq<Seq<u8>> {
        flattened(self.groups@) + self.current@
    }

    /// The blocks of the run so far and those that are held for it.
    pub closed spec fn own(self) -> Set<int> {
        ids_set(self.block_ids@ + self.reserved_blocks@)
    }

    /// The blocks of the run so far, in their order.
    pub closed spec fn ids(self) -> Seq<u64> {
        self.block_ids@
    }

    /// The blocks that are held for the run, in the order in which they are used.
    pub closed spec fn held(self) -> Seq<u64> {
        self.reserved_blocks@.reverse()
    }

    /// The blocks that wait to be written.
    pub closed spec fn queue(self) -> Queue {
        Queue {
            start: self.pending_start_block,
            count: self.pending_block_count as int,
            bytes: self.pending_bytes@,
        }
    }

    spec fn flushed(self) -> int {
        self.block_ids@.len() - self.pending_block_count
    }

    spec fn current_ok(self) -> bool {
        &&& self.used == joined(self.current@).len()
        &&& self.row_count == self.current@.len()
        &&& self.row_count <= MAX_BLOCK_ROWS
        &&& self.row_count > 0 ==> self.used + 2 <= self.block_size()
        &&& self.row_count == 0 ==> self.used == 0
        &&& self.current_block@.take(self.used as int) == joined(self.current@)
        &&& forall|i: int|
            self.used <= i < self.block_size() ==> #[trigger] self.current_block@[i] == 0
    }

    spec fn groups_ok(self) -> bool {
        &&& self.block_ids@.len() == self.groups@.len()
        &&& forall|k: int|
            0 <= k < self.groups@.len() ==> {
                &&& joined(#[trigger] self.groups@[k]).len() + 2 <= self.block_size()
                &&& 0 < self.groups@[k].len() <= MAX_BLOCK_ROWS
            }
    }

    spec fn pending_ok(self) -> bool {
        let first = self.flushed();
        &&& 0 <= first
        &&& self.pending_block_count <= SCRATCH_WRITE_BATCH_BLOCKS
        &&& self.pending_bytes@.len() == self.block_size() * self.pending_block_count
        &&& self.pending_block_count > 0 ==> self.pending_start_block == Some(
            self.block_ids@[first],
        )
        &&& self.pending_block_count == 0 ==> self.pending_start_block is None
        &&& forall|k: int|
            first <= k < self.block_ids@.len() ==> #[trigger] self.block_ids@[k]
                == self.block_ids@[first] + (k - first)
        &&& forall|j: int|
            0 <= j < self.pending_block_count ==> #[trigger] disk_client::chunk(
                self.pending_bytes@,
                self.block_size(),
                j,
            ) == packed(self.block_size(), self.groups@[first + j])
    }

    spec fn blocks_ok(self, scratch: ScratchSpace) -> bool {
        let ids = self.block_ids@ + self.reserved_blocks@;
        &&& forall|i: int, j: int| 0 <= i < j < ids.len() ==> ids[i] != ids[j]
        &&& forall|i: int| 0 <= i < ids.len() ==> scratch.allocated(#[trigger] ids[i] as int)
    }

    spec fn on_disk(self, contents: Map<int, Seq<u8>>) -> bool {
        forall|k: int|
            0 <= k < self.flushed() ==> contents[#[trigger] self.block_ids@[k] as int] == packed(
                self.block_size(),
                self.groups@[k],
            )
    }

    /// Blocks were begun just where a row did not fit.
    spec fn tight(self) -> bool {
        packing(self.items(), self.block_size()) == (self.groups@, self.current@)
    }

    /// What was pushed is on the device or on its way to it.
    pub closed spec fn wf<R: Input, W: Output>(
        self,
        disk: DiskClient<R, W>,
        scratch: ScratchSpace,
    ) -> bool {
        self.stored(disk, scratch) && self.tight()
    }

    spec fn stored<R: Input, W: Output>(
        self,
        disk: DiskClient<R, W>,
        scratch: ScratchSpace,
    ) -> bool {
        &&& self.current_ok()
        &&& self.groups_ok()
        &&& self.pending_ok()
        &&& self.blocks_ok(scratch)
        &&& self.on_disk(disk.scratch())
    }

    /// What it takes to end the run: the block that is being filled gets a number,
    /// what waits is written, and the blocks that are still held go back.
    pub open spec fn ended<R: Input, W: Output>(
        self,
        d0: DiskClient<R, W>,
        s0: ScratchSpace,
        run: Seq<u64>,
        d1: DiskClient<R, W>,
        s1: ScratchSpace,
    ) -> bool {
        let open = packing(self.items(), self.block_size()).1;
        if open.len() == 0 {
            &&& run == self.ids()
            &&& sent(d0, put(self.queue()), d1)
            &&& s1.next() == s0.next()
            &&& s1.free() == s0.free().union(self.held().to_set())
        } else {
            let (out, q) = queued(
                self.queue(),
                run.last(),
                packed(self.block_size(), open),
            );
            &&& run == self.ids().push(run.last())
            &&& sent(d0, out + put(q), d1)
            &&& exists|rest: Seq<u64>, taken: ScratchSpace| #[trigger]
                took(self.held(), s0, run.last(), rest, taken) && s1.next() == taken.next()
                    && s1.free() == taken.free().union(rest.to_set())
        }
    }

    /// The block that is being filled has no room for a row of so many bytes.
    pub open spec fn full(self, len: int) -> bool {
        let open = packing(self.items(), self.block_size()).1;
        open.len() > 0 && (joined(open).len() + len + 2 > self.block_size() || open.len()
            >= MAX_BLOCK_ROWS)
    }

    /// What it takes to make room for a row of so many bytes: where the block that
    /// is being filled is full, it gets a number and joins those that wait;
    /// otherwise nothing.
    pub open spec fn turned<R: Input, W: Output>(
        self,
        d0: DiskClient<R, W>,
        s0: ScratchSpace,
        len: int,
        after: Self,
        d1: DiskClient<R, W>,
        s1: ScratchSpace,
    ) -> bool {
        if self.full(len) {
            self.filed(d0, s0, after, d1, s1)
        } else {
            &&& after.ids() == self.ids()
            &&& after.held() == self.held()
            &&& after.queue() == self.queue()
            &&& d1 == d0
            &&& s1 == s0
        }
    }

    /// The block that is being filled got a number and joined those that wait.
    pub open spec fn filed<R: Input, W: Output>(
        self,
        d0: DiskClient<R, W>,
        s0: ScratchSpace,
        after: Self,
        d1: DiskClient<R, W>,
        s1: ScratchSpace,
    ) -> bool {
        let block = packed(
            self.block_size(),
            packing(self.items(), self.block_size()).1,
        );
        let id = after.ids().last();
        let (out, q) = queued(self.queue(), id, block);
        &&& after.ids() == self.ids().push(id)
        &&& took(self.held(), s0, id, after.held(), s1)
        &&& after.queue() == q
        &&& sent(d0, out, d1)
    }

    /// A writer to which nothing was pushed.
    pub fn new<R: Input, W: Output>(
        disk: &DiskClient<R, W>,
        scratch: &ScratchSpace,
        block_size: usize,
    ) -> (r: ScratchRunWriter)
        ensures
            r.wf(*disk, *scratch),
            r.block_size() == block_size,
            r.items() == Seq::<Seq<u8>>::empty(),
            r.own() == Set::<int>::empty(),
            r.ids() == Seq::<u64>::empty(),
            r.held() == Seq::<u64>::empty(),
            r.queue() == no_queue(),
    {
        let writer = ScratchRunWriter {
            current_block: vec![0u8; block_size],
            used: 0,
            row_count: 0,
            block_ids: Vec::new(),
            reserved_blocks: Vec::new(),
            pending_start_block: None,
            pending_block_count: 0,
            pending_bytes: Vec::new(),
            groups: Ghost(Seq::empty()),
            current: Ghost(Seq::empty()),
        };
        proof {
            assert(writer.current_block@.take(0) == Seq::<u8>::empty());
            assert(writer.block_size() * 0 == 0);
            assert(writer.items() =~= Seq::<Seq<u8>>::empty());
            assert(writer.tight());
            assert(writer.own() =~= Set::<int>::empty());
        }
        writer
    }

    /// The writer's own blocks and what they hold stay where others are
    /// changed.
    pub proof fn lemma_wf_kept<R: Input, W: Output>(
        self,
        disk: DiskClient<R, W>,
        scratch: ScratchSpace,
        disk_after: DiskClient<R, W>,
        scratch_after: ScratchSpace,
        own: Set<int>,
    )
        requires
            self.wf(disk, scratch),
            kept(disk, scratch, disk_after, scratch_after, own),
            forall|b: int| self.own().contains(b) ==> !#[trigger] own.contains(b),
        ensures
            self.wf(disk_after, scratch_after),
    {
        let ids = self.block_ids@ + self.reserved_blocks@;
        assert forall|i: int| 0 <= i < ids.len() implies {
            &&& scratch_after.allocated(#[trigger] ids[i] as int)
            &&& disk_after.scratch()[ids[i] as int] == disk.scratch()[ids[i] as int]
        } by {
            assert(self.own().contains(ids[i] as int));
            assert(scratch.allocated(ids[i] as int));
        }
        assert forall|k: int| 0 <= k < self.flushed() implies disk_after.scratch()[
            #[trigger] self.block_ids@[k] as int] == packed(self.block_size(), self.groups@[k]) by {
            assert(ids[k] == self.block_ids@[k]);
        }
    }

    /// The writer's own blocks are in use.
    pub proof fn lemma_own_in_use<R: Input, W: Output>(
        self,
        disk: DiskClient<R, W>,
        scratch: ScratchSpace,
    )
        requires
            self.wf(disk, scratch),
        ensures
            in_use(self.own(), scratch),
    {
    }
}

/// Blocks that are put behind others leave those where they were.
proof fn lemma_chunk_append(front: Seq<u8>, block: Seq<u8>, block_size: int, count: int)
    requires
        0 <= count,
        0 <= block_size,
        front.len() == block_size * count,
        block.len() == block_size,
    ensures
        (front + block).len() == block_size * (count + 1),
        forall|j: int|
            0 <= j < count ==> #[trigger] disk_client::chunk(front + block, block_size, j)
                == disk_client::chunk(front, block_size, j),
        disk_client::chunk(front + block, block_size, count) == block,
{
    assert(block_size * (count + 1) == block_size * count + block_size) by (nonlinear_arith);
    assert forall|j: int| 0 <= j < count implies #[trigger] disk_client::chunk(
        front + block,
        block_size,
        j,
    ) == disk_client::chunk(front, block_size, j) by {
        disk_client::lemma_chunk(front, block_size, count, j);
        assert(disk_client::chunk(front + block, block_size, j) =~= disk_client::chunk(
            front,
            block_size,
            j,
        ));
    }
    assert(count * block_size == block_size * count) by (nonlinear_arith);
    assert((count + 1) * block_size == count * block_size + block_size) by (nonlinear_arith);
    assert(disk_client::chunk(front + block, block_size, count) =~= block);
}

/// A block in which the number of rows stands behind the rows.
proof fn lemma_finalized(block: Seq<u8>, items: Seq<Seq<u8>>, low: u8, high: u8)
    requires
        0 < items.len() <= MAX_BLOCK_ROWS,
        joined(items).len() + 2 <= block.len(),
        block.take(joined(items).len() as int) == joined(items),
        forall|i: int| joined(items).len() <= i < block.len() ==> #[trigger] block[i] == 0,
        low == items.len() % 256,
        high == items.len() / 256,
    ensures
        block.update(block.len() - 2, low).update(block.len() - 1, high) == packed(
            block.len() as int,
            items,
        ),
{
    reveal_with_fuel(bytes::le_bytes, 3);
    let n = items.len();
    assert(bytes::le_bytes(n, 2) =~= seq![(n % 256) as u8, ((n / 256) % 256) as u8]);
    let done = block.update(block.len() - 2, low).update(block.len() - 1, high);
    let zeros = Seq::new((block.len() - 2 - joined(items).len()) as nat, |i: int| 0u8);
    assert forall|i: int| 0 <= i < done.len() implies done[i] == packed(
        block.len() as int,
        items,
    )[i] by {
        if i < joined(items).len() {
            assert(block.take(joined(items).len() as int)[i] == block[i]);
        }
    }
    assert(done =~= packed(block.len() as int, items));
}

impl ScratchRunWriter {
    /// Pushes a row.
    pub fn push_row<R: Input, W: Output>(
        &mut self,
        row: &Row,
        disk: &mut DiskClient<R, W>,
        scratch: &mut ScratchSpace,
    ) -> (r: Result<(), DbError>)
        requires
            old(self).wf(*old(disk), *old(scratch)),
            old(scratch).wf(),
        ensures
            kept(*old(disk), *old(scratch), *final(disk), *final(scratch), old(self).own()),
            grown(old(self).own(), *old(scratch), final(self).own()),
            r is Ok ==> {
                &&& final(self).wf(*final(disk), *final(scratch))
                &&& final(self).block_size() == old(self).block_size()
                &&& final(self).items() == old(self).items().push(row::encoded_row(row@))
                &&& tidy(old(self).own(), *old(scratch), final(self).own(), *final(scratch))
                &&& old(self).turned(
                    *old(disk),
                    *old(scratch),
                    row::encoded_row(row@).len() as int,
                    *final(self),
                    *final(disk),
                    *final(scratch),
                )
            },
            old(disk).obliging() ==> final(disk).obliging(),
            serves(*old(disk), old(self).block_size()) && row::encoded_row(row@).len() + 2 <= old(self).block_size() && (
            old(self).full(row::encoded_row(row@).len() as int) ==> has_block(old(self).held(), *old(scratch)))
                ==> r is Ok && serves(*final(disk), old(self).block_size()),
            row::encoded_row(row@).len() + 2 > old(self).block_size() <==> r == Err::<(), DbError>(
                DbError::RowTooLarge,
            ),
            row::encoded_row(row@).len() + 2 > old(self).block_size() ==> {
                &&& *final(self) == *old(self)
                &&& *final(disk) == *old(disk)
                &&& *final(scratch) == *old(scratch)
            },
            r matches Err(e) ==> e == DbError::RowTooLarge || !able(*final(disk), *final(scratch))
                || old(self).block_size() != old(scratch).size(),
            !(r matches Err(DbError::BudgetExceeded)),
    {
        match row.to_stored() {
            Some(stored) => self.push_encoded_row(stored.as_slice(), disk, scratch),
            None => {
                assert(self.current_block.len() <= usize::MAX);
                Err(DbError::RowTooLarge)
            },
        }
    }

    /// Pushes a row in its stored form.
    pub fn push_encoded_row<R: Input, W: Output>(
        &mut self,
        row: &[u8],
        disk: &mut DiskClient<R, W>,
        scratch: &mut ScratchSpace,
    ) -> (r: Result<(), DbError>)
        requires
            old(self).wf(*old(disk), *old(scratch)),
            old(scratch).wf(),
        ensures
            kept(*old(disk), *old(scratch), *final(disk), *final(scratch), old(self).own()),
            grown(old(self).own(), *old(scratch), final(self).own()),
            r is Ok ==> {
                &&& final(self).wf(*final(disk), *final(scratch))
                &&& final(self).block_size() == old(self).block_size()
                &&& final(self).items() == old(self).items().push(row@)
                &&& tidy(old(self).own(), *old(scratch), final(self).own(), *final(scratch))
                &&& old(self).turned(
                    *old(disk),
                    *old(scratch),
                    row@.len() as int,
                    *final(self),
                    *final(disk),
                    *final(scratch),
                )
            },
            old(disk).obliging() ==> final(disk).obliging(),
            serves(*old(disk), old(self).block_size()) && row@.len() + 2 <= old(self).block_size() && (
            old(self).full(row@.len() as int) ==> has_block(old(self).held(), *old(scratch)))
                ==> r is Ok && serves(*final(disk), old(self).block_size()),
            row@.len() + 2 > old(self).block_size() <==> r == Err::<(), DbError>(
                DbError::RowTooLarge,
            ),
            row@.len() + 2 > old(self).block_size() ==> {
                &&& *final(self) == *old(self)
                &&& *final(disk) == *old(disk)
                &&& *final(scratch) == *old(scratch)
            },
            r matches Err(e) ==> e == DbError::RowTooLarge || !able(*final(disk), *final(scratch))
                || old(self).block_size() != old(scratch).size(),
            !(r matches Err(DbError::BudgetExceeded)),
    {
        self.prepare_row_write(row.len(), disk, scratch)?;
        let ghost before = *self;
        let room: usize = self.current_block.len();
        let start: usize = self.used;
        let (head, tail) = self.current_block.as_mut_slice().split_at_mut(start);
        row::copy_bytes(tail, row);
        self.used = start + row.len();
        self.row_count = self.row_count + 1;
        proof {
            let block = before.current_block@;
            let items = before.current@.push(row@);
            assert(items.drop_last() =~= before.current@);
            assert(self.current_block@ == block.take(start as int) + (row@ + block.skip(
                start as int,
            ).skip(row@.len() as int)));
            assert(self.current_block@.take(self.used as int) =~= joined(items));
            self.current@ = items;
            assert(self.current_ok());
            assert(self.items() =~= before.items().push(row@));
            assert(self.items().drop_last() =~= old(self).items());
            assert(self.current@ =~= seq![row@] || before.current@.len() > 0);
            assert(self.tight());
            assert(self.wf(*disk, *scratch));
        }
        Ok(())
    }

    fn prepare_row_write<R: Input, W: Output>(
        &mut self,
        row_size: usize,
        disk: &mut DiskClient<R, W>,
        scratch: &mut ScratchSpace,
    ) -> (r: Result<(), DbError>)
        requires
            old(self).wf(*old(disk), *old(scratch)),
            old(scratch).wf(),
        ensures
            kept(*old(disk), *old(scratch), *final(disk), *final(scratch), old(self).own()),
            grown(old(self).own(), *old(scratch), final(self).own()),
            r is Ok ==> {
                &&& final(self).stored(*final(disk), *final(scratch))
                &&& final(self).block_size() == old(self).block_size()
                &&& final(self).items() == old(self).items()
                &&& if old(self).current@.len() > 0 && (joined(old(self).current@).len() + row_size
                    + 2 > old(self).block_size() || old(self).current@.len() >= MAX_BLOCK_ROWS) {
                    &&& final(self).groups@ == old(self).groups@.push(old(self).current@)
                    &&& final(self).current@ == Seq::<Seq<u8>>::empty()
                } else {
                    &&& final(self).groups@ == old(self).groups@
                    &&& final(self).current@ == old(self).current@
                }
                &&& final(self).used + row_size + 2 <= final(self).block_size()
                &&& final(self).row_count < MAX_BLOCK_ROWS
                &&& tidy(old(self).own(), *old(scratch), final(self).own(), *final(scratch))
                &&& old(self).turned(
                    *old(disk),
                    *old(scratch),
                    row_size as int,
                    *final(self),
                    *final(disk),
                    *final(scratch),
                )
            },
            old(disk).obliging() ==> final(disk).obliging(),
            serves(*old(disk), old(self).block_size()) && row_size + 2 <= old(self).block_size() && (
            old(self).full(row_size as int) ==> has_block(old(self).held(), *old(scratch)))
                ==> r is Ok && serves(*final(disk), old(self).block_size()),
            row_size + 2 > old(self).block_size() <==> r == Err::<(), DbError>(
                DbError::RowTooLarge,
            ),
            row_size + 2 > old(self).block_size() ==> {
                &&& *final(self) == *old(self)
                &&& *final(disk) == *old(disk)
                &&& *final(scratch) == *old(scratch)
            },
            r matches Err(e) ==> e == DbError::RowTooLarge || !able(*final(disk), *final(scratch))
                || old(self).block_size() != old(scratch).size(),
            !(r matches Err(DbError::BudgetExceeded)),
    {
        let size: usize = self.current_block.len();
        if size < 2 || row_size > size - 2 {
            return Err(DbError::RowTooLarge);
        }
        if self.row_count == 0 {
            return Ok(());
        }
        if self.used > size - 2 - row_size || self.row_count >= MAX_BLOCK_ROWS {
            self.flush_block(disk, scratch)?;
        }
        Ok(())
    }

    /// The run of all that was pushed.
    pub fn finish<R: Input, W: Output>(
        self,
        disk: &mut DiskClient<R, W>,
        scratch: &mut ScratchSpace,
    ) -> (r: Result<ScratchRun, DbError>)
        requires
            self.wf(*old(disk), *old(scratch)),
            old(scratch).wf(),
        ensures
            kept(*old(disk), *old(scratch), *final(disk), *final(scratch), self.own()),
            r matches Ok(run) ==> {
                &&& self.ended(*old(disk), *old(scratch), run@, *final(disk), *final(scratch))
                &&& grown(self.own(), *old(scratch), ids_set(run@))
                &&& tidy(self.own(), *old(scratch), ids_set(run@), *final(scratch))
                &&& in_use(ids_set(run@), *final(scratch))
                &&& self.items().len() == 0 <==> run@.len() == 0
                &&& run@.len() == blocks_of(self.items(), self.block_size()).len()
                &&& forall|k: int|
                    0 <= k < run@.len() ==> final(disk).scratch()[#[trigger] run@[k] as int]
                        == packed(
                        self.block_size(),
                        blocks_of(self.items(), self.block_size())[k],
                    )
                &&& forall|rows: Seq<Seq<DataValue>>, types: Seq<DataType>|
                    #![trigger run_rows(final(disk).scratch(), run@, types), encodings(rows)]
                    row_codec::all_conform(rows, types) && encodings(rows) == self.items()
                        ==> run_rows(final(disk).scratch(), run@, types) == Ok::<
                        Seq<Seq<DataValue>>,
                        DbError,
                    >(rows)
            },
            r is Err ==> !able(*final(disk), *final(scratch)) || self.block_size() != old(
                scratch).size(),
            !(r matches Err(DbError::BudgetExceeded | DbError::RowTooLarge)),
            old(disk).obliging() ==> final(disk).obliging(),
            serves(*old(disk), self.block_size()) && (packing(
                self.items(),
                self.block_size(),
            ).1.len() > 0 ==> has_block(self.held(), *old(scratch))) ==> r is Ok && serves(
                *final(disk),
                self.block_size(),
            ),
    {
        let mut this = self;
        let ghost own = this.own();
        let ghost disk_before = *disk;
        let ghost scratch_before = *scratch;
        if this.row_count > 0 {
            this.flush_block(disk, scratch)?;
        }
        let ghost (disk_filed, scratch_filed, filed) = (*disk, *scratch, this);
        proof {
            assert(this.current@.len() == 0);
            assert(this.current@ =~= Seq::<Seq<u8>>::empty());
            assert(flattened(this.groups@) =~= self.items());
            assert(this.groups@ == blocks_of(self.items(), self.block_size()));
            if this.groups@.len() > 0 {
                assert(this.groups@[this.groups@.len() - 1].len() > 0);
            }
        }
        let ghost middle = this;
        proof {
            let ids = this.block_ids@;
            let all = ids + this.reserved_blocks@;
            assert forall|i: int, j: int| 0 <= i < j < ids.len() implies ids[i] != ids[j] by {
                assert(all[i] == ids[i] && all[j] == ids[j]);
            }
            assert forall|b: int| #[trigger] ids_set(ids).contains(b) implies this.own().contains(
                b,
            ) by {
                let k = choose|k: int| 0 <= k < ids.len() && #[trigger] ids[k] == b;
                assert(all[k] == b);
            }
        }
        this.flush_pending_blocks(disk)?;
        let ghost scratch_middle = *scratch;
        let ids = this.block_ids;
        let reserved = this.reserved_blocks;
        if reserved.len() > 0 {
            scratch.release_blocks(reserved);
        }
        proof {
            let all = this.block_ids@ + reserved@;
            assert forall|b: int| #[trigger] ids_set(ids@).contains(b) implies middle.own().contains(
                b,
            ) by {
                let k = choose|k: int| 0 <= k < ids@.len() && #[trigger] ids@[k] == b;
                assert(all[k] == b);
            }
            assert forall|b: int|
                scratch_before.allocated(b) && !own.contains(b) implies {
                &&& #[trigger] scratch.allocated(b)
                &&& disk.scratch()[b] == disk_before.scratch()[b]
            } by {
                assert(scratch_middle.allocated(b));
                assert(!middle.own().contains(b));
                if reserved@.to_set().contains(b as u64) {
                    let k = choose|k: int| 0 <= k < reserved@.len() && reserved@[k] == b as u64;
                    assert(all[ids@.len() + k] == b);
                }
                assert(!ids_set(ids@).contains(b));
            }
            assert(in_use(ids_set(ids@), *scratch)) by {
                assert forall|b: int| #[trigger] ids_set(ids@).contains(b) implies scratch.allocated(
                    b,
                ) by {
                    let k = choose|k: int| 0 <= k < ids@.len() && #[trigger] ids@[k] == b;
                    assert(all[k] == b);
                    assert(scratch_middle.allocated(all[k] as int));
                    if reserved@.to_set().contains(b as u64) {
                        let j = choose|j: int| 0 <= j < reserved@.len() && reserved@[j] == b as u64;
                        assert(all[ids@.len() + j] == b);
                    }
                }
            }
            assert(tidy(own, scratch_before, ids_set(ids@), *scratch)) by {
                assert forall|b: int| #[trigger] scratch.allocated(b) implies (
                scratch_before.allocated(b) && !own.contains(b)) || ids_set(ids@).contains(b) by {
                    assert(scratch_middle.allocated(b));
                    if middle.own().contains(b) {
                        let k = choose|k: int| 0 <= k < all.len() && #[trigger] all[k] == b;
                        if k >= ids@.len() {
                            assert(reserved@[k - ids@.len()] == b as u64);
                            assert(reserved@.to_set().contains(b as u64));
                        } else {
                            assert(ids@[k] == b);
                        }
                    }
                }
            }
            assert(scratch.wf()) by {
                assert forall|b: u64| #[trigger] scratch.free().contains(b) implies scratch.first()
                    <= b < scratch.next() by {
                    if reserved@.to_set().contains(b) {
                        let j = choose|j: int| 0 <= j < reserved@.len() && reserved@[j] == b;
                        assert(all[ids@.len() + j] == b);
                        assert(scratch_middle.allocated(all[ids@.len() + j] as int));
                    }
                }
            }
            assert forall|rows: Seq<Seq<DataValue>>, types: Seq<DataType>|
                #![trigger run_rows(disk.scratch(), ids@, types), encodings(rows)]
                row_codec::all_conform(rows, types) && encodings(rows)
                    == self.items() implies run_rows(disk.scratch(), ids@, types) == Ok::<
                Seq<Seq<DataValue>>,
                DbError,
            >(rows) by {
                lemma_run_rows(
                    disk.scratch(),
                    ids@,
                    this.groups@,
                    this.block_size(),
                    rows,
                    types,
                );
            }
        }
        proof {
            assert(filed.held().to_set() =~= reserved@.to_set()) by {
                assert forall|b: u64| #[trigger]
                    filed.held().contains(b) <==> reserved@.contains(b) by {
                    if filed.held().contains(b) {
                        let k = choose|k: int| 0 <= k < filed.held().len() && filed.held()[k] == b;
                        assert(reserved@[reserved@.len() - 1 - k] == b);
                    }
                    if reserved@.contains(b) {
                        let k = choose|k: int| 0 <= k < reserved@.len() && reserved@[k] == b;
                        assert(filed.held()[reserved@.len() - 1 - k] == b);
                    }
                }
            }
            assert(scratch_filed.free().union(Seq::<u64>::empty().to_set())
                =~= scratch_filed.free());
            assert(scratch.free() =~= scratch_filed.free().union(filed.held().to_set()));
            let open = packing(self.items(), self.block_size()).1;
            assert(open == self.current@);
            if open.len() > 0 {
                let (out, q) = queued(self.queue(), ids@.last(), packed(self.block_size(), open));
                lemma_sent_trans(disk_before, out, disk_filed, put(q), *disk);
                assert(took(self.held(), scratch_before, ids@.last(), filed.held(), scratch_filed));
            }
        }
        Ok(ScratchRun::new(ids))
    }

    fn flush_block<R: Input, W: Output>(
        &mut self,
        disk: &mut DiskClient<R, W>,
        scratch: &mut ScratchSpace,
    ) -> (r: Result<(), DbError>)
        requires
            old(self).stored(*old(disk), *old(scratch)),
            old(scratch).wf(),
            old(self).row_count > 0,
        ensures
            kept(*old(disk), *old(scratch), *final(disk), *final(scratch), old(self).own()),
            grown(old(self).own(), *old(scratch), final(self).own()),
            r is Ok ==> {
                &&& final(self).stored(*final(disk), *final(scratch))
                &&& final(self).block_size() == old(self).block_size()
                &&& final(self).items() == old(self).items()
                &&& final(self).row_count == 0
                &&& final(self).groups@ == old(self).groups@.push(old(self).current@)
                &&& final(self).current@ == Seq::<Seq<u8>>::empty()
                &&& tidy(old(self).own(), *old(scratch), final(self).own(), *final(scratch))
                &&& final(self).ids() == old(self).ids().push(final(self).ids().last())
                &&& took(
                    old(self).held(),
                    *old(scratch),
                    final(self).ids().last(),
                    final(self).held(),
                    *final(scratch),
                )
                &&& ({
                    let (out, q) = queued(
                        old(self).queue(),
                        final(self).ids().last(),
                        packed(old(self).block_size(), old(self).current@),
                    );
                    final(self).queue() == q && sent(*old(disk), out, *final(disk))
                })
            },
            old(disk).obliging() ==> final(disk).obliging(),
            serves(*old(disk), old(self).block_size()) && has_block(
                old(self).held(),
                *old(scratch),
            ) ==> r is Ok && serves(*final(disk), old(self).block_size()),
            r is Err ==> !able(*final(disk), *final(scratch)) || old(self).block_size() != old(
                scratch).size(),
            !(r matches Err(DbError::BudgetExceeded | DbError::RowTooLarge)),
    {
        let ghost block = self.current_block@;
        let ghost items = self.current@;
        let size: usize = self.current_block.len();
        let low: u8 = (self.row_count % 256) as u8;
        let high: u8 = (self.row_count / 256) as u8;
        self.current_block.set(size - 2, low);
        self.current_block.set(size - 1, high);
        proof {
            lemma_finalized(block, items, low, high);
            assert(self.block_size() == old(self).block_size());
            assert(self.pending_ok()) by {
                assert(old(self).pending_ok());
            }
        }
        let id: u64 = match self.reserve_writer_block(scratch) {
            Some(id) => id,
            None => {
                return Err(DbError::OutOfBlocks);
            },
        };
        let ghost before = *self;
        proof {
            let ids = self.block_ids@.push(id);
            let more = ids + self.reserved_blocks@;
            assert forall|i: int, j: int| 0 <= i < j < ids.len() implies ids[i] != ids[j] by {
                assert(more[i] == ids[i] && more[j] == ids[j]);
            }
            assert forall|i: int, j: int|
                0 <= i < j < self.block_ids@.len() implies self.block_ids@[i]
                != self.block_ids@[j] by {
                assert(ids[i] != ids[j]);
            }
            assert forall|i: int| 0 <= i < self.block_ids@.len() implies self.block_ids@[i] != id by {
                assert(ids[i] != ids[ids.len() - 1]);
            }
            assert forall|b: int| #[trigger] ids_set(ids).contains(b) implies ids_set(
                more,
            ).contains(b) by {
                let k = choose|k: int| 0 <= k < ids.len() && #[trigger] ids[k] == b;
                assert(more[k] == b);
            }
            lemma_ids_push(self.block_ids@, id);
        }
        self.queue_block_write(id, disk)?;
        self.current_block = vec![0u8; size];
        self.used = 0;
        self.row_count = 0;
        proof {
            self.current@ = Seq::empty();
            assert(self.groups@.drop_last() =~= before.groups@);
            assert(self.items() =~= old(self).items());
            assert(self.current_block@.take(0) =~= joined(Seq::<Seq<u8>>::empty()));
            assert(self.current_ok());
            assert(self.blocks_ok(*scratch));
        }
        Ok(())
    }

    fn queue_block_write<R: Input, W: Output>(
        &mut self,
        id: u64,
        disk: &mut DiskClient<R, W>,
    ) -> (r: Result<(), DbError>)
        requires
            old(self).groups_ok(),
            old(self).pending_ok(),
            old(self).on_disk(old(disk).scratch()),
            old(self).current_block@ == packed(old(self).block_size(), old(self).current@),
            joined(old(self).current@).len() + 2 <= old(self).block_size(),
            0 < old(self).current@.len() <= MAX_BLOCK_ROWS,
            forall|i: int, j: int|
                0 <= i < j < old(self).block_ids@.len() ==> old(self).block_ids@[i] != old(
                    self).block_ids@[j],
            forall|i: int| 0 <= i < old(self).block_ids@.len() ==> old(self).block_ids@[i] != id,
        ensures
            disk_only(*old(disk), *final(disk), ids_set(old(self).block_ids@.push(id))),
            final(self).reserved_blocks == old(self).reserved_blocks,
            final(self).block_ids@ == old(self).block_ids@ || final(self).block_ids@ == old(
                self).block_ids@.push(id),
            final(self).current_block@ == old(self).current_block@,
            r is Ok ==> {
                &&& final(self).block_ids@ == old(self).block_ids@.push(id)
                &&& final(self).groups@ == old(self).groups@.push(old(self).current@)
                &&& final(self).current == old(self).current
                &&& final(self).groups_ok()
                &&& final(self).pending_ok()
                &&& final(self).on_disk(final(disk).scratch())
                &&& ({
                    let (out, q) = queued(old(self).queue(), id, old(self).current_block@);
                    final(self).queue() == q && sent(*old(disk), out, *final(disk))
                })
            },
            old(disk).obliging() ==> final(disk).obliging(),
            serves(*old(disk), old(self).block_size()) ==> r is Ok && serves(
                *final(disk),
                old(self).block_size(),
            ),
            r is Err ==> !final(disk).honest() || final(disk).layout().block_size != old(
                self).block_size(),
            !(r matches Err(DbError::BudgetExceeded | DbError::RowTooLarge)),
    {
        proof {
            lemma_ids_push(self.block_ids@, id);
        }
        let ghost q0 = self.queue();
        let ghost start_disk = *disk;
        let follows: bool = match self.pending_start_block {
            Some(start) => {
                let count: u64 = self.pending_block_count as u64;
                self.pending_block_count < SCRATCH_WRITE_BATCH_BLOCKS && start <= u64::MAX - count
                    && id == start + count
            },
            None => true,
        };
        if !follows {
            self.flush_pending_blocks(disk)?;
        }
        let ghost before = *self;
        let ghost disk_before = *disk;
        if self.pending_block_count == 0 {
            self.pending_start_block = Some(id);
        }
        push_bytes(&mut self.pending_bytes, self.current_block.as_slice());
        self.pending_block_count = self.pending_block_count + 1;
        self.block_ids.push(id);
        proof {
            let count = before.pending_block_count as int;
            let size = self.block_size();
            let first = before.flushed();
            self.groups@ = self.groups@.push(self.current@);
            lemma_chunk_append(before.pending_bytes@, self.current_block@, size, count);
            assert(self.flushed() == first);
            assert(self.pending_start_block == Some(self.block_ids@[first]));
            assert(self.pending_bytes@.len() == size * self.pending_block_count);
            assert forall|k: int| first <= k < self.block_ids@.len() implies #[trigger] self.block_ids@[k]
                == self.block_ids@[first] + (k - first) by {
                if k < before.block_ids@.len() {
                    assert(before.block_ids@[k] == self.block_ids@[k]);
                    assert(before.block_ids@[first] == self.block_ids@[first]);
                }
            }
            assert forall|j: int| 0 <= j < self.pending_block_count implies #[trigger] disk_client::chunk(
                self.pending_bytes@,
                size,
                j,
            ) == packed(size, self.groups@[first + j]) by {
                if j < count {
                    assert(disk_client::chunk(before.pending_bytes@, size, j) == packed(
                        size,
                        before.groups@[first + j],
                    ));
                }
            }
            assert forall|k: int| 0 <= k < self.groups@.len() implies {
                &&& joined(#[trigger] self.groups@[k]).len() + 2 <= self.block_size()
                &&& 0 < self.groups@[k].len() <= MAX_BLOCK_ROWS
            } by {
                if k < before.groups@.len() {
                    assert(self.groups@[k] == before.groups@[k]);
                }
            }
            assert forall|k: int| 0 <= k < self.flushed() implies disk.scratch()[
                #[trigger] self.block_ids@[k] as int] == packed(size, self.groups@[k]) by {
                assert(before.block_ids@[k] == self.block_ids@[k]);
            }
        }
        let ghost middle = *self;
        if self.pending_block_count >= SCRATCH_WRITE_BATCH_BLOCKS {
            self.flush_pending_blocks(disk)?;
        }
        Ok(())
    }

    fn flush_pending_blocks<R: Input, W: Output>(&mut self, disk: &mut DiskClient<R, W>) -> (r:
        Result<(), DbError>)
        requires
            old(self).groups_ok(),
            old(self).pending_ok(),
            old(self).on_disk(old(disk).scratch()),
            forall|i: int, j: int|
                0 <= i < j < old(self).block_ids@.len() ==> old(self).block_ids@[i] != old(
                    self).block_ids@[j],
        ensures
            disk_only(*old(disk), *final(disk), ids_set(old(self).block_ids@)),
            final(self).reserved_blocks == old(self).reserved_blocks,
            final(self).block_ids == old(self).block_ids,
            final(self).groups == old(self).groups,
            final(self).current == old(self).current,
            final(self).current_block == old(self).current_block,
            final(self).used == old(self).used,
            final(self).row_count == old(self).row_count,
            r is Ok ==> {
                &&& final(self).pending_block_count == 0
                &&& final(self).pending_ok()
                &&& final(self).on_disk(final(disk).scratch())
                &&& final(self).queue() == no_queue()
                &&& sent(*old(disk), put(old(self).queue()), *final(disk))
            },
            old(disk).obliging() ==> final(disk).obliging(),
            serves(*old(disk), old(self).block_size()) ==> r is Ok && serves(
                *final(disk),
                old(self).block_size(),
            ),
            r is Err ==> !final(disk).honest() || final(disk).layout().block_size != old(
                self).block_size(),
            !(r matches Err(DbError::BudgetExceeded | DbError::RowTooLarge)),
    {
        if self.pending_block_count == 0 {
            assert(self.pending_bytes@ =~= Seq::<u8>::empty()) by {
                assert(self.block_size() * 0 == 0);
            }
            return Ok(());
        }
        let start: u64 = match self.pending_start_block {
            Some(start) => start,
            None => {
                return Ok(());
            },
        };
        let ghost q = self.queue();
        let count: u64 = self.pending_block_count as u64;
        let ghost before = disk.scratch();
        let ghost first = self.flushed();
        let ghost size = self.block_size();
        proof {
            assert forall|b: int| start <= b < start + count implies #[trigger] ids_set(
                self.block_ids@,
            ).contains(b) by {
                let j = b - start;
                assert(disk_client::chunk(self.pending_bytes@, size, j) == packed(
                    size,
                    self.groups@[first + j],
                ));
                assert(self.block_ids@[first + j] == b);
            }
        }
        disk.write_blocks(start, count, self.pending_bytes.as_slice())?;
        proof {
            let command = disk_client::block_command("put block "@, start, count);
            assert(command.len() > 0);
            assert(put(q) == command + q.bytes);
            assert(old(disk).written() + old(disk).size_sent() + command + q.bytes =~= old(
                disk).written() + old(disk).size_sent() + put(q));
            let bs = disk.known_block_size()->0 as int;
            assert(bs == size) by (nonlinear_arith)
                requires
                    size * count == bs * count,
                    count > 0,
            ;
            assert forall|k: int| 0 <= k < self.block_ids@.len() implies disk.scratch()[
                #[trigger] self.block_ids@[k] as int] == packed(size, self.groups@[k]) by {
                let id = self.block_ids@[k] as int;
                if k < first {
                    if start <= id < start + count {
                        let j = id - start;
                        assert(disk_client::chunk(self.pending_bytes@, size, j) == packed(
                            size,
                            self.groups@[first + j],
                        ));
                        assert(self.block_ids@[first + j] == self.block_ids@[k]);
                    }
                } else {
                    let j = k - first;
                    assert(disk_client::chunk(self.pending_bytes@, size, j) == packed(
                        size,
                        self.groups@[first + j],
                    ));
                }
            }
        }
        self.pending_start_block = None;
        self.pending_block_count = 0;
        self.pending_bytes.clear();
        assert(size * 0 == 0);
        assert(self.queue() == no_queue()) by {
            assert(self.pending_bytes@ =~= Seq::<u8>::empty());
        }
        Ok(())
    }

    fn reserve_writer_block(&mut self, scratch: &mut ScratchSpace) -> (r: Option<u64>)
        requires
            old(self).blocks_ok(*old(scratch)),
            old(scratch).wf(),
        ensures
            final(scratch).wf(),
            final(scratch).first() == old(scratch).first(),
            final(scratch).gave_up() == old(scratch).gave_up(),
            final(scratch).size() == old(scratch).size(),
            forall|b: int| old(scratch).allocated(b) ==> #[trigger] final(scratch).allocated(b),
            final(self).block_ids == old(self).block_ids,
            final(self).groups == old(self).groups,
            final(self).current == old(self).current,
            final(self).current_block == old(self).current_block,
            final(self).used == old(self).used,
            final(self).row_count == old(self).row_count,
            final(self).pending_bytes == old(self).pending_bytes,
            final(self).pending_block_count == old(self).pending_block_count,
            final(self).pending_start_block == old(self).pending_start_block,
            grown(old(self).own(), *old(scratch), final(self).own()),
            r matches Some(id) ==> {
                let ids = old(self).block_ids@.push(id) + final(self).reserved_blocks@;
                &&& forall|i: int, j: int| 0 <= i < j < ids.len() ==> ids[i] != ids[j]
                &&& forall|i: int|
                    0 <= i < ids.len() ==> final(scratch).allocated(#[trigger] ids[i] as int)
                &&& grown(old(self).own(), *old(scratch), ids_set(ids))
                &&& tidy(old(self).own(), *old(scratch), ids_set(ids), *final(scratch))
                &&& took(old(self).held(), *old(scratch), id, final(self).held(), *final(scratch))
            },
            r is None <==> !has_block(old(self).held(), *old(scratch)),
            r is None <==> old(self).reserved_blocks@.len() == 0 && old(scratch).free() == Set::<
                u64,
            >::empty() && old(scratch).next() + SCRATCH_WRITER_ALLOCATION_CHUNK_BLOCKS > u64::MAX,
            r is None ==> final(scratch).next() == old(scratch).next(),
    {
        let ghost ids = self.block_ids@ + self.reserved_blocks@;
        let ghost n = self.block_ids@.len() as int;
        if self.reserved_blocks.len() == 0 {
            let mut blocks = scratch.reserve_contiguous_blocks(
                SCRATCH_WRITER_ALLOCATION_CHUNK_BLOCKS,
            );
            let ghost fresh = blocks@;
            proof {
                assert forall|i: int, j: int| 0 <= i < j < fresh.len() implies fresh[i]
                    != fresh[j] by {}
                assert forall|i: int| 0 <= i < fresh.len() implies {
                    &&& !old(scratch).allocated(#[trigger] fresh[i] as int)
                    &&& scratch.allocated(fresh[i] as int)
                } by {}
            }
            let reversed = reverse_blocks(&blocks);
            self.reserved_blocks = reversed;
            proof {
                assert(self.reserved_blocks@.reverse() =~= fresh);
                let all = self.block_ids@ + self.reserved_blocks@;
                assert(ids =~= self.block_ids@);
                assert forall|i: int| 0 <= i < all.len() implies scratch.allocated(
                    #[trigger] all[i] as int,
                ) by {
                    if i < n {
                        assert(ids[i] == all[i]);
                    } else {
                        assert(all[i] == fresh[fresh.len() - 1 - (i - n)]);
                    }
                }
                assert forall|i: int, j: int| 0 <= i < j < all.len() implies all[i] != all[j] by {
                    if j < n {
                        assert(ids[i] != ids[j]);
                    } else if i < n {
                        assert(all[j] == fresh[fresh.len() - 1 - (j - n)]);
                        assert(old(scratch).allocated(ids[i] as int));
                    }
                }
                assert forall|b: int| #[trigger] self.own().contains(b) implies old(
                    self).own().contains(b) || !old(scratch).allocated(b) by {
                    let k = choose|k: int| 0 <= k < all.len() && #[trigger] all[k] == b;
                    if k < n {
                        assert(ids[k] == b);
                    } else {
                        assert(all[k] == fresh[fresh.len() - 1 - (k - n)]);
                    }
                }
                assert forall|b: int| #[trigger] scratch.allocated(b) implies old(
                    scratch).allocated(b) || self.own().contains(b) by {
                    if !old(scratch).allocated(b) {
                        let i = choose|i: int| 0 <= i < fresh.len() && #[trigger] fresh[i] == b;
                        assert(all[n + fresh.len() - 1 - i] == fresh[i]);
                    }
                }
                assert forall|b: int| #[trigger] old(self).own().contains(b) implies self.own().contains(
                    b,
                ) by {
                    let k = choose|k: int| 0 <= k < ids.len() && #[trigger] ids[k] == b;
                    assert(all[k] == b);
                }
            }
        }
        let ghost all = self.block_ids@ + self.reserved_blocks@;
        let ghost held = self.reserved_blocks@;
        let ghost own = self.own();
        let id = self.reserved_blocks.pop();
        proof {
            assert(held.len() > 0 ==> held.reverse().skip(1) =~= self.held());
            assert(held.len() > 0 ==> held.reverse() =~= seq![held.last()] + self.held());
            let rest = self.block_ids@ + self.reserved_blocks@;
            assert forall|b: int| #[trigger] self.own().contains(b) implies own.contains(b) by {
                let k = choose|k: int| 0 <= k < rest.len() && #[trigger] rest[k] == b;
                assert(all[k] == b);
            }
            if let Some(x) = id {
                let out = self.block_ids@.push(x) + self.reserved_blocks@;
                assert(all[all.len() - 1] == x);
                assert forall|i: int| 0 <= i < out.len() implies {
                    &&& scratch.allocated(#[trigger] out[i] as int)
                    &&& own.contains(out[i] as int)
                } by {
                    if i < n {
                        assert(out[i] == all[i]);
                    } else if i == n {
                        assert(out[i] == all[all.len() - 1]);
                    } else {
                        assert(out[i] == all[i - 1]);
                    }
                }
                assert forall|i: int, j: int| 0 <= i < j < out.len() implies out[i] != out[j] by {
                    let a = if i < n {
                        i
                    } else if i == n {
                        all.len() - 1
                    } else {
                        i - 1
                    };
                    let b = if j < n {
                        j
                    } else if j == n {
                        all.len() - 1
                    } else {
                        j - 1
                    };
                    assert(out[i] == all[a] && out[j] == all[b]);
                    assert(a != b);
                    if a < b {
                        assert(all[a] != all[b]);
                    } else {
                        assert(all[b] != all[a]);
                    }
                }
                assert forall|b: int| #[trigger] ids_set(out).contains(b) implies old(
                    self).own().contains(b) || !old(scratch).allocated(b) by {
                    let k = choose|k: int| 0 <= k < out.len() && #[trigger] out[k] == b;
                    assert(own.contains(out[k] as int));
                }
                assert forall|b: int| #[trigger] scratch.allocated(b) implies (old(
                    scratch).allocated(b) && !old(self).own().contains(b)) || ids_set(
                    out,
                ).contains(b) by {
                    if own.contains(b) {
                        let k = choose|k: int| 0 <= k < all.len() && #[trigger] all[k] == b;
                        let m: int = if k < n {
                            k
                        } else if k == all.len() - 1 {
                            n
                        } else {
                            k + 1
                        };
                        assert(out[m] == all[k]);
                    }
                }
            }
        }
        id
    }
}

/// One more block.
pub proof fn lemma_ids_push(ids: Seq<u64>, id: u64)
    ensures
        forall|b: int|
            #[trigger] ids_set(ids.push(id)).contains(b) <==> ids_set(ids).contains(b) || b == id,
{
    let more = ids.push(id);
    assert forall|b: int| #[trigger] ids_set(more).contains(b) <==> ids_set(ids).contains(b) || b
        == id by {
        if ids_set(ids).contains(b) {
            let k = choose|k: int| 0 <= k < ids.len() && #[trigger] ids[k] == b;
            assert(more[k] == b);
        }
        if b == id {
            assert(more[ids.len() as int] == b);
        }
        if ids_set(more).contains(b) {
            let k = choose|k: int| 0 <= k < more.len() && #[trigger] more[k] == b;
            if k < ids.len() {
                assert(ids[k] == b);
            }
        }
    }
}

/// Of two states of a device: only blocks of the set were written.
pub open spec fn disk_only<R: Input, W: Output>(
    disk: DiskClient<R, W>,
    disk_after: DiskClient<R, W>,
    own: Set<int>,
) -> bool {
    &&& disk_after.layout() == disk.layout()
    &&& disk_after.honest() ==> disk.honest()
    &&& disk.known_block_size() is Some ==> disk_after.known_block_size()
        == disk.known_block_size()
    &&& forall|b: int|
        !own.contains(b) ==> #[trigger] disk_after.scratch()[b] == disk.scratch()[b]
}

/// The blocks from the last to the first.
fn reverse_blocks(blocks: &Vec<u64>) -> (r: Vec<u64>)
    ensures
        r@.len() == blocks@.len(),
        forall|i: int| 0 <= i < r@.len() ==> #[trigger] r@[i] == blocks@[blocks@.len() - 1 - i],
{
    let mut out: Vec<u64> = Vec::with_capacity(blocks.len());
    let mut i: usize = blocks.len();
    while i > 0
        invariant
            i <= blocks@.len(),
            out@.len() == blocks@.len() - i,
            forall|k: int|
                0 <= k < out@.len() ==> #[trigger] out@[k] == blocks@[blocks@.len() - 1 - k],
        decreases i,
    {
        i = i - 1;
        out.push(blocks[i]);
    }
    out
}

/// Where rows go, one at a time.
pub trait RowOutput: Sized {
    /// The rows that were handed over.
    closed spec fn emitted(&self) -> Seq<Seq<DataValue>> {
        (arbitrary::<spec_fn(Self) -> Seq<Seq<DataValue>>>())(*self)
    }

    /// Every row is taken.
    open spec fn obliging(&self) -> bool {
        false
    }

    /// Hands over a row.
    fn emit(&mut self, row: Row) -> (r: Result<(), DbError>)
        ensures
            r is Ok ==> final(self).emitted() == old(self).emitted().push(row@),
            r is Ok ==> final(self).obliging() == old(self).obliging(),
            old(self).obliging() ==> r is Ok,
            r matches Err(e) ==> e != DbError::BudgetExceeded,
    ;
}

/// Rows that are kept in memory.
#[derive(Debug)]
pub struct RowCollector {
    rows: Vec<Row>,
}

impl RowCollector {
    /// No rows.
    pub fn new() -> (r: RowCollector)
        ensures
            r.emitted() == Seq::<Seq<DataValue>>::empty(),
    {
        let r = RowCollector { rows: Vec::new() };
        assert(row::row_views(r.rows@) =~= Seq::<Seq<DataValue>>::empty());
        r
    }

    /// The rows.
    pub fn rows(&self) -> (r: &Vec<Row>)
        ensures
            row::row_views(r@) == self.emitted(),
    {
        &self.rows
    }
}

impl RowOutput for RowCollector {
    closed spec fn emitted(&self) -> Seq<Seq<DataValue>> {
        row::row_views(self.rows@)
    }

    open spec fn obliging(&self) -> bool {
        true
    }

    fn emit(&mut self, row: Row) -> (r: Result<(), DbError>)
        ensures
            r is Ok,
    {
        let ghost before = self.rows@;
        self.rows.push(row);
        assert(row::row_views(self.rows@) =~= row::row_views(before).push(row@));
        Ok(())
    }
}

/// The number of blocks from `start_index` on, `max_blocks` at most, whose
/// numbers follow one another.
fn contiguous_batch_len(block_ids: &Vec<u64>, start_index: usize, max_blocks: usize) -> (r: usize)
    requires
        start_index < block_ids@.len(),
        max_blocks >= 1,
    ensures
        1 <= r <= max_blocks,
        start_index + r <= block_ids@.len(),
        forall|j: int|
            0 <= j < r ==> #[trigger] block_ids@[start_index + j] == block_ids@[start_index as int]
                + j,
        r < max_blocks && start_index + r < block_ids@.len() ==> block_ids@[start_index + r]
            != block_ids@[start_index as int] + r,
{
    let total: usize = block_ids.len();
    let mut len: usize = 1;
    while len < max_blocks && len < total - start_index && block_ids[start_index + len - 1]
        < u64::MAX && block_ids[start_index + len] == block_ids[start_index + len - 1] + 1
        invariant
            1 <= len <= max_blocks,
            total == block_ids@.len(),
            start_index + len <= total,
            forall|j: int|
                0 <= j < len ==> #[trigger] block_ids@[start_index + j]
                    == block_ids@[start_index as int] + j,
        decreases max_blocks - len,
    {
        assert(block_ids@[start_index + (len - 1)] == block_ids@[start_index as int] + (len - 1));
        len = len + 1;
    }
    assert(block_ids@[start_index + (len - 1)] == block_ids@[start_index as int] + (len - 1));
    len
}

/// The rows of two parts of a run, one behind the other.
pub proof fn lemma_run_rows_concat(
    contents: Map<int, Seq<u8>>,
    a: Seq<u64>,
    b: Seq<u64>,
    types: Seq<DataType>,
)
    ensures
        run_rows(contents, a + b, types) == match run_rows(contents, a, types) {
            Err(e) => Err(e),
            Ok(front) => match run_rows(contents, b, types) {
                Err(e) => Err(e),
                Ok(back) => Ok::<Seq<Seq<DataValue>>, DbError>(front + back),
            },
        },
    decreases b.len(),
{
    if b.len() == 0 {
        assert(a + b == a);
        match run_rows(contents, a, types) {
            Ok(front) => {
                assert(front + Seq::<Seq<DataValue>>::empty() == front);
            },
            Err(_) => {},
        }
    } else {
        lemma_run_rows_concat(contents, a, b.drop_last(), types);
        assert((a + b).drop_last() == a + b.drop_last());
        assert((a + b).last() == b.last());
        match run_rows(contents, a, types) {
            Ok(front) => {
                match run_rows(contents, b.drop_last(), types) {
                    Ok(middle) => {
                        match row_codec::block_rows(contents[b.last() as int], types) {
                            Ok(rows) => {
                                assert((front + middle) + rows == front + (middle + rows));
                            },
                            Err(_) => {},
                        }
                    },
                    Err(_) => {},
                }
            },
            Err(_) => {},
        }
    }
}

/// Every block of a run is in the scratch area of the device.
pub open spec fn above(ids: Seq<u64>, start: int) -> bool {
    forall|k: int| 0 <= k < ids.len() ==> start <= #[trigger] ids[k]
}

/// A position in a run that is being read.
pub struct ScratchRunCursor {
    ids: Vec<u64>,
    batch: usize,
    next_block: usize,
    buffer: VecDeque<Row>,
}

impl ScratchRunCursor {
    /// The blocks of the run.
    pub closed spec fn ids(self) -> Seq<u64> {
        self.ids@
    }

    /// What is held in memory has the types.
    pub closed spec fn wf(self, types: Seq<DataType>) -> bool {
        &&& row_codec::all_conform(row::row_views(self.buffer@), types)
        &&& self.batch >= 1
        &&& self.next_block <= self.ids@.len()
    }

    /// The rows that are still to come.
    pub closed spec fn rest(self, contents: Map<int, Seq<u8>>, types: Seq<DataType>) -> Result<
        Seq<Seq<DataValue>>,
        DbError,
    > {
        match run_rows(contents, self.ids@.skip(self.next_block as int), types) {
            Err(e) => Err(e),
            Ok(rows) => Ok(row::row_views(self.buffer@) + rows),
        }
    }

    /// A bound on the number of times that rows can be asked for.
    pub closed spec fn blocks_left(self) -> nat {
        (self.ids@.len() - self.next_block) as nat
    }

    /// The number of blocks that are read at once.
    pub closed spec fn batch(self) -> int {
        self.batch as int
    }

    /// The number of rows that are held in memory.
    pub closed spec fn held(self) -> nat {
        self.buffer@.len()
    }

    /// The rows that are still to come depend only on the blocks of the run.
    pub proof fn lemma_rest_same(
        self,
        a: Map<int, Seq<u8>>,
        b: Map<int, Seq<u8>>,
        types: Seq<DataType>,
    )
        requires
            self.wf(types),
            forall|k: int|
                0 <= k < self.ids().len() ==> a[#[trigger] self.ids()[k] as int]
                    == b[self.ids()[k] as int],
        ensures
            self.rest(a, types) == self.rest(b, types),
    {
        let tail = self.ids@.skip(self.next_block as int);
        assert forall|k: int| 0 <= k < tail.len() implies a[#[trigger] tail[k] as int]
            == b[tail[k] as int] by {
            assert(tail[k] == self.ids()[self.next_block + k]);
        }
        lemma_run_rows_same(a, b, tail, types);
    }

    /// The start of a run, of which up to `batch` blocks are read at once.
    pub fn with_batch(run: &ScratchRun, batch: usize) -> (r: ScratchRunCursor)
        requires
            batch >= 1,
        ensures
            r.ids() == run@,
            r.batch() == batch,
            forall|types: Seq<DataType>| #[trigger] r.wf(types),
            forall|contents: Map<int, Seq<u8>>, types: Seq<DataType>| #[trigger]
                r.rest(contents, types) == run_rows(contents, run@, types),
    {
        let source = run.block_ids();
        let mut ids: Vec<u64> = Vec::with_capacity(source.len());
        let mut i: usize = 0;
        while i < source.len()
            invariant
                i <= source@.len(),
                ids@ == source@.take(i as int),
            decreases source@.len() - i,
        {
            ids.push(source[i]);
            assert(source@.take(i + 1) == source@.take(i as int).push(source@[i as int]));
            i = i + 1;
        }
        assert(source@.take(i as int) == source@);
        let r = ScratchRunCursor { ids, batch, next_block: 0, buffer: VecDeque::new() };
        proof {
            assert(row::row_views(r.buffer@) =~= Seq::<Seq<DataValue>>::empty());
            assert(r.ids@.skip(0) =~= run@);
            assert forall|contents: Map<int, Seq<u8>>, types: Seq<DataType>| #[trigger]
                r.rest(contents, types) == run_rows(contents, run@, types) by {
                match run_rows(contents, run@, types) {
                    Ok(rows) => {
                        assert(Seq::<Seq<DataValue>>::empty() + rows =~= rows);
                    },
                    Err(_) => {},
                }
            }
        }
        r
    }

    /// The start of a run.
    pub fn new(run: &ScratchRun) -> (r: ScratchRunCursor)
        ensures
            r.ids() == run@,
            r.batch() == SCRATCH_CURSOR_BATCH_BLOCKS,
            forall|types: Seq<DataType>| #[trigger] r.wf(types),
            forall|contents: Map<int, Seq<u8>>, types: Seq<DataType>| #[trigger]
                r.rest(contents, types) == run_rows(contents, run@, types),
    {
        Self::with_batch(run, SCRATCH_CURSOR_BATCH_BLOCKS)
    }

    /// The next row, if there is one.
    pub fn next_row<R: Input, W: Output>(
        &mut self,
        schema: &Schema,
        disk: &mut DiskClient<R, W>,
    ) -> (r: Result<Option<Row>, DbError>)
        requires
            old(self).wf(schema.types()),
        ensures
            final(disk).unwritten_since(*old(disk)),
            final(self).ids() == old(self).ids(),
            final(self).batch() == old(self).batch(),
            r is Ok ==> final(self).wf(schema.types()),
            r matches Ok(None) ==> final(self).blocks_left() < old(self).blocks_left() || (final(
                self).blocks_left() == old(self).blocks_left() && final(self).held() == old(
                self).held()),
            r matches Ok(Some(row)) ==> {
                &&& data::conforms(row@, schema.types())
                &&& final(self).blocks_left() < old(self).blocks_left() || (final(
                    self).blocks_left() == old(self).blocks_left() && final(self).held() < old(
                    self).held())
                &&& final(disk).honest() && above(
                    old(self).ids(),
                    old(disk).layout().anon_start as int,
                ) ==> {
                    match final(self).rest(old(disk).scratch(), schema.types()) {
                        Ok(rows) => old(self).rest(old(disk).scratch(), schema.types()) == Ok::<
                            Seq<Seq<DataValue>>,
                            DbError,
                        >(seq![row@] + rows),
                        Err(e) => old(self).rest(old(disk).scratch(), schema.types()) == Err::<
                            Seq<Seq<DataValue>>,
                            DbError,
                        >(e),
                    }
                }
            },
            r matches Ok(None) ==> (final(disk).honest() && above(
                old(self).ids(),
                old(disk).layout().anon_start as int,
            ) ==> old(self).rest(old(disk).scratch(), schema.types()) == Ok::<
                Seq<Seq<DataValue>>,
                DbError,
            >(Seq::empty())),
            r matches Err(e) ==> (final(disk).honest() && above(
                old(self).ids(),
                old(disk).layout().anon_start as int,
            ) && old(disk).layout().block_size * old(self).batch() <= usize::MAX ==> old(self).rest(
                old(disk).scratch(),
                schema.types(),
            ) == Err::<Seq<Seq<DataValue>>, DbError>(e)),
            !(r matches Err(DbError::BudgetExceeded)),
    {
        let ghost types = schema.types();
        let ghost contents = disk.scratch();
        let ghost layout = disk.layout();
        let ghost start = *disk;
        loop
            invariant
                self.wf(types),
                types == schema.types(),
                contents == start.scratch(),
                layout == start.layout(),
                start == *old(disk),
                disk.unwritten_since(start),
                self.ids@ == old(self).ids@,
                self.batch == old(self).batch,
                self.blocks_left() <= old(self).blocks_left(),
                self.blocks_left() == old(self).blocks_left() ==> self.held() == old(self).held(),
                disk.honest() && above(self.ids@, layout.anon_start as int) ==> self.rest(
                    contents,
                    types,
                ) == old(self).rest(contents, types),
            decreases self.blocks_left(),
        {
            let ghost held = self.buffer@;
            if let Some(row) = self.buffer.pop_front() {
                proof {
                    let views = row::row_views(held);
                    assert(views =~= seq![row@] + row::row_views(self.buffer@));
                    assert(data::conforms(views[0], types));
                    assert(row_codec::all_conform(row::row_views(self.buffer@), types)) by {
                        assert forall|i: int|
                            0 <= i < row::row_views(self.buffer@).len() implies data::conforms(
                            #[trigger] row::row_views(self.buffer@)[i],
                            types,
                        ) by {
                            assert(views[i + 1] == row::row_views(self.buffer@)[i]);
                        }
                    }
                    match run_rows(contents, self.ids@.skip(self.next_block as int), types) {
                        Ok(rows) => {
                            assert(views + rows =~= seq![row@] + (row::row_views(self.buffer@)
                                + rows));
                        },
                        Err(_) => {},
                    }
                }
                return Ok(Some(row));
            }
            let ghost before = *self;
            if self.next_block >= self.ids.len() {
                proof {
                    assert(self.ids@.skip(self.next_block as int) =~= Seq::<u64>::empty());
                    assert(row::row_views(held) =~= Seq::<Seq<DataValue>>::empty());
                }
                return Ok(None);
            }
            let first: usize = self.next_block;
            let batch: usize = contiguous_batch_len(&self.ids, first, self.batch);
            let block_size: u64 = disk.get_block_size()?;
            proof {
                assert(layout.block_size * batch <= layout.block_size * self.batch)
                    by (nonlinear_arith)
                    requires
                        batch <= self.batch,
                        0 <= layout.block_size,
                ;
            }
            let blocks = disk.read_blocks(self.ids[first], batch as u64)?;
            let decoded = decode_blocks(&blocks, block_size, batch, schema);
            proof {
                let part = self.ids@.subrange(first as int, first + batch);
                let tail = self.ids@.skip(first + batch);
                assert(self.ids@.skip(first as int) =~= part + tail);
                if disk.honest() && above(self.ids@, layout.anon_start as int) {
                    let bs = disk.known_block_size()->0 as int;
                    assert forall|j: int| 0 <= j < batch implies #[trigger] contents[part[j] as int]
                        == disk_client::chunk(blocks@, bs, j) by {
                        assert(self.ids@[first + j] == self.ids@[first as int] + j);
                        assert(layout.anon_start <= self.ids@[first + j]);
                        assert(disk_client::chunk(blocks@, bs, j) == disk.content(
                            self.ids@[first as int] + j,
                        ));
                    }
                    lemma_blocks_are_run(contents, part, blocks@, bs, types, batch as int);
                    lemma_run_rows_concat(contents, part, tail, types);
                }
            }
            let rows = decoded?;
            self.next_block = first + batch;
            self.buffer = rows;
            proof {
                let part = self.ids@.subrange(first as int, first + batch);
                let tail = self.ids@.skip(first + batch);
                assert(row::row_views(before.buffer@) =~= Seq::<Seq<DataValue>>::empty());
                if disk.honest() && above(self.ids@, layout.anon_start as int) {
                    match run_rows(contents, tail, types) {
                        Ok(rest) => {
                            assert(Seq::<Seq<DataValue>>::empty() + (row::row_views(self.buffer@)
                                + rest) =~= row::row_views(self.buffer@) + rest);
                        },
                        Err(_) => {},
                    }
                }
            }
        }
    }
}

/// The rows of the first `n` blocks of a run of blocks.
pub open spec fn chunk_rows(bytes: Seq<u8>, block_size: int, types: Seq<DataType>, n: int) -> Result<
    Seq<Seq<DataValue>>,
    DbError,
>
    decreases n,
{
    if n <= 0 {
        Ok(Seq::empty())
    } else {
        match chunk_rows(bytes, block_size, types, n - 1) {
            Err(e) => Err(e),
            Ok(front) => match row_codec::block_rows(
                disk_client::chunk(bytes, block_size, n - 1),
                types,
            ) {
                Err(e) => Err(e),
                Ok(rows) => Ok(front + rows),
            },
        }
    }
}

/// Blocks that were read are those of the run.
proof fn lemma_blocks_are_run(
    contents: Map<int, Seq<u8>>,
    ids: Seq<u64>,
    bytes: Seq<u8>,
    block_size: int,
    types: Seq<DataType>,
    n: int,
)
    requires
        0 <= n <= ids.len(),
        forall|j: int|
            0 <= j < n ==> #[trigger] contents[ids[j] as int] == disk_client::chunk(
                bytes,
                block_size,
                j,
            ),
    ensures
        run_rows(contents, ids.take(n), types) == chunk_rows(bytes, block_size, types, n),
        n == ids.len() ==> run_rows(contents, ids, types) == chunk_rows(
            bytes,
            block_size,
            types,
            n,
        ),
    decreases n,
{
    if n > 0 {
        lemma_blocks_are_run(contents, ids, bytes, block_size, types, n - 1);
        assert(ids.take(n).drop_last() == ids.take(n - 1));
        assert(contents[ids[n - 1] as int] == disk_client::chunk(bytes, block_size, n - 1));
    }
    if n == ids.len() {
        assert(ids.take(n) == ids);
    }
}

/// The rows of `count` blocks.
fn decode_blocks(blocks: &Vec<u8>, block_size: u64, count: usize, schema: &Schema) -> (r: Result<
    VecDeque<Row>,
    DbError,
>)
    requires
        count > 0,
        blocks@.len() == block_size * count,
    ensures
        match r {
            Ok(rows) => {
                &&& chunk_rows(blocks@, block_size as int, schema.types(), count as int) == Ok::<
                    Seq<Seq<DataValue>>,
                    DbError,
                >(row::row_views(rows@))
                &&& row_codec::all_conform(row::row_views(rows@), schema.types())
            },
            Err(e) => chunk_rows(blocks@, block_size as int, schema.types(), count as int) == Err::<
                Seq<Seq<DataValue>>,
                DbError,
            >(e) && e != DbError::BudgetExceeded,
        },
{
    let ghost types = schema.types();
    let total: usize = blocks.len();
    proof {
        assert(block_size <= total) by (nonlinear_arith)
            requires
                total == block_size * count,
                count >= 1,
        ;
    }
    let size: usize = block_size as usize;
    let mut rows: VecDeque<Row> = VecDeque::new();
    let mut i: usize = 0;
    assert(row::row_views(rows@) =~= Seq::<Seq<DataValue>>::empty());
    while i < count
        invariant
            i <= count,
            types == schema.types(),
            size == block_size,
            size * count == total,
            total == blocks@.len(),
            chunk_rows(blocks@, size as int, types, i as int) == Ok::<
                Seq<Seq<DataValue>>,
                DbError,
            >(row::row_views(rows@)),
            row_codec::all_conform(row::row_views(rows@), types),
        decreases count - i,
    {
        proof {
            assert(i * size + size <= size * count && 0 <= i * size) by (nonlinear_arith)
                requires
                    0 <= i < count,
                    0 <= size,
            ;
            assert((i + 1) * size == i * size + size) by (nonlinear_arith);
        }
        let start: usize = i * size;
        let block = row_codec::part(blocks.as_slice(), start, start + size);
        assert(block@ == disk_client::chunk(blocks@, size as int, i as int));
        match row_codec::decode_rows_from_block(block, schema) {
            Ok(decoded) => {
                let ghost before = rows@;
                push_all(&mut rows, decoded);
                proof {
                    let a = row::row_views(before);
                    let b = row::row_views(rows@);
                    assert forall|k: int| 0 <= k < b.len() implies data::conforms(
                        #[trigger] b[k],
                        types,
                    ) by {
                        if k < a.len() {
                            assert(b[k] == a[k]);
                        } else {
                            assert(b[k] == row::row_views(decoded@)[k - a.len()]);
                        }
                    }
                }
            },
            Err(e) => {
                proof {
                    lemma_chunk_rows_err(blocks@, size as int, types, i + 1, count as int);
                    row_codec::lemma_block_rows_error(block@, types);
                }
                return Err(e);
            },
        }
        i = i + 1;
    }
    Ok(rows)
}

proof fn lemma_chunk_rows_err(
    bytes: Seq<u8>,
    block_size: int,
    types: Seq<DataType>,
    i: int,
    n: int,
)
    requires
        0 <= i <= n,
    ensures
        chunk_rows(bytes, block_size, types, i) matches Err(e) ==> chunk_rows(
            bytes,
            block_size,
            types,
            n,
        ) == Err::<Seq<Seq<DataValue>>, DbError>(e),
    decreases n - i,
{
    if i < n {
        lemma_chunk_rows_err(bytes, block_size, types, i, n - 1);
    }
}

/// Appends rows.
fn push_all(rows: &mut VecDeque<Row>, more: Vec<Row>)
    ensures
        row::row_views(final(rows)@) == row::row_views(old(rows)@) + row::row_views(more@),
{
    let ghost start = rows@;
    for row in it: more
        invariant
            it.seq() == more@,
            rows@ == start + more@.take(it.index() as int),
    {
        rows.push_back(row);
        assert(more@.take(it.index() + 1) == more@.take(it.index() as int).push(row));
    }
    assert(more@.take(more@.len() as int) == more@);
    assert(row::row_views(start + more@) =~= row::row_views(start) + row::row_views(more@));
}

/// Writes rows to a run.
pub fn write_rows_to_scratch<R: Input, W: Output>(
    rows: &Vec<Row>,
    disk: &mut DiskClient<R, W>,
    scratch: &mut ScratchSpace,
) -> (r: Result<ScratchRun, DbError>)
    requires
        old(scratch).wf(),
    ensures
        kept(*old(disk), *old(scratch), *final(disk), *final(scratch), Set::<int>::empty()),
        r matches Ok(run) ==> {
            &&& grown(Set::<int>::empty(), *old(scratch), ids_set(run@))
            &&& tidy(Set::<int>::empty(), *old(scratch), ids_set(run@), *final(scratch))
            &&& in_use(ids_set(run@), *final(scratch))
            &&& rows@.len() == 0 <==> run@.len() == 0
            &&& !oversized(row::row_views(rows@), old(scratch).size() as int)
            &&& run@.len() == blocks_of(
                encodings(row::row_views(rows@)),
                old(scratch).size() as int,
            ).len()
            &&& forall|k: int|
                0 <= k < run@.len() ==> final(disk).scratch()[#[trigger] run@[k] as int] == packed(
                    old(scratch).size() as int,
                    blocks_of(encodings(row::row_views(rows@)), old(scratch).size() as int)[k],
                )
            &&& forall|types: Seq<DataType>|
                row_codec::all_conform(row::row_views(rows@), types) ==> #[trigger] run_rows(
                    final(disk).scratch(),
                    run@,
                    types,
                ) == Ok::<Seq<Seq<DataValue>>, DbError>(row::row_views(rows@))
        },
        r matches Err(e) ==> !able(*final(disk), *final(scratch)) || (e == DbError::RowTooLarge
            && oversized(row::row_views(rows@), old(scratch).size() as int)),
        !(r matches Err(DbError::BudgetExceeded)),
{
    if rows.len() == 0 {
        let run = ScratchRun::empty();
        assert(row::row_views(rows@) =~= Seq::<Seq<DataValue>>::empty());
        assert(encodings(row::row_views(rows@)) =~= Seq::<Seq<u8>>::empty());
        return Ok(run);
    }
    let mut writer = ScratchRunWriter::new(disk, scratch, scratch.block_size());
    let ghost views = row::row_views(rows@);
    let mut i: usize = 0;
    assert(encodings(views).take(0) =~= Seq::<Seq<u8>>::empty());
    while i < rows.len()
        invariant
            i <= rows@.len(),
            views == row::row_views(rows@),
            scratch.wf(),
            writer.wf(*disk, *scratch),
            writer.items() == encodings(views).take(i as int),
            kept(*old(disk), *old(scratch), *disk, *scratch, Set::<int>::empty()),
            grown(Set::<int>::empty(), *old(scratch), writer.own()),
            tidy(Set::<int>::empty(), *old(scratch), writer.own(), *scratch),
            writer.block_size() == old(scratch).size(),
            forall|j: int|
                0 <= j < i ==> row::encoded_row(#[trigger] views[j]).len() + 2 <= old(
                    scratch).size(),
        decreases rows@.len() - i,
    {
        assert(views[i as int] == rows@[i as int]@);
        writer.push_row(&rows[i], disk, scratch)?;
        assert(encodings(views).take(i + 1) =~= encodings(views).take(i as int).push(
            row::encoded_row(views[i as int]),
        ));
        i = i + 1;
    }
    let run = writer.finish(disk, scratch)?;
    proof {
        assert(encodings(views).take(i as int) =~= encodings(views));
    }
    Ok(run)
}

/// Hands the rows of a run over, one at a time.
pub fn read_scratch_run<R: Input, W: Output, F: RowOutput>(
    run: &ScratchRun,
    schema: &Schema,
    disk: &mut DiskClient<R, W>,
    sink: &mut F,
) -> (r: Result<(), DbError>)
    ensures
        final(disk).unwritten_since(*old(disk)),
        r is Ok && final(disk).honest() && above(run@, old(disk).layout().anon_start as int) ==> (
        run_rows(old(disk).scratch(), run@, schema.types()) matches Ok(rows) && final(
            sink).emitted() == old(sink).emitted() + rows),
        r matches Err(e) ==> (final(disk).honest() && above(
            run@,
            old(disk).layout().anon_start as int,
        ) && old(disk).layout().block_size * SCRATCH_STREAM_BATCH_BLOCKS <= usize::MAX && old(
            sink).obliging() ==> run_rows(old(disk).scratch(), run@, schema.types()) == Err::<
            Seq<Seq<DataValue>>,
            DbError,
        >(e)),
{
    let mut cursor = ScratchRunCursor::with_batch(run, SCRATCH_STREAM_BATCH_BLOCKS);
    let ghost types = schema.types();
    let ghost contents = disk.scratch();
    let ghost anon = disk.layout().anon_start as int;
    let ghost start = *disk;
    proof {
        match run_rows(contents, run@, types) {
            Ok(rows) => {
                assert(sink.emitted() + rows == old(sink).emitted() + rows);
            },
            Err(_) => {},
        }
    }
    loop
        invariant
            cursor.wf(types),
            types == schema.types(),
            contents == start.scratch(),
            start == *old(disk),
            anon == start.layout().anon_start,
            cursor.ids() == run@,
            cursor.batch() == SCRATCH_STREAM_BATCH_BLOCKS,
            sink.obliging() == old(sink).obliging(),
            disk.unwritten_since(start),
            disk.honest() && above(run@, anon) ==> match (
                cursor.rest(contents, types),
                run_rows(contents, run@, types),
            ) {
                (Ok(rest), Ok(rows)) => sink.emitted() + rest == old(sink).emitted() + rows,
                (Err(a), Err(b)) => a == b,
                _ => false,
            },
        decreases cursor.blocks_left(), cursor.held(),
    {
        match cursor.next_row(schema, disk)? {
            Some(row) => {
                let ghost before = sink.emitted();
                sink.emit(row)?;
                proof {
                    if let Ok(rest) = cursor.rest(contents, types) {
                        assert(before + (seq![row@] + rest) =~= before.push(row@) + rest);
                    }
                }
            },
            None => {
                assert(sink.emitted() + Seq::<Seq<DataValue>>::empty() =~= sink.emitted());
                return Ok(());
            },
        }
    }
}

} // verus!
