//! Scratch space: which blocks of the scratch area are in use.

use std::collections::BTreeSet;

use vstd::prelude::*;

verus! {

broadcast use {vstd::std_specs::btree::group_btree_axioms, vstd::laws_cmp::group_laws_cmp};

/// The blocks of the scratch area: those from `next_block` on were never
/// handed out, and those in `free_blocks` were given back.
pub struct ScratchSpace {
    block_size: usize,
    next_block: u64,
    free_blocks: BTreeSet<u64>,
    first_block: Ghost<int>,
    abandoned: Ghost<bool>,
}

/// The number of a block in the set.
pub open spec fn is_in(set: Set<u64>, b: int) -> bool {
    0 <= b <= u64::MAX && set.contains(b as u64)
}

/// `count` blocks from `start` on are all in the set.
pub open spec fn consecutive(set: Set<u64>, start: int, count: int) -> bool {
    forall|b: int| start <= b < start + count ==> #[trigger] is_in(set, b)
}

/// The block numbers from `start` on.
pub open spec fn block_range(start: int, count: int) -> Seq<u64> {
    Seq::new(count as nat, |i: int| (start + i) as u64)
}

/// Blocks before which no free block stands in their run.
spec fn run_start(set: Set<u64>, b: int) -> bool {
    &&& 0 <= b <= u64::MAX
    &&& set.contains(b as u64)
    &&& b == 0 || !set.contains((b - 1) as u64)
}

/// Free blocks lie in a run of free blocks that has a start.
proof fn lemma_run_start(set: Set<u64>, s: int) -> (r: int)
    requires
        0 <= s <= u64::MAX,
        set.contains(s as u64),
    ensures
        run_start(set, r),
        r <= s,
        consecutive(set, r, s - r + 1),
    decreases s,
{
    if s == 0 || !set.contains((s - 1) as u64) {
        assert(consecutive(set, s, 1));
        s
    } else {
        let r = lemma_run_start(set, s - 1);
        assert(consecutive(set, r, s - r + 1)) by {
            assert forall|b: int| r <= b < r + (s - r + 1) implies #[trigger] is_in(set, b) by {}
        }
        r
    }
}

/// The elements of a set, in some order.
fn elements(set: &BTreeSet<u64>) -> (r: Vec<u64>)
    ensures
        forall|b: u64| #[trigger] r@.contains(b) <==> set@.contains(b),
{
    let mut out: Vec<u64> = Vec::new();
    for b in it: set.iter()
        invariant
            out@.len() == it.index(),
            it.seq().unref().to_set() == set@,
            forall|k: int| 0 <= k < out@.len() ==> #[trigger] out@[k] == it.seq().unref()[k],
            it.seq().len() == it.seq().unref().len(),
        ensures
            out@ == it.seq().unref(),
            it.seq().unref().to_set() == set@,
    {
        out.push(*b);
    }
    assert forall|b: u64| #[trigger] out@.contains(b) <==> set@.contains(b) by {
        assert(out@.contains(b) <==> out@.to_set().contains(b));
    }
    out
}

/// The blocks that a space hands out where up to `max_blocks` are asked for, and
/// what is left of it: the longest run of blocks that were given back, and the
/// first of them where several are as long or long enough; blocks that were never
/// handed out where none were given back; none where block numbers have run out.
pub open spec fn hands_out(
    before: ScratchSpace,
    max_blocks: usize,
    blocks: Seq<u64>,
    after: ScratchSpace,
) -> bool {
    let max: int = if max_blocks == 0 {
        1
    } else {
        max_blocks as int
    };
    if before.free() == Set::<u64>::empty() {
        &&& after.free() == before.free()
        &&& if before.next() + max <= u64::MAX {
            &&& blocks == block_range(before.next(), max)
            &&& after.next() == before.next() + max
        } else {
            &&& blocks.len() == 0
            &&& after.next() == before.next()
        }
    } else {
        let n = blocks.len() as int;
        &&& 1 <= n <= max
        &&& blocks == block_range(blocks[0] as int, n)
        &&& consecutive(before.free(), blocks[0] as int, n)
        &&& forall|s: int| 0 <= s < blocks[0] ==> !#[trigger] consecutive(before.free(), s, n)
        &&& n < max ==> forall|s: int|
            s >= 0 ==> !#[trigger] consecutive(before.free(), s, n + 1)
        &&& after.next() == before.next()
        &&& after.free() == before.free().difference(blocks.to_set())
    }
}

impl ScratchSpace {
    /// The first block of the space.
    pub closed spec fn first(self) -> int {
        self.first_block@
    }

    /// The first block that was never handed out.
    pub closed spec fn next(self) -> int {
        self.next_block as int
    }

    /// The blocks that were given back.
    pub closed spec fn free(self) -> Set<u64> {
        self.free_blocks@
    }

    /// Work that had taken blocks was given up, and they may never be given back.
    pub closed spec fn gave_up(self) -> bool {
        self.abandoned@
    }

    /// The size of a block.
    pub closed spec fn size(self) -> usize {
        self.block_size
    }

    /// Only blocks that were handed out were given back.
    pub open spec fn wf(self) -> bool {
        &&& 0 <= self.first() <= self.next() <= u64::MAX
        &&& forall|b: u64| #[trigger] self.free().contains(b) ==> self.first() <= b < self.next()
    }

    /// A block that is in use.
    pub open spec fn allocated(self, b: int) -> bool {
        self.first() <= b < self.next() && !self.free().contains(b as u64)
    }

    /// An empty space from `anon_start` on.
    pub fn new(block_size: u64, anon_start: u64) -> (r: ScratchSpace)
        ensures
            r.wf(),
            r.size() == if block_size > usize::MAX {
                usize::MAX as int
            } else {
                block_size as int
            },
            r.first() == anon_start,
            r.next() == anon_start,
            r.free() == Set::<u64>::empty(),
            !r.gave_up(),
    {
        let size: usize = if block_size > usize::MAX as u64 {
            usize::MAX
        } else {
            block_size as usize
        };
        ScratchSpace {
            block_size: size,
            next_block: anon_start,
            free_blocks: BTreeSet::new(),
            first_block: Ghost(anon_start as int),
            abandoned: Ghost(false),
        }
    }

    /// The size of a block.
    pub fn block_size(&self) -> (r: usize)
        ensures
            r == self.size(),
    {
        self.block_size
    }

    /// Hands out up to `max_blocks` blocks with consecutive numbers, and one at
    /// least. They come from the longest run of blocks that were given back,
    /// and from the first such run where several are as long or long enough;
    /// where none were given back, they were never handed out. The answer is
    /// empty only where block numbers have run out.
    pub fn reserve_contiguous_blocks(&mut self, max_blocks: usize) -> (r: Vec<u64>)
        ensures
            final(self).size() == old(self).size(),
            final(self).first() == old(self).first(),
            final(self).gave_up() == old(self).gave_up(),
            forall|i: int| 0 <= i < r@.len() ==> #[trigger] r@[i] == r@[0] + i,
            old(self).wf() ==> {
                &&& final(self).wf()
                &&& forall|i: int|
                    0 <= i < r@.len() ==> {
                        &&& !old(self).allocated(#[trigger] r@[i] as int)
                        &&& final(self).allocated(r@[i] as int)
                    }
                &&& forall|b: int| #[trigger]
                    final(self).allocated(b) <==> old(self).allocated(b) || exists|i: int|
                        0 <= i < r@.len() && #[trigger] r@[i] == b
            },
            hands_out(*old(self), max_blocks, r@, *final(self)),
    {
        let max: usize = if max_blocks == 0 {
            1
        } else {
            max_blocks
        };
        if let Some(blocks) = self.take_contiguous_free_blocks(max) {
            proof {
                assert forall|i: int| 0 <= i < blocks@.len() implies {
                    &&& old(self).free().contains(#[trigger] blocks@[i])
                    &&& !self.free().contains(blocks@[i])
                } by {
                    assert(is_in(old(self).free(), blocks@[0] + i));
                    assert(blocks@.to_set().contains(blocks@[i]));
                }
                if old(self).wf() {
                    assert forall|b: int| #[trigger] self.allocated(b) implies old(self).allocated(
                        b,
                    ) || exists|i: int| 0 <= i < blocks@.len() && #[trigger] blocks@[i] == b by {
                        if !old(self).allocated(b) {
                            assert(blocks@.to_set().contains(b as u64));
                            let i = choose|i: int|
                                0 <= i < blocks@.len() && blocks@[i] == b as u64;
                            assert(blocks@[i] == b);
                        }
                    }
                }
            }
            return blocks;
        }
        let start: u64 = self.next_block;
        if max as u64 > u64::MAX - start {
            return Vec::new();
        }
        self.next_block = start + max as u64;
        let blocks = range_blocks(start, max);
        proof {
            assert(old(self).free() =~= Set::<u64>::empty());
            if old(self).wf() {
                assert forall|b: int| #[trigger] self.allocated(b) implies old(self).allocated(b)
                    || exists|i: int| 0 <= i < blocks@.len() && #[trigger] blocks@[i] == b by {
                    if b >= start {
                        assert(blocks@[b - start] == b);
                    }
                }
            }
        }
        blocks
    }

    /// Notes that work was given up, and whether it may have held blocks.
    pub(crate) fn give_up(&mut self, held: Ghost<bool>)
        ensures
            final(self).size() == old(self).size(),
            final(self).first() == old(self).first(),
            final(self).next() == old(self).next(),
            final(self).free() == old(self).free(),
            final(self).gave_up() == (old(self).gave_up() || held@),
            !held@ ==> *final(self) == *old(self),
    {
        proof {
            self.abandoned@ = self.abandoned@ || held@;
        }
    }

    /// Takes the blocks of a run back.
    pub fn release_run(&mut self, run: ScratchRun)
        ensures
            final(self).size() == old(self).size(),
            final(self).first() == old(self).first(),
            final(self).gave_up() == old(self).gave_up(),
            final(self).next() == old(self).next(),
            final(self).free() == old(self).free().union(run@.to_set()),
    {
        self.release_blocks(run.block_ids);
    }

    /// Takes blocks back.
    pub fn release_blocks(&mut self, blocks: Vec<u64>)
        ensures
            final(self).size() == old(self).size(),
            final(self).first() == old(self).first(),
            final(self).gave_up() == old(self).gave_up(),
            final(self).next() == old(self).next(),
            final(self).free() == old(self).free().union(blocks@.to_set()),
    {
        let mut i: usize = 0;
        assert(old(self).free() =~= old(self).free().union(blocks@.take(0).to_set()));
        while i < blocks.len()
            invariant
                i <= blocks@.len(),
                self.size() == old(self).size(),
                self.first() == old(self).first(),
                self.gave_up() == old(self).gave_up(),
                self.next() == old(self).next(),
                self.free() == old(self).free().union(blocks@.take(i as int).to_set()),
            decreases blocks@.len() - i,
        {
            let ghost before = self.free();
            self.free_blocks.insert(blocks[i]);
            proof {
                let a = blocks@.take(i as int);
                let b = blocks@.take(i + 1);
                assert(b == a.push(blocks@[i as int]));
                assert forall|x: u64| #[trigger] b.contains(x) <==> a.contains(x) || x
                    == blocks@[i as int] by {
                    if a.contains(x) {
                        let k = choose|k: int| 0 <= k < a.len() && a[k] == x;
                        assert(b[k] == x);
                    }
                    if x == blocks@[i as int] {
                        assert(b[i as int] == x);
                    }
                }
                assert(self.free() =~= old(self).free().union(b.to_set()));
            }
            i = i + 1;
        }
        assert(blocks@.take(i as int) == blocks@);
    }

    fn take_contiguous_free_blocks(&mut self, max_blocks: usize) -> (r: Option<Vec<u64>>)
        requires
            max_blocks >= 1,
        ensures
            final(self).size() == old(self).size(),
            final(self).first() == old(self).first(),
            final(self).gave_up() == old(self).gave_up(),
            final(self).next() == old(self).next(),
            match r {
                None => {
                    &&& old(self).free() =~= Set::<u64>::empty()
                    &&& final(self).free() == old(self).free()
                },
                Some(blocks) => {
                    let n = blocks@.len() as int;
                    &&& old(self).free() != Set::<u64>::empty()
                    &&& 1 <= n <= max_blocks
                    &&& blocks@ == block_range(blocks@[0] as int, n)
                    &&& blocks@[0] + n <= u64::MAX + 1
                    &&& consecutive(old(self).free(), blocks@[0] as int, n)
                    &&& forall|s: int| 0 <= s < blocks@[0] ==> !#[trigger] consecutive(
                        old(self).free(),
                        s,
                        n,
                    )
                    &&& n < max_blocks ==> forall|s: int|
                        s >= 0 ==> !#[trigger] consecutive(old(self).free(), s, n + 1)
                    &&& final(self).free() == old(self).free().difference(blocks@.to_set())
                },
            },
    {
        let all = elements(&self.free_blocks);
        let ghost set = self.free_blocks@;
        if all.len() == 0 {
            assert(self.free() =~= Set::<u64>::empty()) by {
                assert forall|b: u64| !self.free().contains(b) by {
                    assert(!all@.contains(b));
                }
            }
            return None;
        }
        let mut best_start: u64 = 0;
        let mut best_len: usize = 0;
        let mut i: usize = 0;
        while i < all.len()
            invariant
                i <= all@.len(),
                *self == *old(self),
                set == self.free_blocks@,
                max_blocks >= 1,
                forall|b: u64| #[trigger] all@.contains(b) <==> set.contains(b),
                best_len <= max_blocks,
                best_len > 0 ==> consecutive(set, best_start as int, best_len as int),
                forall|k: int|
                    #![trigger all@[k]]
                    0 <= k < i && run_start(set, all@[k] as int) ==> {
                        &&& best_len > 0
                        &&& best_len < max_blocks ==> !consecutive(
                            set,
                            all@[k] as int,
                            best_len + 1,
                        )
                        &&& all@[k] < best_start ==> !consecutive(
                            set,
                            all@[k] as int,
                            best_len as int,
                        )
                    },
            decreases all@.len() - i,
        {
            let block: u64 = all[i];
            assert(all@.contains(all@[i as int]));
            if block == 0 || !self.free_blocks.contains(&(block - 1)) {
                let len: usize = self.run_length(block, max_blocks);
                proof {
                    lemma_consecutive_shorter(set);
                }
                if len > best_len || (len == best_len && block < best_start) {
                    best_start = block;
                    best_len = len;
                }
            }
            i = i + 1;
        }
        proof {
            let b = all@[0];
            assert(all@.contains(b));
            let r = lemma_run_start(set, b as int);
            assert(all@.contains(r as u64));
            let k = choose|k: int| 0 <= k < all@.len() && all@[k] == r as u64;
            assert(run_start(set, all@[k] as int));
            assert(best_len > 0);
            assert forall|s: int| 0 <= s < best_start implies !#[trigger] consecutive(
                set,
                s,
                best_len as int,
            ) by {
                if consecutive(set, s, best_len as int) {
                    assert(is_in(set, s));
                    let r = lemma_run_start(set, s);
                    assert(all@.contains(r as u64));
                    let k = choose|k: int| 0 <= k < all@.len() && all@[k] == r as u64;
                    lemma_consecutive_joined(set, r, s, best_len as int);
                    assert(run_start(set, all@[k] as int));
                }
            }
            if best_len < max_blocks {
                assert forall|s: int| s >= 0 implies !#[trigger] consecutive(
                    set,
                    s,
                    best_len + 1,
                ) by {
                    if consecutive(set, s, best_len + 1) {
                        assert(is_in(set, s));
                        let r = lemma_run_start(set, s);
                        assert(all@.contains(r as u64));
                        let k = choose|k: int| 0 <= k < all@.len() && all@[k] == r as u64;
                        lemma_consecutive_joined(set, r, s, best_len + 1);
                        assert(run_start(set, all@[k] as int));
                    }
                }
            }
            assert(is_in(set, best_start + best_len - 1));
        }
        let blocks = range_blocks(best_start, best_len);
        let mut j: usize = 0;
        assert(self.free() =~= set.difference(blocks@.take(0).to_set()));
        while j < blocks.len()
            invariant
                j <= blocks@.len(),
                self.size() == old(self).size(),
                self.first() == old(self).first(),
                self.gave_up() == old(self).gave_up(),
                self.next() == old(self).next(),
                self.free() == set.difference(blocks@.take(j as int).to_set()),
            decreases blocks@.len() - j,
        {
            self.free_blocks.remove(&blocks[j]);
            proof {
                let a = blocks@.take(j as int);
                let b = blocks@.take(j + 1);
                assert(b == a.push(blocks@[j as int]));
                assert forall|x: u64| #[trigger] b.contains(x) <==> a.contains(x) || x
                    == blocks@[j as int] by {
                    if a.contains(x) {
                        let k = choose|k: int| 0 <= k < a.len() && a[k] == x;
                        assert(b[k] == x);
                    }
                    if x == blocks@[j as int] {
                        assert(b[j as int] == x);
                    }
                }
                assert(self.free() =~= set.difference(b.to_set()));
            }
            j = j + 1;
        }
        assert(blocks@.take(j as int) == blocks@);
        Some(blocks)
    }

    /// The number of consecutive free blocks from `start` on, but no more than
    /// `max_blocks`.
    fn run_length(&self, start: u64, max_blocks: usize) -> (r: usize)
        requires
            self.free_blocks@.contains(start),
            max_blocks >= 1,
        ensures
            1 <= r <= max_blocks,
            consecutive(self.free_blocks@, start as int, r as int),
            r < max_blocks ==> !consecutive(self.free_blocks@, start as int, r + 1),
    {
        let mut len: usize = 1;
        while len < max_blocks && len as u64 <= u64::MAX - start && self.free_blocks.contains(
            &(start + len as u64),
        )
            invariant
                1 <= len <= max_blocks,
                self.free_blocks@.contains(start),
                consecutive(self.free_blocks@, start as int, len as int),
            decreases max_blocks - len,
        {
            proof {
                assert(consecutive(self.free_blocks@, start as int, len + 1)) by {
                    assert forall|b: int| start <= b < start + (len + 1) implies #[trigger] is_in(
                        self.free_blocks@,
                        b,
                    ) by {}
                }
            }
            len = len + 1;
        }
        proof {
            if len < max_blocks && consecutive(self.free_blocks@, start as int, len + 1) {
                assert(is_in(self.free_blocks@, start + len));
            }
        }
        len
    }
}

/// A part of consecutive free blocks from their start is consecutive.
proof fn lemma_consecutive_shorter(set: Set<u64>)
    ensures
        forall|s: int, m: int, n: int|
            #![trigger consecutive(set, s, m), consecutive(set, s, n)]
            m <= n && consecutive(set, s, n) ==> consecutive(set, s, m),
{
    assert forall|s: int, m: int, n: int|
        #![trigger consecutive(set, s, m), consecutive(set, s, n)]
        m <= n && consecutive(set, s, n) implies consecutive(set, s, m) by {
        assert forall|b: int| s <= b < s + m implies #[trigger] is_in(set, b) by {}
    }
}

/// Free blocks up to `s` and from `s` on make a longer run.
proof fn lemma_consecutive_joined(set: Set<u64>, r: int, s: int, n: int)
    requires
        r <= s,
        consecutive(set, r, s - r + 1),
        consecutive(set, s, n),
    ensures
        consecutive(set, r, n),
{
    assert forall|b: int| r <= b < r + n implies #[trigger] is_in(set, b) by {}
}

/// The block numbers from `start` on.
fn range_blocks(start: u64, count: usize) -> (r: Vec<u64>)
    requires
        start + count <= u64::MAX + 1,
    ensures
        r@ == block_range(start as int, count as int),
{
    let mut out: Vec<u64> = Vec::with_capacity(count);
    let mut i: usize = 0;
    while i < count
        invariant
            i <= count,
            start + count <= u64::MAX + 1,
            out@ == block_range(start as int, i as int),
        decreases count - i,
    {
        out.push(start + i as u64);
        assert(out@ == block_range(start as int, i + 1));
        i = i + 1;
    }
    out
}

/// Rows in scratch blocks: the blocks that hold them, in their order.
#[derive(Debug)]
pub struct ScratchRun {
    block_ids: Vec<u64>,
}

impl View for ScratchRun {
    type V = Seq<u64>;

    closed spec fn view(&self) -> Seq<u64> {
        self.block_ids@
    }
}

impl ScratchRun {
    /// The run in these blocks.
    pub fn new(block_ids: Vec<u64>) -> (r: ScratchRun)
        ensures
            r@ == block_ids@,
    {
        ScratchRun { block_ids }
    }

    /// A run without blocks.
    pub fn empty() -> (r: ScratchRun)
        ensures
            r@ == Seq::<u64>::empty(),
    {
        ScratchRun { block_ids: Vec::new() }
    }

    /// The blocks.
    pub fn block_ids(&self) -> (r: &Vec<u64>)
        ensures
            r@ == self@,
    {
        &self.block_ids
    }
}

} // verus!
