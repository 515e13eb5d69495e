//! What stays as it is on a device and in its scratch space while rows are on
//! their way.

use vstd::prelude::*;

use crate::io::{Input, Output};
use crate::storage::block_allocator::{ScratchRun, ScratchSpace};
use crate::storage::disk_client::DiskClient;
use crate::storage::scratch_run;

verus! {

/// The device has answered as its layout says, and the scratch space lies in
/// the device's scratch area.
pub open spec fn trusty<R: Input, W: Output>(disk: DiskClient<R, W>, scratch: ScratchSpace) -> bool {
    disk.honest() && disk.layout().anon_start <= scratch.first()
}

/// Nothing changed.
pub proof fn lemma_kept_refl<R: Input, W: Output>(
    disk: DiskClient<R, W>,
    scratch: ScratchSpace,
    own: Set<int>,
)
    requires
        scratch.wf(),
    ensures
        scratch_run::kept(disk, scratch, disk, scratch, own),
{
}

/// Reading changes nothing.
pub proof fn lemma_kept_read<R: Input, W: Output>(
    disk: DiskClient<R, W>,
    scratch: ScratchSpace,
    disk_after: DiskClient<R, W>,
    own: Set<int>,
)
    requires
        scratch.wf(),
        disk_after.unwritten_since(disk),
    ensures
        scratch_run::kept(disk, scratch, disk_after, scratch, own),
        trusty(disk_after, scratch) ==> trusty(disk, scratch),
{
}

/// One change behind another, the second on blocks that the first could touch
/// or that were not in use.
pub proof fn lemma_kept_trans<R: Input, W: Output>(
    d0: DiskClient<R, W>,
    s0: ScratchSpace,
    d1: DiskClient<R, W>,
    s1: ScratchSpace,
    d2: DiskClient<R, W>,
    s2: ScratchSpace,
    own: Set<int>,
    later: Set<int>,
)
    requires
        scratch_run::kept(d0, s0, d1, s1, own),
        scratch_run::kept(d1, s1, d2, s2, later),
        scratch_run::grown(own, s0, later),
    ensures
        scratch_run::kept(d0, s0, d2, s2, own),
        trusty(d2, s2) ==> trusty(d1, s1),
        trusty(d1, s1) ==> trusty(d0, s0),
{
    assert forall|b: int|
        #![trigger s0.allocated(b)]
        #![trigger s2.allocated(b)]
        s0.allocated(b) && !own.contains(b) implies {
        &&& s2.allocated(b)
        &&& d2.scratch()[b] == d0.scratch()[b]
    } by {
        assert(s1.allocated(b));
        assert(!later.contains(b));
    }
}

/// What a change could touch may be said more loosely.
pub proof fn lemma_kept_more<R: Input, W: Output>(
    d0: DiskClient<R, W>,
    s0: ScratchSpace,
    d1: DiskClient<R, W>,
    s1: ScratchSpace,
    own: Set<int>,
    more: Set<int>,
)
    requires
        scratch_run::kept(d0, s0, d1, s1, own),
        forall|b: int| #[trigger] own.contains(b) ==> more.contains(b) || !s0.allocated(b),
    ensures
        scratch_run::kept(d0, s0, d1, s1, more),
        trusty(d1, s1) ==> trusty(d0, s0),
{
}

/// A set of blocks that grew in two steps.
pub proof fn lemma_grown_trans<R: Input, W: Output>(
    d0: DiskClient<R, W>,
    s0: ScratchSpace,
    d1: DiskClient<R, W>,
    s1: ScratchSpace,
    own: Set<int>,
    middle: Set<int>,
    last: Set<int>,
)
    requires
        scratch_run::kept(d0, s0, d1, s1, own),
        scratch_run::grown(own, s0, middle),
        scratch_run::grown(middle, s1, last),
    ensures
        scratch_run::grown(own, s0, last),
{
    assert forall|b: int| #[trigger] last.contains(b) implies own.contains(b) || !s0.allocated(
        b,
    ) by {
        if !middle.contains(b) {
            assert(!s1.allocated(b));
        }
    }
}

/// Blocks in use stay so where others change.
pub proof fn lemma_in_use_kept<R: Input, W: Output>(
    d0: DiskClient<R, W>,
    s0: ScratchSpace,
    d1: DiskClient<R, W>,
    s1: ScratchSpace,
    own: Set<int>,
    mine: Set<int>,
)
    requires
        scratch_run::kept(d0, s0, d1, s1, own),
        scratch_run::in_use(mine, s0),
        mine.disjoint(own),
    ensures
        scratch_run::in_use(mine, s1),
        forall|b: int| #[trigger] mine.contains(b) ==> d1.scratch()[b] == d0.scratch()[b],
{
    assert forall|b: int| #[trigger] mine.contains(b) implies s1.allocated(b) && d1.scratch()[b]
        == d0.scratch()[b] by {
        assert(s0.allocated(b));
    }
}

/// New blocks are none of those that were in use.
pub proof fn lemma_new_disjoint(mine: Set<int>, scratch: ScratchSpace, fresh: Set<int>)
    requires
        scratch_run::in_use(mine, scratch),
        scratch_run::grown(Set::<int>::empty(), scratch, fresh),
    ensures
        mine.disjoint(fresh),
        fresh.disjoint(mine),
{
    assert forall|b: int| !(#[trigger] mine.contains(b) && fresh.contains(b)) by {
        if mine.contains(b) {
            assert(scratch.allocated(b));
        }
    }
}

/// Blocks in use that a set has not, what it has grown to has not.
pub proof fn lemma_grown_apart(
    own: Set<int>,
    scratch: ScratchSpace,
    grown: Set<int>,
    mine: Set<int>,
)
    requires
        scratch_run::grown(own, scratch, grown),
        scratch_run::in_use(mine, scratch),
        own.disjoint(mine) || mine.disjoint(own),
    ensures
        grown.disjoint(mine),
        mine.disjoint(grown),
{
    assert forall|b: int| !(#[trigger] mine.contains(b) && grown.contains(b)) by {
        if mine.contains(b) {
            assert(scratch.allocated(b));
        }
    }
}

/// The blocks of a run in use lie in the device's scratch area.
pub proof fn lemma_run_above<R: Input, W: Output>(
    disk: DiskClient<R, W>,
    scratch: ScratchSpace,
    ids: Seq<u64>,
)
    requires
        trusty(disk, scratch),
        scratch_run::in_use(scratch_run::ids_set(ids), scratch),
    ensures
        scratch_run::above(ids, disk.layout().anon_start as int),
{
    assert forall|k: int| 0 <= k < ids.len() implies disk.layout().anon_start
        <= #[trigger] ids[k] by {
        assert(scratch_run::ids_set(ids).contains(ids[k] as int));
    }
}

/// Gives the blocks of a run back.
pub fn release_run<R: Input, W: Output>(
    run: ScratchRun,
    disk: &DiskClient<R, W>,
    scratch: &mut ScratchSpace,
)
    requires
        old(scratch).wf(),
        scratch_run::in_use(scratch_run::ids_set(run@), *old(scratch)),
    ensures
        final(scratch).wf(),
        final(scratch).next() == old(scratch).next(),
        scratch_run::kept(
            *disk,
            *old(scratch),
            *disk,
            *final(scratch),
            scratch_run::ids_set(run@),
        ),
        forall|b: int| #[trigger]
            final(scratch).allocated(b) <==> old(scratch).allocated(b) && !scratch_run::ids_set(
                run@,
            ).contains(b),
{
    let ghost ids = run@;
    let ghost before = *scratch;
    scratch.release_run(run);
    proof {
        assert forall|b: int| #[trigger] scratch.allocated(b) <==> before.allocated(b)
            && !scratch_run::ids_set(ids).contains(b) by {
            if before.allocated(b) && ids.to_set().contains(b as u64) {
                let k = choose|k: int| 0 <= k < ids.len() && ids[k] == b as u64;
                assert(ids[k] == b);
            }
            if before.allocated(b) && scratch_run::ids_set(ids).contains(b) {
                let k = choose|k: int| 0 <= k < ids.len() && #[trigger] ids[k] == b;
                assert(ids.to_set().contains(ids[k]));
            }
        }
        assert forall|b: u64| #[trigger] scratch.free().contains(b) implies scratch.first() <= b
            < scratch.next() by {
            if ids.to_set().contains(b) {
                let k = choose|k: int| 0 <= k < ids.len() && ids[k] == b;
                assert(scratch_run::ids_set(ids).contains(b as int));
                assert(before.allocated(b as int));
            }
        }
    }
}

/// No two of the sets share a block.
pub open spec fn apart(slots: Seq<Set<int>>) -> bool {
    forall|i: int, j: int|
        0 <= i < slots.len() && 0 <= j < slots.len() && i != j ==> (
        #[trigger] slots[i]).disjoint(#[trigger] slots[j])
}

/// The blocks of all sets.
pub open spec fn union_all(slots: Seq<Set<int>>) -> Set<int> {
    Set::new(|b: int| exists|j: int| 0 <= j < slots.len() && (#[trigger] slots[j]).contains(b))
}

/// Every block of the sets is in use.
pub open spec fn all_in_use(slots: Seq<Set<int>>, scratch: ScratchSpace) -> bool {
    forall|j: int| 0 <= j < slots.len() ==> scratch_run::in_use(#[trigger] slots[j], scratch)
}

/// One of the sets grows by blocks that were not in use.
pub proof fn lemma_slot_grows<R: Input, W: Output>(
    slots: Seq<Set<int>>,
    j: int,
    fresh: Set<int>,
    d0: DiskClient<R, W>,
    s0: ScratchSpace,
    d1: DiskClient<R, W>,
    s1: ScratchSpace,
)
    requires
        0 <= j < slots.len(),
        apart(slots),
        all_in_use(slots, s0),
        scratch_run::grown(slots[j], s0, fresh),
        scratch_run::in_use(fresh, s1),
        scratch_run::kept(d0, s0, d1, s1, slots[j]),
    ensures
        apart(slots.update(j, fresh)),
        all_in_use(slots.update(j, fresh), s1),
        scratch_run::grown(union_all(slots), s0, union_all(slots.update(j, fresh))),
        scratch_run::kept(d0, s0, d1, s1, union_all(slots)),
        scratch_run::in_use(union_all(slots.update(j, fresh)), s1),
        scratch_run::tidy(slots[j], s0, fresh, s1) ==> scratch_run::tidy(
            union_all(slots),
            s0,
            union_all(slots.update(j, fresh)),
            s1,
        ),
{
    let more = slots.update(j, fresh);
    assert forall|k: int| 0 <= k < slots.len() && k != j implies {
        &&& (#[trigger] slots[k]).disjoint(fresh)
        &&& scratch_run::in_use(slots[k], s1)
    } by {
        assert(slots[k].disjoint(slots[j]));
        assert forall|b: int| !(#[trigger] slots[k].contains(b) && fresh.contains(b)) by {
            if slots[k].contains(b) {
                assert(s0.allocated(b));
                assert(!slots[j].contains(b));
            }
        }
        lemma_in_use_kept(d0, s0, d1, s1, slots[j], slots[k]);
    }
    assert(apart(more)) by {
        assert forall|a: int, b: int|
            0 <= a < more.len() && 0 <= b < more.len() && a != b implies (
        #[trigger] more[a]).disjoint(#[trigger] more[b]) by {
            if a == j {
                assert(slots[b].disjoint(fresh));
                assert(fresh.disjoint(slots[b]));
            } else if b == j {
                assert(slots[a].disjoint(fresh));
            } else {
                assert(slots[a].disjoint(slots[b]));
            }
        }
    }
    assert forall|k: int| 0 <= k < more.len() implies scratch_run::in_use(
        #[trigger] more[k],
        s1,
    ) by {
        if k != j {
            assert(scratch_run::in_use(slots[k], s1));
        }
    }
    assert forall|b: int| #[trigger] union_all(more).contains(b) implies s1.allocated(b) && (
    union_all(slots).contains(b) || !s0.allocated(b)) by {
        let k = choose|k: int| 0 <= k < more.len() && (#[trigger] more[k]).contains(b);
        assert(scratch_run::in_use(more[k], s1));
        if k != j {
            assert(slots[k].contains(b));
        } else if slots[j].contains(b) {
            assert(slots[j].contains(b));
        }
    }
    lemma_kept_more(d0, s0, d1, s1, slots[j], union_all(slots));
    if scratch_run::tidy(slots[j], s0, fresh, s1) {
        assert forall|b: int| #[trigger] s1.allocated(b) implies (s0.allocated(b) && !union_all(
            slots,
        ).contains(b)) || union_all(more).contains(b) by {
            if fresh.contains(b) {
                assert(more[j].contains(b));
            } else if union_all(slots).contains(b) {
                let k = choose|k: int| 0 <= k < slots.len() && (#[trigger] slots[k]).contains(b);
                assert(more[k].contains(b));
            }
        }
    }
}

/// Sets of blocks that others leave alone stay in use.
pub proof fn lemma_all_in_use_kept<R: Input, W: Output>(
    slots: Seq<Set<int>>,
    d0: DiskClient<R, W>,
    s0: ScratchSpace,
    d1: DiskClient<R, W>,
    s1: ScratchSpace,
    own: Set<int>,
)
    requires
        all_in_use(slots, s0),
        scratch_run::kept(d0, s0, d1, s1, own),
        union_all(slots).disjoint(own),
    ensures
        all_in_use(slots, s1),
        forall|j: int| 0 <= j < slots.len() ==> (#[trigger] slots[j]).disjoint(own),
{
    assert forall|j: int| 0 <= j < slots.len() implies (#[trigger] slots[j]).disjoint(own)
        && scratch_run::in_use(slots[j], s1) by {
        assert forall|b: int| !(#[trigger] slots[j].contains(b) && own.contains(b)) by {
            if slots[j].contains(b) {
                assert(union_all(slots).contains(b));
            }
        }
        lemma_in_use_kept(d0, s0, d1, s1, own, slots[j]);
    }
}

/// All blocks of sets in use are in use.
pub proof fn lemma_union_in_use(slots: Seq<Set<int>>, scratch: ScratchSpace)
    requires
        all_in_use(slots, scratch),
    ensures
        scratch_run::in_use(union_all(slots), scratch),
{
    assert forall|b: int| #[trigger] union_all(slots).contains(b) implies scratch.allocated(b) by {
        let k = choose|k: int| 0 <= k < slots.len() && (#[trigger] slots[k]).contains(b);
        assert(scratch_run::in_use(slots[k], scratch));
    }
}

} // verus!
