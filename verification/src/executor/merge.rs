//! Merging sorted runs.

use vstd::prelude::*;

use crate::bag;
use crate::data;
use crate::data::DataType;
use crate::error::DbError;
use crate::executor;
use crate::executor::compact;
use crate::executor::compact::CompactSortState;
use crate::executor::feed;
use crate::executor::feed::push_further;
use crate::executor::frame;
use crate::executor::hash;
use crate::executor::partition;
use crate::executor::sink;
use crate::executor::sink::RowSink;
use crate::executor::sort_runs;
use crate::executor::sort_runs::SortedRuns;
use crate::executor::value::compare_rows;
use crate::executor::CompiledSortSpec;
use crate::io::{Input, Output};
use crate::number::Order;
use crate::row::{Row, Schema};
use crate::semantics;
use crate::semantics::{RowView, SortKey};
use crate::storage::block_allocator::ScratchSpace;
use crate::storage::disk_client::DiskClient;
use crate::storage::scratch_run;
use crate::storage::scratch_run::{RowOutput, ScratchRunCursor, SCRATCH_STREAM_BATCH_BLOCKS};

verus! {

broadcast use {
    sink::lemma_excuses_within,
};

/// Replacing one group by another.
proof fn lemma_flat_replace(groups: Seq<Seq<RowView>>, k: int, g: Seq<RowView>)
    requires
        0 <= k < groups.len(),
    ensures
        bag::bag(hash::flat(groups.update(k, g))).add(bag::bag(groups[k])) == bag::bag(
            hash::flat(groups),
        ).add(bag::bag(g)),
    decreases groups.len(),
{
    let more = groups.update(k, g);
    let front = hash::flat(groups.drop_last());
    let last = groups.last();
    bag::lemma_bag_concat(front, last);
    bag::lemma_bag_concat(hash::flat(more.drop_last()), more.last());
    if k == groups.len() - 1 {
        assert(more.drop_last() =~= groups.drop_last());
        assert(bag::bag(front).add(bag::bag(g)).add(bag::bag(last)) =~= bag::bag(front).add(
            bag::bag(last),
        ).add(bag::bag(g)));
    } else {
        lemma_flat_replace(groups.drop_last(), k, g);
        assert(more.drop_last() =~= groups.drop_last().update(k, g));
        let changed = bag::bag(hash::flat(more.drop_last()));
        assert(changed.add(bag::bag(last)).add(bag::bag(groups[k])) =~= changed.add(
            bag::bag(groups[k]),
        ).add(bag::bag(last)));
        assert(bag::bag(front).add(bag::bag(g)).add(bag::bag(last)) =~= bag::bag(front).add(
            bag::bag(last),
        ).add(bag::bag(g)));
    }
}

/// Every row of a group is among all.
proof fn lemma_flat_contains(groups: Seq<Seq<RowView>>, k: int, i: int)
    requires
        0 <= k < groups.len(),
        0 <= i < groups[k].len(),
    ensures
        hash::flat(groups).contains(groups[k][i]),
    decreases groups.len(),
{
    let front = hash::flat(groups.drop_last());
    let all = front + groups.last();
    if k == groups.len() - 1 {
        assert(all[front.len() + i] == groups[k][i]);
    } else {
        lemma_flat_contains(groups.drop_last(), k, i);
        let j = choose|j: int| 0 <= j < front.len() && front[j] == groups[k][i];
        assert(all[j] == groups[k][i]);
    }
}

/// What was emitted and what is still to come are the rows of the groups, and
/// in order as far as their values have one.
pub open spec fn merging(
    pending: Seq<Seq<RowView>>,
    out: Seq<RowView>,
    groups: Seq<Seq<RowView>>,
    keys: Seq<SortKey>,
) -> bool {
    &&& pending.len() == groups.len()
    &&& bag::bag(out).add(bag::bag(hash::flat(pending))) == bag::bag(hash::flat(groups))
    &&& semantics::comparable(hash::flat(groups), keys) ==> ordered_state(
        pending,
        out,
        hash::flat(groups),
        keys,
    )
}

/// What was emitted comes before what is still to come.
pub open spec fn ordered_state(
    pending: Seq<Seq<RowView>>,
    out: Seq<RowView>,
    all: Seq<RowView>,
    keys: Seq<SortKey>,
) -> bool {
    &&& forall|k: int| 0 <= k < pending.len() ==> semantics::sorted(#[trigger] pending[k], keys)
    &&& forall|k: int, i: int|
        0 <= k < pending.len() && 0 <= i < pending[k].len() ==> all.contains(
            #[trigger] pending[k][i],
        )
    &&& forall|i: int| 0 <= i < out.len() ==> all.contains(#[trigger] out[i])
    &&& semantics::sorted(out, keys)
    &&& forall|i: int, k: int, j: int|
        #![trigger out[i], pending[k][j]]
        0 <= i < out.len() && 0 <= k < pending.len() && 0 <= j < pending[k].len()
            ==> !(semantics::row_order(out[i], pending[k][j], keys) is Greater)
}

/// One row of sorted groups comes before another: by the sort columns, and where
/// they are equal by group and place.
pub open spec fn precedes(
    groups: Seq<Seq<RowView>>,
    keys: Seq<SortKey>,
    a: (int, int),
    b: (int, int),
) -> bool {
    match semantics::row_order(groups[a.0][a.1], groups[b.0][b.1], keys) {
        Order::Less => true,
        Order::Equal => a.0 < b.0 || (a.0 == b.0 && a.1 < b.1),
        Order::Greater => false,
    }
}

/// Rows are those at places of groups, in the order of the sort columns as far as
/// they have one, and of groups and places where they are equal.
pub open spec fn stable_merge(
    out: Seq<RowView>,
    from: Seq<(int, int)>,
    groups: Seq<Seq<RowView>>,
    keys: Seq<SortKey>,
) -> bool {
    &&& from.len() == out.len()
    &&& forall|i: int|
        0 <= i < from.len() ==> {
            &&& 0 <= (#[trigger] from[i]).0 < groups.len()
            &&& 0 <= from[i].1 < groups[from[i].0].len()
            &&& out[i] == groups[from[i].0][from[i].1]
        }
    &&& semantics::comparable(hash::flat(groups), keys) ==> forall|i: int, j: int|
        0 <= i < j < from.len() ==> precedes(groups, keys, #[trigger] from[i], #[trigger] from[j])
}

/// What is still to come is the ends of the groups, and comes behind what was
/// emitted.
#[verifier::opaque]
spec fn stable_state(
    pending: Seq<Seq<RowView>>,
    out: Seq<RowView>,
    from: Seq<(int, int)>,
    groups: Seq<Seq<RowView>>,
    keys: Seq<SortKey>,
) -> bool {
    &&& pending.len() == groups.len()
    &&& forall|k: int|
        0 <= k < groups.len() ==> (#[trigger] pending[k]).len() <= groups[k].len() && pending[k]
            == groups[k].skip(groups[k].len() - pending[k].len())
    &&& stable_merge(out, from, groups, keys)
    &&& semantics::comparable(hash::flat(groups), keys) ==> {
        &&& forall|k: int| 0 <= k < groups.len() ==> semantics::sorted(#[trigger] groups[k], keys)
        &&& forall|i: int, k: int, j: int|
            #![trigger from[i], groups[k][j]]
            0 <= i < from.len() && 0 <= k < groups.len() && groups[k].len() - pending[k].len() <= j
                < groups[k].len() ==> precedes(groups, keys, from[i], (k, j))
    }
}

/// Nothing was emitted yet.
proof fn lemma_stable_start(groups: Seq<Seq<RowView>>, keys: Seq<SortKey>)
    requires
        merging(groups, Seq::empty(), groups, keys),
    ensures
        stable_state(groups, Seq::empty(), Seq::empty(), groups, keys),
{
    reveal(stable_state);
    assert forall|k: int| 0 <= k < groups.len() implies groups[k] == (
    #[trigger] groups[k]).skip(0) by {
        assert(groups[k].skip(0) =~= groups[k]);
    }
}

/// The first of the least rows is emitted.
proof fn lemma_stable_pop(
    pending: Seq<Seq<RowView>>,
    out: Seq<RowView>,
    from: Seq<(int, int)>,
    groups: Seq<Seq<RowView>>,
    keys: Seq<SortKey>,
    b: int,
)
    requires
        stable_state(pending, out, from, groups, keys),
        0 <= b < pending.len(),
        pending[b].len() > 0,
        semantics::comparable(hash::flat(groups), keys) ==> forall|k: int|
            0 <= k < pending.len() && (#[trigger] pending[k]).len() > 0 ==> {
                &&& !(semantics::row_order(pending[b][0], pending[k][0], keys) is Greater)
                &&& k < b ==> semantics::row_order(pending[b][0], pending[k][0], keys) is Less
            },
    ensures
        stable_state(
            pending.update(b, pending[b].skip(1)),
            out.push(pending[b][0]),
            from.push((b, groups[b].len() - pending[b].len())),
            groups,
            keys,
        ),
{
    reveal(stable_state);
    let at = groups[b].len() - pending[b].len();
    let h = pending[b][0];
    let rest = pending.update(b, pending[b].skip(1));
    let more = from.push((b, at));
    let next = out.push(h);
    assert(h == groups[b][at]);
    assert(rest[b] =~= groups[b].skip(at + 1));
    assert forall|k: int| 0 <= k < groups.len() implies (#[trigger] rest[k]).len()
        <= groups[k].len() && rest[k] == groups[k].skip(groups[k].len() - rest[k].len()) by {
        if k != b {
            assert(rest[k] == pending[k]);
        }
    }
    assert forall|i: int| 0 <= i < more.len() implies {
        &&& 0 <= (#[trigger] more[i]).0 < groups.len()
        &&& 0 <= more[i].1 < groups[more[i].0].len()
        &&& next[i] == groups[more[i].0][more[i].1]
    } by {
        if i < from.len() {
            assert(more[i] == from[i]);
        }
    }
    if semantics::comparable(hash::flat(groups), keys) {
        let all = hash::flat(groups);
        assert forall|i: int, j: int| 0 <= i < j < more.len() implies precedes(
            groups,
            keys,
            #[trigger] more[i],
            #[trigger] more[j],
        ) by {
            assert(more[i] == from[i]);
            if j < from.len() {
                assert(more[j] == from[j]);
            } else {
                assert(groups[b][at] == h);
                assert(precedes(groups, keys, from[i], (b, at)));
            }
        }
        assert forall|i: int, k: int, j: int|
            #![trigger more[i], groups[k][j]]
            0 <= i < more.len() && 0 <= k < groups.len() && groups[k].len() - rest[k].len() <= j
                < groups[k].len() implies precedes(groups, keys, more[i], (k, j)) by {
            if i < from.len() {
                assert(more[i] == from[i]);
                assert(rest[k].len() <= pending[k].len());
                assert(precedes(groups, keys, from[i], (k, j)));
            } else if k == b {
                assert(semantics::sorted(groups[b], keys));
                assert(!(semantics::row_order(groups[b][at], groups[b][j], keys) is Greater));
            } else {
                assert(rest[k] == pending[k]);
                let first = groups[k].len() - pending[k].len();
                assert(pending[k][0] == groups[k][first]);
                lemma_flat_contains(groups, b, at);
                lemma_flat_contains(groups, k, first);
                lemma_flat_contains(groups, k, j);
                if j > first {
                    assert(semantics::sorted(groups[k], keys));
                    assert(!(semantics::row_order(groups[k][first], groups[k][j], keys)
                        is Greater));
                    compact::lemma_transitive_among(
                        all,
                        h,
                        groups[k][first],
                        groups[k][j],
                        keys,
                    );
                }
            }
        }
    }
}

/// Nothing was emitted yet.
proof fn lemma_merge_start(groups: Seq<Seq<RowView>>, keys: Seq<SortKey>)
    requires
        forall|k: int| 0 <= k < groups.len() ==> sort_runs::sorted_if(#[trigger] groups[k], keys),
    ensures
        merging(groups, Seq::empty(), groups, keys),
{
    let all = hash::flat(groups);
    bag::lemma_bag_empty(Seq::<RowView>::empty());
    assert(bag::bag(Seq::<RowView>::empty()).add(bag::bag(all)) =~= bag::bag(all));
    assert forall|k: int, i: int| 0 <= k < groups.len() && 0 <= i < groups[k].len() implies all.contains(
        #[trigger] groups[k][i],
    ) by {
        lemma_flat_contains(groups, k, i);
    }
    if semantics::comparable(all, keys) {
        assert forall|k: int| 0 <= k < groups.len() implies semantics::sorted(
            #[trigger] groups[k],
            keys,
        ) by {
            assert forall|i: int| 0 <= i < groups[k].len() implies all.contains(
                #[trigger] groups[k][i],
            ) by {}
            semantics::lemma_comparable_part(all, groups[k], keys);
            assert(sort_runs::sorted_if(groups[k], keys));
        }
    }
}

/// The least of the next rows is emitted.
proof fn lemma_merge_pop(
    pending: Seq<Seq<RowView>>,
    out: Seq<RowView>,
    groups: Seq<Seq<RowView>>,
    keys: Seq<SortKey>,
    b: int,
)
    requires
        merging(pending, out, groups, keys),
        0 <= b < pending.len(),
        pending[b].len() > 0,
        semantics::comparable(hash::flat(groups), keys) ==> forall|k: int|
            0 <= k < pending.len() && (#[trigger] pending[k]).len() > 0 ==> !(semantics::row_order(
                pending[b][0],
                pending[k][0],
                keys,
            ) is Greater),
    ensures
        merging(
            pending.update(b, pending[b].skip(1)),
            out.push(pending[b][0]),
            groups,
            keys,
        ),
{
    let h = pending[b][0];
    let tail = pending[b].skip(1);
    let rest = pending.update(b, tail);
    let all = hash::flat(groups);
    lemma_flat_replace(pending, b, tail);
    assert(pending[b] =~= seq![h] + tail);
    bag::lemma_bag_concat(seq![h], tail);
    assert(Seq::<RowView>::empty().push(h) =~= seq![h]);
    bag::lemma_bag_push(Seq::<RowView>::empty(), h);
    bag::lemma_bag_empty(Seq::<RowView>::empty());
    bag::lemma_bag_push(out, h);
    let p = bag::bag(hash::flat(pending));
    let q = bag::bag(hash::flat(rest));
    let t = bag::bag(tail);
    assert(q.insert(h) =~= p) by {
        assert(bag::bag(pending[b]) =~= t.insert(h));
        assert forall|x: RowView| q.insert(h).count(x) == p.count(x) by {
            assert(q.add(bag::bag(pending[b])).count(x) == p.add(t).count(x));
        }
    }
    assert(bag::bag(out.push(h)).add(q) =~= bag::bag(out).add(p));
    if semantics::comparable(all, keys) {
        let next = out.push(h);
        assert(all.contains(pending[b][0]));
        assert forall|k: int, i: int|
            0 <= k < rest.len() && 0 <= i < rest[k].len() implies all.contains(
            #[trigger] rest[k][i],
        ) && !(semantics::row_order(h, rest[k][i], keys) is Greater) by {
            if k == b {
                assert(rest[k][i] == pending[b][i + 1]);
                assert(all.contains(pending[b][i + 1]));
                assert(!(semantics::row_order(pending[b][0], pending[b][i + 1], keys) is Greater));
            } else {
                assert(rest[k] == pending[k]);
                assert(all.contains(pending[k][i]));
                assert(all.contains(pending[k][0]));
                assert(!(semantics::row_order(h, pending[k][0], keys) is Greater));
                if i > 0 {
                    assert(!(semantics::row_order(pending[k][0], pending[k][i], keys) is Greater));
                    compact::lemma_transitive_among(
                        all,
                        h,
                        pending[k][0],
                        pending[k][i],
                        keys,
                    );
                }
            }
        }
        assert forall|k: int| 0 <= k < rest.len() implies semantics::sorted(
            #[trigger] rest[k],
            keys,
        ) by {
            if k == b {
                assert(semantics::sorted(pending[b], keys));
                assert forall|i: int, j: int|
                    0 <= i < j < tail.len() implies !(semantics::row_order(
                    #[trigger] tail[i],
                    #[trigger] tail[j],
                    keys,
                ) is Greater) by {
                    assert(tail[i] == pending[b][i + 1] && tail[j] == pending[b][j + 1]);
                }
            } else {
                assert(rest[k] == pending[k]);
            }
        }
        assert forall|i: int| 0 <= i < next.len() implies all.contains(#[trigger] next[i]) by {
            if i < out.len() {
                assert(next[i] == out[i]);
            }
        }
        assert forall|i: int, j: int| 0 <= i < j < next.len() implies !(semantics::row_order(
            #[trigger] next[i],
            #[trigger] next[j],
            keys,
        ) is Greater) by {
            assert(next[i] == out[i]);
            if j < out.len() {
                assert(next[j] == out[j]);
            } else {
                assert(!(semantics::row_order(out[i], pending[b][0], keys) is Greater));
            }
        }
        assert forall|i: int, k: int, j: int|
            #![trigger next[i], rest[k][j]]
            0 <= i < next.len() && 0 <= k < rest.len() && 0 <= j
                < rest[k].len() implies !(semantics::row_order(next[i], rest[k][j], keys)
            is Greater) by {
            if i < out.len() {
                assert(next[i] == out[i]);
                if k == b {
                    assert(rest[k][j] == pending[b][j + 1]);
                    assert(!(semantics::row_order(out[i], pending[b][j + 1], keys) is Greater));
                } else {
                    assert(rest[k] == pending[k]);
                    assert(!(semantics::row_order(out[i], pending[k][j], keys) is Greater));
                }
            }
        }
    }
}

/// Everything was emitted.
proof fn lemma_merge_end(
    pending: Seq<Seq<RowView>>,
    out: Seq<RowView>,
    groups: Seq<Seq<RowView>>,
    keys: Seq<SortKey>,
)
    requires
        merging(pending, out, groups, keys),
        forall|k: int| 0 <= k < pending.len() ==> (#[trigger] pending[k]).len() == 0,
    ensures
        bag::bag(out) == bag::bag(hash::flat(groups)),
        sort_runs::sorted_if(out, keys),
{
    lemma_flat_empty(pending);
    bag::lemma_bag_empty(hash::flat(pending));
    assert(bag::bag(out).add(bag::bag(hash::flat(pending))) =~= bag::bag(out));
    if semantics::comparable(out, keys) {
        sort_runs::lemma_comparable_bag(out, hash::flat(groups), keys);
    }
}

proof fn lemma_flat_empty(groups: Seq<Seq<RowView>>)
    requires
        forall|k: int| 0 <= k < groups.len() ==> (#[trigger] groups[k]).len() == 0,
    ensures
        hash::flat(groups).len() == 0,
    decreases groups.len(),
{
    if groups.len() > 0 {
        assert forall|k: int| 0 <= k < groups.drop_last().len() implies (
        #[trigger] groups.drop_last()[k]).len() == 0 by {
            assert(groups.drop_last()[k] == groups[k]);
        }
        lemma_flat_empty(groups.drop_last());
        assert(groups[groups.len() - 1].len() == 0);
    }
}

/// The next rows can be compared.
spec fn heads_wide(heads: Seq<Option<Row>>, types: Seq<DataType>) -> bool {
    forall|k: int|
        0 <= k < heads.len() ==> ((#[trigger] heads[k]) matches Some(h) ==> data::conforms(
            h@,
            types,
        ))
}

/// The place of the least of the next rows, the first of them where several
/// are equal.
fn least_head(
    heads: &Vec<Option<Row>>,
    specs: &Vec<CompiledSortSpec>,
    types: Ghost<Seq<DataType>>,
    all: Ghost<Seq<RowView>>,
) -> (r: Option<usize>)
    requires
        heads_wide(heads@, types@),
        compact::specs_below(specs@, types@.len() as int),
    ensures
        match r {
            None => forall|k: int| 0 <= k < heads@.len() ==> (#[trigger] heads@[k]) is None,
            Some(b) => {
                &&& b < heads@.len()
                &&& heads@[b as int] is Some
                &&& semantics::comparable(all@, executor::key_views(specs@)) && (forall|k: int|
                    0 <= k < heads@.len() ==> ((#[trigger] heads@[k]) matches Some(h)
                        ==> all@.contains(h@))) ==> forall|k: int|
                    0 <= k < heads@.len() ==> ((#[trigger] heads@[k]) matches Some(h)
                        ==> !(semantics::row_order(
                        (heads@[b as int]->0)@,
                        h@,
                        executor::key_views(specs@),
                    ) is Greater) && (k < b ==> semantics::row_order(
                        (heads@[b as int]->0)@,
                        h@,
                        executor::key_views(specs@),
                    ) is Less))
            },
        },
{
    let ghost keys = executor::key_views(specs@);
    let ghost fine = semantics::comparable(all@, keys) && (forall|k: int|
        0 <= k < heads@.len() ==> ((#[trigger] heads@[k]) matches Some(h) ==> all@.contains(h@)));
    let mut best: Option<usize> = None;
    let mut i: usize = 0;
    while i < heads.len()
        invariant
            i <= heads@.len(),
            keys == executor::key_views(specs@),
            heads_wide(heads@, types@),
            compact::specs_below(specs@, types@.len() as int),
            fine ==> semantics::comparable(all@, keys),
            fine ==> forall|k: int|
                0 <= k < heads@.len() ==> ((#[trigger] heads@[k]) matches Some(h)
                    ==> all@.contains(h@)),
            best is None ==> forall|k: int| 0 <= k < i ==> (#[trigger] heads@[k]) is None,
            best matches Some(b) ==> {
                &&& b < i
                &&& heads@[b as int] is Some
                &&& fine ==> forall|k: int|
                    0 <= k < i ==> ((#[trigger] heads@[k]) matches Some(h)
                        ==> !(semantics::row_order((heads@[b as int]->0)@, h@, keys) is Greater)
                        && (k < b ==> semantics::row_order((heads@[b as int]->0)@, h@, keys)
                        is Less))
            },
        decreases heads@.len() - i,
    {
        if let Some(candidate) = &heads[i] {
            assert(data::conforms(candidate@, types@));
            let better: bool = match best {
                None => {
                    proof {
                        semantics::lemma_row_order_reverse(candidate@, candidate@, keys);
                    }
                    true
                },
                Some(b) => match &heads[b] {
                    Some(current) => {
                        assert(data::conforms((heads@[b as int]->0)@, types@));
                        let o = compare_rows(candidate, current, specs);
                        proof {
                            semantics::lemma_row_order_reverse(candidate@, current@, keys);
                            semantics::lemma_row_order_reverse(candidate@, candidate@, keys);
                            if fine && o == Order::Less {
                                assert forall|k: int| 0 <= k < i implies ((
                                #[trigger] heads@[k]) matches Some(h) ==> semantics::row_order(
                                    candidate@,
                                    h@,
                                    keys,
                                ) is Less) by {
                                    if heads@[k] is Some {
                                        let h = heads@[k]->0;
                                        assert(all@.contains(h@));
                                        assert(heads@[i as int] is Some && all@.contains(
                                            candidate@,
                                        ));
                                        assert(heads@[b as int] is Some && all@.contains(current@));
                                        compact::lemma_transitive_among(
                                            all@,
                                            candidate@,
                                            current@,
                                            h@,
                                            keys,
                                        );
                                    }
                                }
                            }
                        }
                        o == Order::Less
                    },
                    None => true,
                },
            };
            if better {
                best = Some(i);
            }
        }
        i = i + 1;
    }
    best
}

/// The next row of a run and those behind it are what is still to come.
spec fn lane_ok(
    head: Option<Row>,
    cursor: ScratchRunCursor,
    rows: Seq<RowView>,
    contents: Map<int, Seq<u8>>,
    types: Seq<DataType>,
) -> bool {
    match head {
        Some(h) => cursor.rest(contents, types) matches Ok(tail) && rows == seq![h@] + tail,
        None => rows.len() == 0,
    }
}

spec fn lanes_ok(
    heads: Seq<Option<Row>>,
    cursors: Seq<ScratchRunCursor>,
    pending: Seq<Seq<RowView>>,
    contents: Map<int, Seq<u8>>,
    types: Seq<DataType>,
) -> bool {
    &&& pending.len() == heads.len()
    &&& forall|k: int|
        0 <= k < heads.len() ==> lane_ok(
            #[trigger] heads[k],
            cursors[k],
            pending[k],
            contents,
            types,
        )
}

/// The cursors can be read, each on its own run.
spec fn cursors_ok(
    cursors: Seq<ScratchRunCursor>,
    runs: SortedRuns,
    types: Seq<DataType>,
) -> bool {
    &&& cursors.len() <= runs.runs@.len()
    &&& forall|k: int|
        0 <= k < cursors.len() ==> (#[trigger] cursors[k]).wf(types) && cursors[k].ids()
            == runs.runs@[k]@ && cursors[k].batch() <= SCRATCH_STREAM_BATCH_BLOCKS
}

/// The next row of a run.
fn read_lane<R: Input, W: Output>(
    cursor: &mut ScratchRunCursor,
    schema: &Schema,
    rows: Ghost<Seq<RowView>>,
    contents: Ghost<Map<int, Seq<u8>>>,
    disk: &mut DiskClient<R, W>,
    scratch: &ScratchSpace,
) -> (r: Result<Option<Row>, DbError>)
    requires
        old(cursor).wf(schema.types()),
        forall|k: int|
            0 <= k < old(cursor).ids().len() ==> old(
                disk).scratch()[#[trigger] old(cursor).ids()[k] as int] == contents@[old(
                cursor).ids()[k] as int],
        frame::trusty(*old(disk), *scratch) ==> scratch_run::above(
            old(cursor).ids(),
            old(disk).layout().anon_start as int,
        ),
        frame::trusty(*old(disk), *scratch) ==> old(cursor).rest(contents@, schema.types()) == Ok::<
            Seq<RowView>,
            DbError,
        >(rows@),
    ensures
        final(disk).unwritten_since(*old(disk)),
        final(cursor).ids() == old(cursor).ids(),
        final(cursor).batch() == old(cursor).batch(),
        r matches Ok(head) ==> {
            &&& final(cursor).wf(schema.types())
            &&& head matches Some(h) ==> data::conforms(h@, schema.types())
            &&& final(cursor).blocks_left() < old(cursor).blocks_left() || (final(
                cursor).blocks_left() == old(cursor).blocks_left() && final(cursor).held() <= old(
                cursor).held())
            &&& head is Some ==> final(cursor).blocks_left() < old(cursor).blocks_left() || final(
                cursor).held() < old(cursor).held()
            &&& frame::trusty(*final(disk), *scratch) ==> lane_ok(
                head,
                *final(cursor),
                rows@,
                contents@,
                schema.types(),
            )
        },
        r is Err && old(cursor).batch() <= SCRATCH_STREAM_BATCH_BLOCKS ==> !scratch_run::able(
            *final(disk),
            *scratch,
        ),
{
    let ghost types = schema.types();
    let ghost d1 = disk.scratch();
    let ghost before = *cursor;
    proof {
        cursor.lemma_rest_same(d1, contents@, types);
        let size = scratch.size() as int;
        let batch = cursor.batch() as int;
        if batch <= SCRATCH_STREAM_BATCH_BLOCKS {
            assert(size * batch <= size * SCRATCH_STREAM_BATCH_BLOCKS) by (nonlinear_arith)
                requires
                    0 <= size,
                    batch <= SCRATCH_STREAM_BATCH_BLOCKS,
            ;
        }
    }
    let head = cursor.next_row(schema, disk)?;
    proof {
        cursor.lemma_rest_same(d1, contents@, types);
    }
    Ok(head)
}

/// A measure of all cursors together.
spec fn total(cursors: Seq<ScratchRunCursor>, f: spec_fn(ScratchRunCursor) -> nat) -> nat
    decreases cursors.len(),
{
    if cursors.len() == 0 {
        0
    } else {
        total(cursors.drop_last(), f) + f(cursors.last())
    }
}

proof fn lemma_total_update(
    cursors: Seq<ScratchRunCursor>,
    f: spec_fn(ScratchRunCursor) -> nat,
    k: int,
    c: ScratchRunCursor,
)
    requires
        0 <= k < cursors.len(),
    ensures
        total(cursors.update(k, c), f) + f(cursors[k]) == total(cursors, f) + f(c),
    decreases cursors.len(),
{
    let more = cursors.update(k, c);
    if k == cursors.len() - 1 {
        assert(more.drop_last() =~= cursors.drop_last());
    } else {
        assert(more.drop_last() =~= cursors.drop_last().update(k, c));
        lemma_total_update(cursors.drop_last(), f, k, c);
    }
}

/// How many runs have a next row.
spec fn live(heads: Seq<Option<Row>>) -> nat
    decreases heads.len(),
{
    if heads.len() == 0 {
        0
    } else {
        live(heads.drop_last()) + if heads.last() is Some {
            1nat
        } else {
            0
        }
    }
}

proof fn lemma_live_update(heads: Seq<Option<Row>>, k: int, h: Option<Row>)
    requires
        0 <= k < heads.len(),
        heads[k] is Some,
    ensures
        live(heads.update(k, h)) + 1 == live(heads) + if h is Some {
            1nat
        } else {
            0
        },
    decreases heads.len(),
{
    let more = heads.update(k, h);
    if k == heads.len() - 1 {
        assert(more.drop_last() =~= heads.drop_last());
    } else {
        assert(more.drop_last() =~= heads.drop_last().update(k, h));
        lemma_live_update(heads.drop_last(), k, h);
    }
}

/// Rows in order are the same rows.
pub open spec fn sorted_rows(rows: Seq<RowView>, all: Seq<RowView>, keys: Seq<SortKey>) -> bool {
    bag::bag(rows) == bag::bag(all) && sort_runs::sorted_if(rows, keys)
}

/// The rows were emitted in order.
pub open spec fn emitted_sorted(
    before: Seq<RowView>,
    after: Seq<RowView>,
    all: Seq<RowView>,
    keys: Seq<SortKey>,
) -> bool {
    exists|rows: Seq<RowView>| #[trigger]
        sorted_rows(rows, all, keys) && after == before + rows
}

/// The first rows of all runs.
fn open_lanes<R: Input, W: Output>(
    runs: &SortedRuns,
    schema: &Schema,
    keys: Ghost<Seq<SortKey>>,
    disk: &mut DiskClient<R, W>,
    scratch: &ScratchSpace,
) -> (r: Result<(Vec<Option<Row>>, Vec<ScratchRunCursor>), DbError>)
    requires
        runs.wf(schema.types(), keys@, *old(disk), *scratch),
        scratch.wf(),
    ensures
        final(disk).unwritten_since(*old(disk)),
        r matches Ok((heads, cursors)) ==> {
            &&& heads@.len() == runs.runs@.len()
            &&& cursors@.len() == runs.runs@.len()
            &&& heads_wide(heads@, schema.types())
            &&& cursors_ok(cursors@, *runs, schema.types())
            &&& frame::trusty(*final(disk), *scratch) ==> lanes_ok(
                heads@,
                cursors@,
                runs.groups@,
                old(disk).scratch(),
                schema.types(),
            )
        },
        r is Err ==> !scratch_run::able(*final(disk), *scratch),
{
    let ghost types = schema.types();
    let ghost d0 = *disk;
    let ghost contents = disk.scratch();
    let mut heads: Vec<Option<Row>> = Vec::new();
    let mut cursors: Vec<ScratchRunCursor> = Vec::new();
    let count: usize = runs.runs.len();
    let mut i: usize = 0;
    while i < count
        invariant
            i <= count,
            count == runs.runs@.len(),
            types == schema.types(),
            contents == d0.scratch(),
            d0 == *old(disk),
            disk.unwritten_since(d0),
            scratch.wf(),
            runs.wf(types, keys@, d0, *scratch),
            heads@.len() == i,
            cursors@.len() == i,
            heads_wide(heads@, types),
            cursors_ok(cursors@, *runs, types),
            frame::trusty(*disk, *scratch) ==> lanes_ok(
                heads@,
                cursors@,
                runs.groups@.take(i as int),
                contents,
                types,
            ),
        decreases count - i,
    {
        let run = &runs.runs[i];
        let ghost old_heads = heads@;
        let ghost old_cursors = cursors@;
        let ghost rows = runs.groups@[i as int];
        let mut cursor = ScratchRunCursor::new(run);
        proof {
            assert(sort_runs::sorted_run(runs.runs@[i as int], rows, types, keys@, d0));
            assert(scratch_run::in_use(
                partition::run_slots(runs.runs@)[i as int],
                *scratch,
            ));
            if frame::trusty(*disk, *scratch) {
                frame::lemma_run_above(*disk, *scratch, run@);
            }
            assert(cursor.rest(contents, types) == Ok::<Seq<RowView>, DbError>(rows));
        }
        let head = read_lane(
            &mut cursor,
            schema,
            Ghost(rows),
            Ghost(contents),
            disk,
            scratch,
        )?;
        heads.push(head);
        cursors.push(cursor);
        proof {
            assert forall|k: int| 0 <= k < heads@.len() implies ((
            #[trigger] heads@[k]) matches Some(h) ==> data::conforms(h@, types)) by {
                if k < i {
                    assert(heads@[k] == old_heads[k]);
                }
            }
            assert forall|k: int| 0 <= k < cursors@.len() implies (#[trigger] cursors@[k]).wf(types)
                && cursors@[k].ids() == runs.runs@[k]@ && cursors@[k].batch()
                <= SCRATCH_STREAM_BATCH_BLOCKS by {
                if k < i {
                    assert(cursors@[k] == old_cursors[k]);
                }
            }
            if frame::trusty(*disk, *scratch) {
                let pending = runs.groups@.take(i + 1);
                assert forall|k: int| 0 <= k < heads@.len() implies lane_ok(
                    #[trigger] heads@[k],
                    cursors@[k],
                    pending[k],
                    contents,
                    types,
                ) by {
                    if k < i {
                        assert(lane_ok(
                            old_heads[k],
                            old_cursors[k],
                            runs.groups@.take(i as int)[k],
                            contents,
                            types,
                        ));
                    }
                }
            }
        }
        i = i + 1;
    }
    assert(runs.groups@.take(i as int) =~= runs.groups@);
    Ok((heads, cursors))
}

/// Sends the rows of sorted runs into a sink, in order, and in that of the runs
/// where rows are equal.
#[verifier::spinoff_prover]
#[verifier::rlimit(40)]
pub fn merge_runs<R: Input, W: Output, F: RowOutput>(
    runs: &SortedRuns,
    schema: &Schema,
    specs: &Vec<CompiledSortSpec>,
    sink: RowSink<F>,
    disk: &mut DiskClient<R, W>,
    scratch: &mut ScratchSpace,
) -> (r: Result<RowSink<F>, DbError>)
    requires
        runs.wf(schema.types(), executor::key_views(specs@), *old(disk), *old(scratch)),
        old(scratch).wf(),
        sink.wf(*old(disk), *old(scratch)),
        sink.types() == schema.types(),
        runs.own().disjoint(sink.own()),
        compact::specs_below(specs@, schema@.len() as int),
    ensures
        scratch_run::kept(
            *old(disk),
            *old(scratch),
            *final(disk),
            *final(scratch),
            sink.own(),
        ),
        r matches Ok(out) ==> {
            &&& sink::advanced(
                sink,
                *old(disk),
                *old(scratch),
                out,
                *final(disk),
                *final(scratch),
            )
            &&& sink::settled(sink, *old(scratch), out, *final(scratch))
            &&& frame::trusty(*final(disk), *final(scratch)) ==> emitted_sorted(
                sink.log(),
                out.log(),
                hash::flat(runs.groups@),
                executor::key_views(specs@),
            )
            &&& frame::trusty(*final(disk), *final(scratch)) ==> exists|from: Seq<(int, int)>|
                #[trigger] stable_merge(
                    out.log().skip(sink.log().len() as int),
                    from,
                    runs.groups@,
                    executor::key_views(specs@),
                )
        },
        runs.runs@.len() == 0 ==> {
            &&& r == Ok::<RowSink<F>, DbError>(sink)
            &&& *final(disk) == *old(disk)
            &&& *final(scratch) == *old(scratch)
        },
        r matches Err(e) ==> !scratch_run::able(*final(disk), *final(scratch))
            || sink.shape().excuses(
            e,
            old(scratch).size() as int,
            sink.log() + hash::flat(runs.groups@),
        ),
{
    let ghost (d0, s0) = (*disk, *scratch);
    let ghost start = sink;
    let ghost types = schema.types();
    let ghost keys = executor::key_views(specs@);
    let ghost groups = runs.groups@;
    let ghost contents = disk.scratch();
    let mut target = sink;
    proof {
        feed::lemma_advanced_start(start, d0, s0);
        assert forall|k: int| 0 <= k < groups.len() implies sort_runs::sorted_if(
            #[trigger] groups[k],
            keys,
        ) by {
            assert(sort_runs::sorted_run(runs.runs@[k], groups[k], types, keys, d0));
        }
        lemma_merge_start(groups, keys);
    }
    if runs.runs.len() == 0 {
        proof {
            let none = Seq::<RowView>::empty();
            assert(groups =~= Seq::<Seq<RowView>>::empty());
            assert(start.log() + none =~= start.log());
            assert(sorted_rows(none, hash::flat(groups), keys));
            assert(start.log().skip(start.log().len() as int) =~= none);
            assert(stable_merge(none, Seq::<(int, int)>::empty(), groups, keys));
        }
        return Ok(target);
    }
    let opened = open_lanes(runs, schema, Ghost(keys), disk, scratch);
    proof {
        feed::lemma_advanced_read(start, d0, s0, start, d0, s0, *disk);
    }
    let (mut heads, mut cursors) = opened?;
    let ghost mut pending = groups;
    let ghost mut out = Seq::<RowView>::empty();
    let ghost mut from = Seq::<(int, int)>::empty();
    let ghost blocks = |c: ScratchRunCursor| c.blocks_left();
    let ghost held = |c: ScratchRunCursor| c.held();
    proof {
        assert(start.log() + out =~= start.log());
        lemma_stable_start(groups, keys);
    }
    loop
        invariant
            types == schema.types(),
            keys == executor::key_views(specs@),
            compact::specs_below(specs@, types.len() as int),
            start.types() == types,
            groups == runs.groups@,
            contents == d0.scratch(),
            runs.wf(types, keys, d0, s0),
            runs.own().disjoint(start.own()),
            scratch.wf(),
            scratch_run::kept(d0, s0, *disk, *scratch, start.own()),
            sink::advanced(start, d0, s0, target, *disk, *scratch),
            sink::settled(start, s0, target, *scratch),
            runs.runs@.len() > 0,
            heads@.len() == runs.runs@.len(),
            cursors@.len() == runs.runs@.len(),
            heads_wide(heads@, types),
            cursors_ok(cursors@, *runs, types),
            blocks == (|c: ScratchRunCursor| c.blocks_left()),
            held == (|c: ScratchRunCursor| c.held()),
            frame::trusty(*disk, *scratch) ==> {
                &&& lanes_ok(heads@, cursors@, pending, contents, types)
                &&& merging(pending, out, groups, keys)
                &&& stable_state(pending, out, from, groups, keys)
                &&& target.log() == start.log() + out
            },
            d0 == *old(disk),
            start == sink,
            s0 == *old(scratch),
        decreases total(cursors@, blocks), total(cursors@, held), live(heads@),
    {
        let ghost all = hash::flat(groups);
        let chosen = least_head(&heads, specs, Ghost(types), Ghost(all));
        let b: usize = match chosen {
            Some(b) => b,
            None => {
                proof {
                    if frame::trusty(*disk, *scratch) {
                        assert forall|k: int| 0 <= k < pending.len() implies (
                        #[trigger] pending[k]).len() == 0 by {
                            assert(heads@[k] is None);
                            assert(lane_ok(heads@[k], cursors@[k], pending[k], contents, types));
                        }
                        lemma_merge_end(pending, out, groups, keys);
                        assert(sorted_rows(out, all, keys));
                        assert(target.log().skip(start.log().len() as int) =~= out);
                        assert(stable_merge(out, from, groups, keys)) by {
                            reveal(stable_state);
                        }
                    }
                }
                return Ok(target);
            },
        };
        let ghost (d1, s1) = (*disk, *scratch);
        let ghost old_heads = heads@;
        let ghost old_cursors = cursors@;
        let mut slot: Option<Row> = None;
        heads.set_and_swap(b, &mut slot);
        let row = match slot {
            Some(row) => row,
            None => {
                return Ok(target);
            },
        };
        assert(old_heads[b as int] == Some(row));
        proof {
            assert(data::conforms(row@, types));
            if frame::trusty(d1, s1) {
                lemma_chosen_head(
                    old_heads,
                    old_cursors,
                    pending,
                    out,
                    from,
                    contents,
                    types,
                    groups,
                    keys,
                    b as int,
                );
                lemma_merged_within(
                    pending.update(b as int, pending[b as int].skip(1)),
                    out.push(row@),
                    groups,
                    keys,
                );
                bag::lemma_within_front(start.log(), start.log());
                bag::lemma_within_concat(start.log(), out.push(row@), start.log(), all);
                assert((start.log() + out).push(row@) =~= start.log() + out.push(row@));
            }
        }
        let ghost before = target;
        push_further(&mut target, row, Ghost(start), Ghost(d0), Ghost(s0), disk, scratch)?;
        let ghost d2 = *disk;
        let ghost s2 = *scratch;
        proof {
            assert(cursors@[b as int].ids() == runs.runs@[b as int]@);
            lemma_lane_still(*runs, types, keys, b as int, d0, s0, d2, s2, start.own());
        }
        let ghost tail = pending[b as int].skip(1);
        let result = read_lane(
            &mut cursors[b],
            schema,
            Ghost(tail),
            Ghost(contents),
            disk,
            scratch,
        );
        proof {
            feed::lemma_advanced_read(start, d0, s0, target, d2, s2, *disk);
        }
        let head = result?;
        let ghost new_head = head;
        heads.set(b, head);
        proof {
            let c = cursors@[b as int];
            assert(cursors@ =~= old_cursors.update(b as int, c));
            assert(heads@ =~= old_heads.update(b as int, new_head));
            lemma_total_update(old_cursors, blocks, b as int, c);
            lemma_total_update(old_cursors, held, b as int, c);
            lemma_live_update(old_heads, b as int, new_head);
            assert(blocks(c) == c.blocks_left() && held(c) == c.held());
            assert(blocks(old_cursors[b as int]) == old_cursors[b as int].blocks_left());
            assert(held(old_cursors[b as int]) == old_cursors[b as int].held());
            assert forall|k: int| 0 <= k < heads@.len() implies ((
            #[trigger] heads@[k]) matches Some(h) ==> data::conforms(h@, types)) by {
                if k != b {
                    assert(heads@[k] == old_heads[k]);
                }
            }
            assert forall|k: int| 0 <= k < cursors@.len() implies (#[trigger] cursors@[k]).wf(types)
                && cursors@[k].ids() == runs.runs@[k]@ && cursors@[k].batch()
                <= SCRATCH_STREAM_BATCH_BLOCKS by {
                if k != b {
                    assert(cursors@[k] == old_cursors[k]);
                }
            }
            if frame::trusty(*disk, *scratch) {
                let more = pending.update(b as int, tail);
                assert forall|k: int| 0 <= k < heads@.len() implies lane_ok(
                    #[trigger] heads@[k],
                    cursors@[k],
                    more[k],
                    contents,
                    types,
                ) by {
                    if k != b {
                        assert(lane_ok(
                            old_heads[k],
                            old_cursors[k],
                            pending[k],
                            contents,
                            types,
                        ));
                    }
                }
                assert((start.log() + out).push(row@) =~= start.log() + out.push(row@));
            }
            from = from.push((b as int, groups[b as int].len() - pending[b as int].len()));
            pending = pending.update(b as int, tail);
            out = out.push(row@);
        }
    }
}

/// The rows that were merged are rows of the groups.
proof fn lemma_merged_within(
    pending: Seq<Seq<RowView>>,
    out: Seq<RowView>,
    groups: Seq<Seq<RowView>>,
    keys: Seq<SortKey>,
)
    requires
        merging(pending, out, groups, keys),
    ensures
        bag::within(out, hash::flat(groups)),
{
    let rest = out + hash::flat(pending);
    bag::lemma_bag_concat(out, hash::flat(pending));
    bag::lemma_within_front(out, rest);
    bag::lemma_within_bag(rest, hash::flat(groups));
    bag::lemma_within_trans(out, rest, hash::flat(groups));
}

/// The chosen row is the least of those still to come.
proof fn lemma_chosen_head(
    heads: Seq<Option<Row>>,
    cursors: Seq<ScratchRunCursor>,
    pending: Seq<Seq<RowView>>,
    out: Seq<RowView>,
    from: Seq<(int, int)>,
    contents: Map<int, Seq<u8>>,
    types: Seq<DataType>,
    groups: Seq<Seq<RowView>>,
    keys: Seq<SortKey>,
    b: int,
)
    requires
        lanes_ok(heads, cursors, pending, contents, types),
        merging(pending, out, groups, keys),
        stable_state(pending, out, from, groups, keys),
        0 <= b < heads.len(),
        heads[b] is Some,
        semantics::comparable(hash::flat(groups), keys) && (forall|k: int|
            0 <= k < heads.len() ==> ((#[trigger] heads[k]) matches Some(h) ==> hash::flat(
                groups,
            ).contains(h@))) ==> forall|k: int|
            0 <= k < heads.len() ==> ((#[trigger] heads[k]) matches Some(h)
                ==> !(semantics::row_order((heads[b]->0)@, h@, keys) is Greater) && (k < b
                ==> semantics::row_order((heads[b]->0)@, h@, keys) is Less)),
    ensures
        stable_state(
            pending.update(b, pending[b].skip(1)),
            out.push(pending[b][0]),
            from.push((b, groups[b].len() - pending[b].len())),
            groups,
            keys,
        ),
        pending[b].len() > 0,
        pending[b][0] == (heads[b]->0)@,
        cursors[b].rest(contents, types) == Ok::<Seq<RowView>, DbError>(pending[b].skip(1)),
        merging(
            pending.update(b, pending[b].skip(1)),
            out.push(pending[b][0]),
            groups,
            keys,
        ),
{
    let all = hash::flat(groups);
    assert(lane_ok(heads[b], cursors[b], pending[b], contents, types));
    let tail = cursors[b].rest(contents, types)->Ok_0;
    assert((seq![(heads[b]->0)@] + tail).skip(1) =~= tail);
    assert((seq![(heads[b]->0)@] + tail)[0] == (heads[b]->0)@);
    if semantics::comparable(all, keys) {
        assert forall|k: int| 0 <= k < heads.len() implies ((#[trigger] heads[k]) matches Some(h)
            ==> all.contains(h@)) by {
            if heads[k] is Some {
                assert(lane_ok(heads[k], cursors[k], pending[k], contents, types));
                assert(pending[k][0] == (heads[k]->0)@);
                assert(all.contains(pending[k][0]));
            }
        }
        assert forall|k: int|
            0 <= k < pending.len() && (#[trigger] pending[k]).len() > 0 implies !(
        semantics::row_order(pending[b][0], pending[k][0], keys) is Greater) && (k < b
            ==> semantics::row_order(pending[b][0], pending[k][0], keys) is Less) by {
            assert(lane_ok(heads[k], cursors[k], pending[k], contents, types));
            assert(heads[k] is Some);
            assert(pending[k][0] == (heads[k]->0)@);
        }
    }
    lemma_stable_pop(pending, out, from, groups, keys, b);
    lemma_merge_pop(pending, out, groups, keys, b);
}

/// The blocks of a run that is merged hold what they held.
proof fn lemma_lane_still<R: Input, W: Output>(
    runs: SortedRuns,
    types: Seq<DataType>,
    keys: Seq<SortKey>,
    b: int,
    d0: DiskClient<R, W>,
    s0: ScratchSpace,
    d1: DiskClient<R, W>,
    s1: ScratchSpace,
    own: Set<int>,
)
    requires
        runs.wf(types, keys, d0, s0),
        0 <= b < runs.runs@.len(),
        scratch_run::kept(d0, s0, d1, s1, own),
        runs.own().disjoint(own),
    ensures
        forall|k: int|
            0 <= k < runs.runs@[b]@.len() ==> d1.scratch()[#[trigger] runs.runs@[b]@[k] as int]
                == d0.scratch()[runs.runs@[b]@[k] as int],
        frame::trusty(d1, s1) ==> scratch_run::above(
            runs.runs@[b]@,
            d1.layout().anon_start as int,
        ),
{
    let slots = partition::run_slots(runs.runs@);
    assert(scratch_run::in_use(slots[b], s0));
    frame::lemma_all_in_use_kept(slots, d0, s0, d1, s1, own);
    assert(slots[b].disjoint(own));
    sink::lemma_run_still(runs.runs@[b]@, d0, s0, d1, s1, own);
}

/// Sends stored rows into a sink, in order.
pub fn emit_compact_rows<R: Input, W: Output, F: RowOutput>(
    rows: CompactSortState,
    schema: &Schema,
    specs: &Vec<CompiledSortSpec>,
    sink: RowSink<F>,
    disk: &mut DiskClient<R, W>,
    scratch: &mut ScratchSpace,
) -> (r: Result<RowSink<F>, DbError>)
    requires
        rows.wf(schema.types()),
        old(scratch).wf(),
        sink.wf(*old(disk), *old(scratch)),
        sink.types() == schema.types(),
        compact::specs_below(specs@, schema@.len() as int),
    ensures
        scratch_run::kept(
            *old(disk),
            *old(scratch),
            *final(disk),
            *final(scratch),
            sink.own(),
        ),
        r matches Ok(out) ==> {
            &&& sink::advanced(
                sink,
                *old(disk),
                *old(scratch),
                out,
                *final(disk),
                *final(scratch),
            )
            &&& sink::settled(sink, *old(scratch), out, *final(scratch))
            &&& emitted_sorted(sink.log(), out.log(), rows.log(), executor::key_views(specs@))
        },
        sink.shape().local() ==> *final(disk) == *old(disk) && *final(scratch) == *old(scratch),
        r matches Err(e) ==> !(sink.shape().local() || scratch_run::able(
            *final(disk),
            *final(scratch),
        )) || sink.shape().excuses(
            e,
            old(scratch).size() as int,
            sink.log() + rows.log(),
        ),
{
    let ghost (d0, s0) = (*disk, *scratch);
    let ghost start = sink;
    let ghost keys = executor::key_views(specs@);
    let ghost log = rows.log();
    let ordered = rows.sort(schema, specs);
    let ghost sorted = ordered.rows();
    let total: usize = ordered.len();
    let mut target = sink;
    let mut i: usize = 0;
    proof {
        feed::lemma_advanced_start(start, d0, s0);
        assert(start.log() + sorted.take(0) =~= start.log());
        bag::lemma_within_bag(sorted, log);
        bag::lemma_within_front(start.log(), start.log());
        bag::lemma_within_concat(start.log(), sorted, start.log(), log);
    }
    while i < total
        invariant
            i <= total,
            total == sorted.len(),
            log == rows.log(),
            ordered.wf(schema.types()),
            sorted == ordered.rows(),
            start.types() == schema.types(),
            scratch.wf(),
            scratch_run::kept(d0, s0, *disk, *scratch, start.own()),
            sink::advanced(start, d0, s0, target, *disk, *scratch),
            sink::settled(start, s0, target, *scratch),
            target.log() == start.log() + sorted.take(i as int),
            start.shape().local() ==> *disk == d0 && *scratch == s0,
            bag::within(start.log() + sorted, start.log() + log),
            d0 == *old(disk),
            start == sink,
            s0 == *old(scratch),
        decreases total - i,
    {
        let row = ordered.get(i, schema);
        proof {
            bag::lemma_within_front(target.log().push(row@), start.log() + sorted);
            bag::lemma_within_trans(
                target.log().push(row@),
                start.log() + sorted,
                start.log() + log,
            );
        }
        push_further(&mut target, row, Ghost(start), Ghost(d0), Ghost(s0), disk, scratch)?;
        assert((start.log() + sorted.take(i as int)).push(sorted[i as int]) =~= start.log()
            + sorted.take(i + 1));
        i = i + 1;
    }
    proof {
        assert(sorted.take(i as int) =~= sorted);
        sort_runs::lemma_sorted_if(log, sorted, keys);
        assert(sorted_rows(sorted, log, keys));
    }
    Ok(target)
}

} // verus!
