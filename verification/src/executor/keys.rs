//! Joins by keys: which rows can match one another.

use vstd::multiset::Multiset;
use vstd::prelude::*;

use crate::bag;
use crate::catalog::table::ColumnView;
use crate::data::DataType;
use crate::executor::hash;
use crate::executor::value;
use crate::number::Order;
use crate::query::{OperandView, PredicateView};
use crate::query_support;
use crate::row;
use crate::semantics;
use crate::semantics::{CompiledView, Kind, RowView};

verus! {

/// Rows that match one another have equal keys.
pub open spec fn keyed(
    build_keys: Seq<int>,
    probe_keys: Seq<int>,
    build_width: nat,
    probe_width: nat,
    build_is_left: bool,
    ps: Seq<CompiledView>,
) -> bool {
    &&& hash::keys_below(build_keys, build_width as int)
    &&& hash::keys_below(probe_keys, probe_width as int)
    &&& forall|b: RowView, p: RowView|
        b.len() == build_width && p.len() == probe_width && #[trigger] semantics::holds(
            semantics::joined_row(b, p, build_is_left),
            ps,
        ) ==> hash::keys_equal(b, build_keys, p, probe_keys)
}

/// What the key columns of one side hold has an order with what those of the
/// other hold.
pub open spec fn comparable(
    left: Seq<Kind>,
    left_keys: Seq<int>,
    right: Seq<Kind>,
    right_keys: Seq<int>,
) -> bool {
    forall|i: int|
        0 <= i < left_keys.len() ==> semantics::ordered_kinds(
            left[#[trigger] left_keys[i]],
            right[right_keys[i]],
        )
}

/// Keys that predicates set equal can be compared where the predicates have an
/// answer on the joined rows.
pub proof fn lemma_comparable(
    ps: Seq<PredicateView>,
    left: Seq<ColumnView>,
    right: Seq<ColumnView>,
    left_keys: Seq<int>,
    right_keys: Seq<int>,
    lk: Seq<Kind>,
    rk: Seq<Kind>,
)
    requires
        lk.len() == left.len(),
        rk.len() == right.len(),
        left_keys.len() == query_support::key_pairs(ps, left, right).len(),
        right_keys.len() == left_keys.len(),
        forall|i: int|
            0 <= i < left_keys.len() ==> #[trigger] left_keys[i] == query_support::key_pairs(
                ps,
                left,
                right,
            )[i].0,
        forall|i: int|
            0 <= i < right_keys.len() ==> #[trigger] right_keys[i] == query_support::key_pairs(
                ps,
                left,
                right,
            )[i].1,
        semantics::all_answerable(semantics::compiled_all(left + right, ps), lk + rk),
    ensures
        comparable(lk, left_keys, rk, right_keys),
{
    let all = semantics::compiled_all(left + right, ps);
    assert forall|i: int| 0 <= i < left_keys.len() implies semantics::ordered_kinds(
        lk[#[trigger] left_keys[i]],
        rk[right_keys[i]],
    ) by {
        let j = lemma_key_source(ps, left, right, i);
        let p = ps[j];
        assert(semantics::answerable(all[j], lk + rk));
        assert(right_keys[i] == query_support::key_pairs(ps, left, right)[i].1);
        semantics::lemma_combined_index(left, right, p.column);
        row::lemma_column_index(left, p.column);
        row::lemma_column_index(right, p.column);
        if let OperandView::Column(other) = p.value {
            semantics::lemma_combined_index(left, right, other);
            row::lemma_column_index(left, other);
            row::lemma_column_index(right, other);
        }
    }
}

/// The rows of partitions are among those that were parted.
pub proof fn lemma_parted_within(
    parts: Seq<Seq<RowView>>,
    rows: Seq<RowView>,
    picks: spec_fn(int) -> spec_fn(RowView) -> bool,
)
    requires
        parted(parts, rows, picks),
    ensures
        bag::within(hash::flat(parts), rows),
{
    bag::lemma_within_front(rows, rows);
    assert forall|j: int| 0 <= j < parts.len() implies bag::within(#[trigger] parts[j], rows) by {
        let part = bag::select(rows, picks(j));
        bag::lemma_within_bag(parts[j], part);
        bag::lemma_within_select(rows, rows, picks(j));
        bag::lemma_within_trans(parts[j], part, rows);
    }
    hash::lemma_groups_within(parts, rows);
}

/// Equality of keys is the same from both sides.
pub proof fn lemma_keys_equal_reverse(a: RowView, ka: Seq<int>, b: RowView, kb: Seq<int>)
    requires
        hash::keys_equal(a, ka, b, kb),
    ensures
        hash::keys_equal(b, kb, a, ka),
{
    assert forall|i: int| 0 <= i < kb.len() implies value::order(b[#[trigger] kb[i]], a[ka[i]])
        == Some(Order::Equal) by {
        assert(value::order(a[ka[i]], b[kb[i]]) == Some(Order::Equal));
        value::lemma_order_reverse(a[ka[i]], b[kb[i]]);
    }
}

/// The sides of a join may be exchanged.
pub proof fn lemma_keyed_reverse(
    build_keys: Seq<int>,
    probe_keys: Seq<int>,
    build_width: nat,
    probe_width: nat,
    build_is_left: bool,
    ps: Seq<CompiledView>,
)
    requires
        keyed(build_keys, probe_keys, build_width, probe_width, build_is_left, ps),
    ensures
        keyed(probe_keys, build_keys, probe_width, build_width, !build_is_left, ps),
{
    let turned = !build_is_left;
    assert forall|b: RowView, p: RowView|
        b.len() == probe_width && p.len() == build_width && #[trigger] semantics::holds(
            semantics::joined_row(b, p, turned),
            ps,
        ) implies hash::keys_equal(b, probe_keys, p, build_keys) by {
        assert(semantics::joined_row(b, p, turned) == semantics::joined_row(
            p,
            b,
            build_is_left,
        ));
        assert(semantics::holds(semantics::joined_row(p, b, build_is_left), ps));
        lemma_keys_equal_reverse(p, build_keys, b, probe_keys);
    }
}

/// Every key pair comes from a predicate.
proof fn lemma_key_source(
    ps: Seq<PredicateView>,
    left: Seq<ColumnView>,
    right: Seq<ColumnView>,
    i: int,
) -> (j: int)
    requires
        0 <= i < query_support::key_pairs(ps, left, right).len(),
    ensures
        0 <= j < ps.len(),
        query_support::key_pair(ps[j], left, right) == Some(
            query_support::key_pairs(ps, left, right)[i],
        ),
    decreases ps.len(),
{
    let front = query_support::key_pairs(ps.drop_last(), left, right);
    if i < front.len() {
        lemma_key_source(ps.drop_last(), left, right, i)
    } else {
        ps.len() - 1
    }
}

/// Where a joined row meets the predicates, the columns that they set equal
/// are equal in its parts.
pub proof fn lemma_keyed(
    ps: Seq<PredicateView>,
    left: Seq<ColumnView>,
    right: Seq<ColumnView>,
    left_keys: Seq<int>,
    right_keys: Seq<int>,
)
    requires
        left_keys.len() == query_support::key_pairs(ps, left, right).len(),
        right_keys.len() == left_keys.len(),
        forall|i: int|
            0 <= i < left_keys.len() ==> #[trigger] left_keys[i] == query_support::key_pairs(
                ps,
                left,
                right,
            )[i].0,
        forall|i: int|
            0 <= i < right_keys.len() ==> #[trigger] right_keys[i] == query_support::key_pairs(
                ps,
                left,
                right,
            )[i].1,
        hash::keys_below(left_keys, left.len() as int),
        hash::keys_below(right_keys, right.len() as int),
    ensures
        keyed(
            left_keys,
            right_keys,
            left.len(),
            right.len(),
            true,
            semantics::compiled_all(left + right, ps),
        ),
{
    let cs = semantics::compiled_all(left + right, ps);
    assert forall|b: RowView, p: RowView|
        b.len() == left.len() && p.len() == right.len() && #[trigger] semantics::holds(
            semantics::joined_row(b, p, true),
            cs,
        ) implies hash::keys_equal(b, left_keys, p, right_keys) by {
        assert forall|i: int| 0 <= i < left_keys.len() implies value::order(
            b[#[trigger] left_keys[i]],
            p[right_keys[i]],
        ) == Some(Order::Equal) by {
            let j = lemma_key_source(ps, left, right, i);
            assert(semantics::meets(b + p, cs[j]));
            let q = ps[j];
            let other = q.value->Column_0;
            semantics::lemma_combined_index(left, right, q.column);
            semantics::lemma_combined_index(left, right, other);
            row::lemma_column_index(left, q.column);
            row::lemma_column_index(right, q.column);
            row::lemma_column_index(left, other);
            row::lemma_column_index(right, other);
            value::lemma_order_reverse(b[left_keys[i]], p[right_keys[i]]);
            assert(right_keys[i] == query_support::key_pairs(ps, left, right)[i].1);
            assert((b + p)[left_keys[i]] == b[left_keys[i]]);
            assert((b + p)[left.len() + right_keys[i]] == p[right_keys[i]]);
        }
    }
}

/// A key of rows.
pub open spec fn has_digest(keys: Seq<int>, d: u64) -> spec_fn(RowView) -> bool {
    |r: RowView| hash::digest(r, keys) == d
}

/// Only rows with the digest of the probe row can match it.
pub proof fn lemma_matches_select(
    builds: Seq<RowView>,
    pick: spec_fn(RowView) -> bool,
    probe: RowView,
    build_is_left: bool,
    ps: Seq<CompiledView>,
)
    requires
        forall|i: int|
            0 <= i < builds.len() && semantics::holds(
                semantics::joined_row(#[trigger] builds[i], probe, build_is_left),
                ps,
            ) ==> pick(builds[i]),
    ensures
        semantics::matches_of(bag::select(builds, pick), probe, build_is_left, ps)
            == semantics::matches_of(builds, probe, build_is_left, ps),
    decreases builds.len(),
{
    if builds.len() > 0 {
        let front = builds.drop_last();
        assert forall|i: int|
            0 <= i < front.len() && semantics::holds(
                semantics::joined_row(#[trigger] front[i], probe, build_is_left),
                ps,
            ) implies pick(front[i]) by {
            assert(front[i] == builds[i]);
        }
        lemma_matches_select(front, pick, probe, build_is_left, ps);
        let chosen = bag::select(front, pick);
        assert(builds[builds.len() - 1] == builds.last());
        if pick(builds.last()) {
            assert(chosen.push(builds.last()).drop_last() =~= chosen);
        }
    }
}

/// The rows of the build side with the digest of a probe row are all that can
/// match it.
pub proof fn lemma_matches_digest(
    builds: Seq<RowView>,
    build_keys: Seq<int>,
    probe: RowView,
    probe_keys: Seq<int>,
    build_width: nat,
    build_is_left: bool,
    ps: Seq<CompiledView>,
)
    requires
        keyed(build_keys, probe_keys, build_width, probe.len(), build_is_left, ps),
        semantics::all_wide(builds, build_width),
    ensures
        semantics::matches_of(
            bag::select(builds, has_digest(build_keys, hash::digest(probe, probe_keys))),
            probe,
            build_is_left,
            ps,
        ) == semantics::matches_of(builds, probe, build_is_left, ps),
{
    let pick = has_digest(build_keys, hash::digest(probe, probe_keys));
    assert forall|i: int|
        0 <= i < builds.len() && semantics::holds(
            semantics::joined_row(#[trigger] builds[i], probe, build_is_left),
            ps,
        ) implies pick(builds[i]) by {
        hash::lemma_equal_digests(builds[i], build_keys, probe, probe_keys);
    }
    lemma_matches_select(builds, pick, probe, build_is_left, ps);
}

/// Rows of a partition.
pub open spec fn in_part(keys: Seq<int>, depth: int, j: int) -> spec_fn(RowView) -> bool {
    |r: RowView| hash::partition_of(hash::digest(r, keys), depth) == j
}

/// Rows of a partition whose digests a filter shows.
pub open spec fn in_shown_part(
    keys: Seq<int>,
    depth: int,
    j: int,
    shown: spec_fn(u64) -> bool,
) -> spec_fn(RowView) -> bool {
    |r: RowView|
        hash::partition_of(hash::digest(r, keys), depth) == j && shown(hash::digest(r, keys))
}

/// What the first `n` partitions of two sides make, each with its own.
pub open spec fn parts_bag(
    builds: Seq<Seq<RowView>>,
    probes: Seq<Seq<RowView>>,
    n: int,
    build_is_left: bool,
    ps: Seq<CompiledView>,
) -> Multiset<RowView>
    decreases n,
{
    if n <= 0 {
        Multiset::empty()
    } else {
        parts_bag(builds, probes, n - 1, build_is_left, ps).add(
            semantics::probe_bag(builds[n - 1], probes[n - 1], build_is_left, ps),
        )
    }
}

/// A partition stands for some sequence of the rows that belong to it.
pub open spec fn parted(
    parts: Seq<Seq<RowView>>,
    rows: Seq<RowView>,
    pick: spec_fn(int) -> spec_fn(RowView) -> bool,
) -> bool {
    &&& parts.len() == hash::PARTITION_FANOUT
    &&& forall|j: int|
        0 <= j < parts.len() ==> bag::bag(#[trigger] parts[j]) == bag::bag(
            bag::select(rows, pick(j)),
        )
}

/// Digests that no row of the build side has may be left out of the probe
/// side.
pub open spec fn covers(builds: Seq<RowView>, keys: Seq<int>, shown: spec_fn(u64) -> bool) -> bool {
    forall|i: int| 0 <= i < builds.len() ==> shown(hash::digest(#[trigger] builds[i], keys))
}

/// The picks of partitions at a depth.
pub open spec fn part_picks(keys: Seq<int>, depth: int) -> spec_fn(int) -> spec_fn(RowView) -> bool {
    |j: int| in_part(keys, depth, j)
}

/// The picks of partitions at a depth, of the rows that a filter shows.
pub open spec fn shown_picks(
    keys: Seq<int>,
    depth: int,
    shown: spec_fn(u64) -> bool,
) -> spec_fn(int) -> spec_fn(RowView) -> bool {
    |j: int| in_shown_part(keys, depth, j, shown)
}

/// A filter that shows everything leaves nothing out.
pub proof fn lemma_all_shown(
    parts: Seq<Seq<RowView>>,
    rows: Seq<RowView>,
    keys: Seq<int>,
    depth: int,
    shown: spec_fn(u64) -> bool,
)
    requires
        parted(parts, rows, shown_picks(keys, depth, shown)),
        forall|d: u64| #[trigger] shown(d),
    ensures
        parted(parts, rows, part_picks(keys, depth)),
{
    let picks = part_picks(keys, depth);
    assert forall|j: int| 0 <= j < parts.len() implies bag::bag(#[trigger] parts[j]) == bag::bag(
        bag::select(rows, picks(j)),
    ) by {
        assert(in_shown_part(keys, depth, j, shown) =~= in_part(keys, depth, j));
        assert(shown_picks(keys, depth, shown)(j) == picks(j));
    }
}

spec fn chosen(
    rows: Seq<RowView>,
    pick: spec_fn(int) -> spec_fn(RowView) -> bool,
) -> Seq<Seq<RowView>> {
    Seq::new(hash::PARTITION_FANOUT as nat, |j: int| bag::select(rows, pick(j)))
}

proof fn lemma_parts_same(
    b1: Seq<Seq<RowView>>,
    p1: Seq<Seq<RowView>>,
    b2: Seq<Seq<RowView>>,
    p2: Seq<Seq<RowView>>,
    n: int,
    build_is_left: bool,
    ps: Seq<CompiledView>,
)
    requires
        forall|j: int| 0 <= j < n ==> bag::bag(#[trigger] b1[j]) == bag::bag(b2[j]),
        forall|j: int| 0 <= j < n ==> bag::bag(#[trigger] p1[j]) == bag::bag(p2[j]),
    ensures
        parts_bag(b1, p1, n, build_is_left, ps) == parts_bag(b2, p2, n, build_is_left, ps),
    decreases n,
{
    if n > 0 {
        lemma_parts_same(b1, p1, b2, p2, n - 1, build_is_left, ps);
        let j = n - 1;
        assert(bag::bag(b1[j]) == bag::bag(b2[j]));
        assert(bag::bag(p1[j]) == bag::bag(p2[j]));
        lemma_probe_same(b1[j], p1[j], b2[j], p2[j], build_is_left, ps);
    }
}

/// What a join makes does not depend on the order of its sides.
pub proof fn lemma_probe_same(
    b1: Seq<RowView>,
    p1: Seq<RowView>,
    b2: Seq<RowView>,
    p2: Seq<RowView>,
    build_is_left: bool,
    ps: Seq<CompiledView>,
)
    requires
        bag::bag(b1) == bag::bag(b2),
        bag::bag(p1) == bag::bag(p2),
    ensures
        semantics::probe_bag(b1, p1, build_is_left, ps) == semantics::probe_bag(
            b2,
            p2,
            build_is_left,
            ps,
        ),
{
    semantics::lemma_probe_bag(b1, p1, build_is_left, ps);
    semantics::lemma_probe_bag(b2, p2, build_is_left, ps);
    if build_is_left {
        semantics::lemma_join_same_bags(b1, p1, b2, p2, ps);
    } else {
        semantics::lemma_join_same_bags(p1, b1, p2, b2, ps);
    }
}

/// One probe row more in one of the partitions.
proof fn lemma_parts_push(
    builds: Seq<Seq<RowView>>,
    before: Seq<Seq<RowView>>,
    after: Seq<Seq<RowView>>,
    k: int,
    x: RowView,
    n: int,
    build_is_left: bool,
    ps: Seq<CompiledView>,
)
    requires
        0 <= k,
        forall|j: int| 0 <= j < n && j != k ==> #[trigger] after[j] == before[j],
        k < n ==> after[k] == before[k].push(x),
    ensures
        parts_bag(builds, after, n, build_is_left, ps) == if k < n {
            parts_bag(builds, before, n, build_is_left, ps).add(
                semantics::match_bag(builds[k], x, build_is_left, ps),
            )
        } else {
            parts_bag(builds, before, n, build_is_left, ps)
        },
    decreases n,
{
    if n > 0 {
        lemma_parts_push(builds, before, after, k, x, n - 1, build_is_left, ps);
        let g = |p: RowView| semantics::match_bag(builds[n - 1], p, build_is_left, ps);
        let front = parts_bag(builds, before, n - 1, build_is_left, ps);
        if k == n - 1 {
            bag::lemma_sum_push(before[k], x, g);
            let own = semantics::probe_bag(builds[k], before[k], build_is_left, ps);
            assert(front.add(own.add(g(x))) =~= front.add(own).add(g(x)));
        } else {
            assert(after[n - 1] == before[n - 1]);
            let own = semantics::probe_bag(builds[n - 1], before[n - 1], build_is_left, ps);
            if k < n - 1 {
                let m = semantics::match_bag(builds[k], x, build_is_left, ps);
                assert(front.add(m).add(own) =~= front.add(own).add(m));
            }
        }
    }
}

proof fn lemma_match_part(
    builds: Seq<RowView>,
    build_keys: Seq<int>,
    probe: RowView,
    probe_keys: Seq<int>,
    build_width: nat,
    depth: int,
    build_is_left: bool,
    ps: Seq<CompiledView>,
)
    requires
        keyed(build_keys, probe_keys, build_width, probe.len(), build_is_left, ps),
        semantics::all_wide(builds, build_width),
    ensures
        semantics::match_bag(
            bag::select(
                builds,
                in_part(
                    build_keys,
                    depth,
                    hash::partition_of(hash::digest(probe, probe_keys), depth),
                ),
            ),
            probe,
            build_is_left,
            ps,
        ) == semantics::match_bag(builds, probe, build_is_left, ps),
{
    let j = hash::partition_of(hash::digest(probe, probe_keys), depth);
    let pick = in_part(build_keys, depth, j);
    assert forall|i: int|
        0 <= i < builds.len() && semantics::holds(
            semantics::joined_row(#[trigger] builds[i], probe, build_is_left),
            ps,
        ) implies pick(builds[i]) by {
        hash::lemma_equal_digests(builds[i], build_keys, probe, probe_keys);
    }
    lemma_matches_select(builds, pick, probe, build_is_left, ps);
    semantics::lemma_matches_bag(bag::select(builds, pick), probe, build_is_left, ps);
    semantics::lemma_matches_bag(builds, probe, build_is_left, ps);
}

/// A probe row whose digest no build row has matches nothing.
pub proof fn lemma_hidden_matches_nothing(
    builds: Seq<RowView>,
    build_keys: Seq<int>,
    probe: RowView,
    probe_keys: Seq<int>,
    build_width: nat,
    shown: spec_fn(u64) -> bool,
    build_is_left: bool,
    ps: Seq<CompiledView>,
)
    requires
        keyed(build_keys, probe_keys, build_width, probe.len(), build_is_left, ps),
        semantics::all_wide(builds, build_width),
        covers(builds, build_keys, shown),
        !shown(hash::digest(probe, probe_keys)),
    ensures
        semantics::match_bag(builds, probe, build_is_left, ps) == Multiset::<RowView>::empty(),
{
    let none = |r: RowView| false;
    assert forall|i: int|
        0 <= i < builds.len() && semantics::holds(
            semantics::joined_row(#[trigger] builds[i], probe, build_is_left),
            ps,
        ) implies none(builds[i]) by {
        hash::lemma_equal_digests(builds[i], build_keys, probe, probe_keys);
        assert(shown(hash::digest(builds[i], build_keys)));
    }
    lemma_matches_select(builds, none, probe, build_is_left, ps);
    bag::lemma_select_members(builds, none);
    let empty = bag::select(builds, none);
    assert(empty.len() == 0) by {
        if empty.len() > 0 {
            assert(none(empty[0]));
        }
    }
    semantics::lemma_matches_bag(builds, probe, build_is_left, ps);
    bag::lemma_bag_empty(semantics::matches_of(builds, probe, build_is_left, ps));
}

proof fn lemma_partition_range(d: u64, depth: int)
    ensures
        0 <= hash::partition_of(d, depth) < hash::PARTITION_FANOUT,
{
    let x = d >> ((depth * 3) as u64);
    assert(x & 7 < 8) by (bit_vector);
}

/// A join is what its partitions make: rows in different partitions do not
/// match, nor do rows that a filter over the build side does not show.
pub proof fn lemma_partitioned_join(
    builds: Seq<RowView>,
    build_parts: Seq<Seq<RowView>>,
    build_keys: Seq<int>,
    probes: Seq<RowView>,
    probe_parts: Seq<Seq<RowView>>,
    probe_keys: Seq<int>,
    build_width: nat,
    probe_width: nat,
    depth: int,
    shown: spec_fn(u64) -> bool,
    build_is_left: bool,
    ps: Seq<CompiledView>,
)
    requires
        keyed(build_keys, probe_keys, build_width, probe_width, build_is_left, ps),
        semantics::all_wide(builds, build_width),
        semantics::all_wide(probes, probe_width),
        parted(build_parts, builds, part_picks(build_keys, depth)),
        parted(probe_parts, probes, shown_picks(probe_keys, depth, shown)),
        covers(builds, build_keys, shown),
    ensures
        parts_bag(
            build_parts,
            probe_parts,
            hash::PARTITION_FANOUT as int,
            build_is_left,
            ps,
        ) == semantics::probe_bag(builds, probes, build_is_left, ps),
{
    let n = hash::PARTITION_FANOUT as int;
    let bs = chosen(builds, part_picks(build_keys, depth));
    let qs = chosen(probes, shown_picks(probe_keys, depth, shown));
    assert forall|j: int| 0 <= j < n implies bag::bag(#[trigger] build_parts[j]) == bag::bag(
        bs[j],
    ) by {}
    assert forall|j: int| 0 <= j < n implies bag::bag(#[trigger] probe_parts[j]) == bag::bag(
        qs[j],
    ) by {}
    lemma_parts_same(build_parts, probe_parts, bs, qs, n, build_is_left, ps);
    lemma_partitioned_step(
        builds,
        build_keys,
        probes,
        probe_keys,
        build_width,
        probe_width,
        depth,
        shown,
        build_is_left,
        ps,
    );
}

proof fn lemma_parts_empty(
    builds: Seq<Seq<RowView>>,
    probes: Seq<Seq<RowView>>,
    n: int,
    build_is_left: bool,
    ps: Seq<CompiledView>,
)
    requires
        forall|j: int| 0 <= j < n ==> (#[trigger] probes[j]).len() == 0,
    ensures
        parts_bag(builds, probes, n, build_is_left, ps) == Multiset::<RowView>::empty(),
    decreases n,
{
    if n > 0 {
        lemma_parts_empty(builds, probes, n - 1, build_is_left, ps);
        assert(probes[n - 1].len() == 0);
        assert(Multiset::<RowView>::empty().add(Multiset::empty()) =~= Multiset::empty());
    }
}

proof fn lemma_partitioned_step(
    builds: Seq<RowView>,
    build_keys: Seq<int>,
    probes: Seq<RowView>,
    probe_keys: Seq<int>,
    build_width: nat,
    probe_width: nat,
    depth: int,
    shown: spec_fn(u64) -> bool,
    build_is_left: bool,
    ps: Seq<CompiledView>,
)
    requires
        keyed(build_keys, probe_keys, build_width, probe_width, build_is_left, ps),
        semantics::all_wide(builds, build_width),
        semantics::all_wide(probes, probe_width),
        covers(builds, build_keys, shown),
    ensures
        parts_bag(
            chosen(builds, part_picks(build_keys, depth)),
            chosen(probes, shown_picks(probe_keys, depth, shown)),
            hash::PARTITION_FANOUT as int,
            build_is_left,
            ps,
        ) == semantics::probe_bag(builds, probes, build_is_left, ps),
    decreases probes.len(),
{
    let n = hash::PARTITION_FANOUT as int;
    let bs = chosen(builds, part_picks(build_keys, depth));
    let picks = shown_picks(probe_keys, depth, shown);
    let qs = chosen(probes, picks);
    if probes.len() == 0 {
        assert forall|j: int| 0 <= j < n implies (#[trigger] qs[j]).len() == 0 by {}
        lemma_parts_empty(bs, qs, n, build_is_left, ps);
    } else {
        let front = probes.drop_last();
        let x = probes.last();
        assert(semantics::all_wide(front, probe_width)) by {
            assert forall|i: int| 0 <= i < front.len() implies (#[trigger] front[i]).len()
                == probe_width by {
                assert(front[i] == probes[i]);
            }
        }
        assert(probes[probes.len() - 1].len() == probe_width);
        lemma_partitioned_step(
            builds,
            build_keys,
            front,
            probe_keys,
            build_width,
            probe_width,
            depth,
            shown,
            build_is_left,
            ps,
        );
        let before = chosen(front, picks);
        let d = hash::digest(x, probe_keys);
        lemma_partition_range(d, depth);
        let k = hash::partition_of(d, depth);
        let g = |p: RowView| semantics::match_bag(builds, p, build_is_left, ps);
        assert(semantics::probe_bag(builds, probes, build_is_left, ps) == semantics::probe_bag(
            builds,
            front,
            build_is_left,
            ps,
        ).add(g(x)));
        if shown(d) {
            assert forall|j: int| 0 <= j < n && j != k implies #[trigger] qs[j] == before[j] by {
                assert(!picks(j)(x));
            }
            assert(picks(k)(x));
            lemma_parts_push(bs, before, qs, k, x, n, build_is_left, ps);
            lemma_match_part(
                builds,
                build_keys,
                x,
                probe_keys,
                build_width,
                depth,
                build_is_left,
                ps,
            );
        } else {
            assert forall|j: int| 0 <= j < n implies #[trigger] qs[j] == before[j] by {
                assert(!picks(j)(x));
            }
            assert(qs =~= before);
            lemma_hidden_matches_nothing(
                builds,
                build_keys,
                x,
                probe_keys,
                build_width,
                shown,
                build_is_left,
                ps,
            );
            let all = semantics::probe_bag(builds, front, build_is_left, ps);
            assert(all.add(Multiset::empty()) =~= all);
        }
    }
}

} // verus!
