//! Rewriting a cross product leaves its answers right.

use vstd::prelude::*;
use vstd::multiset::Multiset;

use crate::bag;
use crate::catalog::table::ColumnView;
use crate::optimizer::congruence;
use crate::optimizer::equivalence;
use crate::optimizer::reorder;
use crate::optimizer::rules;
use crate::query::{OpView, PredicateView};
use crate::query_support;
use crate::row;
use crate::semantics;
use crate::semantics::{Database, RowView};

verus! {

broadcast use semantics::lemma_all_sound;

/// The bag of the rows of a cross product.
proof fn lemma_cross_sum(lefts: Seq<RowView>, rights: Seq<RowView>)
    ensures
        bag::bag(semantics::cross_rows(lefts, rights)) == bag::sum_over(
            lefts,
            |l: RowView| bag::sum_over(rights, |r: RowView| Multiset::singleton(l + r)),
        ),
    decreases lefts.len(),
{
    if lefts.len() == 0 {
        bag::lemma_bag_empty(semantics::cross_rows(lefts, rights));
    } else {
        let l = lefts.last();
        lemma_cross_sum(lefts.drop_last(), rights);
        bag::lemma_bag_concat(
            semantics::cross_rows(lefts.drop_last(), rights),
            semantics::pair_rows(l, rights),
        );
        bag::lemma_images_sum(rights, |r: RowView| l + r);
        assert(semantics::pair_rows(l, rights) =~= bag::images(rights, |r: RowView| l + r));
        let f = |r: RowView| l + r;
        assert((|r: RowView| Multiset::singleton(f(r))) =~= (|r: RowView|
            Multiset::singleton(l + r)));
    }
}

/// Where the columns of two sides stand when the sides change places.
spec fn crossed(left: nat, right: nat) -> Seq<int> {
    Seq::new(left + right, |i: int| if i < left {
        right + i
    } else {
        i - left
    })
}

/// A row with its sides exchanged.
proof fn lemma_crossed_row(l: RowView, r: RowView)
    ensures
        row::project_row(r + l, crossed(l.len(), r.len())) == l + r,
{
    assert(row::project_row(r + l, crossed(l.len(), r.len())) =~= l + r);
}

/// The rows of a cross product with its sides exchanged, each with its sides
/// exchanged again.
proof fn lemma_crossed_sum(lefts: Seq<RowView>, rights: Seq<RowView>, left: nat, right: nat)
    requires
        semantics::all_wide(lefts, left),
        semantics::all_wide(rights, right),
    ensures
        bag::bag(
            semantics::project_rows(semantics::cross_rows(rights, lefts), crossed(left, right)),
        ) == bag::sum_over(
            rights,
            |r: RowView| bag::sum_over(lefts, |l: RowView| Multiset::singleton(l + r)),
        ),
    decreases rights.len(),
{
    let picks = crossed(left, right);
    let whole = semantics::project_rows(semantics::cross_rows(rights, lefts), picks);
    if rights.len() == 0 {
        bag::lemma_bag_empty(whole);
    } else {
        let front = rights.drop_last();
        let r = rights.last();
        assert(semantics::all_wide(front, right)) by {
            assert forall|i: int| 0 <= i < front.len() implies (#[trigger] front[i]).len()
                == right by {
                assert(front[i] == rights[i]);
            }
        }
        assert(rights[rights.len() - 1].len() == right);
        lemma_crossed_sum(lefts, front, left, right);
        let before = semantics::project_rows(semantics::cross_rows(front, lefts), picks);
        let f = |l: RowView| l + r;
        let last = bag::images(lefts, f);
        assert(whole =~= before + last) by {
            let pairs = semantics::pair_rows(r, lefts);
            let n = semantics::cross_rows(front, lefts).len();
            assert forall|i: int| 0 <= i < whole.len() implies whole[i] == (before + last)[i] by {
                if i >= n {
                    let k = i - n;
                    assert(lefts[k].len() == left);
                    assert(semantics::cross_rows(rights, lefts)[i] == pairs[k]);
                    lemma_crossed_row(lefts[k], r);
                }
            }
        }
        bag::lemma_bag_concat(before, last);
        bag::lemma_images_sum(lefts, f);
        assert((|l: RowView| Multiset::singleton(f(l))) =~= (|l: RowView|
            Multiset::singleton(l + r)));
    }
}

/// It does not matter which side of joined rows is summed over first.
proof fn lemma_sums_swap(lefts: Seq<RowView>, rights: Seq<RowView>)
    ensures
        bag::sum_over(
            lefts,
            |l: RowView| bag::sum_over(rights, |r: RowView| Multiset::singleton(l + r)),
        ) == bag::sum_over(
            rights,
            |r: RowView| bag::sum_over(lefts, |l: RowView| Multiset::singleton(l + r)),
        ),
{
    let g = |l: RowView, r: RowView| Multiset::singleton(l + r);
    bag::lemma_sum_swap(lefts, rights, g);
    let by_left = |l: RowView| bag::sum_over(rights, |r: RowView| Multiset::singleton(l + r));
    let by_left_g = |l: RowView| bag::sum_over(rights, |r: RowView| g(l, r));
    assert forall|i: int| 0 <= i < lefts.len() implies by_left(#[trigger] lefts[i]) == by_left_g(
        lefts[i],
    ) by {
        let l = lefts[i];
        bag::lemma_sum_same(
            rights,
            |r: RowView| Multiset::singleton(l + r),
            |r: RowView| g(l, r),
        );
    }
    bag::lemma_sum_same(lefts, by_left, by_left_g);
    let by_right = |r: RowView| bag::sum_over(lefts, |l: RowView| Multiset::singleton(l + r));
    let by_right_g = |r: RowView| bag::sum_over(lefts, |l: RowView| g(l, r));
    assert forall|i: int| 0 <= i < rights.len() implies by_right(#[trigger] rights[i])
        == by_right_g(rights[i]) by {
        let r = rights[i];
        bag::lemma_sum_same(
            lefts,
            |l: RowView| Multiset::singleton(l + r),
            |l: RowView| g(l, r),
        );
    }
    bag::lemma_sum_same(rights, by_right, by_right_g);
}

/// The columns of exchanged sides.
proof fn lemma_crossed_columns(cl: Seq<ColumnView>, cr: Seq<ColumnView>)
    requires
        equivalence::distinct_names(cl + cr),
    ensures
        equivalence::same_columns(cl + cr, cr + cl),
        equivalence::distinct_names(cr + cl),
        equivalence::places(cr + cl, cl + cr) == crossed(cl.len(), cr.len()),
{
    let (a, b) = (cl + cr, cr + cl);
    assert forall|i: int, j: int| 0 <= i < j < b.len() implies (#[trigger] b[i]).name != (
    #[trigger] b[j]).name by {
        let x: int = if i < cr.len() {
            cl.len() + i
        } else {
            i - cr.len()
        };
        let y: int = if j < cr.len() {
            cl.len() + j
        } else {
            j - cr.len()
        };
        assert(b[i] == a[x] && b[j] == a[y]);
        if x < y {
            assert(a[x].name != a[y].name);
        } else {
            assert(a[y].name != a[x].name);
        }
    }
    assert forall|i: int| 0 <= i < a.len() implies row::column_index(b, (#[trigger] a[i]).name)
        == Some(crossed(cl.len(), cr.len())[i]) && b[crossed(cl.len(), cr.len())[i]] == a[i] by {
        let x = crossed(cl.len(), cr.len())[i];
        assert(b[x] == a[i]);
        equivalence::lemma_own_place(b, x);
    }
    assert forall|i: int| 0 <= i < b.len() implies query_support::has_column(
        a,
        (#[trigger] b[i]).name,
    ) by {
        let x: int = if i < cr.len() {
            cl.len() + i
        } else {
            i - cr.len()
        };
        assert(b[i] == a[x]);
        equivalence::lemma_own_place(a, x);
    }
    assert(equivalence::places(b, a) =~= crossed(cl.len(), cr.len())) by {
        assert forall|i: int| 0 <= i < a.len() implies equivalence::places(b, a)[i] == crossed(
            cl.len(),
            cr.len(),
        )[i] by {
            assert(row::column_index(b, a[i].name) == Some(crossed(cl.len(), cr.len())[i]));
        }
    }
}

/// A cross product stands for the one with its sides exchanged.
pub proof fn lemma_cross_swapped(l: OpView, r: OpView, db: Database, g: Set<PredicateView>)
    requires
        semantics::all_sound(db),
        equivalence::clear(OpView::Cross(Box::new(l), Box::new(r)), db.tables, g),
    ensures
        equivalence::stands_for(
            OpView::Cross(Box::new(r), Box::new(l)),
            OpView::Cross(Box::new(l), Box::new(r)),
            db,
            g,
        ),
{
    reveal(equivalence::stands_for);
    let a = OpView::Cross(Box::new(l), Box::new(r));
    let b = OpView::Cross(Box::new(r), Box::new(l));
    let (cl, cr) = (equivalence::cols(l, db.tables), equivalence::cols(r, db.tables));
    semantics::lemma_known_schema(l, db.tables);
    semantics::lemma_known_schema(r, db.tables);
    equivalence::lemma_rows_wide(l, db);
    equivalence::lemma_rows_wide(r, db);
    assert(equivalence::cols(a, db.tables) == cl + cr);
    assert(equivalence::cols(b, db.tables) == cr + cl);
    lemma_crossed_columns(cl, cr);
    let (lr, rr) = (semantics::rows_of(l, db), semantics::rows_of(r, db));
    lemma_crossed_sum(lr, rr, cl.len(), cr.len());
    lemma_cross_sum(lr, rr);
    lemma_sums_swap(lr, rr);
    assert forall|out: Seq<RowView>| #[trigger]
        semantics::delivers(b, db, out) implies semantics::delivers(
        a,
        db,
        equivalence::turned(out, b, a, db.tables),
    ) by {
        semantics::lemma_project_bag(
            out,
            semantics::rows_of(b, db),
            equivalence::places(cr + cl, cl + cr),
        );
    }
}

/// The cross product with the larger side first stands for the one as it is.
pub proof fn lemma_larger_first(l: OpView, r: OpView, db: Database, g: Set<PredicateView>)
    requires
        semantics::all_sound(db),
        equivalence::clear(OpView::Cross(Box::new(l), Box::new(r)), db.tables, g),
    ensures
        equivalence::stands_for(
            rules::larger_first(l, r, db.tables),
            OpView::Cross(Box::new(l), Box::new(r)),
            db,
            g,
        ),
{
    lemma_cross_swapped(l, r, db, g);
    equivalence::lemma_stands_self(OpView::Cross(Box::new(l), Box::new(r)), db, g);
}

/// Rows joined one after the other are joined as one.
proof fn lemma_cross_associates(a: Seq<RowView>, b: Seq<RowView>, c: Seq<RowView>)
    ensures
        semantics::cross_rows(semantics::cross_rows(a, b), c) == semantics::cross_rows(
            a,
            semantics::cross_rows(b, c),
        ),
    decreases a.len(),
{
    if a.len() > 0 {
        let front = a.drop_last();
        let x = a.last();
        lemma_cross_associates(front, b, c);
        lemma_cross_concat(semantics::cross_rows(front, b), semantics::pair_rows(x, b), c);
        lemma_pairs_associate(x, b, c);
    } else {
        assert(semantics::cross_rows(semantics::cross_rows(a, b), c) =~= semantics::cross_rows(
            a,
            semantics::cross_rows(b, c),
        ));
    }
}

/// A row joined with joined rows.
proof fn lemma_pairs_associate(x: RowView, b: Seq<RowView>, c: Seq<RowView>)
    ensures
        semantics::cross_rows(semantics::pair_rows(x, b), c) == semantics::pair_rows(
            x,
            semantics::cross_rows(b, c),
        ),
    decreases b.len(),
{
    let pairs = semantics::pair_rows(x, b);
    let joined = semantics::cross_rows(b, c);
    if b.len() == 0 {
        assert(semantics::cross_rows(pairs, c) =~= semantics::pair_rows(x, joined));
    } else {
        let front = b.drop_last();
        let y = b.last();
        lemma_pairs_associate(x, front, c);
        assert(pairs.drop_last() =~= semantics::pair_rows(x, front));
        assert(pairs.last() == x + y);
        let rest = semantics::cross_rows(front, c);
        assert(semantics::pair_rows(x, joined) =~= semantics::pair_rows(x, rest)
            + semantics::pair_rows(x + y, c)) by {
            assert forall|i: int| 0 <= i < joined.len() implies semantics::pair_rows(x, joined)[i]
                == (semantics::pair_rows(x, rest) + semantics::pair_rows(x + y, c))[i] by {
                if i >= rest.len() {
                    let k = i - rest.len();
                    assert(joined[i] == y + c[k]);
                    assert(x + (y + c[k]) =~= (x + y) + c[k]);
                }
            }
        }
    }
}

/// Rows behind others, joined.
proof fn lemma_cross_concat(a: Seq<RowView>, b: Seq<RowView>, c: Seq<RowView>)
    ensures
        semantics::cross_rows(a + b, c) == semantics::cross_rows(a, c) + semantics::cross_rows(
            b,
            c,
        ),
    decreases b.len(),
{
    if b.len() == 0 {
        assert(a + b =~= a);
        assert(semantics::cross_rows(a, c) + semantics::cross_rows(b, c) =~= semantics::cross_rows(
            a,
            c,
        ));
    } else {
        lemma_cross_concat(a, b.drop_last(), c);
        assert((a + b).drop_last() =~= a + b.drop_last());
        assert((a + b).last() == b.last());
        assert(semantics::cross_rows(a + b, c) =~= semantics::cross_rows(a, c)
            + semantics::cross_rows(b, c));
    }
}

/// What it takes for cross products of three to be clear in either order.
proof fn lemma_three_clear(a: OpView, b: OpView, c: OpView, db: Database, g: Set<PredicateView>)
    ensures
        ({
            let left = OpView::Cross(
                Box::new(OpView::Cross(Box::new(a), Box::new(b))),
                Box::new(c),
            );
            let right = OpView::Cross(
                Box::new(a),
                Box::new(OpView::Cross(Box::new(b), Box::new(c))),
            );
            &&& equivalence::clear(left, db.tables, g) <==> equivalence::clear(right, db.tables, g)
            &&& equivalence::clear(left, db.tables, g) ==> equivalence::cols(left, db.tables)
                == equivalence::cols(right, db.tables)
            &&& semantics::rows_of(left, db) == semantics::rows_of(right, db)
        }),
{
    let (ab, bc) = (OpView::Cross(Box::new(a), Box::new(b)), OpView::Cross(Box::new(b), Box::new(c)));
    let left = OpView::Cross(Box::new(ab), Box::new(c));
    let right = OpView::Cross(Box::new(a), Box::new(bc));
    let t = db.tables;
    lemma_cross_associates(
        semantics::rows_of(a, db),
        semantics::rows_of(b, db),
        semantics::rows_of(c, db),
    );
    assert(semantics::rows_of(ab, db) == semantics::cross_rows(
        semantics::rows_of(a, db),
        semantics::rows_of(b, db),
    ));
    assert(semantics::rows_of(bc, db) == semantics::cross_rows(
        semantics::rows_of(b, db),
        semantics::rows_of(c, db),
    ));
    assert(semantics::op_known(ab, t) == (semantics::op_known(a, t) && semantics::op_known(b, t)));
    assert(semantics::op_known(bc, t) == (semantics::op_known(b, t) && semantics::op_known(c, t)));
    if semantics::op_known(a, t) && semantics::op_known(b, t) && semantics::op_known(c, t) {
        semantics::lemma_known_schema(a, t);
        semantics::lemma_known_schema(b, t);
        semantics::lemma_known_schema(c, t);
        let (ca, cb, cc) = (
            equivalence::cols(a, t),
            equivalence::cols(b, t),
            equivalence::cols(c, t),
        );
        assert(equivalence::cols(ab, t) == ca + cb);
        assert(equivalence::cols(bc, t) == cb + cc);
        assert(equivalence::cols(left, t) == (ca + cb) + cc);
        assert(equivalence::cols(right, t) == ca + (cb + cc));
        assert((ca + cb) + cc =~= ca + (cb + cc));
        let all = equivalence::cols(left, t);
        if equivalence::distinct_names(all) {
            assert forall|i: int, j: int| 0 <= i < j < (ca + cb).len() implies (#[trigger] (ca
                + cb)[i]).name != (#[trigger] (ca + cb)[j]).name by {
                assert(all[i] == (ca + cb)[i] && all[j] == (ca + cb)[j]);
            }
            assert forall|i: int, j: int| 0 <= i < j < (cb + cc).len() implies (#[trigger] (cb
                + cc)[i]).name != (#[trigger] (cb + cc)[j]).name by {
                assert(all[ca.len() + i] == (cb + cc)[i] && all[ca.len() + j] == (cb + cc)[j]);
            }
        }
        assert(equivalence::told_apart(ab, t, g) == (equivalence::distinct_names(ca + cb)
            && equivalence::told_apart(a, t, g) && equivalence::told_apart(b, t, g)));
        assert(equivalence::told_apart(bc, t, g) == (equivalence::distinct_names(cb + cc)
            && equivalence::told_apart(b, t, g) && equivalence::told_apart(c, t, g)));
    }
}

/// Joining two inputs first stands for joining the last two first, and the other
/// way round.
proof fn lemma_cross_regrouped(a: OpView, b: OpView, c: OpView, db: Database, g: Set<PredicateView>)
    requires
        semantics::all_sound(db),
        equivalence::clear(
            OpView::Cross(Box::new(a), Box::new(OpView::Cross(Box::new(b), Box::new(c)))),
            db.tables,
            g,
        ),
    ensures
        ({
            let left = OpView::Cross(
                Box::new(OpView::Cross(Box::new(a), Box::new(b))),
                Box::new(c),
            );
            let right = OpView::Cross(
                Box::new(a),
                Box::new(OpView::Cross(Box::new(b), Box::new(c))),
            );
            &&& equivalence::clear(left, db.tables, g)
            &&& equivalence::stands_for(left, right, db, g)
            &&& equivalence::stands_for(right, left, db, g)
        }),
{
    lemma_three_clear(a, b, c, db, g);
    let left = OpView::Cross(Box::new(OpView::Cross(Box::new(a), Box::new(b))), Box::new(c));
    let right = OpView::Cross(Box::new(a), Box::new(OpView::Cross(Box::new(b), Box::new(c))));
    assert(!semantics::is_pipeline(left) && !semantics::is_sorted_chain(left));
    assert(!semantics::is_pipeline(right) && !semantics::is_sorted_chain(right));
    equivalence::lemma_stands_same(left, right, db, g);
    equivalence::lemma_stands_same(right, left, db, g);
}

/// The last two inputs of a join can be exchanged.
proof fn lemma_last_exchanged(a: OpView, x: OpView, y: OpView, db: Database, g: Set<PredicateView>)
    requires
        semantics::all_sound(db),
        equivalence::clear(
            OpView::Cross(Box::new(OpView::Cross(Box::new(a), Box::new(x))), Box::new(y)),
            db.tables,
            g,
        ),
    ensures
        equivalence::stands_for(
            OpView::Cross(Box::new(OpView::Cross(Box::new(a), Box::new(y))), Box::new(x)),
            OpView::Cross(Box::new(OpView::Cross(Box::new(a), Box::new(x))), Box::new(y)),
            db,
            g,
        ),
{
    let from = OpView::Cross(Box::new(OpView::Cross(Box::new(a), Box::new(x))), Box::new(y));
    let xy = OpView::Cross(Box::new(x), Box::new(y));
    let yx = OpView::Cross(Box::new(y), Box::new(x));
    let right = OpView::Cross(Box::new(a), Box::new(xy));
    let turned = OpView::Cross(Box::new(a), Box::new(yx));
    let to = OpView::Cross(Box::new(OpView::Cross(Box::new(a), Box::new(y))), Box::new(x));
    lemma_three_clear(a, x, y, db, g);
    lemma_cross_regrouped(a, x, y, db, g);
    assert(equivalence::clear(xy, db.tables, g));
    assert(equivalence::clear(a, db.tables, g));
    lemma_cross_swapped(x, y, db, g);
    equivalence::lemma_stands_self(a, db, g);
    congruence::lemma_cross_below(a, a, yx, xy, db, g);
    equivalence::lemma_stands_trans(turned, right, from, db, g);
    equivalence::lemma_stands_clear(turned, right, db, g);
    lemma_cross_regrouped(a, y, x, db, g);
    equivalence::lemma_stands_trans(to, turned, from, db, g);
}

/// Inputs joined one after the other stand for two joins of them, joined.
proof fn lemma_left_deep_append(xs: Seq<OpView>, ys: Seq<OpView>, db: Database, g: Set<PredicateView>)
    requires
        semantics::all_sound(db),
        xs.len() > 0,
        ys.len() > 0,
        equivalence::clear(
            OpView::Cross(
                Box::new(reorder::left_deep(xs)),
                Box::new(reorder::left_deep(ys)),
            ),
            db.tables,
            g,
        ),
    ensures
        equivalence::stands_for(
            reorder::left_deep(xs + ys),
            OpView::Cross(
                Box::new(reorder::left_deep(xs)),
                Box::new(reorder::left_deep(ys)),
            ),
            db,
            g,
        ),
    decreases ys.len(),
{
    let a = reorder::left_deep(xs);
    let all = xs + ys;
    let y = ys.last();
    let front = ys.drop_last();
    assert(all.last() == y);
    assert(all.drop_last() =~= xs + front);
    if ys.len() == 1 {
        assert(xs + front =~= xs);
        equivalence::lemma_stands_self(OpView::Cross(Box::new(a), Box::new(y)), db, g);
    } else {
        let b = reorder::left_deep(front);
        let from = OpView::Cross(Box::new(a), Box::new(reorder::left_deep(ys)));
        let ab = OpView::Cross(Box::new(a), Box::new(b));
        let left = OpView::Cross(Box::new(ab), Box::new(y));
        let to = reorder::left_deep(all);
        lemma_cross_regrouped(a, b, y, db, g);
        assert(equivalence::clear(ab, db.tables, g));
        assert(equivalence::clear(y, db.tables, g));
        lemma_left_deep_append(xs, front, db, g);
        equivalence::lemma_stands_self(y, db, g);
        congruence::lemma_cross_below(reorder::left_deep(xs + front), ab, y, y, db, g);
        equivalence::lemma_stands_trans(to, left, from, db, g);
    }
}

/// There is always an input.
pub proof fn lemma_some_leaf(op: OpView)
    ensures
        reorder::leaves(op).len() > 0,
        op is Cross ==> reorder::leaves(op).len() > 1,
    decreases op,
{
    if let OpView::Cross(l, r) = op {
        lemma_some_leaf(*l);
        lemma_some_leaf(*r);
    }
}

/// The inputs of a tree of cross products, joined one after the other, stand for
/// the tree.
pub proof fn lemma_left_deep_stands(op: OpView, db: Database, g: Set<PredicateView>)
    requires
        semantics::all_sound(db),
        equivalence::clear(op, db.tables, g),
    ensures
        equivalence::stands_for(reorder::left_deep(reorder::leaves(op)), op, db, g),
    decreases op,
{
    match op {
        OpView::Cross(l, r) => {
            let (xs, ys) = (reorder::leaves(*l), reorder::leaves(*r));
            lemma_some_leaf(*l);
            lemma_some_leaf(*r);
            lemma_left_deep_stands(*l, db, g);
            lemma_left_deep_stands(*r, db, g);
            let (a, b) = (reorder::left_deep(xs), reorder::left_deep(ys));
            let both = OpView::Cross(Box::new(a), Box::new(b));
            congruence::lemma_cross_below(a, *l, b, *r, db, g);
            equivalence::lemma_stands_clear(both, op, db, g);
            lemma_left_deep_append(xs, ys, db, g);
            equivalence::lemma_stands_trans(reorder::left_deep(xs + ys), both, op, db, g);
        },
        _ => {
            equivalence::lemma_stands_self(op, db, g);
        },
    }
}

/// An input can be taken in last.
proof fn lemma_moved_last(xs: Seq<OpView>, i: int, db: Database, g: Set<PredicateView>)
    requires
        semantics::all_sound(db),
        0 <= i < xs.len(),
        equivalence::clear(reorder::left_deep(xs), db.tables, g),
    ensures
        equivalence::stands_for(
            reorder::left_deep(xs.remove(i).push(xs[i])),
            reorder::left_deep(xs),
            db,
            g,
        ),
    decreases xs.len(),
{
    let x = xs[i];
    let moved = xs.remove(i).push(x);
    let from = reorder::left_deep(xs);
    if i == xs.len() - 1 {
        assert(moved =~= xs);
        equivalence::lemma_stands_self(from, db, g);
    } else {
        let front = xs.drop_last();
        let y = xs.last();
        let before = reorder::left_deep(front);
        assert(from == OpView::Cross(Box::new(before), Box::new(y)));
        assert(equivalence::clear(before, db.tables, g));
        assert(equivalence::clear(y, db.tables, g));
        let rest = front.remove(i);
        assert(moved.last() == x);
        assert(moved.drop_last() =~= rest.push(y));
        if rest.len() == 0 {
            assert(front =~= seq![x]);
            assert(before == x);
            assert(rest.push(y) =~= seq![y]);
            assert(reorder::left_deep(rest.push(y)) == y);
            lemma_cross_swapped(x, y, db, g);
        } else {
            lemma_moved_last(front, i, db, g);
            let a = reorder::left_deep(rest);
            assert(rest.push(x).drop_last() =~= rest);
            assert(rest.push(y).drop_last() =~= rest);
            let ax = OpView::Cross(Box::new(a), Box::new(x));
            assert(reorder::left_deep(rest.push(x)) == ax);
            equivalence::lemma_stands_self(y, db, g);
            congruence::lemma_cross_below(ax, before, y, y, db, g);
            let mid = OpView::Cross(Box::new(ax), Box::new(y));
            equivalence::lemma_stands_clear(mid, from, db, g);
            lemma_last_exchanged(a, x, y, db, g);
            let ay = OpView::Cross(Box::new(a), Box::new(y));
            assert(reorder::left_deep(rest.push(y)) == ay);
            equivalence::lemma_stands_trans(
                OpView::Cross(Box::new(ay), Box::new(x)),
                mid,
                from,
                db,
                g,
            );
        }
    }
}

/// Inputs can be taken in in any order.
pub proof fn lemma_any_order(xs: Seq<OpView>, ys: Seq<OpView>, db: Database, g: Set<PredicateView>)
    requires
        semantics::all_sound(db),
        xs.len() > 0,
        equivalence::clear(reorder::left_deep(xs), db.tables, g),
        bag::bag(xs) == bag::bag(ys),
    ensures
        equivalence::stands_for(reorder::left_deep(ys), reorder::left_deep(xs), db, g),
    decreases xs.len(),
{
    bag::lemma_bag_empty(xs);
    bag::lemma_bag_empty(ys);
    let y = ys.last();
    assert(ys.contains(y));
    let i = bag::lemma_same_bag_index(ys, xs, y);
    if xs.len() == 1 {
        assert(ys[0] == xs[0]);
        equivalence::lemma_stands_self(reorder::left_deep(xs), db, g);
    } else {
        let rest = xs.remove(i);
        let front = ys.drop_last();
        lemma_moved_last(xs, i, db, g);
        let moved = reorder::left_deep(rest.push(y));
        equivalence::lemma_stands_clear(moved, reorder::left_deep(xs), db, g);
        assert(rest.push(y).drop_last() =~= rest);
        let a = reorder::left_deep(rest);
        assert(moved == OpView::Cross(Box::new(a), Box::new(y)));
        assert(equivalence::clear(a, db.tables, g));
        assert(equivalence::clear(y, db.tables, g));
        bag::lemma_bag_remove(xs, i);
        bag::lemma_bag_remove(ys, ys.len() - 1);
        assert(ys.remove(ys.len() - 1) =~= front);
        lemma_any_order(rest, front, db, g);
        equivalence::lemma_stands_self(y, db, g);
        congruence::lemma_cross_below(reorder::left_deep(front), a, y, y, db, g);
        equivalence::lemma_stands_trans(
            reorder::left_deep(ys),
            moved,
            reorder::left_deep(xs),
            db,
            g,
        );
    }
}

} // verus!
