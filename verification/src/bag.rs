//! Sequences without their order.

use vstd::multiset::Multiset;
use vstd::prelude::*;

verus! {

/// The elements of a sequence, each as often as it occurs.
pub open spec fn bag<A>(s: Seq<A>) -> Multiset<A> {
    s.to_multiset()
}

/// What `g` makes of each element of a sequence, together.
pub open spec fn sum_over<A, B>(s: Seq<A>, g: spec_fn(A) -> Multiset<B>) -> Multiset<B>
    decreases s.len(),
{
    if s.len() == 0 {
        Multiset::empty()
    } else {
        sum_over(s.drop_last(), g).add(g(s.last()))
    }
}

/// One element more.
pub proof fn lemma_bag_push<A>(s: Seq<A>, x: A)
    ensures
        bag(s.push(x)) == bag(s).add(Multiset::singleton(x)),
        bag(s.push(x)) == bag(s).insert(x),
{
    broadcast use vstd::seq_lib::group_to_multiset_ensures;

    assert(bag(s.push(x)) =~= bag(s).insert(x));
    assert(bag(s).insert(x) =~= bag(s).add(Multiset::singleton(x)));
}

/// No elements.
pub proof fn lemma_bag_empty<A>(s: Seq<A>)
    ensures
        s.len() == 0 ==> bag(s) == Multiset::<A>::empty(),
        bag(Seq::<A>::empty()) == Multiset::<A>::empty(),
        bag(s) == Multiset::<A>::empty() ==> s.len() == 0,
        bag(s).len() == s.len(),
{
    broadcast use vstd::seq_lib::group_to_multiset_ensures;

    if s.len() == 0 {
        assert(s =~= Seq::<A>::empty());
    }
    assert(Seq::<A>::empty().to_multiset().len() == 0);
    assert(bag(Seq::<A>::empty()) =~= Multiset::<A>::empty());
}

/// Two sequences, one behind the other.
pub proof fn lemma_bag_concat<A>(a: Seq<A>, b: Seq<A>)
    ensures
        bag(a + b) == bag(a).add(bag(b)),
    decreases b.len(),
{
    if b.len() == 0 {
        lemma_bag_empty(b);
        assert(a + b =~= a);
        assert(bag(a).add(Multiset::empty()) =~= bag(a));
    } else {
        lemma_bag_concat(a, b.drop_last());
        lemma_bag_push(a + b.drop_last(), b.last());
        lemma_bag_push(b.drop_last(), b.last());
        assert(a + b =~= (a + b.drop_last()).push(b.last()));
        assert(b =~= b.drop_last().push(b.last()));
        assert(bag(a + b) =~= bag(a).add(bag(b)));
    }
}

/// An element taken out.
pub proof fn lemma_bag_remove<A>(s: Seq<A>, i: int)
    requires
        0 <= i < s.len(),
    ensures
        bag(s) == bag(s.remove(i)).insert(s[i]),
        bag(s.remove(i)) == bag(s).remove(s[i]),
        bag(s).count(s[i]) > 0,
{
    broadcast use vstd::seq_lib::group_to_multiset_ensures;

    assert(s.contains(s[i]));
    assert(bag(s).count(s[i]) > 0);
    assert(bag(s.remove(i)) =~= bag(s).remove(s[i]));
    assert(bag(s.remove(i)).insert(s[i]) =~= bag(s));
}

/// Elements that are in a bag are in the sequence.
pub proof fn lemma_bag_contains<A>(s: Seq<A>, x: A)
    ensures
        s.contains(x) <==> bag(s).count(x) > 0,
{
    broadcast use vstd::seq_lib::group_to_multiset_ensures;

}

/// Sequences with the same elements hold each element somewhere.
pub proof fn lemma_same_bag_index<A>(a: Seq<A>, b: Seq<A>, x: A) -> (i: int)
    requires
        bag(a) == bag(b),
        a.contains(x),
    ensures
        0 <= i < b.len(),
        b[i] == x,
{
    lemma_bag_contains(a, x);
    lemma_bag_contains(b, x);
    choose|i: int| 0 <= i < b.len() && b[i] == x
}

/// Sums of two sequences, one behind the other.
pub proof fn lemma_sum_concat<A, B>(a: Seq<A>, b: Seq<A>, g: spec_fn(A) -> Multiset<B>)
    ensures
        sum_over(a + b, g) == sum_over(a, g).add(sum_over(b, g)),
    decreases b.len(),
{
    if b.len() == 0 {
        assert(a + b =~= a);
        assert(sum_over(a, g).add(Multiset::empty()) =~= sum_over(a, g));
    } else {
        lemma_sum_concat(a, b.drop_last(), g);
        assert((a + b).drop_last() =~= a + b.drop_last());
        assert((a + b).last() == b.last());
        assert(sum_over(a + b, g) =~= sum_over(a, g).add(sum_over(b, g)));
    }
}

/// One element more.
pub proof fn lemma_sum_push<A, B>(s: Seq<A>, x: A, g: spec_fn(A) -> Multiset<B>)
    ensures
        sum_over(s.push(x), g) == sum_over(s, g).add(g(x)),
{
    assert(s.push(x).drop_last() =~= s);
}

/// Functions that agree on the elements have the same sum.
pub proof fn lemma_sum_same<A, B>(
    s: Seq<A>,
    f: spec_fn(A) -> Multiset<B>,
    g: spec_fn(A) -> Multiset<B>,
)
    requires
        forall|i: int| 0 <= i < s.len() ==> f(#[trigger] s[i]) == g(s[i]),
    ensures
        sum_over(s, f) == sum_over(s, g),
    decreases s.len(),
{
    if s.len() > 0 {
        assert forall|i: int| 0 <= i < s.drop_last().len() implies f(#[trigger] s.drop_last()[i])
            == g(s.drop_last()[i]) by {
            assert(s.drop_last()[i] == s[i]);
        }
        lemma_sum_same(s.drop_last(), f, g);
        assert(f(s[s.len() - 1]) == g(s[s.len() - 1]));
    }
}

/// An element taken out.
pub proof fn lemma_sum_remove<A, B>(s: Seq<A>, i: int, g: spec_fn(A) -> Multiset<B>)
    requires
        0 <= i < s.len(),
    ensures
        sum_over(s, g) == sum_over(s.remove(i), g).add(g(s[i])),
{
    let front = s.take(i);
    let back = s.skip(i + 1);
    assert(s =~= front.push(s[i]) + back);
    assert(s.remove(i) =~= front + back);
    lemma_sum_concat(front.push(s[i]), back, g);
    lemma_sum_concat(front, back, g);
    lemma_sum_push(front, s[i], g);
    assert(sum_over(s, g) =~= sum_over(s.remove(i), g).add(g(s[i])));
}

/// A sum does not depend on the order of the elements.
pub proof fn lemma_sum_bag<A, B>(a: Seq<A>, b: Seq<A>, g: spec_fn(A) -> Multiset<B>)
    requires
        bag(a) == bag(b),
    ensures
        sum_over(a, g) == sum_over(b, g),
    decreases a.len(),
{
    lemma_bag_empty(a);
    lemma_bag_empty(b);
    if a.len() > 0 {
        let x = a.last();
        assert(a.contains(x));
        let i = lemma_same_bag_index(a, b, x);
        lemma_bag_remove(b, i);
        lemma_bag_remove(a, a.len() - 1);
        assert(a.remove(a.len() - 1) =~= a.drop_last());
        lemma_sum_bag(a.drop_last(), b.remove(i), g);
        lemma_sum_remove(b, i, g);
    }
}

/// The sum of sums.
pub proof fn lemma_sum_add<A, B>(
    s: Seq<A>,
    f: spec_fn(A) -> Multiset<B>,
    g: spec_fn(A) -> Multiset<B>,
    h: spec_fn(A) -> Multiset<B>,
)
    requires
        forall|i: int| 0 <= i < s.len() ==> h(#[trigger] s[i]) == f(s[i]).add(g(s[i])),
    ensures
        sum_over(s, h) == sum_over(s, f).add(sum_over(s, g)),
    decreases s.len(),
{
    if s.len() > 0 {
        assert forall|i: int| 0 <= i < s.drop_last().len() implies h(#[trigger] s.drop_last()[i])
            == f(s.drop_last()[i]).add(g(s.drop_last()[i])) by {
            assert(s.drop_last()[i] == s[i]);
        }
        lemma_sum_add(s.drop_last(), f, g, h);
        assert(h(s[s.len() - 1]) == f(s[s.len() - 1]).add(g(s[s.len() - 1])));
        assert(sum_over(s, h) =~= sum_over(s, f).add(sum_over(s, g)));
    } else {
        assert(sum_over(s, h) =~= sum_over(s, f).add(sum_over(s, g)));
    }
}

/// A sum of nothing.
pub proof fn lemma_sum_empty<A, B>(s: Seq<A>, g: spec_fn(A) -> Multiset<B>)
    requires
        forall|i: int| 0 <= i < s.len() ==> g(#[trigger] s[i]) == Multiset::<B>::empty(),
    ensures
        sum_over(s, g) == Multiset::<B>::empty(),
    decreases s.len(),
{
    if s.len() > 0 {
        assert forall|i: int| 0 <= i < s.drop_last().len() implies g(#[trigger] s.drop_last()[i])
            == Multiset::<B>::empty() by {
            assert(s.drop_last()[i] == s[i]);
        }
        lemma_sum_empty(s.drop_last(), g);
        assert(g(s[s.len() - 1]) == Multiset::<B>::empty());
        assert(sum_over(s, g) =~= Multiset::<B>::empty());
    }
}

/// Two sums, one inside the other, can be exchanged.
pub proof fn lemma_sum_swap<A, B, C>(a: Seq<A>, b: Seq<B>, g: spec_fn(A, B) -> Multiset<C>)
    ensures
        sum_over(a, |x: A| sum_over(b, |y: B| g(x, y))) == sum_over(
            b,
            |y: B| sum_over(a, |x: A| g(x, y)),
        ),
    decreases a.len(),
{
    let outer = |x: A| sum_over(b, |y: B| g(x, y));
    let swapped = |y: B| sum_over(a, |x: A| g(x, y));
    if a.len() == 0 {
        lemma_sum_empty(b, swapped);
    } else {
        let front = a.drop_last();
        let x = a.last();
        lemma_sum_swap(front, b, g);
        let inner = |y: B| sum_over(front, |x: A| g(x, y));
        let last = |y: B| g(x, y);
        assert forall|i: int| 0 <= i < b.len() implies swapped(#[trigger] b[i]) == inner(b[i]).add(
            last(b[i]),
        ) by {}
        lemma_sum_add(b, inner, last, swapped);
    }
}

/// The elements of a sequence are its own sum.
pub proof fn lemma_sum_singletons<A>(s: Seq<A>)
    ensures
        sum_over(s, |x: A| Multiset::singleton(x)) == bag(s),
    decreases s.len(),
{
    let g = |x: A| Multiset::singleton(x);
    if s.len() == 0 {
        lemma_bag_empty(s);
    } else {
        lemma_sum_singletons(s.drop_last());
        lemma_bag_push(s.drop_last(), s.last());
        assert(s =~= s.drop_last().push(s.last()));
    }
}

/// Every element that a function is known on by what holds of all elements.
pub proof fn lemma_bag_forall<A>(a: Seq<A>, b: Seq<A>, p: spec_fn(A) -> bool)
    requires
        bag(a) == bag(b),
        forall|i: int| 0 <= i < a.len() ==> p(#[trigger] a[i]),
    ensures
        forall|i: int| 0 <= i < b.len() ==> p(#[trigger] b[i]),
{
    assert forall|i: int| 0 <= i < b.len() implies p(#[trigger] b[i]) by {
        assert(b.contains(b[i]));
        let j = lemma_same_bag_index(b, a, b[i]);
        assert(p(a[j]));
    }
}

/// The elements that are picked, in their order.
pub open spec fn select<A>(s: Seq<A>, pick: spec_fn(A) -> bool) -> Seq<A>
    decreases s.len(),
{
    if s.len() == 0 {
        Seq::empty()
    } else if pick(s.last()) {
        select(s.drop_last(), pick).push(s.last())
    } else {
        select(s.drop_last(), pick)
    }
}

/// Picking from one element more.
pub proof fn lemma_select_push<A>(s: Seq<A>, x: A, pick: spec_fn(A) -> bool)
    ensures
        select(s.push(x), pick) == if pick(x) {
            select(s, pick).push(x)
        } else {
            select(s, pick)
        },
{
    assert(s.push(x).drop_last() =~= s);
}

/// Every element that is picked was there.
pub proof fn lemma_select_members<A>(s: Seq<A>, pick: spec_fn(A) -> bool)
    ensures
        forall|i: int|
            0 <= i < select(s, pick).len() ==> s.contains(#[trigger] select(s, pick)[i]) && pick(
                select(s, pick)[i],
            ),
    decreases s.len(),
{
    if s.len() > 0 {
        let front = s.drop_last();
        lemma_select_members(front, pick);
        let out = select(s, pick);
        assert forall|i: int| 0 <= i < out.len() implies s.contains(#[trigger] out[i]) && pick(
            out[i],
        ) by {
            if i < select(front, pick).len() {
                assert(front.contains(select(front, pick)[i]));
                let k = choose|k: int| 0 <= k < front.len() && front[k] == out[i];
                assert(s[k] == out[i]);
            } else {
                assert(s[s.len() - 1] == out[i]);
            }
        }
    }
}

/// What all elements have, those that are picked have.
pub proof fn lemma_select_forall<A>(s: Seq<A>, pick: spec_fn(A) -> bool, p: spec_fn(A) -> bool)
    requires
        forall|i: int| 0 <= i < s.len() ==> p(#[trigger] s[i]),
    ensures
        forall|i: int| 0 <= i < select(s, pick).len() ==> p(#[trigger] select(s, pick)[i]),
{
    lemma_select_members(s, pick);
    let out = select(s, pick);
    assert forall|i: int| 0 <= i < out.len() implies p(#[trigger] out[i]) by {
        assert(s.contains(out[i]));
        let k = choose|k: int| 0 <= k < s.len() && s[k] == out[i];
        assert(p(s[k]));
    }
}

/// What a function makes of each element.
pub open spec fn images<A, B>(s: Seq<A>, f: spec_fn(A) -> B) -> Seq<B> {
    Seq::new(s.len(), |i: int| f(s[i]))
}

/// The images of elements, one by one.
pub proof fn lemma_images_sum<A, B>(s: Seq<A>, f: spec_fn(A) -> B)
    ensures
        bag(images(s, f)) == sum_over(s, |x: A| Multiset::singleton(f(x))),
    decreases s.len(),
{
    if s.len() == 0 {
        lemma_bag_empty(images(s, f));
    } else {
        lemma_images_sum(s.drop_last(), f);
        assert(images(s, f) =~= images(s.drop_last(), f).push(f(s.last())));
        lemma_bag_push(images(s.drop_last(), f), f(s.last()));
    }
}

/// The images of the same elements are the same.
pub proof fn lemma_images_bag<A, B>(a: Seq<A>, b: Seq<A>, f: spec_fn(A) -> B)
    requires
        bag(a) == bag(b),
    ensures
        bag(images(a, f)) == bag(images(b, f)),
{
    lemma_images_sum(a, f);
    lemma_images_sum(b, f);
    lemma_sum_bag(a, b, |x: A| Multiset::singleton(f(x)));
}

/// Picking twice is picking what both pick.
pub proof fn lemma_select_select<A>(s: Seq<A>, p: spec_fn(A) -> bool, q: spec_fn(A) -> bool)
    ensures
        select(select(s, p), q) == select(s, |x: A| p(x) && q(x)),
    decreases s.len(),
{
    if s.len() > 0 {
        let front = s.drop_last();
        lemma_select_select(front, p, q);
        if p(s.last()) {
            lemma_select_push(select(front, p), s.last(), q);
        }
    }
}

/// A sum over all elements is one over those that are picked and one over the
/// others.
pub proof fn lemma_sum_split<A, B>(
    s: Seq<A>,
    p: spec_fn(A) -> bool,
    g: spec_fn(A) -> Multiset<B>,
)
    ensures
        sum_over(s, g) == sum_over(select(s, p), g).add(sum_over(select(s, |x: A| !p(x)), g)),
    decreases s.len(),
{
    let q = |x: A| !p(x);
    if s.len() == 0 {
        assert(Multiset::<B>::empty().add(Multiset::empty()) =~= Multiset::<B>::empty());
    } else {
        let front = s.drop_last();
        let x = s.last();
        lemma_sum_split(front, p, g);
        let a = sum_over(select(front, p), g);
        let b = sum_over(select(front, q), g);
        if p(x) {
            lemma_sum_push(select(front, p), x, g);
            assert(a.add(b).add(g(x)) =~= a.add(g(x)).add(b));
        } else {
            lemma_sum_push(select(front, q), x, g);
            assert(a.add(b).add(g(x)) =~= a.add(b.add(g(x))));
        }
    }
}

/// Every element of a sequence is one of another.
#[verifier::opaque]
pub open spec fn within<A>(a: Seq<A>, b: Seq<A>) -> bool {
    forall|i: int| 0 <= i < a.len() ==> b.contains(#[trigger] a[i])
}

/// What is in a sequence is in one that holds all its elements.
pub proof fn lemma_within_has<A>(a: Seq<A>, b: Seq<A>, x: A)
    requires
        within(a, b),
        a.contains(x),
    ensures
        b.contains(x),
{
    reveal(within);
    let i = choose|i: int| 0 <= i < a.len() && a[i] == x;
    assert(b.contains(a[i]));
}

/// The elements of a sequence's front are its elements.
pub proof fn lemma_within_front<A>(a: Seq<A>, b: Seq<A>)
    requires
        a.len() <= b.len(),
        forall|i: int| 0 <= i < a.len() ==> a[i] == b[i],
    ensures
        within(a, b),
{
    reveal(within);
    assert forall|i: int| 0 <= i < a.len() implies b.contains(#[trigger] a[i]) by {
        assert(b[i] == a[i]);
    }
}

/// The elements of two sequences are those of two that hold them.
pub proof fn lemma_within_concat<A>(a: Seq<A>, b: Seq<A>, c: Seq<A>, d: Seq<A>)
    requires
        within(a, c),
        within(b, d),
    ensures
        within(a + b, c + d),
{
    reveal(within);
    assert forall|i: int| 0 <= i < (a + b).len() implies (c + d).contains(
        #[trigger] (a + b)[i],
    ) by {
        if i < a.len() {
            assert(c.contains(a[i]));
            let k = choose|k: int| 0 <= k < c.len() && c[k] == a[i];
            assert((c + d)[k] == a[i]);
        } else {
            assert(d.contains(b[i - a.len()]));
            let k = choose|k: int| 0 <= k < d.len() && d[k] == b[i - a.len()];
            assert((c + d)[c.len() + k] == b[i - a.len()]);
        }
    }
}

/// What one sequence holds of a second, and the second of a third, it holds of
/// the third.
pub proof fn lemma_within_trans<A>(a: Seq<A>, b: Seq<A>, c: Seq<A>)
    requires
        within(a, b),
        within(b, c),
    ensures
        within(a, c),
{
    reveal(within);
    assert forall|i: int| 0 <= i < a.len() implies c.contains(#[trigger] a[i]) by {
        lemma_within_has(b, c, a[i]);
    }
}

/// The order of elements does not matter.
pub proof fn lemma_within_bag<A>(a: Seq<A>, b: Seq<A>)
    requires
        bag(a) == bag(b),
    ensures
        within(a, b),
{
    reveal(within);
    assert forall|i: int| 0 <= i < a.len() implies b.contains(#[trigger] a[i]) by {
        lemma_bag_contains(a, a[i]);
        lemma_bag_contains(b, a[i]);
    }
}

/// Picked elements are elements.
pub proof fn lemma_within_select<A>(a: Seq<A>, b: Seq<A>, pick: spec_fn(A) -> bool)
    requires
        within(a, b),
    ensures
        within(select(a, pick), b),
        within(select(a, pick), select(b, pick)),
{
    reveal(within);
    lemma_select_members(a, pick);
    assert forall|i: int| 0 <= i < select(a, pick).len() implies b.contains(
        #[trigger] select(a, pick)[i],
    ) && select(b, pick).contains(select(a, pick)[i]) by {
        let x = select(a, pick)[i];
        lemma_within_has(a, b, x);
        lemma_select_has(b, pick, x);
    }
}

/// An element that is to be picked is.
proof fn lemma_select_has<A>(s: Seq<A>, pick: spec_fn(A) -> bool, x: A)
    requires
        s.contains(x),
        pick(x),
    ensures
        select(s, pick).contains(x),
    decreases s.len(),
{
    let k = choose|k: int| 0 <= k < s.len() && s[k] == x;
    let out = select(s, pick);
    if k == s.len() - 1 {
        assert(out[out.len() - 1] == x);
    } else {
        let front = s.drop_last();
        assert(front[k] == x);
        lemma_select_has(front, pick, x);
        let part = select(front, pick);
        let j = choose|j: int| 0 <= j < part.len() && part[j] == x;
        assert(out[j] == x);
    }
}

} // verus!
