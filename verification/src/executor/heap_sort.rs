//! Sorting in place.

use vstd::prelude::*;

use crate::bag;
use crate::number::Order;

verus! {

/// An order of values that is the same from both sides.
pub trait SortOrder<T> {
    /// The values that can be compared.
    spec fn admits(&self, a: T) -> bool;

    /// The order of two values.
    spec fn ranks(&self, a: T, b: T) -> Order;

    /// Exchanging the sides of a comparison reverses its outcome.
    proof fn lemma_reverse(&self, a: T, b: T)
        ensures
            self.ranks(b, a) == self.ranks(a, b).reversed(),
    ;

    /// The order of two values.
    fn rank(&self, a: &T, b: &T) -> (r: Order)
        requires
            self.admits(*a),
            self.admits(*b),
        ensures
            r == self.ranks(*a, *b),
    ;
}

/// The first value does not come after the second.
pub open spec fn not_after<T, C: SortOrder<T>>(c: C, a: T, b: T) -> bool {
    !(c.ranks(a, b) is Greater)
}

/// The order is transitive on the values with a property.
pub open spec fn transitive_on<T, C: SortOrder<T>>(c: C, good: spec_fn(T) -> bool) -> bool {
    forall|x: T, y: T, z: T|
        #![trigger c.ranks(x, y), c.ranks(y, z)]
        good(x) && good(y) && good(z) && not_after(c, x, y) && not_after(c, y, z) ==> not_after(
            c,
            x,
            z,
        )
}

/// All values have a property.
pub open spec fn all_good<T>(s: Seq<T>, good: spec_fn(T) -> bool) -> bool {
    forall|i: int| 0 <= i < s.len() ==> good(#[trigger] s[i])
}

/// No value comes behind one that it should come before.
pub open spec fn in_order<T, C: SortOrder<T>>(c: C, s: Seq<T>) -> bool {
    forall|i: int, j: int|
        0 <= i < j < s.len() ==> not_after(c, #[trigger] s[i], #[trigger] s[j])
}

/// All values can be compared.
pub open spec fn all_admitted<T, C: SortOrder<T>>(c: C, s: Seq<T>) -> bool {
    forall|i: int| 0 <= i < s.len() ==> c.admits(#[trigger] s[i])
}

/// No child comes after its parent, for parents from `lo` on.
spec fn heap<T, C: SortOrder<T>>(c: C, s: Seq<T>, lo: int, hi: int, hole: int) -> bool {
    forall|p: int, k: int|
        #![trigger s[p], s[k]]
        lo <= p && p != hole && k < hi && (k == 2 * p + 1 || k == 2 * p + 2) ==> not_after(
            c,
            s[k],
            s[p],
        )
}

/// All values of a range have a property.
spec fn all_in<T>(s: Seq<T>, lo: int, hi: int, p: spec_fn(T) -> bool) -> bool {
    forall|k: int| lo <= k < hi ==> p(#[trigger] s[k])
}

/// Exchanging two elements.
pub open spec fn swapped<T>(s: Seq<T>, i: int, j: int) -> Seq<T> {
    s.update(i, s[j]).update(j, s[i])
}

proof fn lemma_swapped<T>(s: Seq<T>, i: int, j: int)
    requires
        0 <= i < s.len(),
        0 <= j < s.len(),
    ensures
        bag::bag(swapped(s, i, j)) == bag::bag(s),
{
    broadcast use vstd::seq_lib::group_to_multiset_ensures;

    let one = s.update(i, s[j]);
    assert(s.contains(s[i]));
    assert(bag::bag(one) =~= bag::bag(s).insert(s[j]).remove(s[i]));
    if i == j {
        assert(swapped(s, i, j) =~= s);
    } else {
        assert(one[j] == s[j]);
        assert(bag::bag(swapped(s, i, j)) =~= bag::bag(one).insert(s[i]).remove(s[j]));
        assert(bag::bag(s).count(s[i]) > 0);
        assert(bag::bag(one).insert(s[i]).remove(s[j]) =~= bag::bag(s));
    }
}

/// Exchanges two elements.
fn swap<T>(v: &mut Vec<T>, i: usize, j: usize)
    requires
        i < j < old(v)@.len(),
    ensures
        final(v)@ == swapped(old(v)@, i as int, j as int),
        bag::bag(final(v)@) == bag::bag(old(v)@),
{
    proof {
        lemma_swapped(v@, i as int, j as int);
    }
    let (low, high) = v.as_mut_slice().split_at_mut(j);
    core::mem::swap(&mut low[i], &mut high[0]);
    assert(v@ =~= swapped(old(v)@, i as int, j as int));
}

/// Lets the value at `start` sink to its place in a heap that ends before
/// `end`.
fn sift_down<T, C: SortOrder<T>>(
    v: &mut Vec<T>,
    c: &C,
    start: usize,
    end: usize,
    good: Ghost<spec_fn(T) -> bool>,
)
    requires
        start < end <= old(v)@.len(),
        all_admitted(*c, old(v)@),
        all_good(old(v)@, good@),
        transitive_on(*c, good@) ==> heap(*c, old(v)@, start + 1, end as int, -1),
    ensures
        final(v)@.len() == old(v)@.len(),
        bag::bag(final(v)@) == bag::bag(old(v)@),
        all_admitted(*c, final(v)@),
        all_good(final(v)@, good@),
        transitive_on(*c, good@) ==> heap(*c, final(v)@, start as int, end as int, -1),
        forall|k: int|
            (0 <= k < start || end <= k < old(v)@.len()) ==> #[trigger] final(v)@[k] == old(v)@[k],
        forall|p: spec_fn(T) -> bool| #[trigger]
            all_in(old(v)@, start as int, end as int, p) ==> all_in(
                final(v)@,
                start as int,
                end as int,
                p,
            ),
{
    let ghost first = v@;
    let ghost ok = transitive_on(*c, good@);
    let mut root: usize = start;
    let size: usize = v.len();
    while root < end / 2
        invariant_except_break
            ok ==> heap(*c, v@, start as int, end as int, root as int),
            ok && root > start ==> forall|k: int|
                #![trigger v@[k]]
                k < end && (k == 2 * root + 1 || k == 2 * root + 2) ==> not_after(
                    *c,
                    v@[k],
                    v@[(root - 1) / 2],
                ),
        invariant
            ok == transitive_on(*c, good@),
            start <= root < end,
            end <= size,
            size == v@.len(),
            v@.len() == first.len(),
            bag::bag(v@) == bag::bag(first),
            all_admitted(*c, v@),
            all_good(v@, good@),
            forall|k: int|
                (0 <= k < start || end <= k < first.len()) ==> #[trigger] v@[k] == first[k],
            forall|p: spec_fn(T) -> bool| #[trigger]
                all_in(first, start as int, end as int, p) ==> all_in(
                    v@,
                    start as int,
                    end as int,
                    p,
                ),
        ensures
            ok ==> heap(*c, v@, start as int, end as int, -1),
        decreases end - root,
    {
        let left: usize = 2 * root + 1;
        let mut child: usize = left;
        let ghost s = v@;
        let ghost r = root as int;
        if left + 1 < end {
            let o = c.rank(&v[left], &v[left + 1]);
            proof {
                c.lemma_reverse(s[left as int], s[left + 1]);
            }
            if o == Order::Less {
                child = left + 1;
            }
        }
        let ghost d = child as int;
        let o = c.rank(&v[root], &v[child]);
        proof {
            c.lemma_reverse(s[r], s[d]);
            c.lemma_reverse(s[d], s[d]);
            assert(not_after(*c, s[d], s[d]));
            assert(not_after(*c, s[left as int], s[d]));
            assert(left + 1 < end ==> not_after(*c, s[left + 1], s[d]));
        }
        if o != Order::Less {
            proof {
                if ok {
                    assert forall|p: int, k: int|
                        #![trigger s[p], s[k]]
                        start <= p && p != -1 && k < end && (k == 2 * p + 1 || k == 2 * p
                            + 2) implies not_after(*c, s[k], s[p]) by {
                        if p == r {
                            assert(not_after(*c, s[k], s[d]));
                            assert(not_after(*c, s[d], s[r]));
                            assert(good@(s[k]) && good@(s[d]) && good@(s[r]));
                        }
                    }
                }
            }
            break;
        }
        swap(v, root, child);
        proof {
            lemma_swapped_heap(*c, s, v@, start as int, end as int, r, d, ok);
            assert forall|p: spec_fn(T) -> bool| #[trigger]
                all_in(first, start as int, end as int, p) implies all_in(
                v@,
                start as int,
                end as int,
                p,
            ) by {
                assert(all_in(s, start as int, end as int, p));
                assert forall|k: int| start <= k < end implies p(#[trigger] v@[k]) by {
                    assert(p(s[k]));
                    assert(p(s[r]));
                    assert(p(s[d]));
                }
            }
            assert forall|k: int| 0 <= k < v@.len() implies c.admits(#[trigger] v@[k]) && good@(
                v@[k],
            ) by {
                assert(c.admits(s[k]) && c.admits(s[r]) && c.admits(s[d]));
                assert(good@(s[k]) && good@(s[r]) && good@(s[d]));
            }
        }
        root = child;
    }
    proof {
        if ok {
            assert(heap(*c, v@, start as int, end as int, -1));
        }
    }
}

/// A value that changed places with its larger child.
proof fn lemma_swapped_heap<T, C: SortOrder<T>>(
    c: C,
    s: Seq<T>,
    t: Seq<T>,
    start: int,
    end: int,
    r: int,
    d: int,
    ok: bool,
)
    requires
        0 <= start <= r < end <= s.len(),
        d == 2 * r + 1 || d == 2 * r + 2,
        d < end,
        t == swapped(s, r, d),
        not_after(c, s[r], s[d]),
        forall|k: int|
            #![trigger s[k]]
            k < end && (k == 2 * r + 1 || k == 2 * r + 2) ==> not_after(c, s[k], s[d]),
        ok ==> heap(c, s, start, end, r),
        ok && r > start ==> forall|k: int|
            #![trigger s[k]]
            k < end && (k == 2 * r + 1 || k == 2 * r + 2) ==> not_after(c, s[k], s[(r - 1) / 2]),
    ensures
        ok ==> heap(c, t, start, end, d),
        ok ==> forall|k: int|
            #![trigger t[k]]
            k < end && (k == 2 * d + 1 || k == 2 * d + 2) ==> not_after(c, t[k], t[(d - 1) / 2]),
{
    if ok {
        assert forall|p: int, k: int|
            #![trigger t[p], t[k]]
            start <= p && p != d && k < end && (k == 2 * p + 1 || k == 2 * p
                + 2) implies not_after(c, t[k], t[p]) by {
            if p == r {
                if k != d {
                    assert(t[k] == s[k]);
                    assert(not_after(c, s[k], s[d]));
                }
            } else if k == r {
                assert(p == (r - 1) / 2);
                assert(t[p] == s[p]);
                assert(not_after(c, s[d], s[(r - 1) / 2]));
            } else {
                assert(k != d);
                assert(t[k] == s[k]);
                assert(t[p] == s[p]);
            }
        }
        assert((d - 1) / 2 == r);
        assert forall|k: int|
            #![trigger t[k]]
            k < end && (k == 2 * d + 1 || k == 2 * d + 2) implies not_after(
            c,
            t[k],
            t[(d - 1) / 2],
        ) by {
            assert(t[k] == s[k]);
            assert(not_after(c, s[k], s[d]));
        }
    }
}

/// The first value of a heap comes before none.
proof fn lemma_heap_top<T, C: SortOrder<T>>(
    c: C,
    s: Seq<T>,
    end: int,
    good: spec_fn(T) -> bool,
    k: int,
)
    requires
        transitive_on(c, good),
        all_good(s, good),
        heap(c, s, 0, end, -1),
        0 <= k < end <= s.len(),
    ensures
        not_after(c, s[k], s[0]),
    decreases k,
{
    if k == 0 {
        c.lemma_reverse(s[0], s[0]);
    } else {
        let p = (k - 1) / 2;
        lemma_heap_top(c, s, end, good, p);
        assert(not_after(c, s[k], s[p]));
        assert(good(s[k]) && good(s[p]) && good(s[0]));
    }
}

/// Sorts the values in place.
pub fn sort_unstable<T, C: SortOrder<T>>(v: &mut Vec<T>, c: &C, good: Ghost<spec_fn(T) -> bool>)
    requires
        all_admitted(*c, old(v)@),
        all_good(old(v)@, good@),
    ensures
        final(v)@.len() == old(v)@.len(),
        bag::bag(final(v)@) == bag::bag(old(v)@),
        all_admitted(*c, final(v)@),
        all_good(final(v)@, good@),
        transitive_on(*c, good@) ==> in_order(*c, final(v)@),
{
    let size: usize = v.len();
    if size < 2 {
        return;
    }
    let ghost first = v@;
    let ghost ok = transitive_on(*c, good@);
    let mut start: usize = size / 2;
    while start > 0
        invariant
            ok == transitive_on(*c, good@),
            start <= size / 2,
            size == v@.len(),
            size == first.len(),
            bag::bag(v@) == bag::bag(first),
            all_admitted(*c, v@),
            all_good(v@, good@),
            ok ==> heap(*c, v@, start as int, size as int, -1),
        decreases start,
    {
        start = start - 1;
        sift_down(v, c, start, size, good);
    }
    let mut end: usize = size;
    while end > 1
        invariant
            ok == transitive_on(*c, good@),
            1 <= end <= size,
            size == v@.len(),
            size == first.len(),
            bag::bag(v@) == bag::bag(first),
            all_admitted(*c, v@),
            all_good(v@, good@),
            ok ==> heap(*c, v@, 0, end as int, -1),
            ok ==> forall|i: int, j: int|
                0 <= i < j < size && end <= j ==> not_after(
                    *c,
                    #[trigger] v@[i],
                    #[trigger] v@[j],
                ),
        decreases end,
    {
        end = end - 1;
        let ghost s = v@;
        swap(v, 0, end);
        let ghost t = v@;
        let ghost below = |x: T|
            forall|j: int| end <= j < size ==> not_after(*c, x, #[trigger] t[j]);
        proof {
            assert forall|k: int| 0 <= k < t.len() implies c.admits(#[trigger] t[k]) && good@(
                t[k],
            ) by {
                assert(c.admits(s[k]) && c.admits(s[0]) && c.admits(s[end as int]));
                assert(good@(s[k]) && good@(s[0]) && good@(s[end as int]));
            }
            if ok {
                assert forall|p: int, k: int|
                    #![trigger t[p], t[k]]
                    1 <= p && p != -1 && k < end && (k == 2 * p + 1 || k == 2 * p
                        + 2) implies not_after(*c, t[k], t[p]) by {
                    assert(t[k] == s[k] && t[p] == s[p]);
                }
                assert forall|k: int| 0 <= k < end implies below(#[trigger] t[k]) by {
                    let from = if k == 0 {
                        end as int
                    } else {
                        k
                    };
                    assert(t[k] == s[from]);
                    assert forall|j: int| end <= j < size implies not_after(
                        *c,
                        t[k],
                        #[trigger] t[j],
                    ) by {
                        if j == end {
                            lemma_heap_top(*c, s, end + 1, good@, from);
                        } else {
                            assert(t[j] == s[j]);
                            assert(not_after(*c, s[from], s[j]));
                        }
                    }
                }
                assert(all_in(t, 0, end as int, below));
            }
        }
        sift_down(v, c, 0, end, good);
        proof {
            if ok {
                assert(all_in(v@, 0, end as int, below));
                assert forall|i: int, j: int|
                    0 <= i < j < size && end <= j implies not_after(
                    *c,
                    #[trigger] v@[i],
                    #[trigger] v@[j],
                ) by {
                    assert(v@[j] == t[j]);
                    if i < end {
                        assert(below(v@[i]));
                        assert(not_after(*c, v@[i], t[j]));
                    } else {
                        assert(v@[i] == t[i]);
                        assert(t[j] == s[j]);
                        let from = if i == end {
                            0
                        } else {
                            i
                        };
                        assert(t[i] == s[from]);
                        assert(not_after(*c, s[from], s[j]));
                    }
                }
            }
        }
    }
}

} // verus!
