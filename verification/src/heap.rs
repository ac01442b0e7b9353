//! Heap sort: a vector is arranged so that it runs from its greatest element
//! down to its least, which makes it a max-heap as well.
//!
//! The elements are compared with `>` alone. What is claimed of the order of
//! the result holds for element types whose comparison is a total order; that
//! the result holds the same elements as the input holds for every type.

use core::cmp::Ordering;
use vstd::prelude::*;
use vstd::std_specs::cmp::PartialOrdSpec;

verus! {

/// `a` is less than or equal to `b`.
pub open spec fn at_most<T: PartialOrd>(a: T, b: T) -> bool {
    a.partial_cmp_spec(&b) == Some(Ordering::Less) || a.partial_cmp_spec(&b) == Some(Ordering::Equal)
}

/// The comparison of `T` is a total order: `>` computes what the order says,
/// any two values are comparable, and `at_most` is transitive.
pub open spec fn total_order<T: PartialOrd>() -> bool {
    &&& T::obeys_partial_cmp_spec()
    &&& forall|a: T, b: T| (#[trigger] a.partial_cmp_spec(&b)) is Some
    &&& forall|a: T, b: T| #[trigger] at_most(a, b) || at_most(b, a)
    &&& forall|a: T, b: T, c: T| #[trigger] at_most(a, b) && #[trigger] at_most(b, c) ==> at_most(a, c)
}

/// `s` runs from its greatest element down to its least.
pub open spec fn descending<T: PartialOrd>(s: Seq<T>) -> bool {
    forall|i: int, j: int| 0 <= i < j < s.len() ==> at_most(#[trigger] s[j], #[trigger] s[i])
}

/// `s` is a max-heap: no element exceeds its parent, the parent of the
/// element at position `i > 0` being the one at position `(i - 1) / 2`.
pub open spec fn max_heap<T: PartialOrd>(s: Seq<T>) -> bool {
    forall|i: int| 0 < i < s.len() ==> at_most(#[trigger] s[i], s[(i - 1) / 2])
}

/// Within the first `end` elements of `s`, the element at `parent` is at most
/// each of its children, which stand at `2 * parent + 1` and `2 * parent + 2`.
spec fn below_children<T: PartialOrd>(s: Seq<T>, end: int, parent: int) -> bool {
    &&& 2 * parent + 1 < end ==> at_most(s[parent], s[2 * parent + 1])
    &&& 2 * parent + 2 < end ==> at_most(s[parent], s[2 * parent + 2])
}

/// The first `end` elements of `s` form a min-heap at every position from
/// `start` on, except perhaps at `hole`.
spec fn min_heap_except<T: PartialOrd>(s: Seq<T>, start: int, end: int, hole: int) -> bool {
    forall|p: int| start <= p < end && p != hole ==> #[trigger] below_children(s, end, p)
}

/// The first `end` elements of `s` form a min-heap at every position from
/// `start` on.
spec fn min_heap<T: PartialOrd>(s: Seq<T>, start: int, end: int) -> bool {
    forall|p: int| start <= p < end ==> #[trigger] below_children(s, end, p)
}

/// The element at `k` of `now` is the element at `j` of `then`.
spec fn same_element<T>(now: Seq<T>, k: int, then: Seq<T>, j: int) -> bool {
    now[k] == then[j]
}

/// The element at `k` of `now` is one of the first `end` elements of `then`.
spec fn drawn_from<T>(now: Seq<T>, then: Seq<T>, end: int, k: int) -> bool {
    exists|j: int| 0 <= j < end && #[trigger] same_element(now, k, then, j)
}

/// Every one of the last elements of `s`, from `end` on, is at most each
/// element before it.
spec fn tail_settled<T: PartialOrd>(s: Seq<T>, end: int) -> bool {
    forall|i: int, j: int| 0 <= i < j < s.len() && end <= j ==> at_most(#[trigger] s[j], #[trigger] s[i])
}

/// A sequence that runs from its greatest element down to its least is a
/// max-heap.
pub proof fn lemma_descending_is_max_heap<T: PartialOrd>(s: Seq<T>)
    requires
        descending(s),
    ensures
        max_heap(s),
{
    assert forall|i: int| 0 < i < s.len() implies at_most(#[trigger] s[i], s[(i - 1) / 2]) by {
        assert(0 <= (i - 1) / 2 < i);
    }
}

/// The root of a min-heap is at most every element of the heap.
proof fn lemma_root_is_least<T: PartialOrd>(s: Seq<T>, end: int, k: int)
    requires
        total_order::<T>(),
        min_heap(s, 0, end),
        0 <= k < end <= s.len(),
    ensures
        at_most(s[0], s[k]),
    decreases k,
{
    if k > 0 {
        let parent = (k - 1) / 2;
        assert(below_children(s, end, parent));
        lemma_root_is_least(s, end, parent);
    }
}

/// Whether `a` is greater than `b`.
fn exceeds<T: PartialOrd>(a: &T, b: &T) -> (greater: bool)
    ensures
        total_order::<T>() ==> (greater <==> !at_most(*a, *b)),
        total_order::<T>() && greater ==> at_most(*b, *a),
{
    let greater = *a > *b;
    proof {
        if total_order::<T>() {
            let order = a.partial_cmp_spec(b)->0;
            assert(order == Ordering::Less || order == Ordering::Equal || order == Ordering::Greater);
        }
    }
    greater
}

/// Exchanging two elements changes neither the length of a sequence nor the
/// elements that it holds.
proof fn lemma_exchange_keeps_elements<T>(s: Seq<T>, i: int, j: int)
    requires
        0 <= i < s.len(),
        0 <= j < s.len(),
    ensures
        s.update(i, s[j]).update(j, s[i]).to_multiset() == s.to_multiset(),
{
    broadcast use vstd::seq_lib::to_multiset_update;

    assert(s.to_multiset().insert(s[j]).remove(s[i]).insert(s[i]).remove(s[j]) =~= s.to_multiset()) by {
        s.to_multiset_ensures();
    }
}

/// Exchanges the elements at `i` and `j`.
fn exchange<T>(data: &mut Vec<T>, i: usize, j: usize)
    requires
        i < old(data)@.len(),
        j < old(data)@.len(),
    ensures
        final(data)@ == old(data)@.update(i as int, old(data)@[j as int]).update(j as int, old(data)@[i as int]),
        final(data)@.to_multiset() == old(data)@.to_multiset(),
{
    proof {
        lemma_exchange_keeps_elements(data@, i as int, j as int);
    }
    if i < j {
        let (left, right) = data.split_at_mut(j);
        core::mem::swap(&mut left[i], &mut right[0]);
    } else if j < i {
        let (left, right) = data.split_at_mut(i);
        core::mem::swap(&mut left[j], &mut right[0]);
    }
}

/// A vector arranged by [`Heap::build_max_heap`]. Its view is the sequence of
/// its elements.
pub struct Heap<T: PartialOrd> {
    data: Vec<T>,
}

impl<T: PartialOrd> View for Heap<T> {
    type V = Seq<T>;

    closed spec fn view(&self) -> Seq<T> {
        self.data@
    }
}

impl<T: PartialOrd> Heap<T> {
    /// Arranges `data` by heap sort. The result holds the elements of `data`,
    /// each as often as `data` does. Where the comparison of `T` is a total
    /// order, it runs from the greatest element down to the least, and so is
    /// a max-heap.
    pub fn build_max_heap(data: Vec<T>) -> (heap: Self)
        ensures
            heap@.len() == data@.len(),
            heap@.to_multiset() == data@.to_multiset(),
            total_order::<T>() ==> descending(heap@) && max_heap(heap@),
    {
        let ghost given = data@;
        let mut data = data;
        let l = data.len();
        let mut i = l / 2;
        while i > 0
            invariant
                l == data@.len(),
                i <= l / 2,
                data@.to_multiset() == given.to_multiset(),
                total_order::<T>() ==> min_heap(data@, i as int, l as int),
            decreases i,
        {
            i -= 1;
            Self::sift_down(&mut data, i, l);
        }
        let mut end = l;
        while end > 1
            invariant
                l == data@.len(),
                end <= l,
                data@.to_multiset() == given.to_multiset(),
                total_order::<T>() ==> min_heap(data@, 0, end as int),
                total_order::<T>() ==> tail_settled(data@, end as int),
            decreases end,
        {
            end -= 1;
            let ghost heaped = data@;
            exchange(&mut data, 0, end);
            let ghost exchanged = data@;
            proof {
                if total_order::<T>() {
                    assert forall|p: int| 0 < p < end implies #[trigger] below_children(exchanged, end as int, p) by {
                        assert(below_children(heaped, end + 1, p));
                    }
                }
            }
            Self::sift_down(&mut data, 0, end);
            proof {
                if total_order::<T>() {
                    assert forall|k: int| 0 <= k < end + 1 implies at_most(heaped[0], #[trigger] heaped[k]) by {
                        lemma_root_is_least(heaped, end + 1, k);
                    }
                    assert forall|i: int, j: int| 0 <= i < j < data@.len() && end <= j implies at_most(
                        #[trigger] data@[j],
                        #[trigger] data@[i],
                    ) by {
                        if i < end {
                            assert(drawn_from(data@, exchanged, end as int, i));
                        }
                    }
                }
            }
        }
        proof {
            if total_order::<T>() {
                lemma_descending_is_max_heap(data@);
            }
        }
        Self { data }
    }

    /// Lets the element at `start` sink among the first `end` elements until
    /// neither of its children is less than it. Where those elements formed a
    /// min-heap from `start` on but for the element at `start`, they form one
    /// afterwards.
    fn sift_down(data: &mut Vec<T>, start: usize, end: usize)
        requires
            start < end <= old(data)@.len(),
        ensures
            final(data)@.len() == old(data)@.len(),
            final(data)@.to_multiset() == old(data)@.to_multiset(),
            forall|k: int| end <= k < old(data)@.len() ==> final(data)@[k] == old(data)@[k],
            forall|k: int| 0 <= k < end ==> #[trigger] drawn_from(final(data)@, old(data)@, end as int, k),
            total_order::<T>() && min_heap_except(old(data)@, start as int, end as int, start as int) ==> min_heap(
                final(data)@,
                start as int,
                end as int,
            ),
    {
        let ghost given = data@;
        let ghost lawful = total_order::<T>() && min_heap_except(given, start as int, end as int, start as int);
        let mut i = start;
        proof {
            assert forall|k: int| 0 <= k < end implies #[trigger] drawn_from(data@, given, end as int, k) by {
                assert(same_element(data@, k, given, k));
            }
        }
        while i < end / 2
            invariant
                given == old(data)@,
                lawful == (total_order::<T>() && min_heap_except(given, start as int, end as int, start as int)),
                start <= i < end <= data@.len(),
                data@.len() == given.len(),
                data@.to_multiset() == given.to_multiset(),
                forall|k: int| end <= k < given.len() ==> data@[k] == given[k],
                forall|k: int| 0 <= k < end ==> #[trigger] drawn_from(data@, given, end as int, k),
                lawful ==> total_order::<T>(),
                lawful ==> min_heap_except(data@, start as int, end as int, i as int),
                lawful && i > start ==> (i - 1) / 2 >= start && 2 * i + 1 < end ==> at_most(
                    data@[(i - 1) / 2],
                    data@[2 * i + 1],
                ),
                lawful && i > start ==> (i - 1) / 2 >= start && 2 * i + 2 < end ==> at_most(
                    data@[(i - 1) / 2],
                    data@[2 * i + 2],
                ),
                lawful && i > start ==> (i - 1) / 2 >= start,
            decreases end - i,
        {
            let left = 2 * i + 1;
            let right = left + 1;
            let mut smallest = i;
            if exceeds(&data[smallest], &data[left]) {
                smallest = left;
            }
            if right < end && exceeds(&data[smallest], &data[right]) {
                smallest = right;
            }
            if smallest == i {
                proof {
                    if lawful {
                        assert forall|p: int| start <= p < end implies #[trigger] below_children(
                            data@,
                            end as int,
                            p,
                        ) by {
                            assert(p == i || min_heap_except(data@, start as int, end as int, i as int));
                        }
                    }
                }
                return ;
            }
            let ghost sunk = data@;
            exchange(data, smallest, i);
            proof {
                assert forall|k: int| 0 <= k < end implies #[trigger] drawn_from(data@, given, end as int, k) by {
                    let origin = if k == i { smallest as int } else if k == smallest { i as int } else { k };
                    assert(drawn_from(sunk, given, end as int, origin));
                    let first = choose|first: int|
                        0 <= first < end && #[trigger] same_element(sunk, origin, given, first);
                    assert(same_element(data@, k, given, first));
                }
                if lawful {
                    assert(below_children(sunk, end as int, smallest as int));
                    assert forall|p: int| start <= p < end && p != smallest implies #[trigger] below_children(
                        data@,
                        end as int,
                        p,
                    ) by {
                        if p != i {
                            assert(below_children(sunk, end as int, p));
                        }
                    }
                }
            }
            i = smallest;
        }
        proof {
            if lawful {
                assert forall|p: int| start <= p < end implies #[trigger] below_children(data@, end as int, p) by {
                    assert(p == i || min_heap_except(data@, start as int, end as int, i as int));
                }
            }
        }
    }

    /// The elements, in the order in which they were arranged.
    pub fn data(&self) -> (data: &Vec<T>)
        ensures
            data@ == self@,
    {
        &self.data
    }
}

} // verus!
