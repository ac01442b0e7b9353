//! The recency list: a doubly-linked sequence kept in an arena of slots.
//!
//! Nodes live in one growable vector and refer to their neighbours by slot
//! index, so a handle is a plain `usize` that stays valid until its node is
//! removed. Reclaimed slots are kept on a free list and reused, most recently
//! freed first. Releasing the list releases the vector, which drops its slots
//! one after another without recursion.

use vstd::prelude::*;

verus! {

/// One element of a [`LinkedList`] together with the handles of its neighbours.
pub struct Node<T> {
    val: T,
    next: Option<usize>,
    prev: Option<usize>,
}

impl<T> Node<T> {
    /// The value that this node carries.
    pub closed spec fn val(&self) -> T {
        self.val
    }

    /// A node that carries `val` and has no neighbours yet.
    pub fn new(val: T) -> (node: Self)
        ensures
            node.val() == val,
    {
        Self { val, next: None, prev: None }
    }

    /// A reference to the value that this node carries.
    pub fn ref_val(&self) -> (val: &T)
        ensures
            *val == self.val(),
    {
        &self.val
    }

    /// Gives up the node for the value that it carries.
    pub fn into_val(self) -> (val: T)
        ensures
            val == self.val(),
    {
        self.val
    }

    spec fn with_next(self, next: Option<usize>) -> Self {
        Node { val: self.val, next, prev: self.prev }
    }

    spec fn with_prev(self, prev: Option<usize>) -> Self {
        Node { val: self.val, next: self.next, prev }
    }
}

fn set_next<T>(slots: &mut Vec<Option<Node<T>>>, at: usize, next: Option<usize>)
    requires
        at < old(slots)@.len(),
        old(slots)@[at as int] is Some,
    ensures
        final(slots)@ == old(slots)@.update(at as int, Some(old(slots)@[at as int]->0.with_next(next))),
{
    match &mut slots[at] {
        Some(node) => {
            node.next = next;
        },
        None => {},
    }
}

fn set_prev<T>(slots: &mut Vec<Option<Node<T>>>, at: usize, prev: Option<usize>)
    requires
        at < old(slots)@.len(),
        old(slots)@[at as int] is Some,
    ensures
        final(slots)@ == old(slots)@.update(at as int, Some(old(slots)@[at as int]->0.with_prev(prev))),
{
    match &mut slots[at] {
        Some(node) => {
            node.prev = prev;
        },
        None => {},
    }
}

/// A doubly-linked list ordered from most recently used (front) to least
/// recently used (back).
///
/// Its view is the sequence of values from front to back. `handles()` gives,
/// position by position, the handle under which each value can be reached.
pub struct LinkedList<T> {
    length: usize,
    head: Option<usize>,
    tail: Option<usize>,
    slots: Vec<Option<Node<T>>>,
    free: Vec<usize>,
    order: Ghost<Seq<usize>>,
}

impl<T> View for LinkedList<T> {
    type V = Seq<T>;

    closed spec fn view(&self) -> Seq<T> {
        Seq::new(self.order@.len(), |i: int| self.slots@[self.order@[i] as int]->0.val)
    }
}

impl<T> LinkedList<T> {
    /// The handles of the live nodes, front to back.
    pub closed spec fn handles(&self) -> Seq<usize> {
        self.order@
    }

    /// The node at position `i` is live and linked to the nodes beside it.
    spec fn linked_at(&self, i: int) -> bool {
        let order = self.order@;
        let h = order[i] as int;
        &&& h < self.slots@.len()
        &&& self.slots@[h] is Some
        &&& self.slots@[h]->0.prev == (if i == 0 {
            None
        } else {
            Some(order[i - 1])
        })
        &&& self.slots@[h]->0.next == (if i == order.len() - 1 {
            None
        } else {
            Some(order[i + 1])
        })
    }

    /// The slot at position `j` of the free list is vacant.
    spec fn vacant_at(&self, j: int) -> bool {
        &&& self.free@[j] < self.slots@.len()
        &&& self.slots@[self.free@[j] as int] is None
    }

    /// Well-formedness: the links, the two ends and the length counter all
    /// describe the same sequence of nodes, and every other slot is on the
    /// free list.
    pub closed spec fn wf(&self) -> bool {
        let order = self.order@;
        &&& self.length == order.len()
        &&& self.length + self.free@.len() == self.slots@.len()
        &&& order.no_duplicates()
        &&& self.free@.no_duplicates()
        &&& forall|i: int| 0 <= i < order.len() ==> #[trigger] self.linked_at(i)
        &&& forall|j: int| 0 <= j < self.free@.len() ==> #[trigger] self.vacant_at(j)
        &&& self.head == (if order.len() == 0 {
            None
        } else {
            Some(order.first())
        })
        &&& self.tail == (if order.len() == 0 {
            None
        } else {
            Some(order.last())
        })
    }

    /// A well-formed list has one handle per value, and no handle twice.
    pub proof fn lemma_handles_distinct(&self)
        requires
            self.wf(),
        ensures
            self.handles().len() == self@.len(),
            self.handles().no_duplicates(),
    {
    }

    /// An empty list.
    pub fn new() -> (list: Self)
        ensures
            list.wf(),
            list@ == Seq::<T>::empty(),
            list.handles() == Seq::<usize>::empty(),
    {
        Self { length: 0, head: None, tail: None, slots: Vec::new(), free: Vec::new(), order: Ghost(Seq::empty()) }
    }

    /// The number of values in the list.
    pub fn len(&self) -> (n: usize)
        requires
            self.wf(),
        ensures
            n == self@.len(),
    {
        self.length
    }

    /// Puts `val` at the front and returns the handle of its node.
    pub fn insert_front(&mut self, val: T) -> (handle: usize)
        requires
            old(self).wf(),
        ensures
            final(self).wf(),
            final(self)@ == seq![val] + old(self)@,
            final(self).handles() == seq![handle] + old(self).handles(),
            !old(self).handles().contains(handle),
    {
        let node = Node::new(val);
        self.insert_front_raw(node)
    }

    /// Links `node` in as the new front, whatever neighbours it named before,
    /// and returns its handle.
    pub fn insert_front_raw(&mut self, node: Node<T>) -> (handle: usize)
        requires
            old(self).wf(),
        ensures
            final(self).wf(),
            final(self)@ == seq![node.val()] + old(self)@,
            final(self).handles() == seq![handle] + old(self).handles(),
            !old(self).handles().contains(handle),
    {
        self.link_front(node)
    }

    /// Links `node` in as the new front. The slot it takes is the one freed
    /// last, if any slot is free.
    fn link_front(&mut self, node: Node<T>) -> (handle: usize)
        requires
            old(self).wf(),
        ensures
            final(self).wf(),
            final(self)@ == seq![node.val] + old(self)@,
            final(self).order@ == seq![handle] + old(self).order@,
            !old(self).order@.contains(handle),
            old(self).free@.len() > 0 ==> handle == old(self).free@.last(),
    {
        let mut node = node;
        node.next = self.head;
        node.prev = None;
        let ghost before = *self;
        let handle = match self.free.pop() {
            Some(slot) => {
                assert(before.vacant_at(before.free@.len() - 1));
                self.slots[slot] = Some(node);
                slot
            },
            None => {
                self.slots.push(Some(node));
                self.slots.len() - 1
            },
        };
        assert(!before.order@.contains(handle)) by {
            if before.order@.contains(handle) {
                let i = before.order@.index_of(handle);
                assert(before.linked_at(i));
            }
        }
        match self.head {
            None => {
                self.tail = Some(handle);
            },
            Some(head) => {
                assert(before.linked_at(0));
                set_prev(&mut self.slots, head, Some(handle));
            },
        }
        self.head = Some(handle);
        assert(self.length < self.slots.len());
        self.length += 1;
        proof {
            self.order = Ghost(seq![handle] + before.order@);
            let order = self.order@;
            assert forall|i: int| 0 <= i < order.len() implies #[trigger] self.linked_at(i) by {
                if i > 0 {
                    assert(before.linked_at(i - 1));
                }
            }
            assert forall|j: int| 0 <= j < self.free@.len() implies #[trigger] self.vacant_at(j) by {
                assert(before.vacant_at(j));
            }
            assert(self@ =~= seq![node.val] + before@) by {
                assert forall|i: int| 0 < i < order.len() implies self@[i] == before@[i - 1] by {
                    assert(before.linked_at(i - 1));
                }
            }
        }
        handle
    }

    /// Takes the node under `handle` out of the chain and vacates its slot,
    /// which becomes the next one to be reused.
    fn unlink(&mut self, handle: usize) -> (val: T)
        requires
            old(self).wf(),
            old(self).order@.contains(handle),
        ensures
            final(self).wf(),
            val == old(self)@[old(self).order@.index_of(handle)],
            final(self)@ == old(self)@.remove(old(self).order@.index_of(handle)),
            final(self).order@ == old(self).order@.remove(old(self).order@.index_of(handle)),
            final(self).free@.len() > 0,
            final(self).free@.last() == handle,
    {
        let ghost before = *self;
        let ghost at = before.order@.index_of(handle);
        assert(before.linked_at(at));
        let node = self.slots[handle].take().unwrap();
        match node.prev {
            Some(prev) => {
                assert(before.linked_at(at - 1));
                set_next(&mut self.slots, prev, node.next);
            },
            None => {
                self.head = node.next;
            },
        }
        match node.next {
            Some(next) => {
                assert(before.linked_at(at + 1));
                set_prev(&mut self.slots, next, node.prev);
            },
            None => {
                self.tail = node.prev;
            },
        }
        self.free.push(handle);
        self.length -= 1;
        proof {
            self.order = Ghost(before.order@.remove(at));
            let order = self.order@;
            assert forall|i: int| 0 <= i < order.len() implies #[trigger] self.linked_at(i) by {
                let k = if i < at { i } else { i + 1 };
                assert(before.linked_at(k));
            }
            assert forall|j: int| 0 <= j < self.free@.len() implies #[trigger] self.vacant_at(j) by {
                if j < before.free@.len() {
                    assert(before.vacant_at(j));
                }
            }
            assert(self.free@.no_duplicates()) by {
                assert forall|j: int| 0 <= j < before.free@.len() implies before.free@[j] != handle by {
                    assert(before.vacant_at(j));
                }
            }
            assert(order.no_duplicates());
            assert(self@ =~= before@.remove(at)) by {
                assert forall|i: int| 0 <= i < order.len() implies self@[i] == before@.remove(at)[i] by {
                    let k = if i < at { i } else { i + 1 };
                    assert(before.linked_at(k));
                }
            }
            if order.len() > 0 {
                assert(order.last() == before.order@[if at == before.order@.len() - 1 {
                    before.order@.len() - 2
                } else {
                    before.order@.len() - 1
                }]);
            }
        }
        node.into_val()
    }

    /// Removes the node under `handle` and returns its value. The handle is
    /// dead afterwards; the other handles stay as they were.
    pub fn remove(&mut self, handle: usize) -> (val: T)
        requires
            old(self).wf(),
            old(self).handles().contains(handle),
        ensures
            final(self).wf(),
            val == old(self)@[old(self).handles().index_of(handle)],
            final(self)@ == old(self)@.remove(old(self).handles().index_of(handle)),
            final(self).handles() == old(self).handles().remove(old(self).handles().index_of(handle)),
    {
        self.unlink(handle)
    }

    /// Moves the node under `handle` to the front. Its handle stays valid, and
    /// the order of the other nodes does not change.
    pub fn reinsert_front(&mut self, handle: usize)
        requires
            old(self).wf(),
            old(self).handles().contains(handle),
        ensures
            final(self).wf(),
            final(self)@ == seq![old(self)@[old(self).handles().index_of(handle)]] + old(self)@.remove(
                old(self).handles().index_of(handle),
            ),
            final(self).handles() == seq![handle] + old(self).handles().remove(
                old(self).handles().index_of(handle),
            ),
    {
        let val = self.unlink(handle);
        let node = Node::new(val);
        let again = self.link_front(node);
        assert(again == handle);
    }

    /// Removes the value at the back, if there is one, and returns it.
    pub fn remove_tail(&mut self) -> (val: Option<T>)
        requires
            old(self).wf(),
        ensures
            final(self).wf(),
            old(self)@.len() == 0 ==> val is None && final(self)@ == old(self)@ && final(self).handles()
                == old(self).handles(),
            old(self)@.len() > 0 ==> val == Some(old(self)@.last()) && final(self)@ == old(self)@.drop_last()
                && final(self).handles() == old(self).handles().drop_last(),
    {
        match self.tail {
            Some(handle) => {
                proof {
                    let order = self.order@;
                    assert(order.index_of(handle) == order.len() - 1);
                    assert(order.remove(order.len() - 1) =~= order.drop_last());
                    assert(self@.remove(order.len() - 1) =~= self@.drop_last());
                }
                Some(self.unlink(handle))
            },
            None => None,
        }
    }

    /// The value under `handle`.
    pub fn get(&self, handle: usize) -> (val: &T)
        requires
            self.wf(),
            self.handles().contains(handle),
        ensures
            *val == self@[self.handles().index_of(handle)],
    {
        proof {
            assert(self.linked_at(self.order@.index_of(handle)));
        }
        self.slots[handle].as_ref().unwrap().ref_val()
    }

    /// Releases every node, back to front, one at a time.
    pub fn clear(&mut self)
        requires
            old(self).wf(),
        ensures
            final(self).wf(),
            final(self)@ == Seq::<T>::empty(),
            final(self).handles() == Seq::<usize>::empty(),
    {
        while self.length > 0
            invariant
                self.wf(),
            decreases self.length,
        {
            let _ = self.remove_tail();
        }
    }

    /// A traversal of the values from front to back. Each call starts afresh
    /// at the front.
    pub fn iter(&self) -> (iter: Iter<'_, T>)
        requires
            self.wf(),
        ensures
            iter.wf(),
            iter@ == self@,
    {
        Iter { list: self, head: self.head, len: self.length }
    }
}

/// A front-to-back traversal of a [`LinkedList`]. Its view is the sequence of
/// values that it has yet to hand out.
pub struct Iter<'a, T> {
    list: &'a LinkedList<T>,
    head: Option<usize>,
    len: usize,
}

impl<'a, T> View for Iter<'a, T> {
    type V = Seq<T>;

    closed spec fn view(&self) -> Seq<T> {
        self.list@.skip(self.list@.len() - self.len)
    }
}

impl<'a, T> Iter<'a, T> {
    /// Well-formedness: the traversal stands at a position of a well-formed list.
    pub closed spec fn wf(&self) -> bool {
        let order = self.list.order@;
        &&& self.list.wf()
        &&& self.len <= order.len()
        &&& self.head == (if self.len == 0 {
            None
        } else {
            Some(order[order.len() - self.len])
        })
    }

    /// Hands out the next value, or `None` once the back has been passed.
    pub fn next(&mut self) -> (item: Option<&'a T>)
        requires
            old(self).wf(),
        ensures
            final(self).wf(),
            old(self)@.len() == 0 ==> item is None && final(self)@ == old(self)@,
            old(self)@.len() > 0 ==> item is Some && *item->0 == old(self)@.first() && final(self)@ == old(
                self,
            )@.skip(1),
    {
        if self.len == 0 {
            None
        } else {
            match self.head {
                Some(handle) => {
                    let ghost at = self.list.order@.len() - self.len;
                    assert(self.list.linked_at(at));
                    self.len -= 1;
                    match &self.list.slots[handle] {
                        Some(node) => {
                            self.head = node.next;
                            Some(node.ref_val())
                        },
                        None => None,
                    }
                },
                None => None,
            }
        }
    }
}

} // verus!
