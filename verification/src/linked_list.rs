//! A doubly linked list.
//!
//! Every node is a heap allocation of its own. The list owns its nodes through
//! a table of slots, and the index of a node's slot is its handle. The `next`
//! and `prev` links of a node are such handles: they are used to walk the
//! chain and to repair it around an insertion or a removal, and never own
//! anything. So a node is released exactly once: by a deletion, which hands
//! its value back, or together with the list.

use std::fmt::Display;
use vstd::prelude::*;
use vstd::seq_lib::*;
use vstd::set_lib::*;
use vstd::string::*;

verus! {

/// Why an operation on a list was refused.
#[derive(Debug, Clone, Copy, PartialEq, Eq, Structural)]
pub enum ListError {
    /// The index lies beyond the positions that the list has.
    OutOfBounds,
}

/// One element of the chain: a value and the handles of its two neighbours.
pub struct Node<T> {
    pub val: T,
    pub next: Option<usize>,
    pub prev: Option<usize>,
}

impl<T> Node<T> {
    /// A node that holds `t` and is linked to nothing.
    pub fn new(t: T) -> (node: Self)
        ensures
            node.val == t,
            node.next is None,
            node.prev is None,
    {
        Node { val: t, prev: None, next: None }
    }
}

/// A doubly linked list of `T`.
///
/// `slots` is the table through which the list owns its nodes: a slot holds a
/// node of the chain or is empty, and the empty ones are listed in `free`.
/// `order` is the chain as a sequence of handles, first node first; it exists
/// only in proofs.
pub struct LinkedList<T> {
    pub length: u32,
    pub head: Option<usize>,
    pub tail: Option<usize>,
    pub slots: Vec<Option<Box<Node<T>>>>,
    pub free: Vec<usize>,
    pub order: Ghost<Seq<usize>>,
}

impl<T> View for LinkedList<T> {
    type V = Seq<T>;

    /// The values of the list, first to last.
    closed spec fn view(&self) -> Seq<T> {
        Seq::new(self.order@.len(), |i: int| self.node(self.order@[i]).val)
    }
}

impl<T> LinkedList<T> {
    /// Whether `h` names a slot that holds a node.
    pub open spec fn occupied(self, h: usize) -> bool {
        h < self.slots@.len() && self.slots@[h as int] is Some
    }

    /// The node in slot `h`.
    pub open spec fn node(self, h: usize) -> Node<T> {
        *(self.slots@[h as int]->0)
    }

    /// The handle that follows position `i` of the chain, if any.
    spec fn successor(self, i: int) -> Option<usize> {
        if i + 1 < self.order@.len() {
            Some(self.order@[i + 1])
        } else {
            None
        }
    }

    /// The handle that precedes position `i` of the chain, if any.
    spec fn predecessor(self, i: int) -> Option<usize> {
        if 0 < i {
            Some(self.order@[i - 1])
        } else {
            None
        }
    }

    /// The free list names empty slots, each once.
    spec fn free_wf(self) -> bool {
        &&& self.free@.no_duplicates()
        &&& forall|j: int|
            0 <= j < self.free@.len() ==> (#[trigger] self.free@[j]) < self.slots@.len()
                && self.slots@[self.free@[j] as int] is None
    }

    /// The node at position `i` of the chain is in its slot, and its links name
    /// its two neighbours in the chain.
    spec fn link_wf(self, i: int) -> bool {
        &&& self.occupied(self.order@[i])
        &&& self.node(self.order@[i]).next == self.successor(i)
        &&& self.node(self.order@[i]).prev == self.predecessor(i)
    }

    /// The chain names occupied slots, each once, and is linked consistently
    /// in both directions.
    spec fn chain_wf(self) -> bool {
        &&& self.order@.no_duplicates()
        &&& forall|i: int| 0 <= i < self.order@.len() ==> #[trigger] self.link_wf(i)
    }

    /// `head` and `tail` name the two ends of the chain and `length` counts it.
    spec fn anchors_wf(self) -> bool {
        &&& self.length == self.order@.len()
        &&& self.head == self.successor(-1)
        &&& self.tail == self.predecessor(self.order@.len() as int)
    }

    /// The invariant of the list: every slot is either in the chain or free,
    /// the chain is consistently linked in both directions, and the anchors
    /// and the counter agree with it.
    pub closed spec fn wf(self) -> bool {
        &&& self.slots@.len() == self.order@.len() + self.free@.len()
        &&& self.free_wf()
        &&& self.chain_wf()
        &&& self.anchors_wf()
    }

    /// An empty list.
    pub fn new() -> (list: Self)
        ensures
            list.wf(),
            list@ == Seq::<T>::empty(),
            list.length == 0,
    {
        LinkedList {
            length: 0,
            head: None,
            tail: None,
            slots: Vec::new(),
            free: Vec::new(),
            order: Ghost(Seq::empty()),
        }
    }

    /// Moves `node` to the heap, into an empty slot of the table, and returns
    /// its handle. The chain, the anchors and the counter are left as they
    /// were.
    fn allocate(&mut self, node: Node<T>) -> (h: usize)
        requires
            old(self).free_wf(),
        ensures
            !old(self).occupied(h),
            h <= old(self).slots@.len(),
            final(self).slots@ == if h < old(self).slots@.len() {
                old(self).slots@.update(h as int, Some(Box::new(node)))
            } else {
                old(self).slots@.push(Some(Box::new(node)))
            },
            final(self).slots@.len() + old(self).free@.len() == old(self).slots@.len()
                + final(self).free@.len() + 1,
            final(self).free_wf(),
            final(self).order == old(self).order,
            final(self).length == old(self).length,
            final(self).head == old(self).head,
            final(self).tail == old(self).tail,
    {
        match self.free.pop() {
            Some(h) => {
                self.slots[h] = Some(Box::new(node));
                h
            },
            None => {
                let h: usize = self.slots.len();
                self.slots.push(Some(Box::new(node)));
                h
            },
        }
    }

    /// Frees the node in slot `h` and returns the value that it held. The
    /// chain, the anchors and the counter are left as they were.
    fn release(&mut self, h: usize) -> (val: T)
        requires
            old(self).free_wf(),
            old(self).occupied(h),
        ensures
            val == old(self).node(h).val,
            final(self).slots@ == old(self).slots@.update(h as int, None),
            final(self).free@ == old(self).free@.push(h),
            final(self).free_wf(),
            final(self).order == old(self).order,
            final(self).length == old(self).length,
            final(self).head == old(self).head,
            final(self).tail == old(self).tail,
    {
        let taken = self.slots[h].take();
        self.free.push(h);
        let node = *taken.unwrap();
        node.val
    }

    /// Writes the `next` link of the node in slot `h`.
    fn set_next(&mut self, h: usize, link: Option<usize>)
        requires
            old(self).occupied(h),
        ensures
            final(self).slots@ == old(self).slots@.update(
                h as int,
                Some(
                    Box::new(
                        Node { val: old(self).node(h).val, next: link, prev: old(self).node(h).prev },
                    ),
                ),
            ),
            final(self).free == old(self).free,
            old(self).free_wf() ==> final(self).free_wf(),
            final(self).order == old(self).order,
            final(self).length == old(self).length,
            final(self).head == old(self).head,
            final(self).tail == old(self).tail,
    {
        match &mut self.slots[h] {
            Some(node) => {
                node.next = link;
            },
            None => {},
        }
    }

    /// Writes the `prev` link of the node in slot `h`.
    fn set_prev(&mut self, h: usize, link: Option<usize>)
        requires
            old(self).occupied(h),
        ensures
            final(self).slots@ == old(self).slots@.update(
                h as int,
                Some(
                    Box::new(
                        Node { val: old(self).node(h).val, next: old(self).node(h).next, prev: link },
                    ),
                ),
            ),
            final(self).free == old(self).free,
            old(self).free_wf() ==> final(self).free_wf(),
            final(self).order == old(self).order,
            final(self).length == old(self).length,
            final(self).head == old(self).head,
            final(self).tail == old(self).tail,
    {
        match &mut self.slots[h] {
            Some(node) => {
                node.prev = link;
            },
            None => {},
        }
    }

    /// `post` is `pre` with the node in slot `h` spliced into the chain at
    /// position `k`: the new node is linked to its two neighbours, those are
    /// linked to it, and nothing else has changed.
    spec fn spliced_in(pre: Self, post: Self, k: int, h: usize) -> bool {
        &&& 0 <= k <= pre.order@.len()
        &&& !pre.occupied(h)
        &&& post.order@ == pre.order@.insert(k, h)
        &&& post.length == pre.length + 1
        &&& post.head == (if k == 0 {
            Some(h)
        } else {
            pre.head
        })
        &&& post.tail == (if k == pre.order@.len() {
            Some(h)
        } else {
            pre.tail
        })
        &&& post.free_wf()
        &&& post.slots@.len() + pre.free@.len() == pre.slots@.len() + post.free@.len() + 1
        &&& post.occupied(h)
        &&& post.node(h).prev == pre.predecessor(k)
        &&& post.node(h).next == pre.successor(k - 1)
        &&& forall|g: usize| #[trigger]
            pre.occupied(g) ==> {
                &&& post.occupied(g)
                &&& post.node(g).val == pre.node(g).val
                &&& post.node(g).next == (if pre.predecessor(k) == Some(g) {
                    Some(h)
                } else {
                    pre.node(g).next
                })
                &&& post.node(g).prev == (if pre.successor(k - 1) == Some(g) {
                    Some(h)
                } else {
                    pre.node(g).prev
                })
            }
    }

    /// Splicing a node into a well-formed list gives a well-formed list, whose
    /// values are the old ones with the new value at the position of the splice.
    proof fn lemma_spliced_in(pre: Self, post: Self, k: int, h: usize)
        requires
            pre.wf(),
            Self::spliced_in(pre, post, k, h),
        ensures
            post.wf(),
            post@ == pre@.insert(k, post.node(h).val),
    {
        let was = pre.order@;
        let now = post.order@;
        assert forall|i: int| 0 <= i < was.len() implies was[i] != h by {
            assert(pre.link_wf(i));
        }
        assert forall|i: int| 0 <= i < now.len() implies #[trigger] post.link_wf(i) by {
            if i < k {
                assert(pre.link_wf(i));
            } else if i > k {
                assert(pre.link_wf(i - 1));
            }
        }
        assert forall|i: int| 0 <= i < now.len() implies post@[i] == pre@.insert(
            k,
            post.node(h).val,
        )[i] by {
            if i < k {
                assert(pre.link_wf(i));
            } else if i > k {
                assert(pre.link_wf(i - 1));
            }
        }
    }

    /// `post` is `pre` with the node at position `k` taken out of the chain:
    /// its two neighbours are linked to each other, its slot is free, and
    /// nothing else has changed.
    spec fn spliced_out(pre: Self, post: Self, k: int) -> bool {
        let h = pre.order@[k];
        &&& 0 <= k < pre.order@.len()
        &&& post.order@ == pre.order@.remove(k)
        &&& post.length == pre.length - 1
        &&& post.head == (if k == 0 {
            pre.successor(k)
        } else {
            pre.head
        })
        &&& post.tail == (if k == pre.order@.len() - 1 {
            pre.predecessor(k)
        } else {
            pre.tail
        })
        &&& post.free_wf()
        &&& post.free@.len() == pre.free@.len() + 1
        &&& post.slots@.len() == pre.slots@.len()
        &&& forall|g: usize| #[trigger]
            pre.occupied(g) && g != h ==> {
                &&& post.occupied(g)
                &&& post.node(g).val == pre.node(g).val
                &&& post.node(g).next == (if pre.predecessor(k) == Some(g) {
                    pre.successor(k)
                } else {
                    pre.node(g).next
                })
                &&& post.node(g).prev == (if pre.successor(k) == Some(g) {
                    pre.predecessor(k)
                } else {
                    pre.node(g).prev
                })
            }
    }

    /// Taking a node out of a well-formed list gives a well-formed list, whose
    /// values are the old ones without the one at the position of the node.
    proof fn lemma_spliced_out(pre: Self, post: Self, k: int)
        requires
            pre.wf(),
            Self::spliced_out(pre, post, k),
        ensures
            post.wf(),
            post@ == pre@.remove(k),
    {
        let now = post.order@;
        assert forall|i: int| 0 <= i < now.len() implies #[trigger] post.link_wf(i) by {
            if i < k {
                assert(pre.link_wf(i));
            } else {
                assert(pre.link_wf(i + 1));
            }
        }
        assert forall|i: int| 0 <= i < now.len() implies post@[i] == pre@.remove(k)[i] by {
            if i < k {
                assert(pre.link_wf(i));
            } else {
                assert(pre.link_wf(i + 1));
            }
        }
    }

    /// Walks `next` links from the head `index` times and returns the handle
    /// reached, or `None` where the chain ends before that.
    fn node_at(&self, index: u32) -> (found: Option<usize>)
        requires
            self.wf(),
        ensures
            found == self.successor(index - 1),
    {
        let mut cur: Option<usize> = self.head;
        let mut walked: u32 = 0;
        while walked < index
            invariant
                self.wf(),
                walked <= index,
                cur == self.successor(walked - 1),
            decreases index - walked,
        {
            match cur {
                None => {
                    return None;
                },
                Some(h) => {
                    assert(self.link_wf(walked as int));
                    cur = self.slots[h].as_ref().unwrap().next;
                },
            }
            walked = walked + 1;
        }
        cur
    }

    /// Puts `obj` in front of the first element.
    pub fn insert_at_head(&mut self, obj: T)
        requires
            old(self).wf(),
            old(self).length < u32::MAX,
        ensures
            final(self).wf(),
            final(self)@ == old(self)@.insert(0, obj),
            final(self).length == old(self).length + 1,
    {
        let mut node = Node::new(obj);
        node.next = self.head;
        node.prev = None;
        let old_head = self.head;
        let h = self.allocate(node);
        match old_head {
            Some(first) => {
                assert(old(self).link_wf(0));
                self.set_prev(first, Some(h));
            },
            None => {
                self.tail = Some(h);
            },
        }
        self.head = Some(h);
        self.length = self.length + 1;
        self.order = Ghost(self.order@.insert(0, h));
        proof {
            Self::lemma_spliced_in(*old(self), *self, 0, h);
        }
    }

    /// Puts `obj` behind the last element.
    pub fn insert_at_tail(&mut self, obj: T)
        requires
            old(self).wf(),
            old(self).length < u32::MAX,
        ensures
            final(self).wf(),
            final(self)@ == old(self)@.push(obj),
            final(self).length == old(self).length + 1,
    {
        let mut node = Node::new(obj);
        node.next = None;
        node.prev = self.tail;
        let old_tail = self.tail;
        let h = self.allocate(node);
        match old_tail {
            Some(last) => {
                assert(old(self).link_wf(old(self).order@.len() - 1));
                self.set_next(last, Some(h));
            },
            None => {
                self.head = Some(h);
            },
        }
        self.tail = Some(h);
        self.length = self.length + 1;
        self.order = Ghost(self.order@.insert(self.order@.len() as int, h));
        proof {
            let k = old(self).order@.len() as int;
            Self::lemma_spliced_in(*old(self), *self, k, h);
        }
    }

    /// Puts `obj` at position `index`, in front of the element that was there.
    /// An `index` equal to the length appends; a larger one is refused and the
    /// list is left untouched.
    pub fn insert_at_ith(&mut self, index: u32, obj: T) -> (res: Result<(), ListError>)
        requires
            old(self).wf(),
            old(self).length < u32::MAX,
        ensures
            final(self).wf(),
            index > old(self).length ==> res == Err::<(), ListError>(ListError::OutOfBounds)
                && *final(self) == *old(self),
            index <= old(self).length ==> res is Ok && final(self)@ == old(self)@.insert(
                index as int,
                obj,
            ) && final(self).length == old(self).length + 1,
    {
        if self.length < index {
            return Err(ListError::OutOfBounds);
        }
        if index == 0 || self.head.is_none() {
            self.insert_at_head(obj);
            return Ok(());
        }
        if index == self.length {
            self.insert_at_tail(obj);
            return Ok(());
        }
        self.insert_before(index, obj);
        Ok(())
    }

    /// Splices a new node that holds `obj` in between the node at position
    /// `index` and the one in front of it.
    fn insert_before(&mut self, index: u32, obj: T)
        requires
            old(self).wf(),
            0 < index < old(self).length,
            old(self).length < u32::MAX,
        ensures
            final(self).wf(),
            final(self)@ == old(self)@.insert(index as int, obj),
            final(self).length == old(self).length + 1,
    {
        let ith = self.node_at(index).unwrap();
        assert(self.link_wf(index as int));
        assert(self.link_wf(index - 1));
        let before = self.slots[ith].as_ref().unwrap().prev.unwrap();
        let mut node = Node::new(obj);
        node.prev = Some(before);
        node.next = Some(ith);
        let h = self.allocate(node);
        self.set_next(before, Some(h));
        self.set_prev(ith, Some(h));
        self.length = self.length + 1;
        self.order = Ghost(self.order@.insert(index as int, h));
        proof {
            Self::lemma_spliced_in(*old(self), *self, index as int, h);
        }
    }

    /// Removes the first element and returns it; `None` on an empty list.
    pub fn delete_head(&mut self) -> (removed: Option<T>)
        requires
            old(self).wf(),
        ensures
            final(self).wf(),
            old(self)@.len() == 0 ==> removed is None && *final(self) == *old(self),
            old(self)@.len() > 0 ==> removed == Some(old(self)@[0]) && final(self)@ == old(
                self,
            )@.remove(0) && final(self).length == old(self).length - 1,
    {
        if self.length == 0 {
            return None;
        }
        match self.head {
            None => None,
            Some(first) => Some(self.unlink(0, first)),
        }
    }

    /// Removes the last element and returns it; `None` on an empty list.
    pub fn delete_tail(&mut self) -> (removed: Option<T>)
        requires
            old(self).wf(),
        ensures
            final(self).wf(),
            old(self)@.len() == 0 ==> removed is None && *final(self) == *old(self),
            old(self)@.len() > 0 ==> removed == Some(old(self)@.last()) && final(self)@ == old(
                self,
            )@.drop_last() && final(self).length == old(self).length - 1,
    {
        match self.tail {
            None => None,
            Some(last) => {
                let val = self.unlink(self.length - 1, last);
                Some(val)
            },
        }
    }

    /// The position that `delete_ith` removes for `index`: `index` itself, but
    /// the last position where `index` equals the length.
    pub open spec fn deleted_position(len: nat, index: u32) -> int {
        if index == len {
            len - 1
        } else {
            index as int
        }
    }

    /// Removes the element at position `index` and returns it. An `index` equal
    /// to the length stands for the last element; a larger one is refused and
    /// the list is left untouched. On an empty list there is nothing to remove.
    pub fn delete_ith(&mut self, index: u32) -> (res: Result<Option<T>, ListError>)
        requires
            old(self).wf(),
        ensures
            final(self).wf(),
            index > old(self).length ==> res == Err::<Option<T>, ListError>(
                ListError::OutOfBounds,
            ) && *final(self) == *old(self),
            index <= old(self).length && old(self).length == 0 ==> res == Ok::<
                Option<T>,
                ListError,
            >(None) && *final(self) == *old(self),
            index <= old(self).length && old(self).length > 0 ==> res == Ok::<
                Option<T>,
                ListError,
            >(Some(old(self)@[Self::deleted_position(old(self)@.len(), index)])) && final(self)@
                == old(self)@.remove(Self::deleted_position(old(self)@.len(), index))
                && final(self).length == old(self).length - 1,
    {
        if self.length < index {
            return Err(ListError::OutOfBounds);
        }
        if index == 0 || self.head.is_none() {
            return Ok(self.delete_head());
        }
        if self.length == index {
            let removed = self.delete_tail();
            return Ok(removed);
        }
        let ith = self.node_at(index).unwrap();
        Ok(Some(self.unlink(index, ith)))
    }

    /// Takes the node in slot `ith`, which stands at position `index`, out of
    /// the chain, joins its two neighbours, releases the slot and returns the
    /// value.
    fn unlink(&mut self, index: u32, ith: usize) -> (val: T)
        requires
            old(self).wf(),
            index < old(self).length,
            ith == old(self).order@[index as int],
        ensures
            final(self).wf(),
            val == old(self)@[index as int],
            final(self)@ == old(self)@.remove(index as int),
            final(self).length == old(self).length - 1,
    {
        assert(self.link_wf(index as int));
        assert(0 < index ==> self.link_wf(index - 1));
        assert(index + 1 < self.length ==> self.link_wf(index + 1));
        let before = self.slots[ith].as_ref().unwrap().prev;
        let after = self.slots[ith].as_ref().unwrap().next;
        match before {
            Some(previous) => {
                self.set_next(previous, after);
            },
            None => {
                self.head = after;
            },
        }
        match after {
            Some(following) => {
                self.set_prev(following, before);
            },
            None => {
                self.tail = before;
            },
        }
        self.length = self.length - 1;
        self.order = Ghost(self.order@.remove(index as int));
        let val = self.release(ith);
        proof {
            Self::lemma_spliced_out(*old(self), *self, index as int);
        }
        val
    }

    /// The handle of the node at position `index`, found by a walk along the
    /// `next` links from the head. A negative `index` names no position.
    fn get_ith_node(&self, index: i32) -> (found: Option<usize>)
        requires
            self.wf(),
        ensures
            found == (if 0 <= index {
                self.successor(index - 1)
            } else {
                None
            }),
    {
        if index < 0 {
            None
        } else {
            self.node_at(index as u32)
        }
    }

    /// What stands at position `index` of the values `s`: nothing where `index`
    /// is negative or `s` has no such position.
    pub open spec fn element_at(s: Seq<T>, index: int) -> Option<T> {
        if 0 <= index < s.len() {
            Some(s[index])
        } else {
            None
        }
    }

    /// The element at position `index`, or `None` where the list has no such
    /// position. Every negative `index` is out of range.
    pub fn get(&self, index: i32) -> (found: Option<&T>)
        requires
            self.wf(),
        ensures
            match Self::element_at(self@, index as int) {
                Some(v) => found == Some(&v),
                None => found is None,
            },
    {
        match self.get_ith_node(index) {
            Some(h) => {
                assert(self.link_wf(index as int));
                Some(&self.slots[h].as_ref().unwrap().val)
            },
            None => None,
        }
    }

    /// After an insertion at position 0, position 0 holds the inserted value,
    /// whatever the list held before.
    pub proof fn lemma_insert_front_then_get(self, v: T)
        requires
            self.wf(),
        ensures
            Self::element_at(self@.insert(0, v), 0) == Some(v),
    {
    }

    /// An insertion at the tail followed by a deletion at the tail hands back
    /// the inserted value and leaves the values and the length of the list as
    /// they were before the two.
    pub proof fn lemma_insert_tail_then_delete_tail(self, v: T)
        requires
            self.wf(),
        ensures
            self@.push(v).len() > 0,
            self@.push(v).last() == v,
            self@.push(v).drop_last() == self@,
            self@.push(v).drop_last().len() == self.length,
    {
    }

    /// An insertion at the head followed by a deletion at the head hands back
    /// the inserted value and leaves the values and the length of the list as
    /// they were before the two.
    pub proof fn lemma_insert_head_then_delete_head(self, v: T)
        requires
            self.wf(),
        ensures
            self@.insert(0, v).len() > 0,
            self@.insert(0, v)[0] == v,
            self@.insert(0, v).remove(0) == self@,
            self@.insert(0, v).remove(0).len() == self.length,
    {
    }

    /// The values met on a walk along the `next` links that starts at `from`
    /// and visits at most `limit` nodes. The walk ends where a link is absent.
    pub open spec fn walk_next(self, from: Option<usize>, limit: nat) -> Seq<T>
        decreases limit,
    {
        match from {
            Some(h) if limit > 0 && self.occupied(h) => seq![self.node(h).val] + self.walk_next(
                self.node(h).next,
                (limit - 1) as nat,
            ),
            _ => Seq::empty(),
        }
    }

    /// The values met on a walk along the `prev` links that starts at `from`
    /// and visits at most `limit` nodes. The walk ends where a link is absent.
    pub open spec fn walk_prev(self, from: Option<usize>, limit: nat) -> Seq<T>
        decreases limit,
    {
        match from {
            Some(h) if limit > 0 && self.occupied(h) => seq![self.node(h).val] + self.walk_prev(
                self.node(h).prev,
                (limit - 1) as nat,
            ),
            _ => Seq::empty(),
        }
    }

    /// The forward traversal: from the head along `next` until a link is
    /// absent. No walk can visit more nodes than the table has slots.
    pub open spec fn forward(self) -> Seq<T> {
        self.walk_next(self.head, self.slots@.len())
    }

    /// The backward traversal: from the tail along `prev` until a link is
    /// absent.
    pub open spec fn backward(self) -> Seq<T> {
        self.walk_prev(self.tail, self.slots@.len())
    }

    /// A walk along `next` from position `i` of the chain meets the values
    /// from `i` on and then ends, whatever limit it is given beyond that.
    proof fn lemma_walk_next(self, i: int, limit: nat)
        requires
            self.wf(),
            0 <= i <= self.order@.len(),
            limit >= self.order@.len() - i,
        ensures
            self.walk_next(self.successor(i - 1), limit) == self@.skip(i),
        decreases self.order@.len() - i,
    {
        if i < self.order@.len() {
            assert(self.link_wf(i));
            self.lemma_walk_next(i + 1, (limit - 1) as nat);
        }
    }

    /// A walk along `prev` from position `i` of the chain meets the values
    /// from `i` down to the first and then ends.
    proof fn lemma_walk_prev(self, i: int, limit: nat)
        requires
            self.wf(),
            -1 <= i < self.order@.len(),
            limit >= i + 1,
        ensures
            self.walk_prev(self.predecessor(i + 1), limit) == self@.take(i + 1).reverse(),
        decreases i + 1,
    {
        if 0 <= i {
            assert(self.link_wf(i));
            self.lemma_walk_prev(i - 1, (limit - 1) as nat);
        }
    }

    /// In a well-formed list the counter is the number of nodes that a full
    /// forward traversal meets, and that a full backward traversal meets.
    pub proof fn lemma_length_counts_nodes(self)
        requires
            self.wf(),
        ensures
            self.forward().len() == self.length,
            self.backward().len() == self.length,
            self@.len() == self.length,
    {
        self.lemma_traversals();
    }

    /// In a well-formed list the forward traversal meets the values of the
    /// list in order, and the backward traversal meets them in the exact
    /// reverse order.
    pub proof fn lemma_traversals(self)
        requires
            self.wf(),
        ensures
            self.forward() == self@,
            self.backward() == self@.reverse(),
            self.backward() == self.forward().reverse(),
    {
        self.lemma_walk_next(0, self.slots@.len());
        self.lemma_walk_prev(self.order@.len() - 1, self.slots@.len());
    }

    /// In a well-formed list the head is absent exactly when the list is
    /// empty, and so is the tail; a list of one element has the same node at
    /// both ends.
    pub proof fn lemma_anchors(self)
        requires
            self.wf(),
        ensures
            self.length == 0 <==> self.head is None,
            self.length == 0 <==> self.tail is None,
            self.length == 1 ==> self.head == self.tail,
    {
    }

    /// In a well-formed list the links are mutual: the node behind a node of
    /// the chain names it as the one in front, and the node in front of it
    /// names it as the one behind. Only the last node has no `next`, and only
    /// the first no `prev`.
    pub proof fn lemma_links_are_mutual(self, h: usize)
        requires
            self.wf(),
            self.order@.contains(h),
        ensures
            self.occupied(h),
            self.node(h).next matches Some(n) ==> self.occupied(n) && self.node(n).prev == Some(h),
            self.node(h).prev matches Some(p) ==> self.occupied(p) && self.node(p).next == Some(h),
            self.node(h).next is None <==> self.tail == Some(h),
            self.node(h).prev is None <==> self.head == Some(h),
    {
        let i = choose|i: int| 0 <= i < self.order@.len() && self.order@[i] == h;
        assert(self.link_wf(i));
        if i + 1 < self.order@.len() {
            assert(self.link_wf(i + 1));
        }
        if 0 < i {
            assert(self.link_wf(i - 1));
        }
    }

    /// In a well-formed list every slot of the table is accounted for: a node
    /// that the list owns is part of the chain, so no node is left behind.
    pub proof fn lemma_no_leak(self, h: usize)
        requires
            self.wf(),
            self.occupied(h),
        ensures
            self.order@.contains(h),
            self.slots@.len() == self.length + self.free@.len(),
    {
        let chain = self.order@;
        let spare = self.free@;
        let n = self.slots@.len() as int;
        assert forall|i: int, j: int| 0 <= i < chain.len() && 0 <= j < spare.len() implies chain[i]
            != spare[j] by {
            assert(self.link_wf(i));
        }
        lemma_no_dup_in_concat(chain, spare);
        let handles = (chain + spare).map_values(|g: usize| g as int);
        assert(handles.no_duplicates()) by {
            assert forall|i: int, j: int|
                0 <= i < handles.len() && 0 <= j < handles.len() && i != j implies handles[i]
                != handles[j] by {
                assert((chain + spare)[i] != (chain + spare)[j]);
            }
        }
        handles.unique_seq_to_set();
        seq_to_set_is_finite(handles);
        lemma_int_range(0, n);
        assert(handles.to_set().subset_of(set_int_range(0, n))) by {
            assert forall|x: int| handles.to_set().contains(x) implies set_int_range(
                0,
                n,
            ).contains(x) by {
                let i = choose|i: int| 0 <= i < handles.len() && handles[i] == x;
                if i < chain.len() {
                    assert(self.link_wf(i));
                } else {
                    assert(spare[i - chain.len()] == (chain + spare)[i]);
                }
            }
        }
        lemma_subset_equality(handles.to_set(), set_int_range(0, n));
        assert(set_int_range(0, n).contains(h as int));
        let i = choose|i: int| 0 <= i < handles.len() && handles[i] == h as int;
        if i >= chain.len() {
            assert(spare[i - chain.len()] == h);
        }
        assert(chain[i] == h);
    }

    /// A forward traversal: it starts at the head and gives the values of the
    /// list one by one, first to last.
    pub fn iterate(&self) -> (iter: Iter<'_, T>)
        requires
            self.wf(),
        ensures
            iter.wf(),
            iter.remaining() == self@,
    {
        Iter { list: self, cur: self.head, pos: Ghost(0) }
    }

    /// A backward traversal: it starts at the tail and gives the values of the
    /// list one by one, last to first.
    pub fn iterate_back(&self) -> (iter: IterBack<'_, T>)
        requires
            self.wf(),
        ensures
            iter.wf(),
            iter.remaining() == self@.reverse(),
    {
        IterBack { list: self, cur: self.tail, pos: Ghost(self.order@.len() - 1) }
    }

    /// Tears the list down: removes the head until nothing is left.
    pub fn clear(&mut self)
        requires
            old(self).wf(),
        ensures
            final(self).wf(),
            final(self)@ == Seq::<T>::empty(),
            final(self).length == 0,
    {
        loop
            invariant
                self.wf(),
            ensures
                self.wf(),
                self@.len() == 0,
            decreases self.length,
        {
            if self.delete_head().is_none() {
                break;
            }
        }
    }
}

/// A forward traversal of a list: a position in its chain, from which `next`
/// gives the value there and steps along the `next` link.
pub struct Iter<'a, T> {
    list: &'a LinkedList<T>,
    cur: Option<usize>,
    pos: Ghost<int>,
}

impl<'a, T> Iter<'a, T> {
    /// The invariant of the traversal: it stands at a position of the chain
    /// of a well-formed list, or behind the last one.
    pub closed spec fn wf(self) -> bool {
        &&& self.list.wf()
        &&& 0 <= self.pos@ <= self.list.order@.len()
        &&& self.cur == self.list.successor(self.pos@ - 1)
    }

    /// The values that the traversal has still to give, the next one first.
    pub closed spec fn remaining(self) -> Seq<T> {
        self.list@.skip(self.pos@)
    }

    /// Gives the value at the position of the traversal and steps to the next
    /// node; `None` once the chain has ended, and from then on.
    pub fn next(&mut self) -> (value: Option<&'a T>)
        requires
            old(self).wf(),
        ensures
            final(self).wf(),
            old(self).remaining().len() == 0 ==> value is None && final(self).remaining().len()
                == 0,
            old(self).remaining().len() > 0 ==> value == Some(&old(self).remaining()[0])
                && final(self).remaining() == old(self).remaining().drop_first(),
    {
        match self.cur {
            None => None,
            Some(h) => {
                let list: &'a LinkedList<T> = self.list;
                assert(list.link_wf(self.pos@));
                let node = list.slots[h].as_ref().unwrap();
                self.cur = node.next;
                self.pos = Ghost(self.pos@ + 1);
                Some(&node.val)
            },
        }
    }
}

/// A backward traversal of a list: a position in its chain, from which `next`
/// gives the value there and steps along the `prev` link.
pub struct IterBack<'a, T> {
    list: &'a LinkedList<T>,
    cur: Option<usize>,
    pos: Ghost<int>,
}

impl<'a, T> IterBack<'a, T> {
    /// The invariant of the traversal: it stands at a position of the chain
    /// of a well-formed list, or in front of the first one.
    pub closed spec fn wf(self) -> bool {
        &&& self.list.wf()
        &&& -1 <= self.pos@ < self.list.order@.len()
        &&& self.cur == self.list.predecessor(self.pos@ + 1)
    }

    /// The values that the traversal has still to give, the next one first.
    pub closed spec fn remaining(self) -> Seq<T> {
        self.list@.take(self.pos@ + 1).reverse()
    }

    /// Gives the value at the position of the traversal and steps to the
    /// previous node; `None` once the chain has ended, and from then on.
    pub fn next(&mut self) -> (value: Option<&'a T>)
        requires
            old(self).wf(),
        ensures
            final(self).wf(),
            old(self).remaining().len() == 0 ==> value is None && final(self).remaining().len()
                == 0,
            old(self).remaining().len() > 0 ==> value == Some(&old(self).remaining()[0])
                && final(self).remaining() == old(self).remaining().drop_first(),
    {
        match self.cur {
            None => None,
            Some(h) => {
                let list: &'a LinkedList<T> = self.list;
                assert(list.link_wf(self.pos@));
                let node = list.slots[h].as_ref().unwrap();
                self.cur = node.prev;
                self.pos = Ghost(self.pos@ - 1);
                Some(&node.val)
            },
        }
    }
}

/// The texts `parts` written one after the other, with a comma and a space
/// between neighbours; the empty text where there are none.
pub open spec fn joined(parts: Seq<Seq<char>>) -> Seq<char>
    decreases parts.len(),
{
    if parts.len() == 0 {
        Seq::empty()
    } else if parts.len() == 1 {
        parts[0]
    } else {
        joined(parts.drop_last()) + seq![',', ' '] + parts.last()
    }
}

impl<T: Display> LinkedList<T> {
    /// The list as text: what `to_string` gives for each value, in forward
    /// order, with a comma and a space between neighbours.
    pub fn render(&self) -> (text: String)
        requires
            self.wf(),
        ensures
            exists|parts: Seq<String>|
                {
                    &&& parts.len() == self@.len()
                    &&& forall|i: int|
                        0 <= i < parts.len() ==> to_string_from_display_ensures::<T>(
                            &self@[i],
                            #[trigger] parts[i],
                        )
                    &&& text@ == joined(parts.map_values(|p: String| p@))
                },
    {
        let mut text = String::new();
        let mut cur: Option<usize> = self.head;
        let mut first = true;
        let ghost mut parts: Seq<String> = Seq::empty();
        while cur.is_some()
            invariant
                self.wf(),
                0 <= parts.len() <= self.order@.len(),
                first <==> parts.len() == 0,
                cur == self.successor(parts.len() - 1),
                forall|i: int|
                    0 <= i < parts.len() ==> to_string_from_display_ensures::<T>(
                        &self@[i],
                        #[trigger] parts[i],
                    ),
                text@ == joined(parts.map_values(|p: String| p@)),
            decreases self.order@.len() - parts.len(),
        {
            let h = cur.unwrap();
            assert(self.link_wf(parts.len() as int));
            let node = self.slots[h].as_ref().unwrap();
            if !first {
                text.append(", ");
            }
            let piece = node.val.to_string();
            text.append(piece.as_str());
            proof {
                let texts = parts.map_values(|p: String| p@);
                let longer = parts.push(piece).map_values(|p: String| p@);
                assert(longer.drop_last() =~= texts);
                reveal_strlit(", ");
                parts = parts.push(piece);
            }
            first = false;
            cur = node.next;
        }
        text
    }
}

} // verus!
