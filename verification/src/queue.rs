//! A first-in, first-out queue.

use std::collections::VecDeque;
use vstd::prelude::*;

verus! {

/// A queue of `T`: values leave at the front in the order in which they
/// entered at the back.
#[derive(Debug)]
pub struct Queue<T> {
    elements: VecDeque<T>,
}

impl<T> View for Queue<T> {
    type V = Seq<T>;

    /// The waiting values, the one that leaves next first.
    closed spec fn view(&self) -> Seq<T> {
        self.elements@
    }
}

impl<T> Queue<T> {
    /// An empty queue.
    pub fn new() -> (queue: Self)
        ensures
            queue@ == Seq::<T>::empty(),
    {
        Queue { elements: VecDeque::new() }
    }

    /// Puts `value` at the back.
    pub fn enqueue(&mut self, value: T)
        ensures
            final(self)@ == old(self)@.push(value),
    {
        self.elements.push_back(value)
    }

    /// Takes the value at the front; `None` where the queue is empty.
    pub fn dequeue(&mut self) -> (front: Option<T>)
        ensures
            old(self)@.len() == 0 ==> front is None && final(self)@ == old(self)@,
            old(self)@.len() > 0 ==> front == Some(old(self)@[0]) && final(self)@ == old(
                self,
            )@.drop_first(),
    {
        self.elements.pop_front()
    }

    /// The value at the front, which leaves next; `None` where the queue is
    /// empty.
    pub fn peek_front(&self) -> (front: Option<&T>)
        ensures
            self@.len() == 0 ==> front is None,
            self@.len() > 0 ==> front == Some(&self@[0]),
    {
        if self.elements.len() == 0 {
            None
        } else {
            Some(&self.elements[0])
        }
    }

    /// The value at the back, which entered last; `None` where the queue is
    /// empty.
    pub fn peek_back(&self) -> (back: Option<&T>)
        ensures
            self@.len() == 0 ==> back is None,
            self@.len() > 0 ==> back == Some(&self@.last()),
    {
        let n = self.elements.len();
        if n == 0 {
            None
        } else {
            Some(&self.elements[n - 1])
        }
    }

    /// The number of waiting values.
    pub fn len(&self) -> (n: usize)
        ensures
            n == self@.len(),
    {
        self.elements.len()
    }

    /// Whether no value is waiting.
    pub fn is_empty(&self) -> (empty: bool)
        ensures
            empty <==> self@.len() == 0,
    {
        self.elements.len() == 0
    }

    /// Drops every waiting value.
    pub fn drain(&mut self)
        ensures
            final(self)@ == Seq::<T>::empty(),
    {
        self.elements.clear();
    }

    /// Whatever enters an empty queue leaves it in the same order: after the
    /// values `entered` have been put into an empty queue one by one, the
    /// `i`-th value to leave is `entered[i]`.
    pub proof fn lemma_first_in_first_out(entered: Seq<T>, i: int)
        requires
            0 <= i < entered.len(),
        ensures
            Self::after_enqueues(Seq::empty(), entered) == entered,
            Self::after_dequeues(entered, i as nat).len() > 0,
            Self::after_dequeues(entered, i as nat)[0] == entered[i],
    {
        Self::lemma_after_enqueues(Seq::empty(), entered);
        Self::lemma_after_dequeues(entered, i as nat);
    }

    /// The waiting values after the values `entered` have been put, one by
    /// one, into a queue that held `waiting`.
    pub open spec fn after_enqueues(waiting: Seq<T>, entered: Seq<T>) -> Seq<T>
        decreases entered.len(),
    {
        if entered.len() == 0 {
            waiting
        } else {
            Self::after_enqueues(waiting, entered.drop_last()).push(entered.last())
        }
    }

    /// The waiting values after `n` values have been taken from a queue that
    /// held `waiting`.
    pub open spec fn after_dequeues(waiting: Seq<T>, n: nat) -> Seq<T>
        decreases n,
    {
        if n == 0 || waiting.len() == 0 {
            waiting
        } else {
            Self::after_dequeues(waiting.drop_first(), (n - 1) as nat)
        }
    }

    proof fn lemma_after_enqueues(waiting: Seq<T>, entered: Seq<T>)
        ensures
            Self::after_enqueues(waiting, entered) == waiting + entered,
        decreases entered.len(),
    {
        if entered.len() == 0 {
            assert(waiting + entered =~= waiting);
        } else {
            Self::lemma_after_enqueues(waiting, entered.drop_last());
            assert((waiting + entered.drop_last()).push(entered.last()) =~= waiting + entered);
        }
    }

    proof fn lemma_after_dequeues(waiting: Seq<T>, n: nat)
        requires
            n <= waiting.len(),
        ensures
            Self::after_dequeues(waiting, n) == waiting.skip(n as int),
        decreases n,
    {
        if n == 0 || waiting.len() == 0 {
            assert(waiting.skip(0) =~= waiting);
        } else {
            Self::lemma_after_dequeues(waiting.drop_first(), (n - 1) as nat);
            assert(waiting.drop_first().skip(n - 1) =~= waiting.skip(n as int));
        }
    }
}

impl<T> Default for Queue<T> {
    /// An empty queue.
    fn default() -> (queue: Self)
        ensures
            queue@ == Seq::<T>::empty(),
    {
        Queue::new()
    }
}

} // verus!
