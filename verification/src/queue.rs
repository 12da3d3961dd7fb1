//! The queue: elements enter at the back and leave at the front. The original
//! problem this variant answers is constant-time append without shared
//! ownership; in the arena model that is simply the deque's tail index kept
//! beside its head index, so the queue is the deque used at one end each.

use crate::deque;
use vstd::prelude::*;

verus! {

/// The queue: push at the back, pop at the front.
pub struct List<T> {
    inner: deque::List<T>,
}

impl<T> View for List<T> {
    type V = Seq<T>;

    /// The stored elements, front of the queue first.
    closed spec fn view(&self) -> Seq<T> {
        self.inner@
    }
}

impl<T> List<T> {
    /// The backing arena is well-formed.
    pub closed spec fn wf(self) -> bool {
        self.inner.wf()
    }

    /// An empty queue.
    pub fn new() -> (q: List<T>)
        ensures
            q.wf(),
            q@ == Seq::<T>::empty(),
    {
        List { inner: deque::List::new() }
    }

    /// Append `elem` at the back of the queue.
    pub fn push(&mut self, elem: T)
        requires
            old(self).wf(),
        ensures
            final(self).wf(),
            final(self)@ == old(self)@.push(elem),
    {
        self.inner.push_back(elem);
    }

    /// Remove and return the front element; on an empty queue, report absence.
    pub fn pop(&mut self) -> (r: Option<T>)
        requires
            old(self).wf(),
        ensures
            final(self).wf(),
            old(self)@.len() == 0 ==> r is None && final(self)@ == old(self)@,
            old(self)@.len() > 0 ==> r == Some(old(self)@[0]) && final(self)@ == old(
                self,
            )@.drop_first(),
    {
        self.inner.pop_front()
    }

    /// Borrow the front element read-only; on an empty queue, report absence.
    pub fn peek(&self) -> (r: Option<&T>)
        requires
            self.wf(),
        ensures
            self@.len() == 0 ==> r is None,
            self@.len() > 0 ==> (r matches Some(e) && *e == self@[0]),
    {
        self.inner.peek_front()
    }

    /// Borrow the front element for writing; whatever the caller stores
    /// through the view replaces the front element. On an empty queue, report
    /// absence.
    pub fn peek_mut(&mut self) -> (r: Option<&mut T>)
        requires
            old(self).wf(),
        ensures
            old(self)@.len() == 0 ==> r is None && final(self)@ == old(self)@ && final(self).wf(),
            old(self)@.len() > 0 ==> (r matches Some(e) && *e == old(self)@[0]
                && final(self).wf() && final(self)@ == old(self)@.update(0, *final(e))),
    {
        self.inner.peek_front_mut()
    }

    /// Consume the queue, yielding its elements front first.
    pub fn into_iter(self) -> (it: IntoIter<T>)
        requires
            self.wf(),
        ensures
            it.wf(),
            it@ == self@,
    {
        IntoIter(self.inner.into_iter())
    }

    /// A read-only traversal from the front, following successor links.
    pub fn iter(&self) -> (it: Iter<'_, T>)
        requires
            self.wf(),
        ensures
            it.wf(),
            it.remaining() == self@,
    {
        Iter { inner: self.inner.iter() }
    }

    /// A mutable traversal from the front: each produced view is released
    /// before the next one is taken.
    pub fn iter_mut(&mut self) -> (it: IterMut<'_, T>)
        requires
            old(self).wf(),
        ensures
            it.wf(),
            it.remaining() == old(self)@,
            it.full() == old(self)@,
            it.produced() == 0,
    {
        IterMut { inner: self.inner.iter_mut() }
    }
}

impl<T> Default for List<T> {
    /// An empty queue.
    fn default() -> (q: Self)
        ensures
            q.wf(),
            q@ == Seq::<T>::empty(),
    {
        List::new()
    }
}

/// The consuming iterator: owns the queue and pops it empty from the front.
pub struct IntoIter<T>(deque::IntoIter<T>);

impl<T> View for IntoIter<T> {
    type V = Seq<T>;

    /// The elements not yet produced.
    closed spec fn view(&self) -> Seq<T> {
        self.0@
    }
}

impl<T> IntoIter<T> {
    /// The owned queue is still well-formed.
    pub closed spec fn wf(self) -> bool {
        self.0.wf()
    }

    /// Produce the next element, or report exhaustion.
    pub fn next(&mut self) -> (r: Option<T>)
        requires
            old(self).wf(),
        ensures
            final(self).wf(),
            old(self)@.len() == 0 ==> r is None && final(self)@ == old(self)@,
            old(self)@.len() > 0 ==> r == Some(old(self)@[0]) && final(self)@ == old(
                self,
            )@.drop_first(),
    {
        self.0.next()
    }
}

/// The borrowing iterator: a read-only cursor over the queue.
pub struct Iter<'a, T> {
    inner: deque::Iter<'a, T>,
}

impl<'a, T> Iter<'a, T> {
    /// The cursor stands inside a well-formed queue.
    pub closed spec fn wf(self) -> bool {
        self.inner.wf()
    }

    /// The elements not yet produced.
    pub closed spec fn remaining(self) -> Seq<T> {
        self.inner.remaining()
    }

    /// Produce a view of the next element, or report exhaustion.
    pub fn next(&mut self) -> (r: Option<&'a T>)
        requires
            old(self).wf(),
        ensures
            final(self).wf(),
            old(self).remaining().len() == 0 ==> r is None && final(self).remaining() == old(
                self,
            ).remaining(),
            old(self).remaining().len() > 0 ==> (r matches Some(e) && *e == old(
                self,
            ).remaining()[0]) && final(self).remaining() == old(self).remaining().drop_first(),
    {
        self.inner.next()
    }
}

/// The exclusive iterator: a mutable cursor over the queue.
pub struct IterMut<'a, T> {
    inner: deque::IterMut<'a, T>,
}

impl<'a, T> IterMut<'a, T> {
    /// The cursor stands inside a well-formed queue.
    pub closed spec fn wf(self) -> bool {
        self.inner.wf()
    }

    /// All elements of the traversed queue, as they stand now.
    pub closed spec fn full(self) -> Seq<T> {
        self.inner.full()
    }

    /// How many elements the cursor has already produced.
    pub closed spec fn produced(self) -> int {
        self.inner.produced()
    }

    /// The elements not yet produced, as they stand now.
    pub closed spec fn remaining(self) -> Seq<T> {
        self.inner.remaining()
    }

    /// Produce an exclusive view of the next element, or report exhaustion.
    /// Whatever the caller stores through the view replaces that element.
    pub fn next(&mut self) -> (r: Option<&mut T>)
        requires
            old(self).wf(),
        ensures
            old(self).remaining().len() == 0 ==> r is None && final(self).wf()
                && final(self).full() == old(self).full()
                && final(self).remaining() == old(self).remaining(),
            old(self).remaining().len() > 0 ==> (r matches Some(e) && *e == old(
                self,
            ).remaining()[0] && final(self).wf() && final(self).produced() == old(self).produced()
                + 1 && final(self).full() == old(self).full().update(
                old(self).produced(),
                *final(e),
            ) && final(self).remaining() == old(self).remaining().drop_first()),
    {
        self.inner.next()
    }
}

} // verus!
