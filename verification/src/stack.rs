//! The singly-linked stack: the simplest of the list variants, with single
//! ownership of every node. Each node owns its successor outright, so pushes
//! and pops work only at the head.

use vstd::prelude::*;

verus! {

struct Node<T> {
    elem: T,
    next: Option<Box<Node<T>>>,
}

/// The elements of the chain that starts at `l`, head first.
spec fn link_seq<T>(l: Option<Box<Node<T>>>) -> Seq<T>
    decreases l,
{
    match l {
        None => Seq::empty(),
        Some(n) => seq![n.elem] + link_seq(n.next),
    }
}

/// The stack: a chain of owned nodes entered at the head.
pub struct List<T> {
    head: Option<Box<Node<T>>>,
}

impl<T> View for List<T> {
    type V = Seq<T>;

    /// The stored elements, top of the stack first.
    closed spec fn view(&self) -> Seq<T> {
        link_seq(self.head)
    }
}

impl<T> List<T> {
    /// An empty stack.
    pub fn new() -> (l: List<T>)
        ensures
            l@ == Seq::<T>::empty(),
    {
        List { head: None }
    }

    /// Push `val` on top of the stack.
    pub fn push(&mut self, val: T)
        ensures
            final(self)@ == seq![val] + old(self)@,
    {
        let next = self.head.take();
        self.head = Some(Box::new(Node { elem: val, next }));
    }

    /// Remove and return the top element; on an empty stack, report absence.
    pub fn pop(&mut self) -> (r: Option<T>)
        ensures
            old(self)@.len() == 0 ==> r is None && final(self)@ == old(self)@,
            old(self)@.len() > 0 ==> r == Some(old(self)@[0]) && final(self)@ == old(
                self,
            )@.drop_first(),
    {
        match self.head.take() {
            None => None,
            Some(node) => {
                let node = *node;
                self.head = node.next;
                proof {
                    assert((seq![node.elem] + link_seq(node.next)).drop_first() =~= link_seq(
                        node.next,
                    ));
                }
                Some(node.elem)
            },
        }
    }

    /// Borrow the top element read-only; on an empty stack, report absence.
    pub fn peek(&self) -> (r: Option<&T>)
        ensures
            self@.len() == 0 ==> r is None,
            self@.len() > 0 ==> (r matches Some(e) && *e == self@[0]),
    {
        match &self.head {
            None => None,
            Some(node) => Some(&node.elem),
        }
    }

    /// Consume the stack, yielding its elements top first.
    pub fn into_iter(self) -> (it: IntoIter<T>)
        ensures
            it@ == self@,
    {
        IntoIter(self)
    }

    /// A read-only traversal from the top, following successor links.
    pub fn iter(&self) -> (it: Iter<'_, T>)
        ensures
            it.remaining() == self@,
    {
        match &self.head {
            None => Iter { next: None },
            Some(b) => Iter { next: Some(&**b) },
        }
    }

    /// A mutable traversal from the top: each produced view is released
    /// before the next one is taken, so no two exclusive views are ever live
    /// at once.
    pub fn iter_mut(&mut self) -> (it: IterMut<'_, T>)
        ensures
            it.remaining() == old(self)@,
    {
        match &mut self.head {
            None => IterMut { next: None },
            Some(b) => IterMut { next: Some(&mut **b) },
        }
    }
}

/// The consuming iterator: owns the stack and pops it empty.
pub struct IntoIter<T>(List<T>);

impl<T> View for IntoIter<T> {
    type V = Seq<T>;

    /// The elements not yet produced.
    closed spec fn view(&self) -> Seq<T> {
        self.0@
    }
}

impl<T> IntoIter<T> {
    /// Produce the next element, or report exhaustion.
    pub fn next(&mut self) -> (r: Option<T>)
        ensures
            old(self)@.len() == 0 ==> r is None && final(self)@ == old(self)@,
            old(self)@.len() > 0 ==> r == Some(old(self)@[0]) && final(self)@ == old(
                self,
            )@.drop_first(),
    {
        self.0.pop()
    }
}

/// The borrowing iterator: a cursor of shared references into the chain.
pub struct Iter<'a, T> {
    next: Option<&'a Node<T>>,
}

impl<'a, T> Iter<'a, T> {
    /// The elements not yet produced.
    pub closed spec fn remaining(self) -> Seq<T> {
        match self.next {
            None => Seq::empty(),
            Some(n) => seq![n.elem] + link_seq(n.next),
        }
    }

    /// Produce a view of the next element, or report exhaustion.
    pub fn next(&mut self) -> (r: Option<&'a T>)
        ensures
            old(self).remaining().len() == 0 ==> r is None && final(self).remaining() == old(
                self,
            ).remaining(),
            old(self).remaining().len() > 0 ==> (r matches Some(e) && *e == old(
                self,
            ).remaining()[0]) && final(self).remaining() == old(self).remaining().drop_first(),
    {
        match self.next {
            None => None,
            Some(node) => {
                self.next = match &node.next {
                    None => None,
                    Some(b) => Some(&**b),
                };
                proof {
                    assert((seq![node.elem] + link_seq(node.next)).drop_first() =~= link_seq(
                        node.next,
                    ));
                }
                Some(&node.elem)
            },
        }
    }
}

/// The exclusive iterator: a cursor of mutable references into the chain,
/// threading ownership down so that each borrow is released before the next
/// is acquired.
pub struct IterMut<'a, T> {
    next: Option<&'a mut Node<T>>,
}

impl<'a, T> IterMut<'a, T> {
    /// The elements not yet produced, as they stand now.
    pub closed spec fn remaining(self) -> Seq<T> {
        match self.next {
            None => Seq::empty(),
            Some(n) => seq![n.elem] + link_seq(n.next),
        }
    }

    /// Produce an exclusive view of the next element, or report exhaustion.
    pub fn next(&mut self) -> (r: Option<&'a mut T>)
        ensures
            old(self).remaining().len() == 0 ==> r is None && final(self).remaining() == old(
                self,
            ).remaining(),
            old(self).remaining().len() > 0 ==> (r matches Some(e) && *e == old(
                self,
            ).remaining()[0]) && final(self).remaining() == old(self).remaining().drop_first(),
    {
        let got = self.next.take();
        match got {
            None => None,
            Some(node) => {
                let ghost chain0 = seq![node.elem] + link_seq(node.next);
                let ghost rest0 = node.next;
                let Node { elem, next } = node;
                self.next = match next {
                    None => None,
                    Some(b) => Some(&mut **b),
                };
                proof {
                    assert(chain0.drop_first() =~= link_seq(rest0));
                }
                Some(elem)
            },
        }
    }
}

} // verus!
