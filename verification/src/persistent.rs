//! The persistent list: structurally shared and copy-on-prepend. Nodes are
//! read-only once built and may belong to many list versions at once, kept
//! alive by reference counting; prepending shares the whole old list as the
//! new tail, and taking the tail shares everything but the head.

use std::rc::Rc;
use vstd::prelude::*;

verus! {

/// Relies on std's `Rc::clone`: the clone is a second handle to the same
/// allocation, so it carries the same value as the original.
#[verifier::external_body]
fn clone_rc<T>(rc: &Rc<T>) -> (res: Rc<T>)
    ensures
        res == *rc,
{
    rc.clone()
}

struct Node<T> {
    elem: T,
    next: Option<Rc<Node<T>>>,
}

/// The elements of the chain that starts at `l`, head first.
spec fn link_seq<T>(l: Option<Rc<Node<T>>>) -> Seq<T>
    decreases l,
{
    match l {
        None => Seq::empty(),
        Some(n) => seq![n.elem] + link_seq(n.next),
    }
}

/// The persistent list: a handle on a chain of shared, immutable nodes.
pub struct List<T> {
    head: Option<Rc<Node<T>>>,
}

impl<T> View for List<T> {
    type V = Seq<T>;

    /// The stored elements, head first.
    closed spec fn view(&self) -> Seq<T> {
        link_seq(self.head)
    }
}

impl<T> List<T> {
    /// An empty list.
    pub fn new() -> (l: List<T>)
        ensures
            l@ == Seq::<T>::empty(),
    {
        List { head: None }
    }

    /// A new list with `val` in front of everything this list holds; the old
    /// list is untouched and its nodes are shared, not copied.
    pub fn prepend(&self, val: T) -> (l: List<T>)
        ensures
            l@ == seq![val] + self@,
    {
        let next = match &self.head {
            None => None,
            Some(rc) => Some(clone_rc(rc)),
        };
        List { head: Some(Rc::new(Node { elem: val, next })) }
    }

    /// A new list holding everything but the head element; the suffix is
    /// shared, not copied. The tail of an empty list is empty.
    pub fn tail(&self) -> (l: List<T>)
        ensures
            self@.len() == 0 ==> l@ == Seq::<T>::empty(),
            self@.len() > 0 ==> l@ == self@.drop_first(),
    {
        match &self.head {
            None => List { head: None },
            Some(rc) => {
                let next = match &rc.next {
                    None => None,
                    Some(b) => Some(clone_rc(b)),
                };
                proof {
                    assert((seq![rc.elem] + link_seq(rc.next)).drop_first() =~= link_seq(rc.next));
                }
                List { head: next }
            },
        }
    }

    /// Borrow the head element read-only; on an empty list, report absence.
    pub fn peek(&self) -> (r: Option<&T>)
        ensures
            self@.len() == 0 ==> r is None,
            self@.len() > 0 ==> (r matches Some(e) && *e == self@[0]),
    {
        match &self.head {
            None => None,
            Some(rc) => Some(&rc.elem),
        }
    }

    /// A read-only traversal from the head, following successor links.
    pub fn iter(&self) -> (it: Iter<'_, T>)
        ensures
            it.remaining() == self@,
    {
        match &self.head {
            None => Iter { next: None },
            Some(rc) => Iter { next: Some(&**rc) },
        }
    }
}

/// The borrowing iterator: a cursor of shared references into the chain.
pub struct Iter<'a, T> {
    next: Option<&'a Node<T>>,
}

impl<'a, T> Iter<'a, T> {
    /// The elements not yet produced.
    pub closed spec fn remaining(self) -> Seq<T> {
        match self.next {
            None => Seq::empty(),
            Some(n) => seq![n.elem] + link_seq(n.next),
        }
    }

    /// Produce a view of the next element, or report exhaustion.
    pub fn next(&mut self) -> (r: Option<&'a T>)
        ensures
            old(self).remaining().len() == 0 ==> r is None && final(self).remaining() == old(
                self,
            ).remaining(),
            old(self).remaining().len() > 0 ==> (r matches Some(e) && *e == old(
                self,
            ).remaining()[0]) && final(self).remaining() == old(self).remaining().drop_first(),
    {
        match self.next {
            None => None,
            Some(node) => {
                self.next = match &node.next {
                    None => None,
                    Some(rc) => Some(&**rc),
                };
                proof {
                    assert((seq![node.elem] + link_seq(node.next)).drop_first() =~= link_seq(
                        node.next,
                    ));
                }
                Some(&node.elem)
            },
        }
    }
}

} // verus!
