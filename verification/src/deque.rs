//! The doubly-linked deque: an ordered sequence with constant-time insertion
//! and removal at both ends, where every node is reachable from both of its
//! neighbours.
//!
//! A node must be updatable from two directions without the structure being a
//! true ownership cycle, so nodes are kept as entries of a dense arena (a
//! growable store indexed by slot number) and `next`/`prev` are slot indices
//! rather than owning references. The arena owns every node; a slot is
//! released the moment its node is popped, by moving the last slot into the
//! gap, so a drained deque holds no storage at all.

use vstd::prelude::*;

verus! {

/// One arena slot: the stored element plus the slot indices of its successor
/// and its predecessor.
pub struct Node<T> {
    elem: T,
    next: Option<usize>,
    prev: Option<usize>,
}

impl<T> Node<T> {
    /// The element this node stores.
    pub closed spec fn value(self) -> T {
        self.elem
    }

    /// Whether the node is linked to no neighbour in either direction.
    pub closed spec fn unlinked(self) -> bool {
        self.next is None && self.prev is None
    }

    /// A fresh node, not yet linked to any neighbour.
    pub fn new(val: T) -> (n: Node<T>)
        ensures
            n.value() == val,
            n.unlinked(),
    {
        Node { elem: val, next: None, prev: None }
    }
}

/// The deque. `nodes` is the arena; `head` and `tail` are the slot indices of
/// the two end nodes; `order` records, in ghost code only, the slot indices in
/// front-to-back order.
pub struct List<T> {
    nodes: Vec<Node<T>>,
    head: Option<usize>,
    tail: Option<usize>,
    order: Ghost<Seq<usize>>,
}

/// The node at position `k` of `ord` points backwards to the node at `k - 1`
/// and forwards to the node at `k + 1`, with `None` at the two ends.
spec fn links_ok<T>(nodes: Seq<Node<T>>, ord: Seq<usize>, k: int) -> bool {
    &&& nodes[ord[k] as int].prev == (if k == 0 {
        None::<usize>
    } else {
        Some(ord[k - 1])
    })
    &&& nodes[ord[k] as int].next == (if k == ord.len() - 1 {
        None::<usize>
    } else {
        Some(ord[k + 1])
    })
}

/// `ord` lists distinct, in-range slots of `nodes` that are chained together
/// in exactly that order, with `head` and `tail` naming the two end slots.
spec fn linked<T>(
    nodes: Seq<Node<T>>,
    ord: Seq<usize>,
    head: Option<usize>,
    tail: Option<usize>,
) -> bool {
    &&& forall|k: int| 0 <= k < ord.len() ==> (#[trigger] ord[k]) < nodes.len()
    &&& forall|k1: int, k2: int|
        0 <= k1 < ord.len() && 0 <= k2 < ord.len() && #[trigger] ord[k1] == #[trigger] ord[k2]
            ==> k1 == k2
    &&& forall|k: int| 0 <= k < ord.len() ==> #[trigger] links_ok(nodes, ord, k)
    &&& head == (if ord.len() == 0 {
        None::<usize>
    } else {
        Some(ord[0])
    })
    &&& tail == (if ord.len() == 0 {
        None::<usize>
    } else {
        Some(ord[ord.len() - 1])
    })
}

/// The elements stored at the slots of `ord`, in that order.
spec fn elems<T>(nodes: Seq<Node<T>>, ord: Seq<usize>) -> Seq<T> {
    Seq::new(ord.len(), |k: int| nodes[ord[k] as int].elem)
}

impl<T> View for List<T> {
    type V = Seq<T>;

    /// The abstract contents: the stored elements, front to back.
    closed spec fn view(&self) -> Seq<T> {
        elems(self.nodes@, self.order@)
    }
}

/// Overwrite the `prev` link of slot `i`, leaving the element and the `next`
/// link unchanged.
fn set_prev<T>(nodes: &mut Vec<Node<T>>, i: usize, p: Option<usize>)
    requires
        i < old(nodes).len(),
    ensures
        final(nodes)@ == old(nodes)@.update(
            i as int,
            Node { elem: old(nodes)@[i as int].elem, next: old(nodes)@[i as int].next, prev: p },
        ),
{
    nodes[i].prev = p;
}

/// Overwrite the `next` link of slot `i`, leaving the element and the `prev`
/// link unchanged.
fn set_next<T>(nodes: &mut Vec<Node<T>>, i: usize, n: Option<usize>)
    requires
        i < old(nodes).len(),
    ensures
        final(nodes)@ == old(nodes)@.update(
            i as int,
            Node { elem: old(nodes)@[i as int].elem, next: n, prev: old(nodes)@[i as int].prev },
        ),
{
    nodes[i].next = n;
}

impl<T> List<T> {
    /// Every slot of the arena is linked into the chain exactly once: the
    /// ghost order is a permutation of the slots, the link fields realise it,
    /// and `head`/`tail` name its ends.
    pub closed spec fn wf(self) -> bool {
        &&& linked(self.nodes@, self.order@, self.head, self.tail)
        &&& self.order@.len() == self.nodes@.len()
        &&& forall|i: usize| (i as int) < self.nodes@.len() ==> self.order@.contains(i)
    }

    /// The number of arena slots currently allocated. A well-formed deque
    /// holds exactly one slot per element, so nothing leaks and nothing is
    /// released twice.
    pub closed spec fn storage(self) -> nat {
        self.nodes@.len()
    }

    /// An empty deque: no head, no tail, no storage.
    pub fn new() -> (d: List<T>)
        ensures
            d.wf(),
            d@ == Seq::<T>::empty(),
            d.storage() == 0,
    {
        let d = List { nodes: Vec::new(), head: None, tail: None, order: Ghost(Seq::empty()) };
        proof {
            assert(d@ =~= Seq::<T>::empty());
        }
        d
    }

    /// Insert `val` as the new front element.
    pub fn push_front(&mut self, val: T)
        requires
            old(self).wf(),
        ensures
            final(self).wf(),
            final(self)@ == seq![val] + old(self)@,
    {
        let ghost ord0 = self.order@;
        let ghost nodes0 = self.nodes@;
        let idx = self.nodes.len();
        let node = Node { elem: val, next: self.head, prev: None };
        match self.head {
            Some(h) => {
                proof {
                    assert(links_ok(nodes0, ord0, 0));
                    assert(ord0[0] < nodes0.len());
                }
                set_prev(&mut self.nodes, h, Some(idx));
            },
            None => {
                self.tail = Some(idx);
            },
        }
        self.nodes.push(node);
        self.head = Some(idx);
        self.order = Ghost(seq![idx] + ord0);
        proof {
            let ord1 = self.order@;
            let nodes1 = self.nodes@;
            assert forall|k: int| 0 <= k < ord1.len() implies (#[trigger] ord1[k])
                < nodes1.len() by {
                if k > 0 {
                    assert(ord1[k] == ord0[k - 1]);
                }
            }
            assert forall|k: int| 0 <= k < ord1.len() implies #[trigger] links_ok(
                nodes1,
                ord1,
                k,
            ) by {
                if k == 0 {
                } else {
                    assert(links_ok(nodes0, ord0, k - 1));
                    if ord0.len() > 0 {
                        assert(links_ok(nodes0, ord0, 0));
                    }
                }
            }
            assert forall|i: usize| (i as int) < nodes1.len() implies ord1.contains(i) by {
                if i == idx {
                    assert(ord1[0] == i);
                } else {
                    assert(ord0.contains(i));
                    let q = choose|q: int| 0 <= q < ord0.len() && ord0[q] == i;
                    assert(ord1[q + 1] == i);
                }
            }
            assert(final(self)@ =~= seq![val] + old(self)@);
        }
    }

    /// Insert `val` as the new back element.
    pub fn push_back(&mut self, val: T)
        requires
            old(self).wf(),
        ensures
            final(self).wf(),
            final(self)@ == old(self)@.push(val),
    {
        let ghost ord0 = self.order@;
        let ghost nodes0 = self.nodes@;
        let idx = self.nodes.len();
        let node = Node { elem: val, next: None, prev: self.tail };
        match self.tail {
            Some(t) => {
                proof {
                    assert(links_ok(nodes0, ord0, ord0.len() - 1));
                    assert(ord0[ord0.len() - 1] < nodes0.len());
                }
                set_next(&mut self.nodes, t, Some(idx));
            },
            None => {
                self.head = Some(idx);
            },
        }
        self.nodes.push(node);
        self.tail = Some(idx);
        self.order = Ghost(ord0.push(idx));
        proof {
            let ord1 = self.order@;
            let nodes1 = self.nodes@;
            assert forall|k: int| 0 <= k < ord1.len() implies (#[trigger] ord1[k])
                < nodes1.len() by {
                if k < ord0.len() {
                    assert(ord1[k] == ord0[k]);
                }
            }
            assert forall|k: int| 0 <= k < ord1.len() implies #[trigger] links_ok(
                nodes1,
                ord1,
                k,
            ) by {
                if k == ord1.len() - 1 {
                    if ord0.len() > 0 {
                        assert(links_ok(nodes0, ord0, ord0.len() - 1));
                    }
                } else {
                    assert(links_ok(nodes0, ord0, k));
                }
            }
            assert forall|i: usize| (i as int) < nodes1.len() implies ord1.contains(i) by {
                if i == idx {
                    assert(ord1[ord1.len() - 1] == i);
                } else {
                    assert(ord0.contains(i));
                    let q = choose|q: int| 0 <= q < ord0.len() && ord0[q] == i;
                    assert(ord1[q] == i);
                }
            }
            assert(final(self)@ =~= old(self)@.push(val));
        }
    }

    /// Release arena slot `h`, which no link references any more, by moving
    /// the node of the last slot into the gap and repairing the links that
    /// named the moved slot. Returns the node that occupied `h`.
    fn remove_slot(&mut self, h: usize) -> (node: Node<T>)
        requires
            linked(old(self).nodes@, old(self).order@, old(self).head, old(self).tail),
            old(self).nodes@.len() == old(self).order@.len() + 1,
            h < old(self).nodes@.len(),
            !old(self).order@.contains(h),
            forall|i: usize|
                (i as int) < old(self).nodes@.len() && i != h ==> old(self).order@.contains(i),
        ensures
            final(self).wf(),
            final(self)@ == elems(old(self).nodes@, old(self).order@),
            node == old(self).nodes@[h as int],
    {
        let ghost ord0 = self.order@;
        let ghost nodes0 = self.nodes@;
        let last = self.nodes.len() - 1;
        let node = self.nodes.swap_remove(h);
        if h < last {
            proof {
                assert(ord0.contains(last));
            }
            let ghost j = choose|j: int| 0 <= j < ord0.len() && ord0[j] == last;
            self.order = Ghost(ord0.update(j, h));
            proof {
                assert(links_ok(nodes0, ord0, j));
                if j > 0 {
                    assert(links_ok(nodes0, ord0, j - 1));
                    assert(ord0[j - 1] != ord0[j]);
                    assert(ord0[j - 1] != h) by {
                        if ord0[j - 1] == h {
                            assert(ord0.contains(h));
                        }
                    }
                }
                if j < ord0.len() - 1 {
                    assert(links_ok(nodes0, ord0, j + 1));
                    assert(ord0[j + 1] != ord0[j]);
                    assert(ord0[j + 1] != h) by {
                        if ord0[j + 1] == h {
                            assert(ord0.contains(h));
                        }
                    }
                }
            }
            let mprev = self.nodes[h].prev;
            let mnext = self.nodes[h].next;
            match mprev {
                Some(p) => set_next(&mut self.nodes, p, Some(h)),
                None => {
                    self.head = Some(h);
                },
            }
            match mnext {
                Some(q) => set_prev(&mut self.nodes, q, Some(h)),
                None => {
                    self.tail = Some(h);
                },
            }
            proof {
                let ord1 = self.order@;
                let nodes1 = self.nodes@;
                let n = ord1.len();
                assert forall|k: int| 0 <= k < n implies (#[trigger] ord1[k]) < nodes1.len() by {
                    if k != j {
                        assert(ord0[k] != ord0[j]);
                    }
                }
                assert forall|k1: int, k2: int|
                    0 <= k1 < n && 0 <= k2 < n && #[trigger] ord1[k1] == #[trigger] ord1[k2]
                        implies k1 == k2 by {
                    if k1 != j && k2 != j {
                        assert(ord0[k1] == ord1[k1] && ord0[k2] == ord1[k2]);
                    } else if k1 == j && k2 != j {
                        if ord0[k2] == h {
                            assert(ord0.contains(h));
                        }
                    } else if k2 == j && k1 != j {
                        if ord0[k1] == h {
                            assert(ord0.contains(h));
                        }
                    }
                }
                assert forall|k: int| 0 <= k < n implies #[trigger] links_ok(nodes1, ord1, k) by {
                    assert(links_ok(nodes0, ord0, k));
                    assert(links_ok(nodes0, ord0, j));
                    if k != j {
                        assert(ord0[k] != ord0[j]);
                        assert(ord0[k] != h) by {
                            if ord0[k] == h {
                                assert(ord0.contains(h));
                            }
                        }
                        if k == j - 1 || k == j + 1 {
                        } else {
                            if k > 0 {
                                assert(ord0[k - 1] != ord0[j]);
                            }
                            if k < n - 1 {
                                assert(ord0[k + 1] != ord0[j]);
                            }
                        }
                    }
                }
                assert forall|i: usize| (i as int) < nodes1.len() implies ord1.contains(i) by {
                    if i == h {
                        assert(ord1[j] == i);
                    } else {
                        assert(ord0.contains(i));
                        let q = choose|q: int| 0 <= q < ord0.len() && ord0[q] == i;
                        assert(ord0[q] != ord0[j]);
                        assert(ord1[q] == i);
                    }
                }
                assert(final(self)@ =~= elems(nodes0, ord0)) by {
                    assert forall|k: int| 0 <= k < n implies elems(nodes1, ord1)[k] == elems(
                        nodes0,
                        ord0,
                    )[k] by {
                        if k != j {
                            assert(ord0[k] != ord0[j]);
                            assert(ord0[k] != h) by {
                                if ord0[k] == h {
                                    assert(ord0.contains(h));
                                }
                            }
                        }
                    }
                }
            }
        } else {
            proof {
                let ord1 = self.order@;
                let nodes1 = self.nodes@;
                let n = ord1.len();
                assert forall|k: int| 0 <= k < n implies (#[trigger] ord1[k]) < nodes1.len() by {
                    assert(ord1[k] != h) by {
                        if ord1[k] == h {
                            assert(ord0.contains(h));
                        }
                    }
                }
                assert forall|k: int| 0 <= k < n implies #[trigger] links_ok(nodes1, ord1, k) by {
                    assert(links_ok(nodes0, ord0, k));
                    assert(ord1[k] != h) by {
                        if ord1[k] == h {
                            assert(ord0.contains(h));
                        }
                    }
                }
                assert forall|i: usize| (i as int) < nodes1.len() implies ord1.contains(i) by {
                    assert(ord0.contains(i));
                }
                assert(final(self)@ =~= elems(nodes0, ord0)) by {
                    assert forall|k: int| 0 <= k < n implies elems(nodes1, ord1)[k] == elems(
                        nodes0,
                        ord0,
                    )[k] by {
                        assert(ord1[k] != h) by {
                            if ord1[k] == h {
                                assert(ord0.contains(h));
                            }
                        }
                    }
                }
            }
        }
        node
    }

    /// Remove and return the front element; on an empty deque, report absence.
    pub fn pop_front(&mut self) -> (r: Option<T>)
        requires
            old(self).wf(),
        ensures
            final(self).wf(),
            old(self)@.len() == 0 ==> r is None && final(self)@ == old(self)@,
            old(self)@.len() > 0 ==> r == Some(old(self)@[0]) && final(self)@ == old(
                self,
            )@.drop_first(),
    {
        let ghost ord0 = self.order@;
        let ghost nodes0 = self.nodes@;
        match self.head {
            None => None,
            Some(h) => {
                proof {
                    assert(links_ok(nodes0, ord0, 0));
                    assert(ord0[0] < nodes0.len());
                    assert(h == ord0[0]);
                }
                let succ = self.nodes[h].next;
                match succ {
                    Some(s) => {
                        proof {
                            assert(ord0.len() > 1);
                            assert(links_ok(nodes0, ord0, 1));
                            assert(ord0[1] < nodes0.len());
                            assert(s == ord0[1]);
                        }
                        set_prev(&mut self.nodes, s, None);
                        self.head = Some(s);
                    },
                    None => {
                        self.head = None;
                        self.tail = None;
                    },
                }
                self.order = Ghost(ord0.drop_first());
                proof {
                    let ord1 = self.order@;
                    let nodes1 = self.nodes@;
                    let n = ord1.len();
                    assert forall|k: int| 0 <= k < n implies (#[trigger] ord1[k])
                        < nodes1.len() by {
                        assert(ord1[k] == ord0[k + 1]);
                    }
                    assert forall|k: int| 0 <= k < n implies #[trigger] links_ok(
                        nodes1,
                        ord1,
                        k,
                    ) by {
                        assert(links_ok(nodes0, ord0, 0));
                        assert(links_ok(nodes0, ord0, k + 1));
                        if k > 0 {
                            assert(ord0[k + 1] != ord0[1]);
                        }
                    }
                    assert(!ord1.contains(h)) by {
                        if ord1.contains(h) {
                            let q = choose|q: int| 0 <= q < ord1.len() && ord1[q] == h;
                            assert(ord0[q + 1] == ord0[0]);
                        }
                    }
                    assert forall|i: usize|
                        (i as int) < nodes1.len() && i != h implies ord1.contains(i) by {
                        assert(ord0.contains(i));
                        let q = choose|q: int| 0 <= q < ord0.len() && ord0[q] == i;
                        assert(q != 0);
                        assert(ord1[q - 1] == i);
                    }
                }
                let node = self.remove_slot(h);
                proof {
                    assert(final(self)@ =~= old(self)@.drop_first()) by {
                        assert forall|k: int| 0 <= k < ord0.len() - 1 implies final(self)@[k]
                            == old(self)@[k + 1] by {
                            assert(ord0[k + 1] != ord0[0]);
                        }
                    }
                    assert(node.elem == old(self)@[0]);
                }
                Some(node.elem)
            },
        }
    }

    /// Remove and return the back element; on an empty deque, report absence.
    pub fn pop_back(&mut self) -> (r: Option<T>)
        requires
            old(self).wf(),
        ensures
            final(self).wf(),
            old(self)@.len() == 0 ==> r is None && final(self)@ == old(self)@,
            old(self)@.len() > 0 ==> r == Some(old(self)@.last()) && final(self)@ == old(
                self,
            )@.drop_last(),
    {
        let ghost ord0 = self.order@;
        let ghost nodes0 = self.nodes@;
        match self.tail {
            None => None,
            Some(t) => {
                proof {
                    assert(links_ok(nodes0, ord0, ord0.len() - 1));
                    assert(ord0[ord0.len() - 1] < nodes0.len());
                    assert(t == ord0[ord0.len() - 1]);
                }
                let pred = self.nodes[t].prev;
                match pred {
                    Some(p) => {
                        proof {
                            assert(ord0.len() > 1);
                            assert(links_ok(nodes0, ord0, ord0.len() - 2));
                            assert(ord0[ord0.len() - 2] < nodes0.len());
                            assert(p == ord0[ord0.len() - 2]);
                        }
                        set_next(&mut self.nodes, p, None);
                        self.tail = Some(p);
                    },
                    None => {
                        self.head = None;
                        self.tail = None;
                    },
                }
                self.order = Ghost(ord0.drop_last());
                proof {
                    let ord1 = self.order@;
                    let nodes1 = self.nodes@;
                    let n = ord1.len();
                    assert forall|k: int| 0 <= k < n implies (#[trigger] ord1[k])
                        < nodes1.len() by {
                        assert(ord1[k] == ord0[k]);
                    }
                    assert forall|k: int| 0 <= k < n implies #[trigger] links_ok(
                        nodes1,
                        ord1,
                        k,
                    ) by {
                        assert(links_ok(nodes0, ord0, k));
                        assert(links_ok(nodes0, ord0, ord0.len() - 1));
                        if k < n - 1 {
                            assert(ord0[k] != ord0[n - 1]);
                        }
                    }
                    assert(!ord1.contains(t)) by {
                        if ord1.contains(t) {
                            let q = choose|q: int| 0 <= q < ord1.len() && ord1[q] == t;
                            assert(ord0[q] == ord0[ord0.len() - 1]);
                        }
                    }
                    assert forall|i: usize|
                        (i as int) < nodes1.len() && i != t implies ord1.contains(i) by {
                        assert(ord0.contains(i));
                        let q = choose|q: int| 0 <= q < ord0.len() && ord0[q] == i;
                        assert(q != ord0.len() - 1);
                        assert(ord1[q] == i);
                    }
                }
                let node = self.remove_slot(t);
                proof {
                    assert(final(self)@ =~= old(self)@.drop_last()) by {
                        assert forall|k: int| 0 <= k < ord0.len() - 1 implies final(self)@[k]
                            == old(self)@[k] by {
                            assert(ord0[k] != ord0[ord0.len() - 1]);
                        }
                    }
                    assert(node.elem == old(self)@[ord0.len() - 1]);
                }
                Some(node.elem)
            },
        }
    }

    /// Borrow the front element read-only; on an empty deque, report absence.
    pub fn peek_front(&self) -> (r: Option<&T>)
        requires
            self.wf(),
        ensures
            self@.len() == 0 ==> r is None,
            self@.len() > 0 ==> (r matches Some(e) && *e == self@[0]),
    {
        match self.head {
            None => None,
            Some(h) => {
                proof {
                    assert(self.order@[0] < self.nodes@.len());
                    assert(h == self.order@[0]);
                }
                Some(&self.nodes[h].elem)
            },
        }
    }

    /// Borrow the back element read-only; on an empty deque, report absence.
    pub fn peek_back(&self) -> (r: Option<&T>)
        requires
            self.wf(),
        ensures
            self@.len() == 0 ==> r is None,
            self@.len() > 0 ==> (r matches Some(e) && *e == self@.last()),
    {
        match self.tail {
            None => None,
            Some(t) => {
                proof {
                    assert(self.order@[self.order@.len() - 1] < self.nodes@.len());
                    assert(t == self.order@[self.order@.len() - 1]);
                }
                Some(&self.nodes[t].elem)
            },
        }
    }

    /// Borrow the front element for writing; whatever the caller stores
    /// through the view replaces the front element. On an empty deque, report
    /// absence.
    pub fn peek_front_mut(&mut self) -> (r: Option<&mut T>)
        requires
            old(self).wf(),
        ensures
            old(self)@.len() == 0 ==> r is None && final(self)@ == old(self)@ && final(self).wf(),
            old(self)@.len() > 0 ==> (r matches Some(e) && *e == old(self)@[0]
                && final(self).wf() && final(self)@ == old(self)@.update(0, *final(e))),
    {
        let ghost ord0 = self.order@;
        let ghost nodes0 = self.nodes@;
        let ghost head0 = self.head;
        let ghost tail0 = self.tail;
        match self.head {
            None => None,
            Some(h) => {
                proof {
                    assert(ord0[0] < nodes0.len());
                    assert(h == ord0[0]);
                }
                let e = &mut self.nodes[h].elem;
                proof {
                    lemma_elem_update(nodes0, ord0, head0, tail0, 0, *final(e));
                }
                Some(e)
            },
        }
    }

    /// Borrow the back element for writing; whatever the caller stores
    /// through the view replaces the back element. On an empty deque, report
    /// absence.
    pub fn peek_back_mut(&mut self) -> (r: Option<&mut T>)
        requires
            old(self).wf(),
        ensures
            old(self)@.len() == 0 ==> r is None && final(self)@ == old(self)@ && final(self).wf(),
            old(self)@.len() > 0 ==> (r matches Some(e) && *e == old(self)@.last()
                && final(self).wf()
                && final(self)@ == old(self)@.update(old(self)@.len() - 1, *final(e))),
    {
        let ghost ord0 = self.order@;
        let ghost nodes0 = self.nodes@;
        let ghost head0 = self.head;
        let ghost tail0 = self.tail;
        match self.tail {
            None => None,
            Some(t) => {
                proof {
                    assert(ord0[ord0.len() - 1] < nodes0.len());
                    assert(t == ord0[ord0.len() - 1]);
                }
                let e = &mut self.nodes[t].elem;
                proof {
                    lemma_elem_update(nodes0, ord0, head0, tail0, ord0.len() - 1, *final(e));
                }
                Some(e)
            },
        }
    }

    /// The number of elements held.
    pub fn len(&self) -> (n: usize)
        requires
            self.wf(),
        ensures
            n == self@.len(),
    {
        self.nodes.len()
    }

    /// Whether the deque holds no element.
    pub fn is_empty(&self) -> (b: bool)
        requires
            self.wf(),
        ensures
            b <==> self@.len() == 0,
    {
        self.nodes.len() == 0
    }

    /// Consume the deque, yielding an iterator that produces elements from
    /// either end until the two ends meet.
    pub fn into_iter(self) -> (it: IntoIter<T>)
        requires
            self.wf(),
        ensures
            it.wf(),
            it@ == self@,
    {
        IntoIter(self)
    }

    /// A mutable traversal from the front: each produced view is released
    /// before the next one is taken, so no two exclusive views of a node are
    /// ever live at once.
    pub fn iter_mut(&mut self) -> (it: IterMut<'_, T>)
        requires
            old(self).wf(),
        ensures
            it.wf(),
            it.remaining() == old(self)@,
            it.full() == old(self)@,
            it.produced() == 0,
    {
        let cur = self.head;
        let it = IterMut { list: self, cur, pos: Ghost(0int) };
        proof {
            assert(it.remaining() =~= it.full());
        }
        it
    }

    /// A read-only traversal from the front, following successor links.
    pub fn iter(&self) -> (it: Iter<'_, T>)
        requires
            self.wf(),
        ensures
            it.wf(),
            it.remaining() == self@,
    {
        let it = Iter { list: self, cur: self.head, pos: Ghost(0int) };
        proof {
            assert(it.remaining() =~= self@);
        }
        it
    }

    /// Build a deque holding exactly the given elements, front to back.
    pub fn from_vec(items: Vec<T>) -> (d: List<T>)
        ensures
            d.wf(),
            d@ == items@,
    {
        let mut items = items;
        let mut d = List::new();
        let ghost all = items@;
        proof {
            assert(all =~= items@ + d@);
        }
        while items.len() > 0
            invariant
                d.wf(),
                all == items@ + d@,
            decreases items.len(),
        {
            let v = items.pop().unwrap();
            d.push_front(v);
            proof {
                assert(all =~= items@ + d@);
            }
        }
        proof {
            assert(d@ =~= all);
        }
        d
    }

    /// Drain the deque front to back into a vector: the round trip through
    /// the deque returns the elements in the order they were pushed at the
    /// back.
    pub fn into_vec(self) -> (out: Vec<T>)
        requires
            self.wf(),
        ensures
            out@ == self@,
    {
        let mut d = self;
        let mut out: Vec<T> = Vec::new();
        let ghost all = d@;
        proof {
            assert(all =~= out@ + d@);
        }
        while d.len() > 0
            invariant
                d.wf(),
                all == out@ + d@,
            decreases d@.len(),
        {
            let v = d.pop_front().unwrap();
            out.push(v);
            proof {
                assert(all =~= out@ + d@);
            }
        }
        proof {
            assert(out@ =~= all);
        }
        out
    }
}

/// Replacing only the element of the node at position `k` of the chain keeps
/// the chain linked and changes exactly position `k` of the contents.
proof fn lemma_elem_update<T>(
    nodes: Seq<Node<T>>,
    ord: Seq<usize>,
    head: Option<usize>,
    tail: Option<usize>,
    k: int,
    v: T,
)
    requires
        linked(nodes, ord, head, tail),
        0 <= k < ord.len(),
    ensures
        linked(
            nodes.update(
                ord[k] as int,
                Node { elem: v, next: nodes[ord[k] as int].next, prev: nodes[ord[k] as int].prev },
            ),
            ord,
            head,
            tail,
        ),
        elems(
            nodes.update(
                ord[k] as int,
                Node { elem: v, next: nodes[ord[k] as int].next, prev: nodes[ord[k] as int].prev },
            ),
            ord,
        ) == elems(nodes, ord).update(k, v),
{
    let nodes1 = nodes.update(
        ord[k] as int,
        Node { elem: v, next: nodes[ord[k] as int].next, prev: nodes[ord[k] as int].prev },
    );
    assert(ord[k] < nodes.len());
    assert forall|kk: int| 0 <= kk < ord.len() implies #[trigger] links_ok(nodes1, ord, kk) by {
        assert(links_ok(nodes, ord, kk));
    }
    assert(elems(nodes1, ord) =~= elems(nodes, ord).update(k, v)) by {
        assert forall|kk: int| 0 <= kk < ord.len() implies elems(nodes1, ord)[kk] == elems(
            nodes,
            ord,
        ).update(k, v)[kk] by {
            if kk != k {
                assert(ord[kk] != ord[k]);
            }
        }
    }
}

/// The consuming iterator: owns the deque and produces elements by popping
/// from the requested end, so forward and backward consumption may interleave
/// until the deque is exhausted.
pub struct IntoIter<T>(List<T>);

impl<T> View for IntoIter<T> {
    type V = Seq<T>;

    /// The elements not yet produced, front to back.
    closed spec fn view(&self) -> Seq<T> {
        self.0@
    }
}

impl<T> IntoIter<T> {
    /// The owned deque is still well-formed.
    pub closed spec fn wf(self) -> bool {
        self.0.wf()
    }

    /// Produce the front of the remaining elements, or report exhaustion.
    pub fn next(&mut self) -> (r: Option<T>)
        requires
            old(self).wf(),
        ensures
            final(self).wf(),
            old(self)@.len() == 0 ==> r is None && final(self)@ == old(self)@,
            old(self)@.len() > 0 ==> r == Some(old(self)@[0]) && final(self)@ == old(
                self,
            )@.drop_first(),
    {
        self.0.pop_front()
    }

    /// Produce the back of the remaining elements, or report exhaustion.
    pub fn next_back(&mut self) -> (r: Option<T>)
        requires
            old(self).wf(),
        ensures
            final(self).wf(),
            old(self)@.len() == 0 ==> r is None && final(self)@ == old(self)@,
            old(self)@.len() > 0 ==> r == Some(old(self)@.last()) && final(self)@ == old(
                self,
            )@.drop_last(),
    {
        self.0.pop_back()
    }
}

/// The borrowing iterator: a cursor that starts at the head and follows
/// successor links, yielding read-only views of the elements.
pub struct Iter<'a, T> {
    list: &'a List<T>,
    cur: Option<usize>,
    pos: Ghost<int>,
}

impl<'a, T> Iter<'a, T> {
    /// The cursor stands at position `pos` of a well-formed deque.
    pub closed spec fn wf(self) -> bool {
        &&& self.list.wf()
        &&& 0 <= self.pos@ <= self.list@.len()
        &&& self.cur == (if self.pos@ == self.list@.len() {
            None::<usize>
        } else {
            Some(self.list.order@[self.pos@])
        })
    }

    /// The elements not yet produced.
    pub closed spec fn remaining(self) -> Seq<T> {
        self.list@.skip(self.pos@)
    }

    /// Produce a view of the next element, or report exhaustion at the tail.
    pub fn next(&mut self) -> (r: Option<&'a T>)
        requires
            old(self).wf(),
        ensures
            final(self).wf(),
            old(self).remaining().len() == 0 ==> r is None && final(self).remaining() == old(
                self,
            ).remaining(),
            old(self).remaining().len() > 0 ==> (r matches Some(e) && *e == old(
                self,
            ).remaining()[0]) && final(self).remaining() == old(self).remaining().drop_first(),
    {
        let list = self.list;
        let ghost p0 = self.pos@;
        match self.cur {
            None => None,
            Some(c) => {
                proof {
                    assert(list.order@[p0] < list.nodes@.len());
                    assert(c == list.order@[p0]);
                    assert(links_ok(list.nodes@, list.order@, p0));
                }
                let node = &list.nodes[c];
                self.cur = node.next;
                self.pos = Ghost(p0 + 1);
                proof {
                    assert(list@.skip(p0 + 1) =~= list@.skip(p0).drop_first());
                }
                Some(&node.elem)
            },
        }
    }
}

/// The exclusive iterator: a cursor that follows successor links and yields
/// an exclusive view of one element at a time; each view is released before
/// the next one is taken, so no two are ever live at once.
pub struct IterMut<'a, T> {
    list: &'a mut List<T>,
    cur: Option<usize>,
    pos: Ghost<int>,
}

impl<'a, T> IterMut<'a, T> {
    /// The cursor stands at position `pos` of a well-formed deque.
    pub closed spec fn wf(self) -> bool {
        &&& self.list.wf()
        &&& 0 <= self.pos@ <= self.list@.len()
        &&& self.cur == (if self.pos@ == self.list@.len() {
            None::<usize>
        } else {
            Some(self.list.order@[self.pos@])
        })
    }

    /// All elements of the traversed deque, as they stand now.
    pub closed spec fn full(self) -> Seq<T> {
        self.list@
    }

    /// How many elements the cursor has already produced.
    pub closed spec fn produced(self) -> int {
        self.pos@
    }

    /// The elements not yet produced, as they stand now.
    pub closed spec fn remaining(self) -> Seq<T> {
        self.list@.skip(self.pos@)
    }

    /// Produce an exclusive view of the next element, or report exhaustion
    /// at the tail. Whatever the caller stores through the view replaces that
    /// element.
    pub fn next(&mut self) -> (r: Option<&mut T>)
        requires
            old(self).wf(),
        ensures
            old(self).remaining().len() == 0 ==> r is None && final(self).wf()
                && final(self).full() == old(self).full()
                && final(self).remaining() == old(self).remaining(),
            old(self).remaining().len() > 0 ==> (r matches Some(e) && *e == old(
                self,
            ).remaining()[0] && final(self).wf() && final(self).produced() == old(self).produced()
                + 1 && final(self).full() == old(self).full().update(
                old(self).produced(),
                *final(e),
            ) && final(self).remaining() == old(self).remaining().drop_first()),
    {
        let ghost nodes0 = self.list.nodes@;
        let ghost ord0 = self.list.order@;
        let ghost head0 = self.list.head;
        let ghost tail0 = self.list.tail;
        let ghost p0 = self.pos@;
        match self.cur {
            None => None,
            Some(c) => {
                proof {
                    assert(ord0[p0] < nodes0.len());
                    assert(c == ord0[p0]);
                    assert(links_ok(nodes0, ord0, p0));
                }
                self.cur = self.list.nodes[c].next;
                self.pos = Ghost(p0 + 1);
                let e = &mut self.list.nodes[c].elem;
                proof {
                    lemma_elem_update(nodes0, ord0, head0, tail0, p0, *final(e));
                    assert(elems(nodes0, ord0).update(p0, *final(e)).skip(p0 + 1) =~= elems(
                        nodes0,
                        ord0,
                    ).skip(p0).drop_first());
                }
                Some(e)
            },
        }
    }
}

/// Removing the front element promotes the element that stood second to the
/// front: what `pop_front` leaves begins with what stood at position 1.
pub proof fn lemma_second_becomes_front<T>(s: Seq<T>)
    requires
        s.len() >= 2,
    ensures
        s.drop_first()[0] == s[1],
{
}

/// Consuming from the front splits the contents into the produced element
/// and the rest: nothing is duplicated and nothing is lost.
pub proof fn lemma_consume_front<T>(s: Seq<T>)
    requires
        s.len() > 0,
    ensures
        s == seq![s[0]] + s.drop_first(),
{
    assert(s =~= seq![s[0]] + s.drop_first());
}

/// Consuming from the back splits the contents into the rest and the
/// produced element: together with the front split, interleaved consumption
/// from both ends yields every element exactly once.
pub proof fn lemma_consume_back<T>(s: Seq<T>)
    requires
        s.len() > 0,
    ensures
        s == s.drop_last().push(s.last()),
{
    assert(s =~= s.drop_last().push(s.last()));
}

/// The deque never leaks and never frees twice: a well-formed deque holds
/// exactly one arena slot per element, so draining it to empty releases every
/// node and leaves it with no storage, like a freshly constructed one.
pub proof fn lemma_storage_exact<T>(d: List<T>)
    requires
        d.wf(),
    ensures
        d.storage() == d@.len(),
        d@.len() == 0 ==> d.storage() == 0,
{
}

} // verus!
