//! A singly linked list whose nodes live in one vector.
//!
//! A node is named by its slot, the index at which the vector holds it, and a
//! link is the slot of the next node.  Slots stay valid while the node is on
//! the list, so a caller may keep one as a cursor while it edits the list
//! elsewhere.  The slot of a node that was taken off the list is used again
//! for a later node, so the vector grows no longer than the list once was.

use vstd::prelude::*;

verus! {

/// The slot of a node, or `None` at the end of the list.
pub type Link = Option<usize>;

/// One element of a [`List`] with the link to the element behind it.
#[derive(Debug)]
pub struct Node<T> {
    pub data: T,
    pub next: Link,
}

impl<T> Node<T> {
    /// A node that holds `data` and has no successor.
    pub fn new(data: T) -> (node: Self)
        ensures
            node.data == data,
            node.next is None,
    {
        Self { data, next: None }
    }
}

/// A list of `T` in insertion order.  Its view is the sequence of its
/// elements from the head on.
pub struct List<T> {
    nodes: Vec<Node<T>>,
    head: Link,
    spare: Vec<usize>,
    order: Ghost<Seq<usize>>,
}

impl<T> View for List<T> {
    type V = Seq<T>;

    closed spec fn view(&self) -> Seq<T> {
        Seq::new(self.order@.len(), |i: int| self.nodes@[self.order@[i] as int].data)
    }
}

impl<T> List<T> {
    /// The slots of the nodes on the list, head first.
    pub closed spec fn slots(&self) -> Seq<usize> {
        self.order@
    }

    /// The slots set aside for new nodes are slots of the vector, each named
    /// once.
    spec fn spare_sound(&self) -> bool {
        &&& self.spare@.no_duplicates()
        &&& forall|k: int|
            0 <= k < self.spare@.len() ==> #[trigger] self.spare@[k] < self.nodes@.len()
    }

    /// The links lead from the head through the slots in order and end
    /// there; no slot occurs twice, and none is set aside for a new node.
    pub closed spec fn wf(&self) -> bool {
        &&& self.spare_sound()
        &&& forall|k: int, i: int|
            0 <= k < self.spare@.len() && 0 <= i < self.order@.len() ==> #[trigger] self.spare@[k]
                != #[trigger] self.order@[i]
        &&& self.order@.no_duplicates()
        &&& forall|i: int|
            0 <= i < self.order@.len() ==> #[trigger] self.order@[i] < self.nodes@.len()
        &&& self.head == (if self.order@.len() == 0 {
            None
        } else {
            Some(self.order@[0])
        })
        &&& forall|i: int|
            0 <= i < self.order@.len() ==> (#[trigger] self.nodes@[self.order@[i] as int]).next
                == (if i + 1 < self.order@.len() {
                Some(self.order@[i + 1])
            } else {
                None
            })
    }

    /// Whether `slot` names a node on the list.
    pub open spec fn has(&self, slot: usize) -> bool {
        self.slots().contains(slot)
    }

    /// The place on the list of the node in `slot`, counted from zero.
    pub open spec fn position(&self, slot: usize) -> int {
        self.slots().index_of(slot)
    }

    /// The view has one element for each slot, and a slot is found again at
    /// the position it stands at.
    pub proof fn lemma_position(&self, i: int)
        requires
            self.wf(),
            0 <= i < self.slots().len(),
        ensures
            self@.len() == self.slots().len(),
            self.has(self.slots()[i]),
            self.position(self.slots()[i]) == i,
    {
        let s = self.slots();
        assert(s.contains(s[i]));
        let j = s.index_of(s[i]);
        assert(0 <= j < s.len() && s[j] == s[i]);
    }

    /// A slot on the list stands at a position inside the list.
    pub proof fn lemma_has(&self, slot: usize)
        requires
            self.wf(),
            self.has(slot),
        ensures
            self@.len() == self.slots().len(),
            0 <= self.position(slot) < self.slots().len(),
            self.slots()[self.position(slot)] == slot,
    {
        let s = self.slots();
        let j = s.index_of(slot);
        assert(0 <= j < s.len() && s[j] == slot);
    }

    /// The view and the slots have the same length.
    pub proof fn lemma_len(&self)
        ensures
            self@.len() == self.slots().len(),
    {
    }

    /// A list that holds `data` alone.
    pub fn new(data: T) -> (list: Self)
        ensures
            list.wf(),
            list@ == seq![data],
    {
        let mut nodes: Vec<Node<T>> = Vec::new();
        nodes.push(Node::new(data));
        let ghost order = seq![0usize];
        let list = Self { nodes, head: Some(0), spare: Vec::new(), order: Ghost(order) };
        assert(list@ =~= seq![data]);
        list
    }

    /// The slot of the first node.
    pub fn head(&self) -> (link: Link)
        requires
            self.wf(),
        ensures
            link == (if self.slots().len() == 0 {
                None
            } else {
                Some(self.slots()[0])
            }),
            link is Some ==> self.has(link.unwrap()),
    {
        self.head
    }

    /// The node in `slot`: its element and the link to its successor.
    pub fn node(&self, slot: usize) -> (node: &Node<T>)
        requires
            self.wf(),
            self.has(slot),
        ensures
            node.data == self@[self.position(slot)],
            node.next == (if self.position(slot) + 1 < self.slots().len() {
                Some(self.slots()[self.position(slot) + 1])
            } else {
                None
            }),
            node.next is Some ==> self.has(node.next.unwrap()),
    {
        proof {
            self.lemma_has(slot);
        }
        &self.nodes[slot]
    }

    /// Replaces the element in `slot`.
    pub fn set(&mut self, slot: usize, data: T)
        requires
            old(self).wf(),
            old(self).has(slot),
        ensures
            final(self).wf(),
            final(self).slots() == old(self).slots(),
            final(self)@ == old(self)@.update(old(self).position(slot), data),
    {
        proof {
            self.lemma_has(slot);
        }
        self.nodes[slot].data = data;
        assert(self@ =~= old(self)@.update(old(self).position(slot), data));
    }

    /// Puts `data` on the list right behind the node in `slot` and returns
    /// the slot of the new node.
    pub fn insert_after(&mut self, slot: usize, data: T) -> (new_slot: usize)
        requires
            old(self).wf(),
            old(self).has(slot),
        ensures
            final(self).wf(),
            !old(self).has(new_slot),
            final(self).slots() == old(self).slots().insert(old(self).position(slot) + 1, new_slot),
            final(self)@ == old(self)@.insert(old(self).position(slot) + 1, data),
    {
        proof {
            self.lemma_has(slot);
        }
        let ghost at = self.position(slot);
        let next = self.nodes[slot].next;
        let new_slot = self.store(Node { data, next });
        self.nodes[slot].next = Some(new_slot);
        proof {
            self.order@ = old(self).order@.insert(at + 1, new_slot);
        }
        proof {
            let before = old(self).order@;
            let after = self.order@;
            assert forall|i: int, j: int|
                0 <= i < after.len() && 0 <= j < after.len() && i != j implies after[i]
                != after[j] by {
                let oi = if i <= at { i } else { i - 1 };
                let oj = if j <= at { j } else { j - 1 };
                if i != at + 1 && j != at + 1 {
                    assert(after[i] == before[oi] && after[j] == before[oj]);
                } else if i == at + 1 {
                    assert(after[j] == before[oj]);
                } else {
                    assert(after[i] == before[oi]);
                }
            }
            assert forall|i: int| 0 <= i < after.len() implies #[trigger] after[i]
                < self.nodes@.len() by {
                let oi = if i <= at { i } else { i - 1 };
                if i != at + 1 {
                    assert(after[i] == before[oi]);
                }
            }
            assert forall|k: int, i: int|
                0 <= k < self.spare@.len() && 0 <= i < after.len() implies #[trigger] self.spare@[k]
                != #[trigger] after[i] by {
                let oi = if i <= at { i } else { i - 1 };
                if i != at + 1 {
                    assert(after[i] == before[oi]);
                    assert(self.spare@[k] == old(self).spare@[k]);
                }
            }
            assert forall|i: int| 0 <= i < after.len() implies (
            #[trigger] self.nodes@[after[i] as int]).next == (if i + 1 < after.len() {
                Some(after[i + 1])
            } else {
                None
            }) by {
                let oi = if i <= at { i } else { i - 1 };
                if i != at + 1 {
                    assert(after[i] == before[oi]);
                    assert(before[oi] != slot || oi == at);
                }
            }
            assert(self@ =~= old(self)@.insert(at + 1, data));
        }
        new_slot
    }

    /// Puts `node` into a slot that holds no node of the list and returns
    /// that slot: one set aside earlier if there is one, a new one at the end
    /// of the vector otherwise.
    fn store(&mut self, node: Node<T>) -> (slot: usize)
        requires
            old(self).wf(),
        ensures
            final(self).head == old(self).head,
            final(self).order == old(self).order,
            final(self).spare_sound(),
            final(self).nodes@.len() >= old(self).nodes@.len(),
            slot < final(self).nodes@.len(),
            final(self).nodes@[slot as int] == node,
            !old(self).order@.contains(slot),
            !final(self).spare@.contains(slot),
            forall|i: int|
                0 <= i < old(self).nodes@.len() && i != slot ==> #[trigger] final(self).nodes@[i]
                    == old(self).nodes@[i],
            forall|k: int|
                0 <= k < final(self).spare@.len() ==> #[trigger] final(self).spare@[k] == old(
                    self,
                ).spare@[k] && k < old(self).spare@.len(),
    {
        match self.spare.pop() {
            Some(slot) => {
                proof {
                    let last = old(self).spare@.len() - 1;
                    assert(old(self).spare@[last] == slot);
                    assert forall|i: int| 0 <= i < old(self).order@.len() implies old(
                        self,
                    ).order@[i] != slot by {}
                    assert forall|k: int| 0 <= k < self.spare@.len() implies self.spare@[k]
                        != slot by {
                        assert(old(self).spare@[k] != old(self).spare@[last]);
                    }
                }
                self.nodes[slot] = node;
                slot
            },
            None => {
                let slot = self.nodes.len();
                self.nodes.push(node);
                slot
            },
        }
    }

    /// Takes the successor of the node in `slot` off the list.
    pub fn remove_after(&mut self, slot: usize)
        requires
            old(self).wf(),
            old(self).has(slot),
            old(self).position(slot) + 1 < old(self).slots().len(),
        ensures
            final(self).wf(),
            final(self).slots() == old(self).slots().remove(old(self).position(slot) + 1),
            final(self)@ == old(self)@.remove(old(self).position(slot) + 1),
    {
        proof {
            self.lemma_has(slot);
        }
        let ghost at = self.position(slot);
        let victim = self.nodes[slot].next.unwrap();
        let next = self.nodes[victim].next;
        self.nodes[slot].next = next;
        self.spare.push(victim);
        proof {
            self.order@ = old(self).order@.remove(at + 1);
        }
        proof {
            let before = old(self).order@;
            let after = self.order@;
            assert(victim == before[at + 1]);
            assert forall|k: int, l: int|
                0 <= k < self.spare@.len() && 0 <= l < self.spare@.len() && k != l
                implies self.spare@[k] != self.spare@[l] by {
                if k == self.spare@.len() - 1 {
                    assert(self.spare@[l] == old(self).spare@[l]);
                } else if l == self.spare@.len() - 1 {
                    assert(self.spare@[k] == old(self).spare@[k]);
                } else {
                    assert(self.spare@[k] == old(self).spare@[k] && self.spare@[l] == old(
                        self,
                    ).spare@[l]);
                }
            }
            assert forall|k: int, i: int|
                0 <= k < self.spare@.len() && 0 <= i < after.len() implies #[trigger] self.spare@[k]
                != #[trigger] after[i] by {
                let oi = if i <= at { i } else { i + 1 };
                assert(after[i] == before[oi]);
                if k < old(self).spare@.len() {
                    assert(self.spare@[k] == old(self).spare@[k]);
                }
            }
            assert forall|i: int, j: int|
                0 <= i < after.len() && 0 <= j < after.len() && i != j implies after[i]
                != after[j] by {
                let oi = if i <= at { i } else { i + 1 };
                let oj = if j <= at { j } else { j + 1 };
                assert(after[i] == before[oi] && after[j] == before[oj]);
            }
            assert forall|i: int| 0 <= i < after.len() implies (
            #[trigger] self.nodes@[after[i] as int]).next == (if i + 1 < after.len() {
                Some(after[i + 1])
            } else {
                None
            }) by {
                let oi = if i <= at { i } else { i + 1 };
                assert(after[i] == before[oi]);
                assert(before[oi] != slot || oi == at);
            }
            assert(self@ =~= old(self)@.remove(at + 1));
        }
    }

    /// Puts `data` at the end of the list.
    pub fn append(&mut self, data: T)
        requires
            old(self).wf(),
        ensures
            final(self).wf(),
            final(self)@ == old(self)@.push(data),
            final(self).slots().len() == old(self).slots().len() + 1,
            final(self).slots().drop_last() == old(self).slots(),
    {
        match self.head {
            Some(first) => {
                let mut last = first;
                let mut next = self.nodes[first].next;
                let ghost mut at: int = 0;
                while next.is_some()
                    invariant
                        self.wf(),
                        0 <= at < self.order@.len(),
                        self.order@[at] == last,
                        next == self.nodes@[last as int].next,
                    decreases self.order@.len() - at,
                {
                    last = next.unwrap();
                    next = self.nodes[last].next;
                    proof {
                        at = at + 1;
                    }
                }
                proof {
                    self.lemma_position(at);
                }
                self.insert_after(last, data);
                assert(self@ =~= old(self)@.push(data));
                assert(self.slots().drop_last() =~= old(self).slots());
            },
            None => {
                let slot = self.store(Node::new(data));
                self.head = Some(slot);
                proof {
                    self.order@ = seq![slot];
                }
                assert(self@ =~= old(self)@.push(data));
                assert(self.slots().drop_last() =~= old(self).slots());
            },
        }
    }

    /// A cursor that stands before the first node.
    pub fn iter(&self) -> (iter: ListIter<'_, T>)
        requires
            self.wf(),
        ensures
            iter.wf(),
            iter.remaining() == self@,
    {
        let iter = ListIter { list: self, next: self.head, at: Ghost(0) };
        assert(iter.remaining() =~= self@);
        iter
    }
}

/// A walk over a [`List`] from the head on.
pub struct ListIter<'a, T> {
    list: &'a List<T>,
    next: Link,
    at: Ghost<int>,
}

impl<'a, T> ListIter<'a, T> {
    /// The cursor stands at a node of a well-formed list or behind its last.
    pub closed spec fn wf(&self) -> bool {
        &&& self.list.wf()
        &&& 0 <= self.at@ <= self.list.order@.len()
        &&& self.next == (if self.at@ < self.list.order@.len() {
            Some(self.list.order@[self.at@])
        } else {
            None
        })
    }

    /// The elements that the walk has not reached yet.
    pub closed spec fn remaining(&self) -> Seq<T> {
        self.list@.skip(self.at@)
    }

    /// The node at the cursor, which then moves on; `None` once the walk is
    /// over.
    pub fn next(&mut self) -> (node: Option<&'a Node<T>>)
        requires
            old(self).wf(),
        ensures
            final(self).wf(),
            match node {
                Some(node) => {
                    &&& old(self).remaining().len() > 0
                    &&& node.data == old(self).remaining()[0]
                    &&& final(self).remaining() == old(self).remaining().skip(1)
                },
                None => {
                    &&& old(self).remaining().len() == 0
                    &&& final(self).remaining() == old(self).remaining()
                },
            },
    {
        match self.next {
            Some(slot) => {
                let node = &self.list.nodes[slot];
                self.next = node.next;
                proof {
                    self.at@ = self.at@ + 1;
                }
                assert(self.remaining() =~= old(self).remaining().skip(1));
                Some(node)
            },
            None => None,
        }
    }
}

} // verus!
