//! A map from event ids to nodes.

use vstd::prelude::*;

use crate::event::{Event, EventId};
use crate::tree::NodeV;

verus! {

/// Whether two ids are the same.
pub fn same_id(a: &EventId, b: &EventId) -> (r: bool)
    ensures
        r == (*a == *b),
{
    let mut i: usize = 0;
    while i < 32
        invariant
            i <= 32,
            forall|j: int| 0 <= j < i ==> a@[j] == b@[j],
        decreases 32 - i,
    {
        if a[i] != b[i] {
            return false;
        }
        i += 1;
    }
    assert(*a =~= *b);
    true
}

/// An event in its place: the event it follows and those that follow it.
pub struct EventNode {
    /// Only the current root has this set to `None`.
    pub parent: Option<EventId>,
    pub event: Event,
    pub children: Vec<EventId>,
}

impl View for EventNode {
    type V = NodeV;

    open spec fn view(&self) -> NodeV {
        NodeV { parent: self.parent, event: self.event@, children: self.children@ }
    }
}

impl EventNode {
    /// Another node with the same contents.
    pub fn duplicate(&self) -> (r: EventNode)
        ensures
            r@ == self@,
    {
        let mut children: Vec<EventId> = Vec::new();
        let mut i: usize = 0;
        while i < self.children.len()
            invariant
                i <= self.children@.len(),
                children@ == self.children@.take(i as int),
            decreases self.children@.len() - i,
        {
            children.push(self.children[i]);
            proof {
                assert(self.children@.take(i + 1) =~= self.children@.take(i as int).push(
                    self.children@[i as int],
                ));
            }
            i += 1;
        }
        proof {
            assert(self.children@.take(i as int) =~= self.children@);
        }
        EventNode { parent: self.parent, event: self.event.duplicate(), children }
    }
}

/// Nodes filed by event id, each id at most once.
pub struct EventMap {
    entries: Vec<(EventId, EventNode)>,
}

impl View for EventMap {
    type V = Map<EventId, NodeV>;

    closed spec fn view(&self) -> Map<EventId, NodeV> {
        Map::new(
            |id: EventId|
                exists|i: int|
                    0 <= i < self.entries@.len() && (#[trigger] self.entries@[i]).0 == id,
            |id: EventId|
                self.entries@[choose|i: int|
                    0 <= i < self.entries@.len() && (#[trigger] self.entries@[i]).0 == id].1@,
        )
    }
}

impl EventMap {
    /// No id is filed twice.
    pub closed spec fn wf(self) -> bool {
        forall|i: int, j: int|
            0 <= i < j < self.entries@.len() ==> (#[trigger] self.entries@[i]).0 != (
            #[trigger] self.entries@[j]).0
    }

    /// The ids in the order in which they are filed.
    pub closed spec fn order(self) -> Seq<EventId> {
        self.entries@.map_values(|e: (EventId, EventNode)| e.0)
    }

    proof fn lemma_entry(self, i: int)
        requires
            self.wf(),
            0 <= i < self.entries@.len(),
        ensures
            self@.dom().contains(self.entries@[i].0),
            self@[self.entries@[i].0] == self.entries@[i].1@,
    {
        let id = self.entries@[i].0;
        let j = choose|j: int|
            0 <= j < self.entries@.len() && (#[trigger] self.entries@[j]).0 == id;
        assert(self.entries@[i].0 == id);
        assert(0 <= j < self.entries@.len() && self.entries@[j].0 == id);
    }

    /// Each id that is filed appears once in the order.
    pub proof fn lemma_order(self)
        requires
            self.wf(),
        ensures
            self.order().no_duplicates(),
            self.order().to_set() == self@.dom(),
            self@.dom().finite(),
            self@.dom().len() == self.order().len(),
    {
        let s = self.order();
        assert(s.no_duplicates());
        assert forall|id: EventId| s.to_set().contains(id) <==> self@.dom().contains(id) by {
            if s.contains(id) {
                let i = choose|i: int| 0 <= i < s.len() && s[i] == id;
                self.lemma_entry(i);
            }
            if self@.dom().contains(id) {
                let i = choose|i: int|
                    0 <= i < self.entries@.len() && (#[trigger] self.entries@[i]).0 == id;
                assert(s[i] == id);
            }
        }
        assert(s.to_set() =~= self@.dom());
        vstd::seq_lib::seq_to_set_is_finite(s);
        s.unique_seq_to_set();
    }

    /// A map that files nothing.
    pub fn new() -> (r: Self)
        ensures
            r.wf(),
            r@ == Map::<EventId, NodeV>::empty(),
            r.order() == Seq::<EventId>::empty(),
    {
        let r = EventMap { entries: Vec::new() };
        assert(r@ =~= Map::<EventId, NodeV>::empty());
        r
    }

    fn find(&self, id: &EventId) -> (r: Option<usize>)
        requires
            self.wf(),
        ensures
            r is Some <==> self@.dom().contains(*id),
            r matches Some(i) ==> i < self.entries@.len() && self.entries@[i as int].0 == *id
                && self@[*id] == self.entries@[i as int].1@,
    {
        let mut i: usize = 0;
        while i < self.entries.len()
            invariant
                i <= self.entries@.len(),
                self.wf(),
                forall|j: int| 0 <= j < i ==> (#[trigger] self.entries@[j]).0 != *id,
            decreases self.entries@.len() - i,
        {
            if same_id(&self.entries[i].0, id) {
                proof {
                    self.lemma_entry(i as int);
                }
                return Some(i);
            }
            i += 1;
        }
        None
    }

    /// The node filed under `id`.
    pub fn get(&self, id: &EventId) -> (r: Option<&EventNode>)
        requires
            self.wf(),
        ensures
            r is Some <==> self@.dom().contains(*id),
            r matches Some(node) ==> node@ == self@[*id],
    {
        match self.find(id) {
            Some(i) => Some(&self.entries[i].1),
            None => None,
        }
    }

    /// Whether a node is filed under `id`.
    pub fn contains_key(&self, id: &EventId) -> (r: bool)
        requires
            self.wf(),
        ensures
            r == self@.dom().contains(*id),
    {
        self.find(id).is_some()
    }

    /// How many nodes are filed.
    pub fn len(&self) -> (r: usize)
        requires
            self.wf(),
        ensures
            r == self@.len(),
            self@.dom().finite(),
    {
        proof {
            self.lemma_order();
        }
        self.entries.len()
    }

    /// The ids of all nodes.
    pub fn keys(&self) -> (r: Vec<EventId>)
        requires
            self.wf(),
        ensures
            r@ == self.order(),
            r@.no_duplicates(),
            r@.to_set() == self@.dom(),
    {
        let mut r: Vec<EventId> = Vec::new();
        let mut i: usize = 0;
        while i < self.entries.len()
            invariant
                i <= self.entries@.len(),
                r@ == self.order().take(i as int),
            decreases self.entries@.len() - i,
        {
            r.push(self.entries[i].0);
            proof {
                assert(self.order().take(i + 1) =~= self.order().take(i as int).push(
                    self.entries@[i as int].0,
                ));
            }
            i += 1;
        }
        proof {
            self.lemma_order();
            assert(self.order().take(i as int) =~= self.order());
        }
        r
    }

    proof fn lemma_replaced(self, prior: EventMap, i: int)
        requires
            prior.wf(),
            0 <= i < prior.entries@.len(),
            self.entries@.len() == prior.entries@.len(),
            self.entries@[i].0 == prior.entries@[i].0,
            forall|j: int|
                0 <= j < prior.entries@.len() && j != i ==> self.entries@[j] == prior.entries@[j],
        ensures
            self.wf(),
            self@ == prior@.insert(prior.entries@[i].0, self.entries@[i].1@),
            self.order() == prior.order(),
            prior@.dom().contains(prior.entries@[i].0),
    {
        assert(self.order() =~= prior.order());
        prior.lemma_entry(i);
        let id = prior.entries@[i].0;
        assert forall|j: int|
            0 <= j < prior.entries@.len() implies (#[trigger] self.entries@[j]).0
            == prior.entries@[j].0 by {}
        assert(self.wf()) by {
            assert forall|j: int, k: int| 0 <= j < k < self.entries@.len() implies (
            #[trigger] self.entries@[j]).0 != (#[trigger] self.entries@[k]).0 by {
                assert(prior.entries@[j].0 != prior.entries@[k].0);
            }
        }
        let m = prior@.insert(id, self.entries@[i].1@);
        assert forall|x: EventId| self@.dom().contains(x) <==> m.dom().contains(x) by {
            if self@.dom().contains(x) {
                let j = choose|j: int|
                    0 <= j < self.entries@.len() && (#[trigger] self.entries@[j]).0 == x;
                assert(prior.entries@[j].0 == x);
                prior.lemma_entry(j);
            }
            if m.dom().contains(x) {
                if x == id {
                    self.lemma_entry(i);
                } else {
                    let j = choose|j: int|
                        0 <= j < prior.entries@.len() && (#[trigger] prior.entries@[j]).0 == x;
                    assert(self.entries@[j].0 == x);
                    self.lemma_entry(j);
                }
            }
        }
        assert forall|x: EventId| self@.dom().contains(x) implies #[trigger] self@[x] == m[x] by {
            let j = choose|j: int|
                0 <= j < self.entries@.len() && (#[trigger] self.entries@[j]).0 == x;
            self.lemma_entry(j);
            prior.lemma_entry(j);
        }
        assert(self@ =~= m);
    }

    /// Files `node` under `id`, in place of what was filed there.
    pub fn insert(&mut self, id: EventId, node: EventNode)
        requires
            old(self).wf(),
        ensures
            final(self).wf(),
            final(self)@ == old(self)@.insert(id, node@),
            final(self).order() == if old(self)@.dom().contains(id) {
                old(self).order()
            } else {
                old(self).order().push(id)
            },
    {
        match self.find(&id) {
            Some(i) => {
                self.entries[i] = (id, node);
                proof {
                    self.lemma_replaced(*old(self), i as int);
                }
            },
            None => {
                self.entries.push((id, node));
                proof {
                    self.lemma_pushed(*old(self));
                }
            },
        }
    }

    proof fn lemma_pushed(self, prior: EventMap)
        requires
            prior.wf(),
            self.entries@.len() == prior.entries@.len() + 1,
            self.entries@ == prior.entries@.push(self.entries@.last()),
            !prior@.dom().contains(self.entries@.last().0),
        ensures
            self.wf(),
            self@ == prior@.insert(self.entries@.last().0, self.entries@.last().1@),
    {
        let n = prior.entries@.len() as int;
        let id = self.entries@.last().0;
        assert forall|j: int| 0 <= j < n implies (#[trigger] self.entries@[j]) == prior.entries@[j]
            by {}
        assert(self.wf()) by {
            assert forall|j: int, k: int| 0 <= j < k < self.entries@.len() implies (
            #[trigger] self.entries@[j]).0 != (#[trigger] self.entries@[k]).0 by {
                prior.lemma_entry(j);
                if k < n {
                    assert(prior.entries@[j].0 != prior.entries@[k].0);
                }
            }
        }
        let m = prior@.insert(id, self.entries@.last().1@);
        assert forall|x: EventId| self@.dom().contains(x) <==> m.dom().contains(x) by {
            if self@.dom().contains(x) {
                let j = choose|j: int|
                    0 <= j < self.entries@.len() && (#[trigger] self.entries@[j]).0 == x;
                if j < n {
                    prior.lemma_entry(j);
                }
            }
            if m.dom().contains(x) {
                if x == id {
                    self.lemma_entry(n);
                } else {
                    let j = choose|j: int|
                        0 <= j < prior.entries@.len() && (#[trigger] prior.entries@[j]).0 == x;
                    self.lemma_entry(j);
                }
            }
        }
        assert forall|x: EventId| self@.dom().contains(x) implies #[trigger] self@[x] == m[x] by {
            let j = choose|j: int|
                0 <= j < self.entries@.len() && (#[trigger] self.entries@[j]).0 == x;
            self.lemma_entry(j);
            if j < n {
                prior.lemma_entry(j);
            }
        }
        assert(self@ =~= m);
    }

    /// Takes away what is filed under `id`.
    pub fn remove(&mut self, id: &EventId)
        requires
            old(self).wf(),
        ensures
            final(self).wf(),
            final(self)@ == old(self)@.remove(*id),
            old(self)@.dom().contains(*id) ==> exists|i: int|
                0 <= i < old(self).order().len() && #[trigger] old(self).order()[i] == *id
                    && final(self).order() == old(self).order().remove(i),
            !old(self)@.dom().contains(*id) ==> final(self).order() == old(self).order(),
    {
        match self.find(id) {
            Some(i) => {
                let _ = self.entries.remove(i);
                proof {
                    self.lemma_removed(*old(self), i as int);
                }
            },
            None => {
                proof {
                    assert(self@ =~= old(self)@.remove(*id));
                }
            },
        }
    }

    proof fn lemma_removed(self, prior: EventMap, i: int)
        requires
            prior.wf(),
            0 <= i < prior.entries@.len(),
            self.entries@ == prior.entries@.remove(i),
        ensures
            self.wf(),
            self@ == prior@.remove(prior.entries@[i].0),
            self.order() == prior.order().remove(i),
            prior.order()[i] == prior.entries@[i].0,
    {
        assert(self.order() =~= prior.order().remove(i));
        let id = prior.entries@[i].0;
        assert forall|j: int|
            0 <= j < self.entries@.len() implies (#[trigger] self.entries@[j]) == prior.entries@[if j
            < i {
            j
        } else {
            j + 1
        }] by {}
        assert(self.wf()) by {
            assert forall|j: int, k: int| 0 <= j < k < self.entries@.len() implies (
            #[trigger] self.entries@[j]).0 != (#[trigger] self.entries@[k]).0 by {}
        }
        let m = prior@.remove(id);
        assert forall|x: EventId| self@.dom().contains(x) <==> m.dom().contains(x) by {
            if self@.dom().contains(x) {
                let j = choose|j: int|
                    0 <= j < self.entries@.len() && (#[trigger] self.entries@[j]).0 == x;
                let k = if j < i {
                    j
                } else {
                    j + 1
                };
                prior.lemma_entry(k);
                assert(prior.entries@[k].0 != prior.entries@[i].0);
            }
            if m.dom().contains(x) {
                let j = choose|j: int|
                    0 <= j < prior.entries@.len() && (#[trigger] prior.entries@[j]).0 == x;
                let k = if j < i {
                    j
                } else {
                    j - 1
                };
                assert(self.entries@[k] == prior.entries@[j]);
                self.lemma_entry(k);
            }
        }
        assert forall|x: EventId| self@.dom().contains(x) implies #[trigger] self@[x] == m[x] by {
            let j = choose|j: int|
                0 <= j < self.entries@.len() && (#[trigger] self.entries@[j]).0 == x;
            let k = if j < i {
                j
            } else {
                j + 1
            };
            self.lemma_entry(j);
            prior.lemma_entry(k);
        }
        assert(self@ =~= m);
    }

    /// Appends `child` to the children of the node filed under `id`.
    pub fn push_child(&mut self, id: &EventId, child: EventId)
        requires
            old(self).wf(),
            old(self)@.dom().contains(*id),
        ensures
            final(self).wf(),
            final(self)@ == old(self)@.insert(
                *id,
                NodeV { children: old(self)@[*id].children.push(child), ..old(self)@[*id] },
            ),
            final(self).order() == old(self).order(),
    {
        if let Some(i) = self.find(id) {
            self.entries[i].1.children.push(child);
            proof {
                self.lemma_replaced(*old(self), i as int);
            }
        }
    }

    /// Takes the child at `at` from the children of the node filed under `id`.
    pub fn remove_child(&mut self, id: &EventId, at: usize)
        requires
            old(self).wf(),
            old(self)@.dom().contains(*id),
            at < old(self)@[*id].children.len(),
        ensures
            final(self).wf(),
            final(self)@ == old(self)@.insert(
                *id,
                NodeV { children: old(self)@[*id].children.remove(at as int), ..old(self)@[*id] },
            ),
            final(self).order() == old(self).order(),
    {
        if let Some(i) = self.find(id) {
            let _ = self.entries[i].1.children.remove(at);
            proof {
                self.lemma_replaced(*old(self), i as int);
            }
        }
    }

    /// Makes the node filed under `id` one without a parent.
    pub fn clear_parent(&mut self, id: &EventId)
        requires
            old(self).wf(),
            old(self)@.dom().contains(*id),
        ensures
            final(self).wf(),
            final(self)@ == old(self)@.insert(*id, NodeV { parent: None, ..old(self)@[*id] }),
            final(self).order() == old(self).order(),
    {
        if let Some(i) = self.find(id) {
            self.entries[i].1.parent = None;
            proof {
                self.lemma_replaced(*old(self), i as int);
            }
        }
    }

    /// Another map with the same contents.
    pub fn duplicate(&self) -> (r: EventMap)
        requires
            self.wf(),
        ensures
            r.wf(),
            r@ == self@,
            r.order() == self.order(),
    {
        let mut r = EventMap { entries: Vec::new() };
        let mut i: usize = 0;
        while i < self.entries.len()
            invariant
                i <= self.entries@.len(),
                self.wf(),
                r.entries@.len() == i,
                forall|j: int|
                    0 <= j < i ==> (#[trigger] r.entries@[j]).0 == self.entries@[j].0
                        && r.entries@[j].1@ == self.entries@[j].1@,
            decreases self.entries@.len() - i,
        {
            let node = self.entries[i].1.duplicate();
            r.entries.push((self.entries[i].0, node));
            i += 1;
        }
        proof {
            r.lemma_same(*self);
        }
        r
    }

    proof fn lemma_same(self, other: EventMap)
        requires
            other.wf(),
            self.entries@.len() == other.entries@.len(),
            forall|j: int|
                0 <= j < self.entries@.len() ==> (#[trigger] self.entries@[j]).0
                    == other.entries@[j].0 && self.entries@[j].1@ == other.entries@[j].1@,
        ensures
            self.wf(),
            self@ == other@,
            self.order() == other.order(),
    {
        assert(self.order() =~= other.order());
        assert(self.wf()) by {
            assert forall|j: int, k: int| 0 <= j < k < self.entries@.len() implies (
            #[trigger] self.entries@[j]).0 != (#[trigger] self.entries@[k]).0 by {
                assert(other.entries@[j].0 != other.entries@[k].0);
            }
        }
        assert forall|x: EventId| self@.dom().contains(x) <==> other@.dom().contains(x) by {
            if self@.dom().contains(x) {
                let j = choose|j: int|
                    0 <= j < self.entries@.len() && (#[trigger] self.entries@[j]).0 == x;
                other.lemma_entry(j);
            }
            if other@.dom().contains(x) {
                let j = choose|j: int|
                    0 <= j < other.entries@.len() && (#[trigger] other.entries@[j]).0 == x;
                assert(self.entries@[j].0 == x);
                self.lemma_entry(j);
            }
        }
        assert forall|x: EventId| self@.dom().contains(x) implies #[trigger] self@[x]
            == other@[x] by {
            let j = choose|j: int|
                0 <= j < self.entries@.len() && (#[trigger] self.entries@[j]).0 == x;
            self.lemma_entry(j);
            other.lemma_entry(j);
        }
        assert(self@ =~= other@);
    }
}

} // verus!
