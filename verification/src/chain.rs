//! What happens to the tree when events arrive.

use vstd::prelude::*;

use crate::event::{EventId, EventV};
use crate::tree::Tree;

verus! {

/// How far behind the head a fork may fall before it is given up.
pub const MAX_DEPTH: u32 = 10;

/// The contents of a model: the tree, and the events that have not been dealt with.
#[verifier::ext_equal]
pub struct ModelV {
    pub tree: Tree,
    pub orphans: Seq<EventV>,
}

impl Tree {
    /// How far `id` lies behind `h`, counted from one past `h`.
    pub open spec fn gap(self, id: EventId, h: EventId) -> int {
        self.depth(h) + 1 - self.depth(id)
    }

    /// The leaves that have fallen too far behind the head.
    pub open spec fn stale(self) -> Set<EventId> {
        Set::new(|l: EventId| self.is_leaf(l) && self.gap(l, self.head()) > MAX_DEPTH)
    }

    /// The tree without the forks that have fallen too far behind the head.
    pub open spec fn pruned(self) -> Tree {
        self.without(self.stale())
    }

    /// The pruned tree with its root moved to where it belongs.
    pub open spec fn tidied(self) -> Tree {
        self.pruned().reroot(self.pruned().next_root())
    }

    /// The root can move: nothing that is kept branches off above its new place.
    pub open spec fn can_tidy(self) -> bool {
        self.pruned().clear(self.pruned().next_root())
    }

    /// The event follows one in the tree and would not lie too far behind the head.
    pub open spec fn takes(self, e: EventV) -> bool {
        &&& self.has(e.previous_event_hash)
        &&& self.depth(self.head()) - self.depth(e.previous_event_hash) <= MAX_DEPTH
    }
}

/// What becomes of the tree when the event `e` arrives: it is tidied, and then `e` is hung from
/// its previous event, unless that is not in the tree or lies too far behind the head.
pub open spec fn settle(t: Tree, e: EventV) -> Tree {
    if t.tidied().takes(e) {
        t.tidied().attach(crate::event::event_id(e), e)
    } else {
        t.tidied()
    }
}

/// The event `e` can be dealt with: the root can move, and if `e` is to be hung, its id is new to
/// the tree and there is room for it.
///
/// Nodes are found by id throughout, so an event whose id is already in the tree is left out. With
/// a second node under the same id the nodes would no longer form a tree: the map would file only
/// one of the two, and taking one away by its id could take the other, with what hangs below it.
pub open spec fn can_settle(t: Tree, e: EventV) -> bool {
    &&& t.can_tidy()
    &&& t.tidied().takes(e) ==> {
        &&& crate::event::hashable(e)
        &&& !t.tidied().has(crate::event::event_id(e))
        &&& t.tidied().nodes.len() + 1 < u32::MAX
    }
}

/// What becomes of the tree when the events arrive one after the other.
pub open spec fn settle_all(t: Tree, events: Seq<EventV>) -> Tree
    decreases events.len(),
{
    if events.len() == 0 {
        t
    } else {
        settle(settle_all(t, events.drop_last()), events.last())
    }
}

/// Each of the events can be dealt with when its turn comes.
pub open spec fn can_settle_all(t: Tree, events: Seq<EventV>) -> bool {
    forall|i: int|
        0 <= i < events.len() ==> can_settle(
            #[trigger] settle_all(t, events.take(i)),
            events[i],
        )
}

impl Tree {
    /// A leaf that is not stale stays; the head is never stale.
    pub proof fn lemma_pruned(self)
        requires
            self.wf(),
        ensures
            self.pruned().wf(),
            self.pruned().head() == self.head(),
            self.pruned().part_of(self),
            self.pruned().nodes.len() <= self.nodes.len(),
            !self.stale().contains(self.head()),
    {
        self.lemma_head();
        assert(!self.stale().contains(self.head()));
        assert(self.is_leaf(self.head()));
        self.lemma_without_head(self.stale());
        self.lemma_without(self.stale());
    }

    pub proof fn lemma_tidied(self)
        requires
            self.wf(),
        ensures
            self.tidied().wf(),
            self.tidied().head() == self.head(),
            self.tidied().nodes.len() <= self.nodes.len(),
    {
        let p = self.pruned();
        self.lemma_pruned();
        p.lemma_next_root();
        p.lemma_reroot(p.next_root());
        p.lemma_reroot_head(p.next_root());
    }
}

pub proof fn lemma_settle(t: Tree, e: EventV)
    requires
        t.wf(),
        t.nodes.len() < u32::MAX,
        can_settle(t, e),
    ensures
        settle(t, e).wf(),
        settle(t, e).nodes.len() < u32::MAX,
{
    t.lemma_tidied();
    if t.tidied().takes(e) {
        t.tidied().lemma_attach(crate::event::event_id(e), e);
    }
}

pub proof fn lemma_settle_all(t: Tree, events: Seq<EventV>)
    requires
        t.wf(),
        t.nodes.len() < u32::MAX,
        can_settle_all(t, events),
    ensures
        settle_all(t, events).wf(),
        settle_all(t, events).nodes.len() < u32::MAX,
    decreases events.len(),
{
    if events.len() > 0 {
        let n = events.len() - 1;
        let prior = events.drop_last();
        assert(events.take(n) =~= prior);
        assert(can_settle(settle_all(t, events.take(n)), events[n]));
        assert(can_settle_all(t, prior)) by {
            assert forall|i: int| 0 <= i < prior.len() implies can_settle(
                #[trigger] settle_all(t, prior.take(i)),
                prior[i],
            ) by {
                assert(prior.take(i) =~= events.take(i));
                assert(can_settle(settle_all(t, events.take(i)), events[i]));
            }
        }
        lemma_settle_all(t, prior);
        lemma_settle(settle_all(t, prior), events.last());
    }
}

} // verus!
