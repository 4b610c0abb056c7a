//! What holds of the chain as a whole.

use vstd::prelude::*;

use crate::chain::{self, MAX_DEPTH};
use crate::clock::ClockError;
use crate::event::{self, EventId, EventV};
use crate::model::Model;
use crate::root::MIN_ROOT_HEIGHT;
use crate::tree::Tree;

verus! {

/// Only the root has no parent.
pub proof fn law_only_root_has_no_parent(t: Tree, id: EventId)
    requires
        t.wf(),
        t.has(id),
    ensures
        t.parent(id) is None <==> id == t.root,
{
    if id != t.root {
        t.lemma_depth_parent(id);
    }
}

/// The difference between the depths of a node and of one above it is the number of steps up from
/// the one to the other: a node's height over another is the other's depth below it.
pub proof fn law_depth_counts_steps(t: Tree, a: EventId, id: EventId)
    requires
        t.wf(),
        t.has(id),
        t.above(a, id),
    ensures
        t.depth(a) <= t.depth(id),
        t.climb(id, (t.depth(id) - t.depth(a)) as nat) == Some(a),
{
    t.lemma_above_depth(a, id);
}

/// No node stands deeper than the head, and the head is a leaf.
pub proof fn law_head_is_deepest(t: Tree, id: EventId)
    requires
        t.wf(),
        t.has(id),
    ensures
        t.depth(id) <= t.depth(t.head()),
        t.is_leaf(t.head()),
        t.above(t.root, t.head()),
{
    t.lemma_head();
}

/// Every tree has one head and only one: two ends of the longest chain are the same node.
pub proof fn law_one_head(t: Tree, g: EventId, h: EventId)
    requires
        t.wf(),
        t.is_longest(t.root, g),
        t.is_longest(t.root, h),
    ensures
        g == h,
        g == t.head(),
{
    t.lemma_head();
}

/// Tidying never changes which event is the head.
pub proof fn law_tidying_keeps_head(t: Tree)
    requires
        t.wf(),
    ensures
        t.pruned().head() == t.head(),
        t.tidied().head() == t.head(),
{
    t.lemma_pruned();
    t.lemma_tidied();
}

/// Pruning takes away exactly the leaves that have fallen too far behind the head, and of the
/// other nodes exactly those that lead to such leaves only.
pub proof fn law_pruning_is_exact(t: Tree, id: EventId)
    requires
        t.wf(),
        t.has(id),
    ensures
        t.is_leaf(id) ==> (t.pruned().has(id) <==> t.depth(t.head()) + 1 - t.depth(id)
            <= MAX_DEPTH),
        t.pruned().has(id) <==> exists|l: EventId| #[trigger]
            t.is_leaf(l) && t.depth(t.head()) + 1 - t.depth(l) <= MAX_DEPTH && t.above(id, l),
        t.pruned().has(id) ==> t.pruned().parent(id) == t.parent(id) && t.pruned().depth(id)
            == t.depth(id) && t.pruned().nodes[id].event == t.nodes[id].event,
{
    let u = t.pruned();
    t.lemma_pruned();
    u.lemma_part(t);
    t.lemma_above_refl(id);
    if u.has(id) {
        let l = choose|l: EventId| #[trigger]
            t.is_leaf(l) && !t.stale().contains(l) && t.above(id, l);
        assert(t.is_leaf(l) && t.gap(l, t.head()) <= MAX_DEPTH && t.above(id, l));
        if t.is_leaf(id) {
            t.lemma_below_leaf(id, l);
        }
    }
    if exists|l: EventId| #[trigger]
        t.is_leaf(l) && t.gap(l, t.head()) <= MAX_DEPTH && t.above(id, l) {
        let l = choose|l: EventId| #[trigger]
            t.is_leaf(l) && t.gap(l, t.head()) <= MAX_DEPTH && t.above(id, l);
        assert(t.is_leaf(l) && !t.stale().contains(l) && t.above(id, l));
    }
}

/// After tidying no leaf lies too far behind the head.
pub proof fn law_tidy_leaves_are_recent(t: Tree, l: EventId)
    requires
        t.wf(),
        t.tidied().is_leaf(l),
    ensures
        t.tidied().depth(t.tidied().head()) + 1 - t.tidied().depth(l) <= MAX_DEPTH,
{
    let p = t.pruned();
    let r = p.next_root();
    t.lemma_pruned();
    t.lemma_tidied();
    p.lemma_next_root();
    p.lemma_reroot(r);
    p.lemma_head();
    let u = t.tidied();
    assert(u.has(l));
    assert(p.is_leaf(l));
    t.lemma_head();
    assert(t.is_leaf(t.head()) && !t.stale().contains(t.head()));
    t.lemma_without(t.stale());
    assert(t.is_leaf(l) && !t.stale().contains(l));
    p.lemma_part(t);
    assert(u.has(p.head()));
}

/// The root stays, or it moves down towards the head by at least the minimum height.
pub proof fn law_root_moves_towards_head(t: Tree)
    requires
        t.wf(),
    ensures
        t.has(t.next_root()),
        t.above(t.next_root(), t.head()),
        t.next_root() == t.root || t.depth(t.next_root()) >= MIN_ROOT_HEIGHT,
        t.single() ==> t.next_root() == t.root,
{
    t.lemma_next_root();
}

/// Where nothing branches off above the new root, moving the root discards exactly the nodes
/// above it.
pub proof fn law_root_move_discards_the_way(t: Tree, id: EventId)
    requires
        t.wf(),
        t.has(id),
        t.clear(t.next_root()),
    ensures
        t.reroot(t.next_root()).has(id) <==> !(t.above(id, t.next_root()) && id != t.next_root()),
{
    let r = t.next_root();
    t.lemma_next_root();
    t.lemma_reroot(r);
    t.lemma_above_refl(r);
    if t.above(id, r) && id != r && t.above(r, id) {
        t.lemma_above_depth(id, r);
        t.lemma_above_depth(r, id);
    }
    if !t.above(id, r) {
        lemma_clear_below(t, r, id);
    }
}

/// Where nothing branches off above `r`, a node is above `r` or below it.
proof fn lemma_clear_below(t: Tree, r: EventId, id: EventId)
    requires
        t.wf(),
        t.has(r),
        t.has(id),
        t.clear(r),
    ensures
        t.above(id, r) || t.above(r, id),
    decreases t.depth(id),
{
    if id != t.root {
        t.lemma_depth_parent(id);
        let p = t.parent(id)->0;
        lemma_clear_below(t, r, p);
        if t.above(r, p) {
            t.lemma_above_trans(r, p, id);
        } else {
            assert(t.above(p, r));
            t.lemma_above_refl(p);
            assert(p != r);
            let i = t.lemma_branch(p, r);
            let j = choose|j: int| 0 <= j < t.children(p).len() && t.children(p)[j] == id;
            assert(t.children(p).contains(id));
            assert(t.children(p).len() == 1);
        }
    }
}

/// Nothing stands above the root, so nothing branches off there.
proof fn lemma_root_is_clear(t: Tree)
    requires
        t.wf(),
    ensures
        t.clear(t.root),
{
    assert forall|x: EventId| #[trigger] t.above(x, t.root) && x != t.root implies t.children(
        x,
    ).len() == 1 by {
        t.lemma_above_parent(x, t.root);
    }
}

/// Pruning what has just been pruned changes nothing.
pub proof fn law_pruning_is_idempotent(t: Tree)
    requires
        t.wf(),
    ensures
        t.pruned().pruned() == t.pruned(),
{
    let p = t.pruned();
    t.lemma_pruned();
    t.lemma_head();
    p.lemma_part(t);
    p.lemma_head();
    assert(t.is_leaf(t.head()) && !t.stale().contains(t.head()));
    t.lemma_without(t.stale());
    assert forall|l: EventId| !p.stale().contains(l) by {
        if p.is_leaf(l) {
            assert(t.is_leaf(l) && !t.stale().contains(l));
        }
    }
    assert(p.stale() =~= Set::empty());
    p.lemma_without_none();
}

/// Moving the root where it has just been moved changes nothing, and nothing stands in the way.
pub proof fn law_root_move_is_idempotent(t: Tree)
    requires
        t.wf(),
        t.clear(t.next_root()),
    ensures
        t.reroot(t.next_root()).clear(t.reroot(t.next_root()).next_root()),
        t.reroot(t.next_root()).reroot(t.reroot(t.next_root()).next_root()) == t.reroot(
            t.next_root(),
        ),
{
    let u = t.reroot(t.next_root());
    t.lemma_next_root();
    t.lemma_reroot(t.next_root());
    lemma_moved_root_stays(t);
    u.lemma_reroot_same();
    lemma_root_is_clear(u);
}

/// Tidying what is tidy changes nothing.
pub proof fn law_tidying_is_idempotent(t: Tree)
    requires
        t.wf(),
        t.can_tidy(),
    ensures
        t.tidied().tidied() == t.tidied(),
        t.tidied().can_tidy(),
{
    let p = t.pruned();
    let r = p.next_root();
    let u = t.tidied();
    t.lemma_pruned();
    t.lemma_tidied();
    assert forall|l: EventId| !u.stale().contains(l) by {
        if u.is_leaf(l) {
            law_tidy_leaves_are_recent(t, l);
        }
    }
    assert(u.stale() =~= Set::empty());
    u.lemma_without_none();
    assert(u.pruned() == u);
    lemma_moved_root_stays(p);
    assert(u.next_root() == u.root);
    u.lemma_reroot_same();
    lemma_root_is_clear(u);
}

/// A root that has just moved, or has just not moved, stays.
proof fn lemma_moved_root_stays(p: Tree)
    requires
        p.wf(),
        p.clear(p.next_root()),
    ensures
        p.reroot(p.next_root()).next_root() == p.next_root(),
{
    let r = p.next_root();
    let u = p.reroot(r);
    p.lemma_next_root();
    p.lemma_reroot(r);
    p.lemma_reroot_head(r);
    p.lemma_reroot_same();
    if r != p.root {
        u.lemma_depth_root();
        if !u.single() {
            u.lemma_anchor();
            let c = u.anchor();
            let h = p.head();
            let l = choose|l: EventId| #[trigger] u.is_leaf(l) && l != h && u.meet(l, h) == c;
            u.lemma_head();
            assert(u.has(l) && u.has(h));
            assert(p.is_leaf(l));
            assert(u.parent(l) != Some(h)) by {
                if u.parent(l) == Some(h) {
                    u.lemma_meet(l, h);
                    assert(u.climb(h, 0) == Some(h));
                    assert(u.climb(l, 1) == Some(h));
                    u.lemma_below_leaf(h, l);
                }
            }
            if u.depth(l) == u.depth(h) {
                lemma_reroot_fork(p, r, l, h);
                p.lemma_anchor();
                assert(p.parent(l) != Some(h)) by {
                    if p.parent(l) == Some(h) {
                        assert(p.climb(h, 0) == Some(h));
                        assert(p.climb(l, 1) == Some(h));
                        p.lemma_head();
                        p.lemma_below_leaf(h, l);
                    }
                }
                assert(p.meet(l, h) == c);
                assert(p.candidate(c));
                assert(p.depth(c) <= p.depth(r));
                assert(u.depth(c) == 0);
            }
        }
    }
}

/// Moving the root does not change where two ways below it part.
proof fn lemma_reroot_fork(p: Tree, r: EventId, a: EventId, b: EventId)
    requires
        p.wf(),
        p.has(r),
        p.has(a),
        p.has(b),
        p.above(r, a),
        p.above(r, b),
    ensures
        p.reroot(r).fork(a, b) == p.fork(a, b),
{
    let u = p.reroot(r);
    p.lemma_reroot(r);
    p.lemma_fork(a, b);
    let f = p.fork(a, b);
    assert(u.has(a) && u.has(b));
    u.lemma_fork(a, b);
    p.lemma_above_depth(f, a);
    assert(p.above(r, f));
    p.lemma_reroot_above(r, f, a);
    p.lemma_reroot_above(r, f, b);
    assert forall|d: EventId| #[trigger] u.above(d, a) && u.above(d, b) implies u.above(d, f) by {
        p.lemma_reroot_above(r, d, a);
        p.lemma_reroot_above(r, d, b);
        p.lemma_reroot_above(r, d, f);
    }
    assert(u.is_fork(a, b, f));
}

/// An event that follows the head becomes the head. One that follows another node becomes the
/// head if it goes before the head, and otherwise the head stays.
pub proof fn law_new_event_and_head(t: Tree, id: EventId, e: EventV)
    requires
        t.wf(),
        !t.has(id),
        t.has(e.previous_event_hash),
    ensures
        e.previous_event_hash == t.head() ==> t.attach(id, e).head() == id,
        e.previous_event_hash != t.head() ==> t.attach(id, e).head() == if t.attach(id, e).beats(
            id,
            t.head(),
        ) {
            id
        } else {
            t.head()
        },
        t.attach(id, e).depth(t.attach(id, e).head()) >= t.depth(t.head()),
{
    let u = t.attach(id, e);
    let p = e.previous_event_hash;
    let h = t.head();
    let g = u.head();
    t.lemma_head();
    t.lemma_attach(id, e);
    t.lemma_part(u);
    u.lemma_head();
    assert(t.has(p) && t.has(h));
    assert(u.is_leaf(id) && u.above(u.root, id));
    if p == h {
        if g != id {
            assert(u.beats(g, id));
            assert(t.has(g));
        }
    } else {
        assert(u.children(h) == t.children(h));
        assert(u.is_leaf(h) && u.above(u.root, h));
        if g != id && g != h {
            assert(t.has(g));
            assert(g != p);
            assert(t.is_leaf(g) && t.above(t.root, g));
            assert(t.beats(h, g));
            assert(u.beats(g, h));
            assert(u.timestamp(g) == t.timestamp(g) && u.timestamp(h) == t.timestamp(h));
            assert(t.precedes(h, g) && u.precedes(g, h));
            lemma_attach_precedes(t, id, e, h, g);
            u.lemma_precedes_asymmetric(h, g);
        }
        if g == id {
            assert(u.beats(id, h));
        } else {
            if u.beats(id, h) {
                assert(u.beats(h, id));
                if u.precedes(id, h) {
                    u.lemma_precedes_asymmetric(id, h);
                }
            }
        }
    }
}

proof fn lemma_attach_precedes(t: Tree, id: EventId, e: EventV, a: EventId, b: EventId)
    requires
        t.wf(),
        !t.has(id),
        t.has(e.previous_event_hash),
        t.has(a),
        t.has(b),
        t.precedes(a, b),
    ensures
        t.attach(id, e).precedes(a, b),
{
    let u = t.attach(id, e);
    t.lemma_attach(id, e);
    t.lemma_part(u);
    let (c, i, j) = choose|c: EventId, i: int, j: int|
        #![trigger t.children(c)[i], t.children(c)[j]]
        t.has(c) && 0 <= i < j < t.children(c).len() && t.above(t.children(c)[i], a) && t.above(
            t.children(c)[j],
            b,
        );
    assert(u.has(c));
    assert(u.children(c)[i] == t.children(c)[i]);
    assert(u.children(c)[j] == t.children(c)[j]);
}

/// An event whose previous event is in the tidied tree, and not too far behind the head, stands in
/// the tree afterwards, as a leaf one step below its previous event, and what tidying left stays
/// where it is. How far it then lies behind the former head is within the limit.
pub proof fn law_taken_event_is_there(t: Tree, e: EventV)
    requires
        t.wf(),
        chain::can_settle(t, e),
        t.tidied().has(e.previous_event_hash),
        t.tidied().depth(t.head()) - t.tidied().depth(e.previous_event_hash) <= MAX_DEPTH,
    ensures
        chain::settle(t, e).is_leaf(event::event_id(e)),
        chain::settle(t, e).nodes[event::event_id(e)].event == e,
        chain::settle(t, e).parent(event::event_id(e)) == Some(e.previous_event_hash),
        chain::settle(t, e).depth(event::event_id(e)) == t.tidied().depth(e.previous_event_hash)
            + 1,
        chain::settle(t, e).nodes.dom() == t.tidied().nodes.dom().insert(event::event_id(e)),
        forall|id: EventId| #[trigger]
            t.tidied().has(id) ==> chain::settle(t, e).parent(id) == t.tidied().parent(id)
                && chain::settle(t, e).nodes[id].event == t.tidied().nodes[id].event,
        chain::settle(t, e).depth(t.head()) + 1 - chain::settle(t, e).depth(event::event_id(e))
            <= MAX_DEPTH,
{
    let u = t.tidied();
    t.lemma_tidied();
    u.lemma_attach(event::event_id(e), e);
    u.lemma_head();
    let v = chain::settle(t, e);
    u.lemma_part(v);
    assert(u.has(u.head()));
}

/// An event whose previous event is not in the tidied tree, or lies too far behind the head,
/// leaves no trace.
pub proof fn law_other_event_leaves_no_trace(t: Tree, e: EventV)
    requires
        t.wf(),
        !t.tidied().has(e.previous_event_hash) || t.tidied().depth(t.head()) - t.tidied().depth(
            e.previous_event_hash,
        ) > MAX_DEPTH,
    ensures
        chain::settle(t, e) == t.tidied(),
{
    t.lemma_tidied();
}

/// Events arriving in two batches have the effect of arriving in one.
pub proof fn law_batches(t: Tree, first: Seq<EventV>, second: Seq<EventV>)
    ensures
        chain::settle_all(chain::settle_all(t, first), second) == chain::settle_all(
            t,
            first + second,
        ),
        chain::can_settle_all(t, first + second) <==> chain::can_settle_all(t, first)
            && chain::can_settle_all(chain::settle_all(t, first), second),
{
    let all = first + second;
    let u = chain::settle_all(t, first);
    lemma_batches(t, first, second);
    if chain::can_settle_all(t, all) {
        assert forall|i: int| 0 <= i < first.len() implies chain::can_settle(
            #[trigger] chain::settle_all(t, first.take(i)),
            first[i],
        ) by {
            assert(all.take(i) =~= first.take(i));
            assert(chain::can_settle(chain::settle_all(t, all.take(i)), all[i]));
        }
        assert forall|i: int| 0 <= i < second.len() implies chain::can_settle(
            #[trigger] chain::settle_all(u, second.take(i)),
            second[i],
        ) by {
            let k = first.len() + i;
            assert(all.take(k) =~= first + second.take(i));
            lemma_batches(t, first, second.take(i));
            assert(chain::can_settle(chain::settle_all(t, all.take(k)), all[k]));
        }
    }
    if chain::can_settle_all(t, first) && chain::can_settle_all(u, second) {
        assert forall|i: int| 0 <= i < all.len() implies chain::can_settle(
            #[trigger] chain::settle_all(t, all.take(i)),
            all[i],
        ) by {
            if i < first.len() {
                assert(all.take(i) =~= first.take(i));
                assert(chain::can_settle(chain::settle_all(t, first.take(i)), first[i]));
            } else {
                let k = i - first.len();
                assert(all.take(i) =~= first + second.take(k));
                lemma_batches(t, first, second.take(k));
                assert(chain::can_settle(chain::settle_all(u, second.take(k)), second[k]));
            }
        }
    }
}

/// What becomes of the tree when each of the events arrives by itself, with nothing put aside.
pub open spec fn one_by_one(t: Tree, events: Seq<EventV>) -> Tree
    decreases events.len(),
{
    if events.len() == 0 {
        t
    } else {
        chain::settle_all(
            one_by_one(t, events.drop_last()),
            Seq::empty().push(events.last()),
        )
    }
}

/// Each of the events can be dealt with when it arrives by itself.
pub open spec fn can_one_by_one(t: Tree, events: Seq<EventV>) -> bool {
    forall|i: int|
        0 <= i < events.len() ==> chain::can_settle_all(
            #[trigger] one_by_one(t, events.take(i)),
            Seq::empty().push(events[i]),
        )
}

/// Dealing with the events that have been put aside has the effect of adding them one by one, in
/// the same order, and can be done on the same events. With none put aside nothing changes.
pub proof fn law_single_arrivals(t: Tree, events: Seq<EventV>)
    ensures
        chain::settle_all(t, events) == one_by_one(t, events),
        chain::can_settle_all(t, events) <==> can_one_by_one(t, events),
        chain::settle_all(t, Seq::empty()) == t,
        chain::can_settle_all(t, Seq::empty()),
{
    lemma_single_arrivals(t, events);
    assert forall|i: int| 0 <= i < events.len() implies #[trigger] one_by_one(t, events.take(i))
        == chain::settle_all(t, events.take(i)) && (chain::can_settle_all(
        one_by_one(t, events.take(i)),
        Seq::empty().push(events[i]),
    ) <==> chain::can_settle(chain::settle_all(t, events.take(i)), events[i])) by {
        lemma_single_arrivals(t, events.take(i));
        lemma_single_arrival(one_by_one(t, events.take(i)), events[i]);
    }
    if chain::can_settle_all(t, events) {
        assert forall|i: int| 0 <= i < events.len() implies chain::can_settle_all(
            #[trigger] one_by_one(t, events.take(i)),
            Seq::empty().push(events[i]),
        ) by {
            assert(chain::can_settle(chain::settle_all(t, events.take(i)), events[i]));
        }
    }
    if can_one_by_one(t, events) {
        assert forall|i: int| 0 <= i < events.len() implies chain::can_settle(
            #[trigger] chain::settle_all(t, events.take(i)),
            events[i],
        ) by {
            assert(chain::can_settle_all(
                one_by_one(t, events.take(i)),
                Seq::empty().push(events[i]),
            ));
        }
    }
}

proof fn lemma_single_arrivals(t: Tree, events: Seq<EventV>)
    ensures
        chain::settle_all(t, events) == one_by_one(t, events),
    decreases events.len(),
{
    if events.len() > 0 {
        lemma_single_arrivals(t, events.drop_last());
        lemma_single_arrival(one_by_one(t, events.drop_last()), events.last());
    }
}

proof fn lemma_single_arrival(t: Tree, e: EventV)
    ensures
        chain::settle_all(t, Seq::empty().push(e)) == chain::settle(t, e),
        chain::can_settle_all(t, Seq::empty().push(e)) <==> chain::can_settle(t, e),
{
    let s = Seq::empty().push(e);
    assert(s.drop_last() =~= Seq::empty());
    assert(s.take(0) =~= Seq::empty());
    assert(chain::settle_all(t, s.drop_last()) == t);
    assert(chain::settle_all(t, s.take(0)) == t);
}

proof fn lemma_batches(t: Tree, first: Seq<EventV>, second: Seq<EventV>)
    ensures
        chain::settle_all(chain::settle_all(t, first), second) == chain::settle_all(
            t,
            first + second,
        ),
    decreases second.len(),
{
    if second.len() == 0 {
        assert(first + second =~= first);
    } else {
        lemma_batches(t, first, second.drop_last());
        assert((first + second).drop_last() =~= first + second.drop_last());
        assert((first + second).last() == second.last());
    }
}

/// The node is filed under the id of its event and, unless it is the root, hangs from the event
/// that its own event names as the previous one.
pub open spec fn at_home(t: Tree, id: EventId) -> bool {
    &&& id == event::event_id(t.nodes[id].event)
    &&& id != t.root ==> t.parent(id) == Some(t.nodes[id].event.previous_event_hash)
}

/// Every node stands where its event says.
pub open spec fn faithful(t: Tree) -> bool {
    forall|id: EventId| #[trigger] t.has(id) ==> at_home(t, id)
}

/// Tidying keeps the tree faithful to its events.
pub proof fn law_tidying_keeps_faith(t: Tree)
    requires
        t.wf(),
        faithful(t),
    ensures
        faithful(t.pruned()),
        faithful(t.tidied()),
{
    let p = t.pruned();
    let r = p.next_root();
    let u = t.tidied();
    t.lemma_pruned();
    p.lemma_next_root();
    p.lemma_reroot(r);
    assert forall|id: EventId| #[trigger] p.has(id) implies at_home(p, id) by {
        assert(t.has(id));
    }
    assert forall|id: EventId| #[trigger] u.has(id) implies at_home(u, id) by {
        assert(p.has(id));
        if id != r {
            assert(id != p.root) by {
                p.lemma_above_parent(r, id);
            }
        }
    }
}

/// The arrival of events keeps the tree faithful to its events.
pub proof fn law_arrival_keeps_faith(t: Tree, events: Seq<EventV>)
    requires
        t.wf(),
        t.nodes.len() < u32::MAX,
        faithful(t),
        chain::can_settle_all(t, events),
    ensures
        faithful(chain::settle_all(t, events)),
    decreases events.len(),
{
    if events.len() > 0 {
        let prior = events.drop_last();
        let e = events.last();
        assert(prior + seq![e] =~= events);
        law_batches(t, prior, seq![e]);
        law_arrival_keeps_faith(t, prior);
        let s = chain::settle_all(t, prior);
        chain::lemma_settle_all(t, prior);
        law_tidying_keeps_faith(s);
        assert(chain::can_settle(chain::settle_all(s, seq![e].take(0)), seq![e][0]));
        assert(seq![e].take(0) =~= Seq::empty());
        let u = s.tidied();
        s.lemma_tidied();
        if u.takes(e) {
            let v = u.attach(event::event_id(e), e);
            u.lemma_attach(event::event_id(e), e);
            assert forall|id: EventId| #[trigger] v.has(id) implies at_home(v, id) by {
                if id != event::event_id(e) {
                    assert(u.has(id));
                }
            }
        }
    }
}

/// A new model holds one event, stamped with a time that the clock showed, in milliseconds. There
/// is none only if the clock showed no such time.
pub proof fn law_new_model_is_stamped_by_the_clock(r: Result<Model, ClockError>)
    requires
        call_ensures(Model::new, (), r),
    ensures
        r matches Ok(model) ==> exists|secs: u64, nanos: u32| #[trigger]
            crate::clock::clock_shows(secs, nanos) && model.event_map@.dom() =~= set![
                model.current_root,
            ] && model.event_map@[model.current_root].event.timestamp == secs * 1000 + nanos as int
                / 1_000_000,
        r matches Err(e) ==> crate::clock::clock_is_behind() || exists|secs: u64, nanos: u32|
            #[trigger]
            crate::clock::clock_shows(secs, nanos) && secs * 1000 + nanos as int / 1_000_000
                > u64::MAX,
{
    if let Ok(model) = r {
        let (secs, nanos) = choose|secs: u64, nanos: u32| #[trigger]
            crate::clock::clock_shows(secs, nanos) && crate::clock::millis(secs, nanos) <= u64::MAX
                && model@.tree == crate::model::root_tree(
                crate::clock::millis(secs, nanos) as u64,
            );
        assert(crate::clock::clock_shows(secs, nanos));
    }
}

/// A new model is faithful to its one event.
pub proof fn law_new_model_is_faithful(timestamp: u64)
    ensures
        faithful(crate::model::root_tree(timestamp)),
{
}

} // verus!
