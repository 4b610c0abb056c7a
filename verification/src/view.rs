//! What a client has been shown, and what is to be shown next.

use vstd::prelude::*;
use vstd::view::View as _;

use crate::event::{Event, EventId};
use crate::map::same_id;
use crate::model::Model;

verus! {

/// What an IRC client has been shown so far.
pub struct View {
    /// The ids of the events that it has seen, in any order. How often an id is listed does not
    /// matter.
    pub seen: Vec<EventId>,
}

/// `a` is shown before `b`: it has an earlier timestamp or, with the same timestamp, was filed
/// earlier.
pub open spec fn shown_before(model: Model, a: EventId, b: EventId) -> bool {
    ||| model.tree().timestamp(a) < model.tree().timestamp(b)
    ||| model.tree().timestamp(a) == model.tree().timestamp(b)
        && model.event_map.order().index_of(a) < model.event_map.order().index_of(b)
}

/// `ids` are the events of all chains that are not among `seen`, each once, in the order in which
/// they are shown.
pub open spec fn is_unseen(model: Model, seen: Seq<EventId>, ids: Seq<EventId>) -> bool {
    &&& ids.no_duplicates()
    &&& forall|id: EventId| #[trigger]
        ids.contains(id) <==> model.tree().has(id) && !seen.contains(id)
    &&& forall|i: int, j: int|
        0 <= i < j < ids.len() ==> shown_before(model, #[trigger] ids[i], #[trigger] ids[j])
}

/// Once the client has been shown what it had not seen, there is nothing left to show.
pub proof fn law_nothing_is_shown_twice(model: Model, seen: Seq<EventId>, ids: Seq<EventId>)
    requires
        is_unseen(model, seen, ids),
    ensures
        is_unseen(model, seen + ids, Seq::empty()),
        forall|more: Seq<EventId>| #[trigger]
            is_unseen(model, seen + ids, more) ==> more == Seq::<EventId>::empty(),
{
    let all = seen + ids;
    assert forall|id: EventId| model.tree().has(id) implies #[trigger] all.contains(id) by {
        if seen.contains(id) {
            let i = choose|i: int| 0 <= i < seen.len() && seen[i] == id;
            assert(all[i] == id);
        } else {
            assert(ids.contains(id));
            let i = choose|i: int| 0 <= i < ids.len() && ids[i] == id;
            assert(all[seen.len() + i] == id);
        }
    }
    assert forall|more: Seq<EventId>| #[trigger] is_unseen(model, all, more) implies more
        == Seq::<EventId>::empty() by {
        if more.len() > 0 {
            assert(more.contains(more[0]));
        }
    }
}

/// What is shown are the events that are filed and not seen, each once. None is shown before an
/// earlier one, and of two with the same time the one that was filed earlier is shown first.
pub proof fn law_what_is_shown(model: Model, seen: Seq<EventId>, ids: Seq<EventId>)
    requires
        is_unseen(model, seen, ids),
    ensures
        forall|id: EventId| #[trigger]
            ids.contains(id) <==> model.event_map@.dom().contains(id) && !seen.contains(id),
        forall|i: int, j: int| #![trigger ids[i], ids[j]]
            0 <= i < j < ids.len() ==> {
                let a = model.event_map@[ids[i]].event.timestamp;
                let b = model.event_map@[ids[j]].event.timestamp;
                &&& ids[i] != ids[j]
                &&& a <= b
                &&& a == b ==> model.event_map.order().index_of(ids[i])
                    < model.event_map.order().index_of(ids[j])
            },
{
    assert forall|i: int, j: int| #![trigger ids[i], ids[j]] 0 <= i < j < ids.len() implies {
        let a = model.event_map@[ids[i]].event.timestamp;
        let b = model.event_map@[ids[j]].event.timestamp;
        &&& ids[i] != ids[j]
        &&& a <= b
        &&& a == b ==> model.event_map.order().index_of(ids[i])
            < model.event_map.order().index_of(ids[j])
    } by {
        assert(shown_before(model, ids[i], ids[j]));
    }
}

/// There is one list of what is to be shown, not two.
pub proof fn law_one_list_to_show(
    model: Model,
    seen: Seq<EventId>,
    a: Seq<EventId>,
    b: Seq<EventId>,
)
    requires
        is_unseen(model, seen, a),
        is_unseen(model, seen, b),
    ensures
        a == b,
{
    let n = if a.len() < b.len() {
        a.len()
    } else {
        b.len()
    };
    lemma_same_start(model, seen, a, b, n);
    if a.len() < b.len() {
        lemma_no_more(model, seen, a, b);
    }
    if b.len() < a.len() {
        assert forall|i: int| 0 <= i < n implies b[i] == a[i] by {}
        lemma_no_more(model, seen, b, a);
    }
    assert(a =~= b);
}

proof fn lemma_same_start(
    model: Model,
    seen: Seq<EventId>,
    a: Seq<EventId>,
    b: Seq<EventId>,
    n: nat,
)
    requires
        is_unseen(model, seen, a),
        is_unseen(model, seen, b),
        n <= a.len(),
        n <= b.len(),
    ensures
        forall|i: int| 0 <= i < n ==> a[i] == b[i],
    decreases n,
{
    if n > 0 {
        let i = n - 1;
        lemma_same_start(model, seen, a, b, i as nat);
        assert(a.contains(a[i]) && b.contains(b[i]));
        assert(b.contains(a[i]) && a.contains(b[i]));
        let j = choose|j: int| 0 <= j < b.len() && b[j] == a[i];
        let k = choose|k: int| 0 <= k < a.len() && a[k] == b[i];
        assert(j >= i && k >= i);
        if j > i {
            assert(shown_before(model, b[i], b[j]));
            assert(k > i);
            assert(shown_before(model, a[i], a[k]));
        }
    }
}

proof fn lemma_no_more(model: Model, seen: Seq<EventId>, a: Seq<EventId>, b: Seq<EventId>)
    requires
        is_unseen(model, seen, a),
        is_unseen(model, seen, b),
        forall|i: int| 0 <= i < a.len() ==> a[i] == b[i],
    ensures
        b.len() <= a.len(),
{
    if a.len() < b.len() {
        let n = a.len() as int;
        assert(b.contains(b[n]));
        assert(a.contains(b[n]));
        let k = choose|k: int| 0 <= k < a.len() && a[k] == b[n];
        assert(b[k] == b[n]);
    }
}

/// Whether `id` is among `ids`.
fn is_among(ids: &Vec<EventId>, id: &EventId) -> (r: bool)
    ensures
        r == ids@.contains(*id),
{
    let mut i: usize = 0;
    while i < ids.len()
        invariant
            0 <= i <= ids@.len(),
            forall|j: int| 0 <= j < i ==> ids@[j] != *id,
        decreases ids@.len() - i,
    {
        if same_id(&ids[i], id) {
            assert(ids@[i as int] == *id);
            return true;
        }
        i += 1;
    }
    false
}

/// The time of the event `id`.
fn timestamp(model: &Model, id: &EventId) -> (r: u64)
    requires
        model.wf(),
        model.tree().has(*id),
    ensures
        r == model.tree().timestamp(*id),
{
    model.event_map.get(id).unwrap().event.timestamp
}

/// The ids of the events that are not among `seen`, in the order in which they are shown.
fn unseen_ids(model: &Model, seen: &Vec<EventId>) -> (r: Vec<EventId>)
    requires
        model.wf(),
    ensures
        is_unseen(*model, seen@, r@),
{
    let ghost t = model.tree();
    let ghost order = model.event_map.order();
    let ids = model.event_map.keys();
    let mut shown: Vec<EventId> = Vec::new();
    let mut k: usize = 0;
    while k < ids.len()
        invariant
            model.wf(),
            t == model.tree(),
            order == model.event_map.order(),
            ids@ == order,
            order.no_duplicates(),
            order.to_set() == t.nodes.dom(),
            0 <= k <= ids@.len(),
            forall|i: int|
                0 <= i < shown@.len() ==> t.has(#[trigger] shown@[i]) && !seen@.contains(shown@[i])
                    && order.index_of(shown@[i]) < k,
            forall|m: int|
                0 <= m < k && !seen@.contains(#[trigger] ids@[m]) ==> shown@.contains(ids@[m]),
            forall|i: int, j: int|
                0 <= i < j < shown@.len() ==> shown_before(
                    *model,
                    #[trigger] shown@[i],
                    #[trigger] shown@[j],
                ),
        decreases ids@.len() - k,
    {
        let id = ids[k];
        proof {
            assert(order.to_set().contains(id));
            assert(t.has(id));
            assert(order[k as int] == id);
            assert(order.index_of(id) == k);
        }
        if !is_among(seen, &id) {
            let time: u64 = timestamp(model, &id);
            let mut p: usize = 0;
            while p < shown.len() && timestamp(model, &shown[p]) <= time
                invariant
                    model.wf(),
                    t == model.tree(),
                    time == t.timestamp(id),
                    0 <= p <= shown@.len(),
                    forall|i: int| 0 <= i < shown@.len() ==> t.has(#[trigger] shown@[i]),
                    forall|i: int| 0 <= i < p ==> t.timestamp(#[trigger] shown@[i]) <= time,
                decreases shown@.len() - p,
            {
                p += 1;
            }
            let ghost prior = shown@;
            shown.insert(p, id);
            proof {
                lemma_slot(*model, prior, p as int, id);
                assert forall|x: EventId| prior.contains(x) implies shown@.contains(x) by {
                    let i = choose|i: int| 0 <= i < prior.len() && prior[i] == x;
                    assert(shown@[if i < p { i } else { i + 1 }] == x);
                }
                assert(shown@[p as int] == id);
                assert forall|i: int| 0 <= i < shown@.len() implies t.has(#[trigger] shown@[i])
                    && !seen@.contains(shown@[i]) && order.index_of(shown@[i]) < k + 1 by {
                    if i != p {
                        assert(shown@[i] == prior[if i < p { i } else { i - 1 }]);
                    }
                }
            }
        }
        k += 1;
    }
    proof {
        assert forall|id: EventId| #[trigger]
            shown@.contains(id) <==> t.has(id) && !seen@.contains(id) by {
            if t.has(id) && !seen@.contains(id) {
                assert(order.to_set().contains(id));
                let m = choose|m: int| 0 <= m < order.len() && order[m] == id;
                assert(shown@.contains(ids@[m]));
            }
        }
        assert forall|i: int, j: int| 0 <= i < shown@.len() && 0 <= j < shown@.len() && i
            != j implies shown@[i] != shown@[j] by {
            if i < j {
                assert(shown_before(*model, shown@[i], shown@[j]));
            } else {
                assert(shown_before(*model, shown@[j], shown@[i]));
            }
        }
    }
    shown
}

/// An event that was filed after all those listed keeps the list in order behind the last one
/// that is not later.
proof fn lemma_slot(model: Model, prior: Seq<EventId>, p: int, id: EventId)
    requires
        0 <= p <= prior.len(),
        forall|i: int, j: int|
            0 <= i < j < prior.len() ==> shown_before(
                model,
                #[trigger] prior[i],
                #[trigger] prior[j],
            ),
        forall|i: int|
            0 <= i < prior.len() ==> model.event_map.order().index_of(#[trigger] prior[i])
                < model.event_map.order().index_of(id),
        forall|i: int|
            0 <= i < p ==> model.tree().timestamp(#[trigger] prior[i]) <= model.tree().timestamp(
                id,
            ),
        p < prior.len() ==> model.tree().timestamp(prior[p]) > model.tree().timestamp(id),
    ensures
        forall|i: int, j: int|
            0 <= i < j <= prior.len() ==> shown_before(
                model,
                #[trigger] prior.insert(p, id)[i],
                #[trigger] prior.insert(p, id)[j],
            ),
{
    let now = prior.insert(p, id);
    assert forall|i: int, j: int| 0 <= i < j <= prior.len() implies shown_before(
        model,
        #[trigger] now[i],
        #[trigger] now[j],
    ) by {
        let a = if i < p { i } else { i - 1 };
        let b = if j < p { j } else { j - 1 };
        if i == p {
            assert(now[j] == prior[b]);
            assert(b == p || shown_before(model, prior[p], prior[b]));
        } else if j == p {
            assert(now[i] == prior[a]);
        } else {
            assert(now[i] == prior[a] && now[j] == prior[b]);
        }
    }
}

impl View {
    /// A view that has shown nothing.
    pub fn new() -> (r: Self)
        ensures
            r.seen@ == Seq::<EventId>::empty(),
    {
        View { seen: Vec::new() }
    }

    /// The events that are to be replayed to the client: those of all chains that it has not seen,
    /// each with its id and once, ordered by timestamp.
    pub fn process(&self, model: &Model) -> (r: Vec<(EventId, Event)>)
        requires
            model.wf(),
        ensures
            is_unseen(*model, self.seen@, r@.map_values(|e: (EventId, Event)| e.0)),
            forall|i: int|
                0 <= i < r@.len() ==> (#[trigger] r@[i]).1@ == model.tree().nodes[r@[i].0].event,
            forall|i: int, j: int|
                0 <= i < j < r@.len() ==> (#[trigger] r@[i]).1.timestamp <= (
                #[trigger] r@[j]).1.timestamp,
    {
        Self::unseen(model, &self.seen)
    }

    /// What is to be replayed to a client that has seen the events `seen`: the unseen events of
    /// all chains, each with its id and once, ordered by timestamp.
    pub fn unseen(model: &Model, seen: &Vec<EventId>) -> (r: Vec<(EventId, Event)>)
        requires
            model.wf(),
        ensures
            is_unseen(*model, seen@, r@.map_values(|e: (EventId, Event)| e.0)),
            forall|i: int|
                0 <= i < r@.len() ==> (#[trigger] r@[i]).1@ == model.tree().nodes[r@[i].0].event,
            forall|i: int, j: int|
                0 <= i < j < r@.len() ==> (#[trigger] r@[i]).1.timestamp <= (
                #[trigger] r@[j]).1.timestamp,
    {
        let ghost t = model.tree();
        let ids = unseen_ids(model, seen);
        let mut r: Vec<(EventId, Event)> = Vec::new();
        let mut k: usize = 0;
        while k < ids.len()
            invariant
                model.wf(),
                t == model.tree(),
                is_unseen(*model, seen@, ids@),
                0 <= k <= ids@.len(),
                r@.len() == k,
                forall|i: int|
                    0 <= i < k ==> (#[trigger] r@[i]).0 == ids@[i] && r@[i].1@
                        == t.nodes[ids@[i]].event,
            decreases ids@.len() - k,
        {
            let id = ids[k];
            proof {
                assert(ids@.contains(id));
            }
            let event = model.event_map.get(&id).unwrap().event.duplicate();
            r.push((id, event));
            k += 1;
        }
        proof {
            assert(r@.map_values(|e: (EventId, Event)| e.0) =~= ids@);
            assert forall|i: int, j: int| 0 <= i < j < r@.len() implies (#[trigger]
            r@[i]).1.timestamp <= (#[trigger] r@[j]).1.timestamp by {
                assert(shown_before(*model, ids@[i], ids@[j]));
                assert(r@[i].1@.timestamp == t.timestamp(ids@[i]));
                assert(r@[j].1@.timestamp == t.timestamp(ids@[j]));
            }
        }
        r
    }
}

} // verus!
