//! What calls give back, said of their arguments and results alone.

use vstd::prelude::*;

use crate::chain;
use crate::clock::{get_current_time, ClockError};
use crate::event::{create_message, Event, EventAction, EventId, PrivMsgEvent};
use crate::meaning;
use crate::model::Model;
use crate::serial::DecodeError;
use crate::view::View as Client;

verus! {

/// The depth that is found is the number of steps on the way down from the ancestor to the node;
/// where there is no such way, it is the number of nodes on the way down from the root.
pub proof fn law_find_depth(
    m: Model,
    node: EventId,
    ancestor: EventId,
    r: u32,
    path: Seq<EventId>,
    way: Seq<EventId>,
)
    requires
        m.wf(),
        m.event_map@.dom().contains(node),
        call_ensures(Model::find_depth, (&m, node, ancestor), r),
    ensures
        meaning::leads(m.tree(), path, ancestor, node) ==> r == path.len() - 1,
        meaning::leads(m.tree(), way, m.current_root, node) && !way.contains(ancestor) ==> r
            == way.len(),
{
    let t = m.tree();
    if meaning::leads(t, path, ancestor, node) {
        meaning::law_depth_is_the_way_down(t, path);
        meaning::lemma_path_depth(t, path);
        assert(t.above(path[0], path[path.len() - 1]));
    }
    if meaning::leads(t, way, t.root, node) {
        meaning::law_depth_is_the_way_down(t, way);
        meaning::law_above_is_on_the_way_down(t, way, ancestor);
    }
}

/// The height that is found is the number of steps on the way down from the one node to the
/// other, and there is none exactly if there is no such way.
pub proof fn law_find_height(
    m: Model,
    parent: EventId,
    child: EventId,
    r: Option<u32>,
    path: Seq<EventId>,
)
    requires
        m.wf(),
        m.event_map@.dom().contains(parent),
        call_ensures(Model::find_height, (&m, parent, child), r),
    ensures
        meaning::leads(m.tree(), path, parent, child) ==> r is Some && r->0 == path.len() - 1,
        r is Some ==> exists|p: Seq<EventId>| meaning::leads(m.tree(), p, parent, child),
{
    let t = m.tree();
    if meaning::leads(t, path, parent, child) {
        meaning::law_depth_is_the_way_down(t, path);
        meaning::lemma_path_depth(t, path);
        assert(t.above(path[0], path[path.len() - 1]));
        assert(t.has(child));
    }
    if r is Some {
        let p = meaning::lemma_way_from(t, parent, child);
    }
}

/// How far one node is found to lie behind another is what the way down to the other is longer,
/// and one more.
pub proof fn law_diff_depth(
    m: Model,
    a: EventId,
    b: EventId,
    r: u32,
    p: Seq<EventId>,
    q: Seq<EventId>,
)
    requires
        m.wf(),
        call_ensures(Model::diff_depth, (&m, a, b), r),
        meaning::leads(m.tree(), p, m.current_root, a),
        meaning::leads(m.tree(), q, m.current_root, b),
    ensures
        r == q.len() + 1 - p.len(),
{
    meaning::law_gap_is_the_difference(m.tree(), p, q);
}

/// The ancestor that is found is the second node if the first hangs from it; where both stand
/// equally deep it is the last node that the ways down to them share; otherwise it is the root.
pub proof fn law_find_ancestor(
    m: Model,
    a: EventId,
    b: EventId,
    r: EventId,
    p: Seq<EventId>,
    q: Seq<EventId>,
)
    requires
        m.wf(),
        call_ensures(Model::find_ancestor, (&m, a, b), r),
        meaning::leads(m.tree(), p, m.current_root, a),
        meaning::leads(m.tree(), q, m.current_root, b),
    ensures
        m.event_map@[a].parent == Some(b) ==> r == b,
        a == b ==> r == a,
        p.len() == q.len() && a != b ==> exists|k: int| #[trigger]
            meaning::part_after(p, q, k) && r == p[k],
        p.len() != q.len() && m.event_map@[a].parent != Some(b) ==> r == m.current_root,
{
    meaning::law_where_two_nodes_meet(m.tree(), a, b, p, q);
}

/// The head that is found has no children, and no way down from the root to another node without
/// children is longer than the one to it. Of those as long, none ends in a later event, and none
/// that ends in an event of the same time goes through an older branch.
pub proof fn law_find_head(
    m: Model,
    r: EventId,
    p: Seq<EventId>,
    l: EventId,
    q: Seq<EventId>,
)
    requires
        m.wf(),
        call_ensures(Model::find_head, (&m,), r),
    ensures
        m.event_map@.dom().contains(r),
        m.event_map@[r].children.len() == 0,
        meaning::leads(m.tree(), p, m.current_root, r) && meaning::leads(
            m.tree(),
            q,
            m.current_root,
            l,
        ) && m.event_map@[l].children.len() == 0 && l != r ==> {
            let a = m.event_map@[l].event.timestamp;
            let b = m.event_map@[r].event.timestamp;
            &&& q.len() <= p.len()
            &&& q.len() == p.len() ==> a <= b
            &&& q.len() == p.len() && a == b ==> exists|k: int| #[trigger]
                meaning::goes_older(m.tree(), p, q, k)
        },
{
    let t = m.tree();
    meaning::law_every_chain_has_an_end(t, t.root);
    if meaning::leads(t, p, t.root, r) && meaning::leads(t, q, t.root, l)
        && t.nodes[l].children.len() == 0 && l != r {
        meaning::law_head_ends_the_longest_chain(t, p, l, q);
    }
}

/// The count that comes with the end of the longest chain is the one given, and one more for every
/// step down to that end.
pub proof fn law_find_longest_chain(
    m: Model,
    top: EventId,
    i: u32,
    r: (EventId, u32),
    p: Seq<EventId>,
)
    requires
        m.wf(),
        m.event_map@.dom().contains(top),
        call_ensures(Model::find_longest_chain, (&m, top, i), r),
    ensures
        m.tree().is_longest(top, r.0),
        meaning::leads(m.tree(), p, top, r.0) ==> r.1 == i + p.len() - 1,
{
    if meaning::leads(m.tree(), p, top, r.0) {
        meaning::law_depth_is_the_way_down(m.tree(), p);
    }
}

/// The root that is given is the current one.
pub proof fn law_get_root(m: Model, r: EventId)
    requires
        call_ensures(Model::get_root, (&m,), r),
    ensures
        r == m.current_root,
{
}

/// A model with a given time holds one event, of that time, and nothing is put aside.
pub proof fn law_with_timestamp(timestamp: u64, m: Model)
    requires
        call_ensures(Model::with_timestamp, (timestamp,), m),
    ensures
        m.wf(),
        m.event_map@.dom() == set![m.current_root],
        m.event_map@[m.current_root].event.timestamp == timestamp,
        m.event_map@[m.current_root].parent is None,
        m.event_map@[m.current_root].children.len() == 0,
        m.orphans@.len() == 0,
{
    meaning::law_new_model_holds_one_event(timestamp);
    meaning::law_contents_of_a_model(m);
}

/// A new model is stamped with what reading the time gave; if that was an error, it is passed on.
pub proof fn law_new(r: Result<Model, ClockError>)
    requires
        call_ensures(Model::new, (), r),
    ensures
        r matches Ok(m) ==> m.wf() && m.orphans@.len() == 0 && m.event_map@.dom() == set![
            m.current_root,
        ] && call_ensures(
            get_current_time,
            (),
            Ok::<u64, ClockError>(m.event_map@[m.current_root].event.timestamp),
        ),
        r matches Err(e) ==> call_ensures(get_current_time, (), Err::<u64, ClockError>(e)),
{
    if let Ok(m) = r {
        let timestamp = choose|timestamp: u64| #[trigger]
            call_ensures(get_current_time, (), Ok::<u64, ClockError>(timestamp)) && m@.tree
                == crate::model::root_tree(timestamp);
        meaning::law_new_model_holds_one_event(timestamp);
        meaning::law_contents_of_a_model(m);
    }
}

/// A model comes of a reading that gave a time, stamped with that time, and of no other.
pub proof fn law_with_reading(time: Result<u64, ClockError>, r: Result<Model, ClockError>)
    requires
        call_ensures(Model::with_reading, (time,), r),
    ensures
        time matches Ok(timestamp) ==> r is Ok && r->Ok_0.wf() && r->Ok_0.orphans@.len() == 0
            && r->Ok_0.event_map@.dom() == set![r->Ok_0.current_root]
            && r->Ok_0.event_map@[r->Ok_0.current_root].event.timestamp == timestamp,
        time matches Err(e) ==> r == Err::<Model, ClockError>(e),
{
    if let Ok(timestamp) = time {
        meaning::law_new_model_holds_one_event(timestamp);
        meaning::law_contents_of_a_model(r->Ok_0);
    }
}

/// A message that is created holds what it was created from.
pub proof fn law_create_message(previous: EventId, nick: &str, msg: &str, timestamp: u64, e: Event)
    requires
        call_ensures(create_message, (previous, nick, msg, timestamp), e),
    ensures
        e.previous_event_hash == previous,
        e.timestamp == timestamp,
        e.action matches EventAction::PrivMsg(m) ==> m.nick@ == nick@ && m.msg@ == msg@,
{
}

/// The hash of an event is the digest of what it is written as.
pub proof fn law_hash(e: Event, r: EventId)
    requires
        call_ensures(Event::hash, (&e,), r),
    ensures
        r == crate::digest::ripemd256(crate::serial::event_bytes(e@)),
{
}

/// An event is shown with its nick, what is said, and the time.
pub proof fn law_fmt(e: Event, r: String)
    requires
        call_ensures(Event::fmt, (&e,), r),
    ensures
        e.action matches EventAction::PrivMsg(m) ==> r@ == seq![
            'P', 'R', 'I', 'V', 'M', 'S', 'G', ' ',
        ] + m.nick@ + seq![':', ' '] + m.msg@ + seq![' ', '('] + crate::text::decimal(
            e.timestamp as nat,
        ) + seq![')'],
{
    let EventAction::PrivMsg(m) = e.action;
    crate::format::law_event_as_shown(e@, m@);
}

/// An event that is read is the one whose bytes stand at the start, and they are all that was read.
pub proof fn law_decode(d: &[u8], r: Result<(Event, usize), DecodeError>)
    requires
        call_ensures(Event::decode, (d,), r),
    ensures
        r matches Ok((e, k)) ==> k <= d@.len() && d@.take(k as int) == crate::serial::event_bytes(
            e@,
        ),
        r == Err::<(Event, usize), DecodeError>(DecodeError::BadTypeId) <==> d@.len() > 32 && d@[32]
            != 0,
{
    crate::format::law_unknown_type(d@);
    if let Ok((e, k)) = r {
        let EventAction::PrivMsg(m) = e.action;
        crate::format::law_reading_an_event(d@, e@, m@, k as nat);
    }
}

/// An action that is read is the one whose bytes stand at the start, and they are all that was
/// read. A type byte other than 0 is refused as unknown.
pub proof fn law_decode_action(d: &[u8], r: Result<(EventAction, usize), DecodeError>)
    requires
        call_ensures(EventAction::decode, (d,), r),
    ensures
        r matches Ok((a, k)) ==> k <= d@.len() && d@.take(k as int) == crate::serial::action_bytes(
            a@,
        ),
        r == Err::<(EventAction, usize), DecodeError>(DecodeError::BadTypeId) <==> d@.len() > 0
            && d@[0] != 0,
{
    crate::format::law_unknown_type(d@);
    if let Ok((a, k)) = r {
        let EventAction::PrivMsg(m) = a;
        crate::format::law_reading_an_action(d@, m@, k as nat);
    }
}

/// A message that is read is the one whose bytes stand at the start, and they are all that was
/// read.
pub proof fn law_decode_message(d: &[u8], r: Result<(PrivMsgEvent, usize), DecodeError>)
    requires
        call_ensures(PrivMsgEvent::decode, (d,), r),
    ensures
        r matches Ok((m, k)) ==> k <= d@.len() && d@.take(k as int) == crate::format::written(
            m.nick@,
        ) + crate::format::written(m.msg@),
{
    if let Ok((m, k)) = r {
        crate::format::law_reading_a_message(d@, m@, k as nat);
    }
}

/// What is said of an unknown type byte.
pub proof fn law_message(e: DecodeError, r: String)
    requires
        call_ensures(DecodeError::message, (&e,), r),
        e == DecodeError::BadTypeId,
    ensures
        r@ == seq![
            'B', 'a', 'd', ' ', 't', 'y', 'p', 'e', ' ', 'I', 'D', ' ', 'b', 'y', 't', 'e', ' ',
            'f', 'o', 'r', ' ', 'E', 'v', 'e', 'n', 't',
        ],
{
    crate::format::law_words_for_an_unknown_type();
}

/// What is shown of a model is a line for every node, and after those one for the root and one for
/// the head.
pub proof fn law_debug(m: Model, r: Vec<String>, id: EventId)
    requires
        m.wf(),
        call_ensures(Model::debug, (&m,), r),
        m.event_map@.dom().contains(id),
    ensures
        r@.len() == m.event_map@.dom().len() + 2,
        exists|i: int|
            0 <= i < m.event_map@.dom().len() && (#[trigger] r@[i])@ == crate::digest::hex_text(id@)
                + seq![':', ' '] + crate::text::event_text(m.event_map@[id].event) + seq![
                ' ', '[', 'd', 'e', 'p', 't', 'h', '=',
            ] + crate::text::decimal(m.tree().depth(id)) + seq![']'],
        r@[r@.len() - 2]@ == seq!['r', 'o', 'o', 't', ':', ' '] + crate::digest::hex_text(
            m.current_root@,
        ),
        r@[r@.len() - 1]@ == seq!['h', 'e', 'a', 'd', ':', ' '] + crate::digest::hex_text(
            m.tree().head()@,
        ),
{
    let order = m.event_map.order();
    assert(order.to_set().contains(id));
    let i = choose|i: int| 0 <= i < order.len() && order[i] == id;
    crate::format::law_node_as_shown(m.tree(), id);
    assert(r@[i]@ == crate::model::node_text(m.tree(), id));
    reveal_strlit("root: ");
    reveal_strlit("head: ");
    assert("root: "@ =~= seq!['r', 'o', 'o', 't', ':', ' ']);
    assert("head: "@ =~= seq!['h', 'e', 'a', 'd', ':', ' ']);
}

/// What a client is shown are the events that are filed and that it has not seen, each once and
/// with its own event, none before an earlier one.
pub proof fn law_process(view: Client, m: Model, r: Vec<(EventId, Event)>)
    requires
        call_ensures(Client::process, (&view, &m), r),
    ensures
        forall|id: EventId|
            (exists|i: int| 0 <= i < r@.len() && (#[trigger] r@[i]).0 == id)
                <==> #[trigger] m.event_map@.dom().contains(id) && !view.seen@.contains(id),
        forall|i: int, j: int|
            0 <= i < j < r@.len() ==> (#[trigger] r@[i]).0 != (#[trigger] r@[j]).0
                && r@[i].1.timestamp <= r@[j].1.timestamp,
        forall|i: int|
            0 <= i < r@.len() ==> (#[trigger] r@[i]).1@ == m.event_map@[r@[i].0].event,
{
    let ids = r@.map_values(|e: (EventId, Event)| e.0);
    crate::view::law_what_is_shown(m, view.seen@, ids);
    assert forall|id: EventId|
        (exists|i: int| 0 <= i < r@.len() && (#[trigger] r@[i]).0 == id)
            <==> #[trigger] m.event_map@.dom().contains(id) && !view.seen@.contains(id) by {
        assert(ids.contains(id) <==> m.event_map@.dom().contains(id) && !view.seen@.contains(id));
        if ids.contains(id) {
            let i = choose|i: int| 0 <= i < ids.len() && ids[i] == id;
            assert(r@[i].0 == id);
        }
        if exists|i: int| 0 <= i < r@.len() && (#[trigger] r@[i]).0 == id {
            let i = choose|i: int| 0 <= i < r@.len() && (#[trigger] r@[i]).0 == id;
            assert(ids[i] == id);
        }
    }
    assert forall|i: int, j: int| 0 <= i < j < r@.len() implies (#[trigger] r@[i]).0 != (
    #[trigger] r@[j]).0 && r@[i].1.timestamp <= r@[j].1.timestamp by {
        assert(ids[i] == r@[i].0 && ids[j] == r@[j].0);
    }
}

/// Pruning keeps a leaf exactly if the way down to it is at most nine steps shorter than the way
/// to the head, and any node exactly if such a leaf hangs from it. What is kept stays where it is.
pub proof fn law_prune_forks(
    m: &mut Model,
    p: Seq<EventId>,
    id: EventId,
    q: Seq<EventId>,
)
    requires
        old(m).wf(),
        call_ensures(Model::prune_forks, (m,), ()),
        meaning::leads(old(m).tree(), p, old(m).current_root, old(m).tree().head()),
        meaning::leads(old(m).tree(), q, old(m).current_root, id),
    ensures
        final(m).current_root == old(m).current_root,
        final(m).orphans == old(m).orphans,
        old(m).event_map@[id].children.len() == 0 ==> (final(m).event_map@.dom().contains(id)
            <==> p.len() - q.len() <= 9),
        final(m).event_map@.dom().contains(id) <==> exists|l: EventId, r: Seq<EventId>|
            meaning::leads(old(m).tree(), r, old(m).current_root, l)
                && old(m).event_map@[l].children.len() == 0 && p.len() + 1 - r.len() <= 10
                && r.contains(id),
        final(m).event_map@.dom().contains(id) ==> final(m).event_map@[id].parent
            == old(m).event_map@[id].parent && final(m).event_map@[id].event
            == old(m).event_map@[id].event,
{
    meaning::law_pruning_by_length(old(m).tree(), p, id, q);
}

/// Removing a leaf removes the nodes from which every way down ends at it, and no others. What is
/// kept stays where it is.
pub proof fn law_remove_node(m: &mut Model, leaf: EventId, id: EventId)
    requires
        old(m).wf(),
        call_ensures(Model::remove_node, (m, leaf), ()),
    ensures
        final(m).current_root == old(m).current_root,
        final(m).orphans == old(m).orphans,
        final(m).event_map@.dom().contains(id) <==> exists|path: Seq<EventId>, l: EventId|
            meaning::leads(old(m).tree(), path, id, l) && old(m).event_map@[l].children.len() == 0
                && l != leaf,
        final(m).event_map@.dom().contains(id) ==> final(m).event_map@[id].parent
            == old(m).event_map@[id].parent && final(m).event_map@[id].event
            == old(m).event_map@[id].event,
{
    let t = old(m).tree();
    let gone = set![leaf];
    meaning::law_taking_leaves_away(t, gone, id);
    if final(m).event_map@.dom().contains(id) {
        let (path, l) = choose|path: Seq<EventId>, l: EventId|
            meaning::leads(t, path, id, l) && t.nodes[l].children.len() == 0 && !gone.contains(l);
        assert(meaning::leads(t, path, id, l) && t.nodes[l].children.len() == 0 && l != leaf);
    }
    if exists|path: Seq<EventId>, l: EventId|
        meaning::leads(t, path, id, l) && t.nodes[l].children.len() == 0 && l != leaf {
        let (path, l) = choose|path: Seq<EventId>, l: EventId|
            meaning::leads(t, path, id, l) && t.nodes[l].children.len() == 0 && l != leaf;
        assert(meaning::leads(t, path, id, l) && t.nodes[l].children.len() == 0 && !gone.contains(
            l,
        ));
    }
}

/// The root moves to the lowest node at which another chain as long as the one to the head leaves
/// the way to the head, if that is more than ten steps down, and otherwise stays. The nodes below
/// the root are kept, and no others; the root has no parent, and nothing else changes.
pub proof fn law_update_root(m: &mut Model, p: Seq<EventId>, id: EventId)
    requires
        old(m).wf(),
        call_ensures(Model::update_root, (m,), ()),
        meaning::leads(old(m).tree(), p, old(m).current_root, old(m).tree().head()),
    ensures
        final(m).orphans == old(m).orphans,
        (forall|q: Seq<EventId>, k: int| #[trigger]
            meaning::rivals(old(m).tree(), p, q, k) ==> k <= 10) ==> final(m).tree()
            == old(m).tree(),
        (exists|q: Seq<EventId>, k: int| #[trigger]
            meaning::rivals(old(m).tree(), p, q, k) && k > 10) ==> exists|
            q: Seq<EventId>,
            n: int,
        | #[trigger]
            meaning::rivals(old(m).tree(), p, q, n) && n > 10 && final(m).current_root == p[n] && (
            forall|r: Seq<EventId>, k: int| #[trigger]
                meaning::rivals(old(m).tree(), p, r, k) ==> k <= n),
        final(m).event_map@.dom().contains(id) <==> exists|path: Seq<EventId>|
            meaning::leads(old(m).tree(), path, final(m).current_root, id),
        final(m).event_map@[final(m).current_root].parent is None,
        final(m).event_map@.dom().contains(id) && id != final(m).current_root
            ==> final(m).event_map@[id] == old(m).event_map@[id],
{
    let t = old(m).tree();
    t.lemma_next_root();
    t.lemma_reroot_same();
    meaning::law_where_the_root_belongs(t, p);
    meaning::law_moving_the_root(t, t.next_root(), id);
}

/// Adding an event, with none put aside, tidies the tree. If the event's previous one is then in
/// the tree, at most ten steps less deep than the head, the event is filed under the digest of its
/// bytes, without children, as the youngest child of its previous one. Nothing else changes.
pub proof fn law_add(
    m: &mut Model,
    e: Event,
    p: Seq<EventId>,
    q: Seq<EventId>,
    other: EventId,
)
    requires
        old(m).wf(),
        old(m).orphans@.len() == 0,
        chain::can_settle(old(m).tree(), e@),
        call_ensures(Model::add, (m, e), ()),
        meaning::leads(
            old(m).tree().tidied(),
            p,
            old(m).tree().tidied().root,
            old(m).tree().head(),
        ),
    ensures
        final(m).wf(),
        final(m).orphans@.len() == 0,
        final(m).current_root == old(m).tree().tidied().root,
        meaning::leads(
            old(m).tree().tidied(),
            q,
            old(m).tree().tidied().root,
            e.previous_event_hash,
        ) && p.len() - q.len() <= 10 ==> {
            let u = old(m).tree().tidied();
            let id = crate::digest::ripemd256(crate::serial::event_bytes(e@));
            let prev = e.previous_event_hash;
            &&& final(m).event_map@.dom() == u.nodes.dom().insert(id)
            &&& !u.nodes.dom().contains(id)
            &&& final(m).event_map@[id].parent == Some(prev)
            &&& final(m).event_map@[id].event == e@
            &&& final(m).event_map@[id].children.len() == 0
            &&& final(m).event_map@[prev].children == u.nodes[prev].children.push(id)
            &&& final(m).event_map@[prev].parent == u.nodes[prev].parent
            &&& final(m).event_map@[prev].event == u.nodes[prev].event
            &&& u.nodes.dom().contains(other) && other != prev ==> final(m).event_map@[other]
                == u.nodes[other]
        },
        meaning::leads(
            old(m).tree().tidied(),
            q,
            old(m).tree().tidied().root,
            e.previous_event_hash,
        ) && p.len() - q.len() > 10 || !old(m).tree().tidied().nodes.dom().contains(
            e.previous_event_hash,
        ) ==> final(m).tree() == old(m).tree().tidied(),
{
    let t = old(m).tree();
    meaning::law_contents_of_a_model(*old(m));
    meaning::law_contents_of_a_model(*final(m));
    meaning::law_contents_of_an_event(e);
    assert(old(m)@.orphans =~= Seq::empty());
    meaning::law_arrivals_in_order(t, Seq::empty(), e@);
    meaning::law_arrival(t, e@, p, q, other);
}

/// The events put aside are dealt with in order, and none is put aside any more.
pub proof fn law_reorganize(m: &mut Model)
    requires
        call_ensures(Model::reorganize, (m,), ()),
    ensures
        final(m).wf(),
        final(m).orphans@.len() == 0,
        final(m).tree() == chain::settle_all(
            old(m).tree(),
            Seq::new(old(m).orphans@.len(), |i: int| old(m).orphans@[i]@),
        ),
{
    meaning::law_contents_of_a_model(*old(m));
    meaning::law_contents_of_a_model(*final(m));
    assert(old(m)@.orphans =~= Seq::new(old(m).orphans@.len(), |i: int| old(m).orphans@[i]@));
}

/// An event that can be dealt with after those put aside is added, and any other is given back and
/// changes nothing.
pub proof fn law_try_add(m: &mut Model, e: Event, r: Result<(), Event>)
    requires
        call_ensures(Model::try_add, (m, e), r),
    ensures
        ({
            let events = Seq::new(old(m).orphans@.len(), |i: int| old(m).orphans@[i]@).push(e@);
            &&& r is Ok <==> chain::can_settle_all(old(m).tree(), events)
            &&& r is Ok ==> final(m).tree() == chain::settle_all(old(m).tree(), events)
                && final(m).orphans@.len() == 0
            &&& r matches Err(back) ==> back == e && *final(m) == *old(m)
        }),
{
    meaning::law_contents_of_a_model(*old(m));
    meaning::law_contents_of_a_model(*final(m));
    assert(old(m)@.orphans =~= Seq::new(old(m).orphans@.len(), |i: int| old(m).orphans@[i]@));
}

/// Writing a message appends its nick and then what is said.
pub proof fn law_encode_message(e: PrivMsgEvent, s: &mut Vec<u8>, len: usize)
    requires
        call_ensures(PrivMsgEvent::encode, (&e, s), len),
    ensures
        final(s)@ == old(s)@ + (crate::format::written(e.nick@) + crate::format::written(e.msg@)),
        len == final(s)@.len() - old(s)@.len(),
{
    crate::format::law_message_layout(e@);
}

/// Writing an action appends the byte 0 and then its message.
pub proof fn law_encode_action(a: EventAction, s: &mut Vec<u8>, len: usize)
    requires
        call_ensures(EventAction::encode, (&a, s), len),
    ensures
        a matches EventAction::PrivMsg(e) ==> final(s)@ == old(s)@ + (seq![0u8] + (
        crate::format::written(e.nick@) + crate::format::written(e.msg@))),
        len == final(s)@.len() - old(s)@.len(),
{
    let EventAction::PrivMsg(e) = a;
    crate::format::law_action_layout(e@);
}

/// Writing an event appends the previous id, the byte 0, the nick, what is said, and eight bytes
/// for the time, the least significant first.
pub proof fn law_encode_event(e: Event, s: &mut Vec<u8>, len: usize)
    requires
        call_ensures(Event::encode, (&e, s), len),
    ensures
        len == final(s)@.len() - old(s)@.len(),
        final(s)@.take(old(s)@.len() as int) == old(s)@,
        e.action matches EventAction::PrivMsg(m) ==> {
            let b = final(s)@.skip(old(s)@.len() as int);
            let n = crate::format::written(m.nick@);
            let t = crate::format::written(m.msg@);
            &&& b.len() == 32 + 1 + n.len() + t.len() + 8
            &&& b.take(32) == e.previous_event_hash@
            &&& b[32] == 0
            &&& b.subrange(33, 33 + n.len() as int) == n
            &&& b.subrange(33 + n.len() as int, 33 + n.len() as int + t.len() as int) == t
            &&& crate::format::eight_bytes(b, 33 + n.len() as int + t.len() as int) == e.timestamp
        },
{
    let EventAction::PrivMsg(m) = e.action;
    crate::format::law_event_layout(e@, m@);
    assert(final(s)@.take(old(s)@.len() as int) =~= old(s)@);
    assert(final(s)@.skip(old(s)@.len() as int) =~= crate::serial::event_bytes(e@));
}

} // verus!
