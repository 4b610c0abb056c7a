//! The model: a tree of events that grows at its leaves, sheds forks that fall behind and moves
//! its root along.

use vstd::prelude::*;
use vstd::string::StringExecFns;

use crate::chain::{self, ModelV, MAX_DEPTH};
use crate::clock::{get_current_time, ClockError};
use crate::digest::hex_encode;
use crate::event::{create_message, ActionV, Event, EventId, EventV, PrivMsgV};
use crate::map::{same_id, EventMap, EventNode};
use crate::root::MIN_ROOT_HEIGHT;
use crate::text::decimal_text;
use crate::tree::{NodeV, Tree};

verus! {

/// A node is referred to by the id of its event.
pub type EventNodePtr = EventId;

/// The events that are known and how they follow one another.
pub struct Model {
    /// This is moved along so that old nodes are discarded.
    pub current_root: EventId,
    /// Events that have not been dealt with yet.
    pub orphans: Vec<Event>,
    pub event_map: EventMap,
}

/// The contents of a list of events.
pub open spec fn events_view(events: Seq<Event>) -> Seq<EventV> {
    events.map_values(|e: Event| e@)
}

impl View for Model {
    type V = ModelV;

    open spec fn view(&self) -> ModelV {
        ModelV { tree: self.tree(), orphans: events_view(self.orphans@) }
    }
}

/// The event at the root of a new model.
pub open spec fn root_event(timestamp: u64) -> EventV {
    EventV {
        previous_event_hash: crate::serial::id_of(Seq::new(32, |i: int| 0u8)),
        action: ActionV::PrivMsg(PrivMsgV { nick: "root"@, msg: "Let there be dark"@ }),
        timestamp,
    }
}

/// The tree that holds nothing but the root.
pub open spec fn root_tree(timestamp: u64) -> Tree {
    let id = crate::event::event_id(root_event(timestamp));
    Tree {
        root: id,
        nodes: Map::empty().insert(
            id,
            NodeV { parent: None, event: root_event(timestamp), children: Seq::empty() },
        ),
    }
}

/// A node as it is shown.
pub open spec fn node_text(t: Tree, id: EventId) -> Seq<char> {
    crate::digest::hex_text(id@) + ": "@ + crate::text::event_text(t.nodes[id].event) + " [depth="@
        + crate::text::decimal(t.depth(id)) + "]"@
}

/// Where `id` stands in `ids`.
fn position(ids: &Vec<EventId>, id: &EventId) -> (r: usize)
    requires
        ids@.contains(*id),
    ensures
        r < ids@.len(),
        ids@[r as int] == *id,
{
    let mut i: usize = 0;
    let len: usize = ids.len();
    while !same_id(&ids[i], id)
        invariant
            i < len == ids@.len(),
            ids@.contains(*id),
            forall|j: int| 0 <= j < i ==> ids@[j] != *id,
        decreases ids@.len() - i,
    {
        i += 1;
    }
    i
}

impl Model {
    pub open spec fn tree(self) -> Tree {
        Tree { root: self.current_root, nodes: self.event_map@ }
    }

    /// The nodes form a tree, and there are not too many of them to be counted.
    pub open spec fn wf(self) -> bool {
        &&& self.event_map.wf()
        &&& self.tree().wf()
        &&& self.tree().nodes.len() < u32::MAX
    }

    /// A model that holds nothing but a root stamped with the current time. The clock decides
    /// whether there is one; [`Model::with_reading`] says what is made of what it shows.
    pub fn new() -> (r: Result<Self, ClockError>)
        ensures
            r matches Ok(model) ==> model.wf() && exists|secs: u64, nanos: u32| #[trigger]
                crate::clock::clock_shows(secs, nanos) && crate::clock::millis(secs, nanos)
                    <= u64::MAX && model@ == (ModelV {
                    tree: root_tree(crate::clock::millis(secs, nanos) as u64),
                    orphans: Seq::empty(),
                }),
            r matches Err(ClockError::TooLate) ==> exists|secs: u64, nanos: u32| #[trigger]
                crate::clock::clock_shows(secs, nanos) && crate::clock::millis(secs, nanos)
                    > u64::MAX,
            r matches Err(ClockError::BeforeEpoch) ==> crate::clock::clock_is_behind(),
            match r {
                Ok(model) => exists|timestamp: u64| #[trigger]
                    call_ensures(get_current_time, (), Ok::<u64, ClockError>(timestamp))
                        && model@.tree == root_tree(timestamp),
                Err(e) => call_ensures(get_current_time, (), Err::<u64, ClockError>(e)),
            },
    {
        let read = get_current_time;
        Self::with_reading(read())
    }

    /// A model that holds nothing but a root stamped with the time that was read, or the error if
    /// none could be read.
    pub fn with_reading(time: Result<u64, ClockError>) -> (r: Result<Self, ClockError>)
        ensures
            match time {
                Ok(timestamp) => r is Ok && r->Ok_0.wf() && r->Ok_0@ == (ModelV {
                    tree: root_tree(timestamp),
                    orphans: Seq::empty(),
                }),
                Err(e) => r == Err::<Self, ClockError>(e),
            },
    {
        match time {
            Ok(timestamp) => Ok(Self::with_timestamp(timestamp)),
            Err(e) => Err(e),
        }
    }

    /// A model that holds nothing but a root stamped with the given time.
    pub fn with_timestamp(timestamp: u64) -> (r: Self)
        ensures
            r.wf(),
            r@ == (ModelV { tree: root_tree(timestamp), orphans: Seq::empty() }),
    {
        let previous_event_hash: EventId = [0u8;32];
        let event = create_message(previous_event_hash, "root", "Let there be dark", timestamp);
        proof {
            crate::serial::lemma_id_of(previous_event_hash);
            assert(previous_event_hash@ =~= Seq::new(32, |i: int| 0u8));
            reveal_strlit("root");
            reveal_strlit("Let there be dark");
            crate::serial::lemma_event_bytes_len(event@);
        }
        let root_node_id = event.hash();
        let root_node = EventNode { parent: None, event, children: Vec::new() };
        let mut event_map = EventMap::new();
        event_map.insert(root_node_id, root_node);
        let r = Model { current_root: root_node_id, orphans: Vec::new(), event_map };
        proof {
            let t = r.tree();
            assert(root_node@ =~= root_tree(timestamp).nodes[root_node_id]);
            assert(t =~= root_tree(timestamp));
            t.lemma_above_refl(t.root);
            assert(r@.orphans =~= Seq::empty());
        }
        r
    }

    /// The node with the given id.
    fn node(&self, id: &EventId) -> (r: &EventNode)
        requires
            self.event_map.wf(),
            self.tree().has(*id),
        ensures
            r@ == self.tree().nodes[*id],
    {
        self.event_map.get(id).unwrap()
    }

    /// The root of the tree.
    pub fn get_root(&self) -> (r: EventNodePtr)
        requires
            self.wf(),
        ensures
            r == self.tree().root,
            self.tree().has(r),
    {
        self.current_root
    }

    /// The end of the longest chain, counting from the root: the deepest leaf; of several, the
    /// one with the latest timestamp; of several still, the one in the oldest branch.
    pub fn find_head(&self) -> (r: EventNodePtr)
        requires
            self.wf(),
        ensures
            r == self.tree().head(),
            self.tree().is_longest(self.tree().root, r),
    {
        let root = self.get_root();
        proof {
            self.tree().lemma_depth_root();
            self.tree().lemma_head();
            assert forall|x: EventId| #[trigger] self.tree().has(x) implies self.tree().depth(x)
                < self.tree().nodes.len() by {
                self.tree().lemma_depth_bound(x);
            }
        }
        self.find_longest_chain(root, 0).0
    }

    /// The end of the longest chain that starts at `parent_node`, and the number of steps to it
    /// added to `i`.
    pub fn find_longest_chain(&self, parent_node: EventNodePtr, i: u32) -> (r: (EventNodePtr, u32))
        requires
            self.wf(),
            self.tree().has(parent_node),
            forall|x: EventId| #[trigger]
                self.tree().has(x) && self.tree().above(parent_node, x) ==> i + self.tree().depth(x)
                    - self.tree().depth(parent_node) <= u32::MAX,
        ensures
            self.tree().is_longest(parent_node, r.0),
            r.1 == i + self.tree().depth(r.0) - self.tree().depth(parent_node),
        decreases self.tree().nodes.len() - self.tree().depth(parent_node),
    {
        let ghost t = self.tree();
        let children = &self.node(&parent_node).children;
        proof {
            t.lemma_depth_bound(parent_node);
        }
        if children.is_empty() {
            proof {
                t.lemma_longest_leaf(parent_node);
            }
            return (parent_node, i);
        }
        let mut current_max: u32 = 0;
        let mut current_node: Option<EventNodePtr> = None;
        let mut j: usize = 0;
        while j < children.len()
            invariant
                self.wf(),
                t == self.tree(),
                t.has(parent_node),
                t.depth(parent_node) < t.nodes.len(),
                forall|x: EventId| #[trigger]
                    t.has(x) && t.above(parent_node, x) ==> i + t.depth(x) - t.depth(parent_node)
                        <= u32::MAX,
                children@ == t.children(parent_node),
                0 <= j <= children@.len(),
                j == 0 ==> current_max == 0 && current_node is None,
                j > 0 ==> current_node is Some && t.best_of(
                    parent_node,
                    j as int,
                    current_node->0,
                ) && current_max == i + t.depth(current_node->0) - t.depth(parent_node),
            decreases children@.len() - j,
        {
            let node = children[j];
            proof {
                t.lemma_child(parent_node, j as int);
                t.lemma_depth_bound(node);
                assert(t.has(node) && t.above(parent_node, node));
                assert forall|x: EventId| #[trigger] t.has(x) && t.above(node, x) implies t.above(
                    parent_node,
                    x,
                ) by {
                    t.lemma_above_trans(parent_node, node, x);
                }
            }
            let (grandchild_node, grandchild_i) = self.find_longest_chain(node, i + 1);
            proof {
                t.lemma_above_depth(node, grandchild_node);
                if j == 0 {
                    t.lemma_best_first(parent_node, grandchild_node);
                } else {
                    t.lemma_best_step(
                        parent_node,
                        j as int,
                        current_node->0,
                        grandchild_node,
                    );
                }
            }
            if grandchild_i > current_max {
                current_max = grandchild_i;
                current_node = Some(grandchild_node);
            } else if grandchild_i == current_max {
                // Break ties using the timestamp
                let current = current_node.unwrap();
                let current_timestamp: u64 = self.node(&current).event.timestamp;
                if self.node(&grandchild_node).event.timestamp > current_timestamp {
                    current_max = grandchild_i;
                    current_node = Some(grandchild_node);
                }
            }
            j += 1;
        }
        proof {
            t.lemma_best_all(parent_node, current_node->0);
        }
        (current_node.unwrap(), current_max)
    }

    /// The number of steps from `node` up to `ancestor_id`; if `ancestor_id` is not above it, one
    /// more than the number of steps up to the root.
    pub fn find_depth(&self, node: EventNodePtr, ancestor_id: EventId) -> (r: u32)
        requires
            self.wf(),
            self.tree().has(node),
        ensures
            self.tree().above(ancestor_id, node) ==> r == self.tree().depth(node)
                - self.tree().depth(ancestor_id),
            !self.tree().above(ancestor_id, node) ==> r == self.tree().depth(node) + 1,
    {
        let ghost t = self.tree();
        let mut cur = node;
        let mut depth: u32 = 0;
        proof {
            t.lemma_depth(node);
            t.lemma_depth_bound(node);
        }
        while !same_id(&cur, &ancestor_id)
            invariant
                self.wf(),
                t == self.tree(),
                t.has(node),
                t.has(cur),
                t.depth(node) < t.nodes.len(),
                t.climb(node, depth as nat) == Some(cur),
                depth <= t.depth(node),
                forall|k: nat| k < depth ==> #[trigger] t.climb(node, k) != Some(ancestor_id),
            decreases t.depth(node) - depth,
        {
            let ghost below = cur;
            proof {
                t.lemma_climb_depth(node, depth as nat);
                t.lemma_climb_add(node, depth as nat, 1);
                t.lemma_depth(node);
            }
            depth += 1;
            match self.node(&cur).parent {
                Some(parent) => {
                    cur = parent;
                    proof {
                        assert(t.climb(parent, 0) == Some(parent));
                        assert(t.climb(below, 1) == Some(parent));
                        assert(below != t.root);
                        t.lemma_depth_parent(below);
                    }
                },
                None => {
                    proof {
                        assert(below == t.root);
                        t.lemma_depth_root();
                        if t.above(ancestor_id, node) {
                            t.lemma_above_depth(ancestor_id, node);
                        }
                    }
                    return depth;
                },
            }
        }
        proof {
            t.lemma_climb_depth(node, depth as nat);
            assert(t.above(ancestor_id, node));
        }
        depth
    }

    /// The number of steps from `parent` down to `child_id`, if that is `parent` or hangs below.
    pub fn find_height(&self, parent: EventNodePtr, child_id: EventId) -> (r: Option<u32>)
        requires
            self.wf(),
            self.tree().has(parent),
        ensures
            r is Some <==> self.tree().has(child_id) && self.tree().above(parent, child_id),
            r matches Some(h) ==> h == self.tree().depth(child_id) - self.tree().depth(parent),
        decreases self.tree().nodes.len() - self.tree().depth(parent),
    {
        let ghost t = self.tree();
        let mut height: u32 = 0;
        proof {
            t.lemma_above_refl(parent);
            t.lemma_depth_bound(parent);
        }
        if same_id(&parent, &child_id) {
            return Some(height);
        }
        height += 1;
        let children = &self.node(&parent).children;
        if children.is_empty() {
            proof {
                if t.has(child_id) && t.above(parent, child_id) {
                    let b = t.lemma_branch(parent, child_id);
                }
            }
            return None;
        }
        let mut j: usize = 0;
        while j < children.len()
            invariant
                self.wf(),
                t == self.tree(),
                t.has(parent),
                t.depth(parent) < t.nodes.len(),
                children@ == t.children(parent),
                height == 1,
                0 <= j <= children@.len(),
                forall|m: int|
                    0 <= m < j ==> !(t.has(child_id) && t.above(
                        #[trigger] t.children(parent)[m],
                        child_id,
                    )),
            decreases children@.len() - j,
        {
            let child = children[j];
            proof {
                t.lemma_child(parent, j as int);
            }
            if let Some(h) = self.find_height(child, child_id) {
                proof {
                    t.lemma_above_trans(parent, child, child_id);
                    t.lemma_above_depth(child, child_id);
                    t.lemma_depth_bound(child_id);
                }
                return Some(height + h);
            }
            j += 1;
        }
        proof {
            if t.has(child_id) && t.above(parent, child_id) {
                let b = t.lemma_branch(parent, child_id);
            }
        }
        None
    }

    /// A node above both `node_a` and `node_b`: `node_b` if `node_a` hangs from it, the lowest
    /// one if both stand equally deep, and the root otherwise.
    pub fn find_ancestor(&self, node_a: EventNodePtr, node_b: EventNodePtr) -> (r: EventId)
        requires
            self.wf(),
            self.tree().has(node_a),
            self.tree().has(node_b),
            node_a != self.tree().root,
            node_b != self.tree().root || self.tree().parent(node_a) == Some(node_b),
        ensures
            r == self.tree().meet(node_a, node_b),
            self.tree().above(r, node_a),
            self.tree().above(r, node_b),
    {
        let ghost t = self.tree();
        proof {
            t.lemma_meet(node_a, node_b);
        }
        // node_a is a child of node_b
        let parent_a = self.node(&node_a).parent.unwrap();
        if same_id(&node_b, &parent_a) {
            return node_b;
        }
        let mut a = node_a;
        let mut b = node_b;
        let ghost mut k: nat = 0;
        while !same_id(&a, &b)
            invariant
                self.wf(),
                t == self.tree(),
                t.has(node_a),
                t.has(node_b),
                t.parent(node_a) != Some(node_b),
                t.has(a),
                t.has(b),
                a != t.root,
                b != t.root,
                t.climb(node_a, k) == Some(a),
                t.climb(node_b, k) == Some(b),
                forall|j: nat| j < k ==> #[trigger] t.climb(node_a, j) != t.climb(node_b, j),
            decreases t.depth(a),
        {
            let a_parent = self.node(&a).parent.unwrap();
            let b_parent = self.node(&b).parent.unwrap();
            proof {
                t.lemma_depth_parent(a);
                t.lemma_depth_parent(b);
                t.lemma_climb_add(node_a, k, 1);
                t.lemma_climb_add(node_b, k, 1);
                assert(t.climb(a_parent, 0) == Some(a_parent));
                assert(t.climb(b_parent, 0) == Some(b_parent));
                assert(t.climb(a, 1) == Some(a_parent));
                assert(t.climb(b, 1) == Some(b_parent));
                assert forall|j: nat| j < k + 1 implies #[trigger] t.climb(node_a, j) != t.climb(
                    node_b,
                    j,
                ) by {}
            }
            if same_id(&a_parent, &self.current_root) || same_id(&b_parent, &self.current_root) {
                proof {
                    t.lemma_depth_root();
                    t.lemma_climb_depth(node_a, k);
                    t.lemma_climb_depth(node_b, k);
                    if t.depth(node_a) == t.depth(node_b) {
                        assert(t.depth(a_parent) == t.depth(b_parent));
                        t.lemma_meet_climb(node_a, node_b, k + 1);
                    }
                }
                return self.current_root;
            }
            a = a_parent;
            b = b_parent;
            proof {
                k = k + 1;
            }
        }
        proof {
            t.lemma_meet_climb(node_a, node_b, k);
        }
        a
    }

    /// How far `node_a` lies behind `node_b`, counted from one past `node_b`.
    pub fn diff_depth(&self, node_a: EventNodePtr, node_b: EventNodePtr) -> (r: u32)
        requires
            self.wf(),
            self.tree().has(node_a),
            self.tree().has(node_b),
            node_a != self.tree().root,
            node_b != self.tree().root || self.tree().parent(node_a) == Some(node_b),
            self.tree().depth(node_a) <= self.tree().depth(node_b) + 1,
        ensures
            r == self.tree().gap(node_a, node_b),
            r == self.tree().depth(node_b) + 1 - self.tree().depth(node_a),
    {
        let ghost t = self.tree();
        let ancestor = self.find_ancestor(node_a, node_b);
        let node_a_depth: u32 = self.find_depth(node_a, ancestor);
        let node_b_depth: u32 = self.find_depth(node_b, ancestor);
        proof {
            t.lemma_above_depth(ancestor, node_a);
            t.lemma_above_depth(ancestor, node_b);
            t.lemma_depth_bound(node_b);
        }
        (node_b_depth + 1) - node_a_depth
    }

    /// Takes the leaf `node` away, and with it the nodes above that then lead to no other leaf.
    pub fn remove_node(&mut self, node: EventNodePtr)
        requires
            old(self).wf(),
            old(self).tree().is_leaf(node),
            exists|l: EventId| #[trigger] old(self).tree().is_leaf(l) && l != node,
        ensures
            final(self).wf(),
            final(self).tree() == old(self).tree().without(set![node]),
            final(self).orphans == old(self).orphans,
    {
        let mut cur = node;
        loop
            invariant
                self.wf(),
                self.orphans == old(self).orphans,
                self.tree().is_leaf(cur),
                exists|l: EventId| #[trigger] self.tree().is_leaf(l) && l != cur,
                self.tree().without(set![cur]) == old(self).tree().without(set![node]),
            decreases self.tree().nodes.len(),
        {
            let ghost t = self.tree();
            proof {
                let l = choose|l: EventId| #[trigger] t.is_leaf(l) && l != cur;
                if cur == t.root {
                    assert(t.has(l));
                    t.lemma_below_leaf(cur, l);
                }
                t.lemma_depth_parent(cur);
            }
            let parent = self.node(&cur).parent.unwrap();
            let siblings = &self.node(&parent).children;
            let index: usize = position(siblings, &cur);
            let last: bool = siblings.len() == 1;
            proof {
                t.lemma_cut(cur, index as int);
                if last {
                    t.lemma_cut_on(cur, index as int);
                } else {
                    t.lemma_cut_last(cur, index as int);
                }
            }
            self.event_map.remove(&cur);
            self.event_map.remove_child(&parent, index);
            proof {
                assert(self.tree() =~= t.cut(cur, index as int));
            }
            if !last {
                return;
            }
            cur = parent;
        }
    }

    /// Gives up the forks that have fallen too far behind the head.
    pub fn prune_forks(&mut self)
        requires
            old(self).wf(),
        ensures
            final(self).wf(),
            final(self).tree() == old(self).tree().pruned(),
            final(self).orphans == old(self).orphans,
    {
        let ghost t = self.tree();
        let head = self.find_head();
        let ids = self.event_map.keys();
        let ghost mut gone: Set<EventId> = Set::empty();
        let mut k: usize = 0;
        proof {
            t.lemma_head();
            t.lemma_without_none();
        }
        while k < ids.len()
            invariant
                self.wf(),
                self.orphans == old(self).orphans,
                t == old(self).tree(),
                t.wf(),
                head == t.head(),
                t.is_leaf(head),
                !gone.contains(head),
                gone.subset_of(t.stale()),
                self.tree() == t.without(gone),
                0 <= k <= ids@.len(),
                forall|m: int|
                    0 <= m < k && t.stale().contains(#[trigger] ids@[m]) ==> gone.contains(ids@[m]),
            decreases ids@.len() - k,
        {
            let event_hash = ids[k];
            let ghost u = self.tree();
            proof {
                t.lemma_without(gone);
                t.lemma_without_head(gone);
                u.lemma_part(t);
                u.lemma_head();
                assert(u.is_leaf(event_hash) <==> t.is_leaf(event_hash) && !gone.contains(
                    event_hash,
                ));
            }
            k += 1;
            // to prevent running through the same node twice
            if !self.event_map.contains_key(&event_hash) {
                continue ;
            }
            // skip the head event
            if same_id(&event_hash, &head) {
                proof {
                    t.lemma_pruned();
                }
                continue ;
            }
            // check if the node is a leaf
            if self.node(&event_hash).children.is_empty() {
                proof {
                    assert(u.is_leaf(event_hash));
                    if event_hash == u.root {
                        u.lemma_below_leaf(event_hash, head);
                    }
                    if head == u.root {
                        u.lemma_below_leaf(head, event_hash);
                    }
                }
                let head_now = self.find_head();
                let depth: u32 = self.diff_depth(event_hash, head_now);
                if depth > MAX_DEPTH {
                    proof {
                        assert(u.is_leaf(head) && head != event_hash);
                        assert(t.is_leaf(head) && !gone.contains(head));
                        t.lemma_without_twice(gone, set![event_hash]);
                        assert(t.stale().contains(event_hash));
                        t.lemma_pruned();
                    }
                    self.remove_node(event_hash);
                    proof {
                        gone = gone.union(set![event_hash]);
                    }
                }
            }
        }
        proof {
            assert forall|l: EventId| gone.contains(l) <==> t.stale().contains(l) by {
                if t.stale().contains(l) {
                    assert(ids@.to_set().contains(l));
                    let m = choose|m: int| 0 <= m < ids@.len() && ids@[m] == l;
                    assert(gone.contains(ids@[m]));
                }
            }
            assert(gone =~= t.stale());
        }
    }

    /// The leaves other than `head`.
    fn other_leaves(&self, head: EventNodePtr) -> (r: Vec<EventNodePtr>)
        requires
            self.wf(),
        ensures
            forall|i: int|
                0 <= i < r@.len() ==> self.tree().is_leaf(#[trigger] r@[i]) && r@[i] != head,
            forall|l: EventId| #[trigger]
                self.tree().is_leaf(l) && l != head ==> r@.contains(l),
    {
        let ghost t = self.tree();
        let ids = self.event_map.keys();
        let mut leaves: Vec<EventNodePtr> = Vec::new();
        let mut k: usize = 0;
        while k < ids.len()
            invariant
                self.wf(),
                t == self.tree(),
                ids@.to_set() == t.nodes.dom(),
                0 <= k <= ids@.len(),
                forall|i: int|
                    0 <= i < leaves@.len() ==> t.is_leaf(#[trigger] leaves@[i]) && leaves@[i]
                        != head,
                forall|m: int|
                    0 <= m < k && t.is_leaf(#[trigger] ids@[m]) && ids@[m] != head
                        ==> leaves@.contains(ids@[m]),
            decreases ids@.len() - k,
        {
            let event_hash = ids[k];
            proof {
                assert(ids@.contains(event_hash));
                assert(ids@.to_set().contains(event_hash));
                assert(t.has(event_hash));
            }
            let ghost prior = leaves@;
            k += 1;
            // skip the head event
            if same_id(&event_hash, &head) {
                continue ;
            }
            // check if the node is a leaf
            if self.node(&event_hash).children.is_empty() {
                leaves.push(event_hash);
                proof {
                    assert(leaves@[prior.len() as int] == event_hash);
                    assert forall|x: EventId| prior.contains(x) implies leaves@.contains(x) by {
                        let i = choose|i: int| 0 <= i < prior.len() && prior[i] == x;
                        assert(leaves@[i] == x);
                    }
                }
            }
        }
        proof {
            assert forall|l: EventId| #[trigger]
                t.is_leaf(l) && l != head implies leaves@.contains(l) by {
                assert(ids@.to_set().contains(l));
                let m = choose|m: int| 0 <= m < ids@.len() && ids@[m] == l;
                assert(t.is_leaf(ids@[m]));
            }
        }
        leaves
    }

    /// Where the root belongs.
    fn find_next_root(&self) -> (r: EventNodePtr)
        requires
            self.wf(),
        ensures
            r == self.tree().next_root(),
    {
        let ghost t = self.tree();
        let head = self.find_head();
        // collect the leaves in the tree
        let leaves = self.other_leaves(head);
        proof {
            t.lemma_head();
        }
        // find the common ancestor between each leaf and the head event, and of these the one
        // that stands deepest
        let mut highest_ancestor: Option<EventNodePtr> = None;
        let mut k: usize = 0;
        while k < leaves.len()
            invariant
                self.wf(),
                t == self.tree(),
                head == t.head(),
                t.is_longest(t.root, head),
                forall|i: int|
                    0 <= i < leaves@.len() ==> t.is_leaf(#[trigger] leaves@[i]) && leaves@[i]
                        != head,
                0 <= k <= leaves@.len(),
                highest_ancestor is None <==> k == 0,
                highest_ancestor matches Some(c) ==> t.candidate(c) && forall|m: int|
                    0 <= m < k ==> t.depth(t.meet(#[trigger] leaves@[m], head)) <= t.depth(c),
            decreases leaves@.len() - k,
        {
            let leaf = leaves[k];
            proof {
                assert(t.is_leaf(leaf));
                if leaf == t.root {
                    t.lemma_below_leaf(leaf, head);
                }
                if head == t.root {
                    assert(t.has(leaf));
                    t.lemma_below_leaf(head, leaf);
                }
            }
            let ancestor = self.find_ancestor(leaf, head);
            proof {
                assert(t.candidate(ancestor));
                t.lemma_above_depth(ancestor, leaf);
                self.lemma_candidate_depth(ancestor);
            }
            let higher: bool = match highest_ancestor {
                None => true,
                Some(c) => {
                    proof {
                        t.lemma_candidate(c);
                        self.lemma_candidate_depth(c);
                    }
                    self.find_depth(ancestor, head) >= self.find_depth(c, head)
                },
            };
            if higher {
                highest_ancestor = Some(ancestor);
            }
            k += 1;
        }
        match highest_ancestor {
            None => {
                proof {
                    assert(t.single()) by {
                        assert forall|l: EventId| #[trigger] t.is_leaf(l) implies l == head by {
                            if l != head {
                                assert(leaves@.contains(l));
                            }
                        }
                    }
                }
                self.current_root
            },
            Some(ancestor) => {
                proof {
                    assert forall|d: EventId| #[trigger] t.candidate(d) implies t.depth(d)
                        <= t.depth(ancestor) by {
                        let l = choose|l: EventId| #[trigger]
                            t.is_leaf(l) && l != head && t.meet(l, head) == d;
                        assert(leaves@.contains(l));
                        let m = choose|m: int| 0 <= m < leaves@.len() && leaves@[m] == l;
                        assert(t.depth(t.meet(leaves@[m], head)) <= t.depth(ancestor));
                    }
                    assert(t.is_anchor(ancestor));
                    t.lemma_candidate(ancestor);
                    t.lemma_anchor();
                    t.lemma_depth_root();
                }
                // the ancestor must have height > 10
                let root = self.get_root();
                let ancestor_height: u32 = self.find_height(root, ancestor).unwrap();
                if ancestor_height < MIN_ROOT_HEIGHT {
                    self.current_root
                } else {
                    ancestor
                }
            },
        }
    }

    /// The head is not above a node at which a leaf meets it.
    proof fn lemma_candidate_depth(self, c: EventId)
        requires
            self.wf(),
            self.tree().candidate(c),
        ensures
            self.tree().has(c),
            !self.tree().above(self.tree().head(), c),
    {
        let t = self.tree();
        let h = t.head();
        t.lemma_head();
        t.lemma_candidate(c);
        if t.above(h, c) {
            t.lemma_below_leaf(h, c);
            let l = choose|l: EventId| #[trigger] t.is_leaf(l) && l != h && t.meet(l, h) == c;
            t.lemma_meet(l, h);
            t.lemma_below_leaf(h, l);
        }
    }

    /// Moves the root to where it belongs and discards what is no longer below it.
    pub fn update_root(&mut self)
        requires
            old(self).wf(),
            old(self).tree().clear(old(self).tree().next_root()),
        ensures
            final(self).wf(),
            final(self).tree() == old(self).tree().reroot(old(self).tree().next_root()),
            final(self).orphans == old(self).orphans,
    {
        let ghost t = self.tree();
        let ancestor_hash = self.find_next_root();
        proof {
            t.lemma_next_root();
            t.lemma_reroot_same();
            t.lemma_reroot(ancestor_hash);
            t.lemma_below_root();
        }
        if same_id(&ancestor_hash, &self.current_root) {
            return;
        }
        // removing the parents of the new root node
        let mut root = self.get_root();
        while !same_id(&root, &ancestor_hash)
            invariant
                self.event_map.wf(),
                self.orphans == old(self).orphans,
                t == old(self).tree(),
                t.wf(),
                t.has(ancestor_hash),
                t.clear(ancestor_hash),
                t.has(root),
                t.above(root, ancestor_hash),
                self.event_map@ == t.below(root),
            decreases t.nodes.len() - t.depth(root),
        {
            proof {
                t.lemma_above_refl(root);
                t.lemma_below_step(root);
                let b = t.lemma_branch(root, ancestor_hash);
                t.lemma_child(root, 0);
                t.lemma_depth_bound(root);
            }
            let child = self.event_map.get(&root).unwrap().children[0];
            self.event_map.remove(&root);
            root = child;
        }
        proof {
            t.lemma_above_refl(ancestor_hash);
        }
        self.event_map.clear_parent(&ancestor_hash);
        self.current_root = ancestor_hash;
        proof {
            assert(self.tree() =~= t.reroot(ancestor_hash));
        }
    }

    /// How far an event that follows `previous` would lie behind `head`, counted from one past
    /// `head`.
    fn diff_depth_after(&self, previous: EventNodePtr, head: EventNodePtr) -> (r: u32)
        requires
            self.wf(),
            self.tree().has(previous),
            self.tree().has(head),
            self.tree().depth(previous) <= self.tree().depth(head),
        ensures
            r == self.tree().depth(head) - self.tree().depth(previous),
    {
        let ghost t = self.tree();
        let root = self.get_root();
        proof {
            t.lemma_depth_root();
            t.lemma_depth_bound(head);
            t.lemma_depth_bound(previous);
        }
        let node_depth: u32 = self.find_depth(previous, root) + 1;
        (self.find_depth(head, root) + 1) - node_depth
    }

    /// Whether the event follows one in the tree and would not lie too far behind the head.
    fn takes(&self, event: &Event) -> (r: bool)
        requires
            self.wf(),
        ensures
            r == self.tree().takes(event@),
    {
        let prev_event = event.previous_event_hash;
        // Parent does not yet exist
        if !self.event_map.contains_key(&prev_event) {
            return false;
        }
        // Reject events which attach to forks too low in the chain
        // At some point we ignore all events from old branches
        let head = self.find_head();
        proof {
            self.tree().lemma_head();
            assert(self.tree().has(prev_event));
        }
        self.diff_depth_after(prev_event, head) <= MAX_DEPTH
    }

    /// Hangs the event, under `id`, from the event that it names as its previous one.
    fn attach(&mut self, id: EventId, event: Event)
        requires
            old(self).wf(),
            old(self).tree().has(event@.previous_event_hash),
            !old(self).tree().has(id),
            old(self).tree().nodes.len() + 1 < u32::MAX,
        ensures
            final(self).wf(),
            final(self).tree() == old(self).tree().attach(id, event@),
            final(self).orphans == old(self).orphans,
    {
        let ghost t = self.tree();
        let ghost e = event@;
        proof {
            t.lemma_attach(id, e);
        }
        let prev_event = event.previous_event_hash;
        let node = EventNode { parent: Some(prev_event), event, children: Vec::new() };
        proof {
            assert(node@ =~= t.pending(id, e).nodes[id]);
        }
        self.event_map.insert(id, node);
        self.event_map.push_child(&prev_event, id);
        proof {
            assert(self.tree() =~= t.attach(id, e));
        }
    }

    /// Tidies the tree and then hangs `orphan` where it belongs, if it belongs anywhere.
    fn place(&mut self, orphan: Event)
        requires
            old(self).wf(),
            chain::can_settle(old(self).tree(), orphan@),
        ensures
            final(self).wf(),
            final(self).tree() == chain::settle(old(self).tree(), orphan@),
            final(self).orphans == old(self).orphans,
    {
        // clean up the tree from old eventnodes
        self.prune_forks();
        self.update_root();
        if self.takes(&orphan) {
            // Add node to the table
            let id = orphan.hash();
            self.attach(id, orphan);
        }
    }

    /// Deals with the events that have been put aside, one after the other. An event whose
    /// previous event is not in the tree is not kept.
    pub fn reorganize(&mut self)
        requires
            old(self).wf(),
            chain::can_settle_all(old(self)@.tree, old(self)@.orphans),
        ensures
            final(self).wf(),
            final(self)@ == (ModelV {
                tree: chain::settle_all(old(self)@.tree, old(self)@.orphans),
                orphans: Seq::empty(),
            }),
    {
        let ghost t = self.tree();
        let ghost events = self@.orphans;
        let mut orphans: Vec<Event> = Vec::new();
        std::mem::swap(&mut self.orphans, &mut orphans);
        proof {
            assert(events.take(0) =~= Seq::empty());
        }
        for orphan in it: orphans
            invariant
                self.wf(),
                self.orphans@.len() == 0,
                events == events_view(it.seq()),
                chain::can_settle_all(t, events),
                self.tree() == chain::settle_all(t, events.take(it.index())),
        {
            proof {
                let k = it.index();
                assert(orphan@ == events[k]);
                assert(chain::can_settle(
                    chain::settle_all(t, events.take(k)),
                    events[k],
                ));
                assert(events.take(k + 1).drop_last() =~= events.take(k));
                assert(events.take(k + 1).last() == events[k]);
            }
            self.place(orphan);
        }
        proof {
            assert(events.take(events.len() as int) =~= events);
            assert(self@.orphans =~= Seq::empty());
        }
    }

    /// Adds an event to those put aside and deals with them.
    pub fn add(&mut self, event: Event)
        requires
            old(self).wf(),
            chain::can_settle_all(old(self)@.tree, old(self)@.orphans.push(event@)),
        ensures
            final(self).wf(),
            final(self)@ == (ModelV {
                tree: chain::settle_all(
                    old(self)@.tree,
                    old(self)@.orphans.push(event@),
                ),
                orphans: Seq::empty(),
            }),
    {
        self.orphans.push(event);
        proof {
            assert(self@.orphans =~= old(self)@.orphans.push(event@));
        }
        self.reorganize();
    }

    /// Whether nothing branches off on the way from the root down to `r`.
    fn is_clear(&self, r: EventNodePtr) -> (clear: bool)
        requires
            self.wf(),
            self.tree().has(r),
        ensures
            clear == self.tree().clear(r),
    {
        let ghost t = self.tree();
        let mut cur = r;
        proof {
            t.lemma_above_refl(r);
            assert forall|x: EventId| #[trigger] t.above(x, r) && x != r implies t.depth(x)
                < t.depth(r) by {
                t.lemma_above_depth(x, r);
            }
        }
        while !same_id(&cur, &self.current_root)
            invariant
                self.wf(),
                t == self.tree(),
                t.has(r),
                t.has(cur),
                t.above(cur, r),
                forall|x: EventId| #[trigger]
                    t.above(x, r) && x != r && t.depth(x) >= t.depth(cur) ==> t.children(x).len()
                        == 1,
            decreases t.depth(cur),
        {
            proof {
                t.lemma_depth_parent(cur);
            }
            let parent = self.node(&cur).parent.unwrap();
            proof {
                t.lemma_above_trans(parent, cur, r);
                t.lemma_above_depth(cur, r);
                assert forall|x: EventId| #[trigger]
                    t.above(x, r) && x != r && t.depth(x) >= t.depth(parent) implies x == parent
                    || t.depth(x) >= t.depth(cur) by {
                    if t.depth(x) == t.depth(parent) {
                        t.lemma_above_chain(x, parent, r);
                    }
                }
            }
            if self.node(&parent).children.len() != 1 {
                return false;
            }
            cur = parent;
        }
        proof {
            t.lemma_depth_root();
        }
        true
    }

    /// Does what happens when `orphan` arrives, if that can be done.
    fn try_place(&mut self, orphan: &Event) -> (r: bool)
        requires
            old(self).wf(),
        ensures
            r == chain::can_settle(old(self).tree(), orphan@),
            r ==> final(self).wf() && final(self).tree() == chain::settle(
                old(self).tree(),
                orphan@,
            ),
    {
        self.prune_forks();
        let next = self.find_next_root();
        proof {
            self.tree().lemma_next_root();
        }
        if !self.is_clear(next) {
            return false;
        }
        self.update_root();
        if self.takes(orphan) {
            if !orphan.is_hashable() {
                return false;
            }
            let id = orphan.hash();
            if self.event_map.contains_key(&id) {
                return false;
            }
            if self.event_map.len() as u64 + 1 >= u32::MAX as u64 {
                return false;
            }
            self.attach(id, orphan.duplicate());
        }
        true
    }

    /// Adds an event as [`Model::add`] does where that can be done, and otherwise changes nothing
    /// and gives the event back.
    pub fn try_add(&mut self, event: Event) -> (r: Result<(), Event>)
        requires
            old(self).wf(),
        ensures
            final(self).wf(),
            r is Ok <==> chain::can_settle_all(
                old(self)@.tree,
                old(self)@.orphans.push(event@),
            ),
            r is Ok ==> final(self)@ == (ModelV {
                tree: chain::settle_all(
                    old(self)@.tree,
                    old(self)@.orphans.push(event@),
                ),
                orphans: Seq::empty(),
            }),
            r matches Err(e) ==> e == event && *final(self) == *old(self),
    {
        let ghost t = self.tree();
        let ghost events = self@.orphans.push(event@);
        let mut trial = Model {
            current_root: self.current_root,
            orphans: Vec::new(),
            event_map: self.event_map.duplicate(),
        };
        proof {
            assert(events.take(0) =~= Seq::empty());
            assert(trial.tree() =~= t);
        }
        let mut k: usize = 0;
        while k < self.orphans.len()
            invariant
                self.wf(),
                *self == *old(self),
                t == self.tree(),
                events == self@.orphans.push(event@),
                trial.wf(),
                0 <= k <= self.orphans@.len(),
                trial.tree() == chain::settle_all(t, events.take(k as int)),
                forall|i: int|
                    0 <= i < k ==> chain::can_settle(
                        #[trigger] chain::settle_all(t, events.take(i)),
                        events[i],
                    ),
            decreases self.orphans@.len() - k,
        {
            proof {
                assert(self.orphans@[k as int]@ == events[k as int]);
                assert(events.take(k + 1).drop_last() =~= events.take(k as int));
                assert(events.take(k + 1).last() == events[k as int]);
            }
            if !trial.try_place(&self.orphans[k]) {
                proof {
                    assert(!chain::can_settle(
                        chain::settle_all(t, events.take(k as int)),
                        events[k as int],
                    ));
                }
                return Err(event);
            }
            k += 1;
        }
        proof {
            assert(events[k as int] == event@);
        }
        if !trial.try_place(&event) {
            proof {
                assert(!chain::can_settle(
                    chain::settle_all(t, events.take(k as int)),
                    events[k as int],
                ));
            }
            return Err(event);
        }
        proof {
            assert(chain::can_settle_all(t, events)) by {
                assert forall|i: int| 0 <= i < events.len() implies chain::can_settle(
                    #[trigger] chain::settle_all(t, events.take(i)),
                    events[i],
                ) by {}
            }
        }
        self.add(event);
        Ok(())
    }

    /// What is shown of the model: a line for each event, in no particular order, then a line
    /// for the root and one for the head.
    pub fn debug(&self) -> (r: Vec<String>)
        requires
            self.wf(),
        ensures
            r@.len() == self.tree().nodes.len() + 2,
            self.event_map.order().len() == self.tree().nodes.len(),
            self.event_map.order().no_duplicates(),
            self.event_map.order().to_set() == self.tree().nodes.dom(),
            forall|i: int|
                0 <= i < self.tree().nodes.len() ==> (#[trigger] r@[i])@ == node_text(
                    self.tree(),
                    self.event_map.order()[i],
                ),
            r@[r@.len() - 2]@ == "root: "@ + crate::digest::hex_text(self.tree().root@),
            r@[r@.len() - 1]@ == "head: "@ + crate::digest::hex_text(self.tree().head()@),
    {
        let ghost t = self.tree();
        let root = self.get_root();
        let ids = self.event_map.keys();
        let mut lines: Vec<String> = Vec::new();
        let mut k: usize = 0;
        proof {
            self.event_map.lemma_order();
            t.lemma_depth_root();
        }
        while k < ids.len()
            invariant
                self.wf(),
                t == self.tree(),
                root == t.root,
                t.depth(root) == 0,
                ids@ == self.event_map.order(),
                ids@.to_set() == t.nodes.dom(),
                0 <= k <= ids@.len(),
                lines@.len() == k,
                forall|i: int| 0 <= i < k ==> (#[trigger] lines@[i])@ == node_text(t, ids@[i]),
            decreases ids@.len() - k,
        {
            let event_id = ids[k];
            proof {
                assert(ids@.to_set().contains(event_id));
                assert(t.has(event_id));
                assert(t.above(t.root, event_id));
            }
            let depth: u32 = self.find_depth(event_id, root);
            let mut line = hex_encode(&event_id);
            line.append(": ");
            let event = self.node(&event_id).event.fmt();
            line.append(event.as_str());
            line.append(" [depth=");
            let depth_text = decimal_text(depth as u64);
            line.append(depth_text.as_str());
            line.append("]");
            lines.push(line);
            k += 1;
        }
        let mut line = "root: ".to_string();
        let id = hex_encode(&root);
        line.append(id.as_str());
        lines.push(line);
        let head = self.find_head();
        let mut line = "head: ".to_string();
        let id = hex_encode(&head);
        line.append(id.as_str());
        lines.push(line);
        lines
    }
}

} // verus!
