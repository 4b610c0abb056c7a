//! Where two ways up meet, and how far down the root may move.

use vstd::prelude::*;

use crate::event::EventId;
use crate::tree::{NodeV, Tree};

verus! {

/// How deep a node must stand for the root to move there: its height must be > 10.
pub const MIN_ROOT_HEIGHT: u32 = 11;

impl Tree {
    /// `c` is the lowest node above both `a` and `b`.
    pub open spec fn is_fork(self, a: EventId, b: EventId, c: EventId) -> bool {
        &&& self.above(c, a)
        &&& self.above(c, b)
        &&& forall|d: EventId| #[trigger]
            self.above(d, a) && self.above(d, b) ==> self.above(d, c)
    }

    /// The lowest node above both `a` and `b`.
    pub open spec fn fork(self, a: EventId, b: EventId) -> EventId {
        choose|c: EventId| self.is_fork(a, b, c)
    }

    /// The node above both `a` and `b` to which depths are counted: `b` if `a` hangs from it, the
    /// lowest common one if both stand equally deep, and the root otherwise.
    pub open spec fn meet(self, a: EventId, b: EventId) -> EventId {
        if self.parent(a) == Some(b) {
            b
        } else if self.depth(a) == self.depth(b) {
            self.fork(a, b)
        } else {
            self.root
        }
    }

    pub proof fn lemma_fork_exists(self, a: EventId, b: EventId) -> (c: EventId)
        requires
            self.rooted(),
            self.has(a),
            self.has(b),
        ensures
            self.is_fork(a, b, c),
        decreases
            self.depth(a) + self.depth(b),
            if self.depth(a) < self.depth(b) {
                1nat
            } else {
                0nat
            },
    {
        if a == b {
            self.lemma_above_refl(a);
            a
        } else if self.depth(a) >= self.depth(b) {
            self.lemma_depth_root();
            self.lemma_depth_parent(a);
            let p = self.parent(a)->0;
            let c = self.lemma_fork_exists(p, b);
            self.lemma_above_parent(c, a);
            assert forall|d: EventId| #[trigger]
                self.above(d, a) && self.above(d, b) implies self.above(d, c) by {
                self.lemma_above_parent(d, a);
                self.lemma_above_depth(d, b);
            }
            c
        } else {
            let c = self.lemma_fork_exists(b, a);
            c
        }
    }

    pub proof fn lemma_fork(self, a: EventId, b: EventId)
        requires
            self.rooted(),
            self.has(a),
            self.has(b),
        ensures
            self.is_fork(a, b, self.fork(a, b)),
            forall|c: EventId| #[trigger] self.is_fork(a, b, c) ==> c == self.fork(a, b),
    {
        let c = self.lemma_fork_exists(a, b);
        let f = self.fork(a, b);
        assert forall|d: EventId| #[trigger] self.is_fork(a, b, d) implies d == f by {
            assert(self.above(d, f) && self.above(f, d));
            self.lemma_above_depth(d, a);
            self.lemma_above_depth(f, a);
            self.lemma_above_depth(d, f);
            self.lemma_above_depth(f, d);
        }
    }

    pub proof fn lemma_meet(self, a: EventId, b: EventId)
        requires
            self.rooted(),
            self.has(a),
            self.has(b),
        ensures
            self.has(self.meet(a, b)),
            self.above(self.meet(a, b), a),
            self.above(self.meet(a, b), b),
    {
        if self.parent(a) == Some(b) {
            assert(self.climb(b, 0) == Some(b));
            assert(self.climb(a, 1) == Some(b));
        } else if self.depth(a) == self.depth(b) {
            self.lemma_fork(a, b);
            self.lemma_above_depth(self.fork(a, b), a);
        }
    }

    /// Climbing from `a` and `b` in step, the first common node is the lowest one.
    pub proof fn lemma_meet_climb(self, a: EventId, b: EventId, k: nat)
        requires
            self.rooted(),
            self.has(a),
            self.has(b),
            self.climb(a, k) is Some,
            self.climb(a, k) == self.climb(b, k),
            forall|j: nat| j < k ==> #[trigger] self.climb(a, j) != self.climb(b, j),
        ensures
            self.depth(a) == self.depth(b),
            self.fork(a, b) == self.climb(a, k)->0,
    {
        let c = self.climb(a, k)->0;
        self.lemma_climb_depth(a, k);
        self.lemma_climb_depth(b, k);
        assert(self.above(c, a) && self.above(c, b));
        assert forall|d: EventId| #[trigger]
            self.above(d, a) && self.above(d, b) implies self.above(d, c) by {
            self.lemma_above_depth(d, a);
            self.lemma_above_depth(d, b);
            let m = (self.depth(a) - self.depth(d)) as nat;
            assert(self.climb(a, m) == self.climb(b, m));
            assert(k <= m);
            self.lemma_above_chain(d, c, a);
        }
        assert(self.is_fork(a, b, c));
        self.lemma_fork(a, b);
    }

    /// Some leaf other than the head meets the head at `c`.
    pub open spec fn candidate(self, c: EventId) -> bool {
        exists|l: EventId| #[trigger]
            self.is_leaf(l) && l != self.head() && self.meet(l, self.head()) == c
    }

    /// `c` is the deepest of the nodes at which a leaf meets the head.
    pub open spec fn is_anchor(self, c: EventId) -> bool {
        &&& self.candidate(c)
        &&& forall|d: EventId| #[trigger] self.candidate(d) ==> self.depth(d) <= self.depth(c)
    }

    /// The deepest of the nodes at which a leaf meets the head.
    pub open spec fn anchor(self) -> EventId {
        choose|c: EventId| self.is_anchor(c)
    }

    /// The head is the only leaf.
    pub open spec fn single(self) -> bool {
        forall|l: EventId| #[trigger] self.is_leaf(l) ==> l == self.head()
    }

    /// Where the root belongs: at the anchor if that is deep enough, and where it is otherwise.
    pub open spec fn next_root(self) -> EventId {
        if !self.single() && self.depth(self.anchor()) >= MIN_ROOT_HEIGHT {
            self.anchor()
        } else {
            self.root
        }
    }

    pub proof fn lemma_candidate(self, c: EventId)
        requires
            self.wf(),
            self.candidate(c),
        ensures
            self.has(c),
            self.above(c, self.head()),
            !self.single(),
    {
        self.lemma_head();
        let l = choose|l: EventId| #[trigger]
            self.is_leaf(l) && l != self.head() && self.meet(l, self.head()) == c;
        self.lemma_meet(l, self.head());
    }

    proof fn lemma_anchor_exists(self, d: nat) -> (c: EventId)
        requires
            self.wf(),
            exists|c: EventId| #[trigger] self.candidate(c),
            forall|c: EventId| #[trigger] self.candidate(c) ==> self.depth(c) <= d,
        ensures
            self.is_anchor(c),
        decreases d,
    {
        if exists|c: EventId| #[trigger] self.candidate(c) && self.depth(c) == d {
            choose|c: EventId| #[trigger] self.candidate(c) && self.depth(c) == d
        } else {
            let c = choose|c: EventId| #[trigger] self.candidate(c);
            self.lemma_anchor_exists((d - 1) as nat)
        }
    }

    pub proof fn lemma_anchor(self)
        requires
            self.wf(),
            !self.single(),
        ensures
            self.is_anchor(self.anchor()),
            self.has(self.anchor()),
            self.above(self.anchor(), self.head()),
            forall|c: EventId| #[trigger] self.is_anchor(c) ==> c == self.anchor(),
    {
        self.lemma_head();
        let l = choose|l: EventId| #[trigger] self.is_leaf(l) && l != self.head();
        assert(self.candidate(self.meet(l, self.head())));
        assert forall|c: EventId| #[trigger] self.candidate(c) implies self.depth(c) <= self.depth(
            self.head(),
        ) by {
            self.lemma_candidate(c);
        }
        let a = self.lemma_anchor_exists(self.depth(self.head()));
        let b = self.anchor();
        assert(self.is_anchor(b));
        self.lemma_candidate(b);
        assert forall|c: EventId| #[trigger] self.is_anchor(c) implies c == b by {
            self.lemma_candidate(c);
            self.lemma_above_chain(c, b, self.head());
        }
    }

    pub proof fn lemma_next_root(self)
        requires
            self.wf(),
        ensures
            self.has(self.next_root()),
            self.above(self.next_root(), self.head()),
    {
        self.lemma_head();
        if !self.single() {
            self.lemma_anchor();
        }
    }

    /// Nothing branches off on the way from the root down to `r`.
    pub open spec fn clear(self, r: EventId) -> bool {
        forall|x: EventId| #[trigger] self.above(x, r) && x != r ==> self.children(x).len() == 1
    }

    /// The nodes from `c` down.
    pub open spec fn below(self, c: EventId) -> Map<EventId, NodeV> {
        Map::new(|id: EventId| self.has(id) && self.above(c, id), |id: EventId| self.nodes[id])
    }

    /// The tree from `r` down, with `r` as its root.
    pub open spec fn reroot(self, r: EventId) -> Tree {
        Tree {
            root: r,
            nodes: self.below(r).insert(r, NodeV { parent: None, ..self.nodes[r] }),
        }
    }

    pub proof fn lemma_below_root(self)
        requires
            self.wf(),
        ensures
            self.below(self.root) == self.nodes,
    {
        assert forall|id: EventId| self.below(self.root).dom().contains(id)
            <==> self.nodes.dom().contains(id) by {
            if self.nodes.dom().contains(id) {
                assert(self.has(id));
            }
        }
        assert(self.below(self.root) =~= self.nodes);
    }

    /// Without a node that has one child, what was below it is what is below the child.
    pub proof fn lemma_below_step(self, c: EventId)
        requires
            self.wf(),
            self.has(c),
            self.children(c).len() == 1,
        ensures
            self.below(c).remove(c) == self.below(self.children(c)[0]),
    {
        let d = self.children(c)[0];
        self.lemma_child(c, 0);
        let m = self.below(c).remove(c);
        let n = self.below(d);
        assert forall|id: EventId| m.dom().contains(id) <==> n.dom().contains(id) by {
            if m.dom().contains(id) {
                let i = self.lemma_branch(c, id);
            }
            if n.dom().contains(id) {
                self.lemma_above_trans(c, d, id);
                self.lemma_above_depth(d, id);
            }
        }
        assert(m =~= n);
    }

    proof fn lemma_reroot_climb(self, r: EventId, id: EventId, k: nat)
        requires
            self.wf(),
            self.has(r),
            self.has(id),
            self.above(r, id),
        ensures
            k + self.depth(r) <= self.depth(id) ==> self.reroot(r).climb(id, k) == self.climb(
                id,
                k,
            ),
            k + self.depth(r) > self.depth(id) ==> self.reroot(r).climb(id, k) is None,
        decreases k,
    {
        let u = self.reroot(r);
        self.lemma_above_depth(r, id);
        if k > 0 {
            if id == r {
                assert(u.parent(r) is None);
            } else {
                self.lemma_above_parent(r, id);
                assert(id != self.root);
                self.lemma_depth_parent(id);
                assert(u.nodes[id] == self.nodes[id]);
                self.lemma_reroot_climb(r, self.parent(id)->0, (k - 1) as nat);
            }
        }
    }

    pub proof fn lemma_reroot_above(self, r: EventId, a: EventId, id: EventId)
        requires
            self.wf(),
            self.has(r),
            self.has(id),
            self.above(r, id),
        ensures
            self.reroot(r).above(a, id) <==> self.above(a, id) && self.depth(r) <= self.depth(a),
            self.reroot(r).above(a, id) <==> self.above(a, id) && self.above(r, a),
    {
        let u = self.reroot(r);
        if u.above(a, id) {
            let k = choose|k: nat| u.climb(id, k) == Some(a);
            self.lemma_reroot_climb(r, id, k);
            assert(self.climb(id, k) == Some(a));
            self.lemma_climb_depth(id, k);
            self.lemma_above_chain(r, a, id);
        }
        if self.above(a, id) && self.above(r, a) {
            self.lemma_above_depth(a, id);
            self.lemma_above_depth(r, a);
        }
        if self.above(a, id) && self.depth(r) <= self.depth(a) {
            self.lemma_above_depth(a, id);
            let k = (self.depth(id) - self.depth(a)) as nat;
            self.lemma_reroot_climb(r, id, k);
            assert(u.climb(id, k) == Some(a));
        }
    }

    /// Moving the root down gives a tree in which everything keeps its place and stands as much
    /// shallower as the root moved.
    pub proof fn lemma_reroot(self, r: EventId)
        requires
            self.wf(),
            self.has(r),
        ensures
            self.reroot(r).wf(),
            self.reroot(r).nodes.len() <= self.nodes.len(),
            forall|id: EventId| #[trigger]
                self.reroot(r).has(id) <==> self.has(id) && self.above(r, id),
            forall|id: EventId| #[trigger]
                self.reroot(r).has(id) ==> self.reroot(r).depth(id) == self.depth(id) - self.depth(
                    r,
                ) && self.reroot(r).children(id) == self.children(id)
                    && self.reroot(r).timestamp(id) == self.timestamp(id),
    {
        let u = self.reroot(r);
        self.lemma_above_refl(r);
        assert(u.nodes.dom().subset_of(self.nodes.dom()));
        vstd::set_lib::lemma_set_subset_finite(self.nodes.dom(), u.nodes.dom());
        vstd::set_lib::lemma_len_subset(u.nodes.dom(), self.nodes.dom());
        assert forall|id: EventId| #[trigger] u.has(id) <==> self.has(id) && self.above(
            r,
            id,
        ) by {}
        assert(u.has(r));
        assert forall|id: EventId| #[trigger] u.has(id) && id != r implies u.parent(id)
            == self.parent(id) && u.parent(id) is Some && u.has(u.parent(id)->0) by {
            self.lemma_above_parent(r, id);
            assert(id != self.root);
            self.lemma_depth_parent(id);
        }
        assert forall|id: EventId| #[trigger] u.has(id) implies u.above(r, id) by {
            self.lemma_reroot_above(r, r, id);
        }
        assert(u.rooted());
        assert forall|id: EventId| #[trigger] u.has(id) implies u.depth(id) == self.depth(id)
            - self.depth(r) && u.children(id) == self.children(id) && u.timestamp(id)
            == self.timestamp(id) by {
            u.lemma_depth(id);
            self.lemma_above_depth(r, id);
            let k = (self.depth(id) - self.depth(r)) as nat;
            self.lemma_reroot_climb(r, id, k);
            assert(u.climb(id, k) == Some(r));
        }
        assert forall|id: EventId| #[trigger] u.has(id) && id != u.root implies u.children(
            u.parent(id)->0,
        ).contains(id) by {
            assert(self.has(id));
            assert(id != self.root) by {
                self.lemma_above_parent(r, id);
            }
            assert(u.has(u.parent(id)->0));
        }
        assert forall|p: EventId, i: int|
            #![trigger u.children(p)[i]]
            u.has(p) && 0 <= i < u.children(p).len() implies u.has(u.children(p)[i]) && u.parent(
            u.children(p)[i],
        ) == Some(p) by {
            let c = self.children(p)[i];
            assert(u.children(p)[i] == c);
            self.lemma_child(p, i);
            self.lemma_above_trans(r, p, c);
            assert(u.has(c));
            if c == r {
                self.lemma_above_depth(r, p);
            }
        }
        assert forall|p: EventId| u.has(p) implies (#[trigger] u.children(p)).no_duplicates() by {
            assert(self.children(p).no_duplicates());
        }
    }

    /// Moving the root down along the way to the head does not change the head.
    pub proof fn lemma_reroot_head(self, r: EventId)
        requires
            self.wf(),
            self.has(r),
            self.above(r, self.head()),
        ensures
            self.reroot(r).wf(),
            self.reroot(r).head() == self.head(),
    {
        let u = self.reroot(r);
        let h = self.head();
        self.lemma_head();
        self.lemma_reroot(r);
        assert(u.has(h));
        assert(u.is_leaf(h));
        assert(u.above(u.root, h));
        assert forall|l: EventId| #[trigger]
            u.is_leaf(l) && u.above(u.root, l) && l != h implies u.beats(h, l) by {
            assert(u.has(l));
            assert(self.is_leaf(l) && self.above(self.root, l));
            assert(self.beats(h, l));
            if self.precedes(h, l) {
                let (c, i, j) = choose|c: EventId, i: int, j: int|
                    #![trigger self.children(c)[i], self.children(c)[j]]
                    self.has(c) && 0 <= i < j < self.children(c).len() && self.above(
                        self.children(c)[i],
                        h,
                    ) && self.above(self.children(c)[j], l);
                self.lemma_child(c, i);
                self.lemma_child(c, j);
                self.lemma_above_trans(c, self.children(c)[i], h);
                if self.depth(c) < self.depth(r) {
                    self.lemma_above_chain(self.children(c)[i], r, h);
                    self.lemma_above_chain(self.children(c)[j], r, l);
                    self.lemma_branch_unique(c, r, i, j);
                }
                self.lemma_above_chain(r, c, h);
                assert(u.has(c));
                self.lemma_above_trans(r, c, self.children(c)[i]);
                self.lemma_above_trans(r, c, self.children(c)[j]);
                self.lemma_reroot_above(r, self.children(c)[i], h);
                self.lemma_reroot_above(r, self.children(c)[j], l);
                assert(u.children(c)[i] == self.children(c)[i]);
                assert(u.children(c)[j] == self.children(c)[j]);
                assert(u.precedes(h, l));
            }
        }
        assert(u.is_longest(u.root, h));
        u.lemma_head();
    }

    pub proof fn lemma_reroot_same(self)
        requires
            self.wf(),
        ensures
            self.reroot(self.root) == self,
    {
        self.lemma_below_root();
        let u = self.reroot(self.root);
        assert(u.nodes[self.root] == self.nodes[self.root]);
        assert(u.nodes =~= self.nodes);
    }
}

} // verus!
