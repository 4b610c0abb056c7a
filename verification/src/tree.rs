//! The tree of events as a mathematical object.

use vstd::prelude::*;

use crate::event::{EventId, EventV};

verus! {

/// One node of the tree.
#[verifier::ext_equal]
pub struct NodeV {
    /// The node this one hangs from; none for the root alone.
    pub parent: Option<EventId>,
    pub event: EventV,
    /// The nodes that hang from this one, oldest first.
    pub children: Seq<EventId>,
}

/// Nodes filed by the id of their event.
#[verifier::ext_equal]
pub struct Tree {
    pub root: EventId,
    pub nodes: Map<EventId, NodeV>,
}

impl Tree {
    pub open spec fn has(self, id: EventId) -> bool {
        self.nodes.dom().contains(id)
    }

    pub open spec fn parent(self, id: EventId) -> Option<EventId> {
        self.nodes[id].parent
    }

    pub open spec fn children(self, id: EventId) -> Seq<EventId> {
        self.nodes[id].children
    }

    pub open spec fn timestamp(self, id: EventId) -> u64 {
        self.nodes[id].event.timestamp
    }

    /// The node `k` steps above `id`, if the way up is that long.
    pub open spec fn climb(self, id: EventId, k: nat) -> Option<EventId>
        decreases k,
    {
        if k == 0 {
            Some(id)
        } else {
            match self.parent(id) {
                Some(p) => self.climb(p, (k - 1) as nat),
                None => None,
            }
        }
    }

    /// `a` is `id` itself or one of its ancestors.
    pub open spec fn above(self, a: EventId, id: EventId) -> bool {
        exists|k: nat| self.climb(id, k) == Some(a)
    }

    /// The number of steps from `id` up to the root.
    pub open spec fn depth(self, id: EventId) -> nat {
        choose|k: nat| self.climb(id, k) == Some(self.root)
    }

    pub open spec fn is_leaf(self, id: EventId) -> bool {
        self.has(id) && self.children(id).len() == 0
    }

    /// Following parents leads from every node to the root and stops there.
    pub open spec fn rooted(self) -> bool {
        &&& self.nodes.dom().finite()
        &&& self.has(self.root)
        &&& self.parent(self.root) is None
        &&& forall|id: EventId| #[trigger]
            self.has(id) && id != self.root ==> self.parent(id) is Some && self.has(
                self.parent(id)->0,
            )
        &&& forall|id: EventId| #[trigger] self.has(id) ==> self.above(self.root, id)
    }

    /// The lists of children are the parent links read the other way, without repetition.
    pub open spec fn linked(self) -> bool {
        &&& forall|id: EventId| #[trigger]
            self.has(id) && id != self.root ==> self.children(self.parent(id)->0).contains(id)
        &&& forall|p: EventId, i: int|
            #![trigger self.children(p)[i]]
            self.has(p) && 0 <= i < self.children(p).len() ==> self.has(self.children(p)[i])
                && self.parent(self.children(p)[i]) == Some(p)
        &&& forall|p: EventId| self.has(p) ==> (#[trigger] self.children(p)).no_duplicates()
    }

    pub open spec fn wf(self) -> bool {
        self.rooted() && self.linked()
    }

    pub proof fn lemma_climb_add(self, id: EventId, j: nat, k: nat)
        requires
            self.climb(id, j) is Some,
        ensures
            self.climb(id, j + k) == self.climb(self.climb(id, j)->0, k),
        decreases j,
    {
        if j > 0 {
            self.lemma_climb_add(self.parent(id)->0, (j - 1) as nat, k);
        }
    }

    pub proof fn lemma_climb_has(self, id: EventId, k: nat)
        requires
            self.rooted(),
            self.has(id),
            self.climb(id, k) is Some,
        ensures
            self.has(self.climb(id, k)->0),
        decreases k,
    {
        if k > 0 {
            assert(id != self.root);
            self.lemma_climb_has(self.parent(id)->0, (k - 1) as nat);
        }
    }

    pub proof fn lemma_root_climb(self, k: nat)
        requires
            self.rooted(),
        ensures
            self.climb(self.root, k) is Some <==> k == 0,
    {
    }

    /// The way up from `id` reaches the root after exactly `depth(id)` steps.
    pub proof fn lemma_depth(self, id: EventId)
        requires
            self.rooted(),
            self.has(id),
        ensures
            self.climb(id, self.depth(id)) == Some(self.root),
            forall|k: nat| #[trigger] self.climb(id, k) is Some <==> k <= self.depth(id),
            forall|k: nat| #[trigger] self.climb(id, k) == Some(self.root) ==> k == self.depth(id),
    {
        assert(self.above(self.root, id));
        let d = self.depth(id);
        assert forall|k: nat| #[trigger] self.climb(id, k) is Some implies k <= d by {
            if k > d {
                self.lemma_climb_add(id, d, (k - d) as nat);
                self.lemma_root_climb((k - d) as nat);
                assert(d + (k - d) as nat == k);
            }
        }
        assert forall|k: nat| k <= d implies #[trigger] self.climb(id, k) is Some by {
            self.lemma_climb_prefix(id, k, d);
        }
        assert forall|k: nat| #[trigger] self.climb(id, k) == Some(self.root) implies k == d by {
            if k < d {
                self.lemma_climb_add(id, k, (d - k) as nat);
                self.lemma_root_climb((d - k) as nat);
                assert(k + (d - k) as nat == d);
            }
        }
    }

    pub proof fn lemma_climb_prefix(self, id: EventId, k: nat, d: nat)
        requires
            k <= d,
            self.climb(id, d) is Some,
        ensures
            self.climb(id, k) is Some,
        decreases k,
    {
        if k > 0 {
            self.lemma_climb_prefix(self.parent(id)->0, (k - 1) as nat, (d - 1) as nat);
        }
    }

    /// Depth counts the steps: what stands `k` steps above is `k` shallower.
    pub proof fn lemma_climb_depth(self, id: EventId, k: nat)
        requires
            self.rooted(),
            self.has(id),
            self.climb(id, k) is Some,
        ensures
            self.has(self.climb(id, k)->0),
            self.depth(id) == self.depth(self.climb(id, k)->0) + k,
    {
        let a = self.climb(id, k)->0;
        self.lemma_climb_has(id, k);
        self.lemma_depth(id);
        self.lemma_depth(a);
        self.lemma_climb_add(id, k, self.depth(a));
    }

    pub proof fn lemma_depth_root(self)
        requires
            self.rooted(),
        ensures
            self.depth(self.root) == 0,
            forall|id: EventId| #[trigger]
                self.has(id) ==> (self.depth(id) == 0 <==> id == self.root),
    {
        assert forall|id: EventId| #[trigger] self.has(id) implies (self.depth(id) == 0 <==> id
            == self.root) by {
            self.lemma_depth(id);
            assert(self.climb(id, 0) == Some(id));
        }
        assert(self.has(self.root));
    }

    pub proof fn lemma_depth_parent(self, id: EventId)
        requires
            self.rooted(),
            self.has(id),
            id != self.root,
        ensures
            self.parent(id) is Some,
            self.has(self.parent(id)->0),
            self.depth(id) == self.depth(self.parent(id)->0) + 1,
            self.above(self.parent(id)->0, id),
    {
        let p = self.parent(id)->0;
        assert(self.climb(p, 0) == Some(p));
        assert(self.climb(id, 1) == Some(p));
        self.lemma_climb_depth(id, 1);
    }

    pub proof fn lemma_above_refl(self, id: EventId)
        ensures
            self.above(id, id),
    {
        assert(self.climb(id, 0) == Some(id));
    }

    pub proof fn lemma_above_trans(self, a: EventId, b: EventId, c: EventId)
        requires
            self.above(a, b),
            self.above(b, c),
        ensures
            self.above(a, c),
    {
        let j = choose|k: nat| self.climb(b, k) == Some(a);
        let k = choose|k: nat| self.climb(c, k) == Some(b);
        self.lemma_climb_add(c, k, j);
        assert(self.climb(c, k + j) == Some(a));
    }

    /// What is above a node is in the tree, and exactly as far up as the depths say.
    pub proof fn lemma_above_depth(self, a: EventId, id: EventId)
        requires
            self.rooted(),
            self.has(id),
            self.above(a, id),
        ensures
            self.has(a),
            self.depth(a) <= self.depth(id),
            self.climb(id, (self.depth(id) - self.depth(a)) as nat) == Some(a),
            self.depth(a) == self.depth(id) ==> a == id,
    {
        let k = choose|k: nat| self.climb(id, k) == Some(a);
        self.lemma_climb_depth(id, k);
        assert(self.climb(id, 0) == Some(id));
    }

    /// Two nodes above a third stand above one another.
    pub proof fn lemma_above_chain(self, a: EventId, b: EventId, id: EventId)
        requires
            self.rooted(),
            self.has(id),
            self.above(a, id),
            self.above(b, id),
            self.depth(a) <= self.depth(b),
        ensures
            self.above(a, b),
            self.depth(a) == self.depth(b) ==> a == b,
    {
        self.lemma_above_depth(a, id);
        self.lemma_above_depth(b, id);
        let j = (self.depth(id) - self.depth(b)) as nat;
        let k = (self.depth(b) - self.depth(a)) as nat;
        self.lemma_climb_add(id, j, k);
        assert(j + k == self.depth(id) - self.depth(a));
        assert(self.climb(b, k) == Some(a));
        assert(self.climb(b, 0) == Some(b));
    }

    /// What is above a node, apart from the node itself, is above its parent.
    pub proof fn lemma_above_parent(self, a: EventId, id: EventId)
        requires
            self.rooted(),
            self.has(id),
        ensures
            id != self.root ==> (self.above(a, id) <==> a == id || self.above(
                a,
                self.parent(id)->0,
            )),
            id == self.root ==> (self.above(a, id) <==> a == id),
    {
        self.lemma_above_refl(id);
        if self.above(a, id) {
            let k = choose|k: nat| self.climb(id, k) == Some(a);
            if k > 0 {
                assert(self.climb(self.parent(id)->0, (k - 1) as nat) == Some(a));
            }
        }
        if id != self.root {
            self.lemma_depth_parent(id);
            if self.above(a, self.parent(id)->0) {
                self.lemma_above_trans(a, self.parent(id)->0, id);
            }
        }
    }

    /// The nodes above `id`, with `id` itself.
    pub open spec fn line(self, id: EventId) -> Set<EventId> {
        Set::new(|a: EventId| self.above(a, id))
    }

    pub proof fn lemma_line(self, id: EventId)
        requires
            self.rooted(),
            self.has(id),
        ensures
            self.line(id).finite(),
            self.line(id).len() == self.depth(id) + 1,
            self.line(id).subset_of(self.nodes.dom()),
        decreases self.depth(id),
    {
        self.lemma_depth_root();
        if id == self.root {
            assert forall|a: EventId| self.line(id).contains(a) == Set::empty().insert(
                id,
            ).contains(a) by {
                self.lemma_above_parent(a, id);
            }
            assert(self.line(id) =~= Set::empty().insert(id));
        } else {
            self.lemma_depth_parent(id);
            let p = self.parent(id)->0;
            self.lemma_line(p);
            assert forall|a: EventId| self.line(id).contains(a) == self.line(p).insert(id).contains(
                a,
            ) by {
                self.lemma_above_parent(a, id);
            }
            assert(self.line(id) =~= self.line(p).insert(id));
            if self.line(p).contains(id) {
                self.lemma_above_depth(id, p);
            }
        }
    }

    /// No way up is longer than the tree is large.
    pub proof fn lemma_depth_bound(self, id: EventId)
        requires
            self.rooted(),
            self.has(id),
        ensures
            self.depth(id) < self.nodes.len(),
    {
        self.lemma_line(id);
        vstd::set_lib::lemma_len_subset(self.line(id), self.nodes.dom());
    }

    /// A child hangs one step below its parent.
    pub proof fn lemma_child(self, p: EventId, i: int)
        requires
            self.wf(),
            self.has(p),
            0 <= i < self.children(p).len(),
        ensures
            self.has(self.children(p)[i]),
            self.children(p)[i] != self.root,
            self.parent(self.children(p)[i]) == Some(p),
            self.depth(self.children(p)[i]) == self.depth(p) + 1,
            self.above(p, self.children(p)[i]),
    {
        let c = self.children(p)[i];
        self.lemma_depth_parent(c);
    }

    /// A node below `top` hangs in exactly one of its branches; this is the branch's index.
    pub proof fn lemma_branch(self, top: EventId, id: EventId) -> (i: int)
        requires
            self.wf(),
            self.has(id),
            self.above(top, id),
            id != top,
        ensures
            0 <= i < self.children(top).len(),
            self.above(self.children(top)[i], id),
    {
        self.lemma_above_depth(top, id);
        let k = (self.depth(id) - self.depth(top)) as nat;
        assert(k > 0);
        self.lemma_climb_prefix(id, (k - 1) as nat, k);
        let c = self.climb(id, (k - 1) as nat)->0;
        self.lemma_climb_depth(id, (k - 1) as nat);
        self.lemma_climb_add(id, (k - 1) as nat, 1);
        assert(self.climb(c, 1) == Some(top));
        assert(self.parent(c) is Some);
        assert(self.climb(self.parent(c)->0, 0) == Some(top));
        assert(self.parent(c) == Some(top));
        assert(c != self.root);
        assert(self.children(top).contains(c));
        let i = choose|i: int| 0 <= i < self.children(top).len() && self.children(top)[i] == c;
        assert(self.above(c, id));
        i
    }

    pub proof fn lemma_branch_unique(self, top: EventId, id: EventId, i: int, j: int)
        requires
            self.wf(),
            self.has(top),
            self.has(id),
            0 <= i < self.children(top).len(),
            0 <= j < self.children(top).len(),
            self.above(self.children(top)[i], id),
            self.above(self.children(top)[j], id),
        ensures
            i == j,
    {
        self.lemma_child(top, i);
        self.lemma_child(top, j);
        self.lemma_above_chain(self.children(top)[i], self.children(top)[j], id);
    }

    /// Where the ways to `a` and `b` part, `a` lies in the older branch.
    pub open spec fn precedes(self, a: EventId, b: EventId) -> bool {
        exists|c: EventId, i: int, j: int|
            #![trigger self.children(c)[i], self.children(c)[j]]
            self.has(c) && 0 <= i < j < self.children(c).len() && self.above(
                self.children(c)[i],
                a,
            ) && self.above(self.children(c)[j], b)
    }

    pub proof fn lemma_precedes_asymmetric(self, a: EventId, b: EventId)
        requires
            self.wf(),
            self.has(a),
            self.has(b),
            self.precedes(a, b),
        ensures
            !self.precedes(b, a),
    {
        if self.precedes(b, a) {
            let (c, i, j) = choose|c: EventId, i: int, j: int|
                #![trigger self.children(c)[i], self.children(c)[j]]
                self.has(c) && 0 <= i < j < self.children(c).len() && self.above(
                    self.children(c)[i],
                    a,
                ) && self.above(self.children(c)[j], b);
            let (d, k, l) = choose|c: EventId, i: int, j: int|
                #![trigger self.children(c)[i], self.children(c)[j]]
                self.has(c) && 0 <= i < j < self.children(c).len() && self.above(
                    self.children(c)[i],
                    b,
                ) && self.above(self.children(c)[j], a);
            self.lemma_parting(a, b, c, i, j, d, l, k);
            if c != d {
                self.lemma_parting(a, b, d, l, k, c, i, j);
            }
            self.lemma_branch_unique(c, a, i, l);
            self.lemma_branch_unique(c, b, j, k);
        }
    }

    /// If the ways to `a` and `b` part at `c`, they do not part anywhere below `c`.
    proof fn lemma_parting(
        self,
        a: EventId,
        b: EventId,
        c: EventId,
        i: int,
        j: int,
        d: EventId,
        k: int,
        l: int,
    )
        requires
            self.wf(),
            self.has(a),
            self.has(b),
            self.has(c),
            0 <= i < self.children(c).len(),
            0 <= j < self.children(c).len(),
            i != j,
            self.above(self.children(c)[i], a),
            self.above(self.children(c)[j], b),
            self.has(d),
            0 <= k < self.children(d).len(),
            0 <= l < self.children(d).len(),
            self.above(self.children(d)[k], a),
            self.above(self.children(d)[l], b),
        ensures
            self.depth(d) <= self.depth(c),
            self.depth(d) == self.depth(c) ==> d == c,
    {
        self.lemma_child(c, i);
        self.lemma_child(c, j);
        self.lemma_child(d, k);
        self.lemma_child(d, l);
        self.lemma_above_trans(c, self.children(c)[i], a);
        self.lemma_above_trans(d, self.children(d)[k], a);
        self.lemma_above_trans(d, self.children(d)[l], b);
        if self.depth(d) > self.depth(c) {
            self.lemma_above_chain(self.children(c)[i], d, a);
            self.lemma_above_chain(self.children(c)[j], d, b);
            self.lemma_branch_unique(c, d, i, j);
        } else if self.depth(d) == self.depth(c) {
            self.lemma_above_chain(c, d, a);
        }
    }

    /// `h` goes before `l` as the end of the chain: it is deeper, or as deep and later, or as
    /// deep and as late and in the older branch.
    pub open spec fn beats(self, h: EventId, l: EventId) -> bool {
        ||| self.depth(h) > self.depth(l)
        ||| self.depth(h) == self.depth(l) && self.timestamp(h) > self.timestamp(l)
        ||| self.depth(h) == self.depth(l) && self.timestamp(h) == self.timestamp(l)
            && self.precedes(h, l)
    }

    /// `h` ends the longest chain that starts at `top`.
    pub open spec fn is_longest(self, top: EventId, h: EventId) -> bool {
        &&& self.is_leaf(h)
        &&& self.above(top, h)
        &&& forall|l: EventId| #[trigger]
            self.is_leaf(l) && self.above(top, l) && l != h ==> self.beats(h, l)
    }

    /// The end of the longest chain.
    pub open spec fn head(self) -> EventId {
        choose|h: EventId| self.is_longest(self.root, h)
    }

    /// There is one end of the longest chain from `top`, not two.
    pub proof fn lemma_longest_unique(self, top: EventId, g: EventId, h: EventId)
        requires
            self.wf(),
            self.is_longest(top, g),
            self.is_longest(top, h),
        ensures
            g == h,
    {
        if g != h {
            assert(self.beats(g, h) && self.beats(h, g));
            self.lemma_precedes_asymmetric(g, h);
        }
    }

    /// `id` hangs in one of the first `j` branches of `top`.
    pub open spec fn in_branches(self, top: EventId, j: int, id: EventId) -> bool {
        exists|i: int|
            0 <= i < j && self.above(#[trigger] self.children(top)[i], id)
    }

    /// `w` ends the longest chain through the first `j` branches of `top`.
    pub open spec fn best_of(self, top: EventId, j: int, w: EventId) -> bool {
        &&& self.is_leaf(w)
        &&& self.in_branches(top, j, w)
        &&& forall|l: EventId| #[trigger]
            self.is_leaf(l) && self.in_branches(top, j, l) && l != w ==> self.beats(w, l)
    }

    pub proof fn lemma_best_first(self, top: EventId, v: EventId)
        requires
            self.has(top),
            0 < self.children(top).len(),
            self.is_longest(self.children(top)[0], v),
        ensures
            self.best_of(top, 1, v),
    {
        assert(self.above(self.children(top)[0], v));
    }

    pub proof fn lemma_best_step(self, top: EventId, j: int, w: EventId, v: EventId)
        requires
            self.wf(),
            self.has(top),
            0 < j < self.children(top).len(),
            self.best_of(top, j, w),
            self.is_longest(self.children(top)[j], v),
        ensures
            self.depth(v) > self.depth(w) || (self.depth(v) == self.depth(w) && self.timestamp(v)
                > self.timestamp(w)) ==> self.best_of(top, j + 1, v),
            !(self.depth(v) > self.depth(w) || (self.depth(v) == self.depth(w) && self.timestamp(v)
                > self.timestamp(w))) ==> self.best_of(top, j + 1, w),
    {
        let i = choose|i: int| 0 <= i < j && self.above(#[trigger] self.children(top)[i], w);
        assert(self.in_branches(top, j + 1, w));
        assert(self.above(self.children(top)[j], v));
        assert(self.in_branches(top, j + 1, v));
        let wins = self.depth(v) > self.depth(w) || (self.depth(v) == self.depth(w)
            && self.timestamp(v) > self.timestamp(w));
        assert forall|l: EventId| #[trigger]
            self.is_leaf(l) && self.in_branches(top, j + 1, l) implies {
            &&& wins && l != v ==> self.beats(v, l)
            &&& !wins && l != w ==> self.beats(w, l)
        } by {
            let m = choose|i: int|
                0 <= i < j + 1 && self.above(#[trigger] self.children(top)[i], l);
            if m < j {
                assert(self.in_branches(top, j, l));
            } else {
                assert(self.children(top)[i] == self.children(top)[i]);
                assert(self.precedes(w, l));
            }
        }
    }

    pub proof fn lemma_best_all(self, top: EventId, w: EventId)
        requires
            self.wf(),
            self.has(top),
            0 < self.children(top).len(),
            self.best_of(top, self.children(top).len() as int, w),
        ensures
            self.is_longest(top, w),
    {
        let n = self.children(top).len() as int;
        let i = choose|i: int| 0 <= i < n && self.above(#[trigger] self.children(top)[i], w);
        self.lemma_child(top, i);
        self.lemma_above_trans(top, self.children(top)[i], w);
        assert forall|l: EventId| #[trigger]
            self.is_leaf(l) && self.above(top, l) && l != w implies self.beats(w, l) by {
            let m = self.lemma_branch(top, l);
            assert(self.in_branches(top, n, l));
        }
    }

    pub proof fn lemma_longest_leaf(self, top: EventId)
        requires
            self.wf(),
            self.is_leaf(top),
        ensures
            self.is_longest(top, top),
    {
        self.lemma_above_refl(top);
        assert forall|l: EventId| #[trigger]
            self.is_leaf(l) && self.above(top, l) && l != top implies self.beats(top, l) by {
            let m = self.lemma_branch(top, l);
        }
    }

    /// Every chain has an end.
    pub proof fn lemma_longest_exists(self, top: EventId) -> (h: EventId)
        requires
            self.wf(),
            self.has(top),
        ensures
            self.is_longest(top, h),
        decreases self.nodes.len() - self.depth(top), 1nat, 0nat,
    {
        self.lemma_depth_bound(top);
        if self.children(top).len() == 0 {
            self.lemma_longest_leaf(top);
            top
        } else {
            let h = self.lemma_best_exists(top, self.children(top).len());
            self.lemma_best_all(top, h);
            h
        }
    }

    proof fn lemma_best_exists(self, top: EventId, j: nat) -> (h: EventId)
        requires
            self.wf(),
            self.has(top),
            0 < j <= self.children(top).len(),
        ensures
            self.best_of(top, j as int, h),
        decreases self.nodes.len() - self.depth(top), 0nat, j,
    {
        self.lemma_child(top, j - 1);
        self.lemma_depth_bound(self.children(top)[j - 1]);
        let v = self.lemma_longest_exists(self.children(top)[j - 1]);
        if j == 1 {
            self.lemma_best_first(top, v);
            v
        } else {
            let w = self.lemma_best_exists(top, (j - 1) as nat);
            self.lemma_best_step(top, j - 1, w, v);
            if self.depth(v) > self.depth(w) || (self.depth(v) == self.depth(w)
                && self.timestamp(v) > self.timestamp(w)) {
                v
            } else {
                w
            }
        }
    }

    /// The head is a leaf, and no node is deeper.
    pub proof fn lemma_head(self)
        requires
            self.wf(),
        ensures
            self.is_longest(self.root, self.head()),
            forall|h: EventId| #[trigger]
                self.is_longest(self.root, h) ==> h == self.head(),
            forall|id: EventId| #[trigger]
                self.has(id) ==> self.depth(id) <= self.depth(self.head()),
    {
        let g = self.lemma_longest_exists(self.root);
        let h = self.head();
        assert forall|k: EventId| #[trigger] self.is_longest(self.root, k) implies k == h by {
            self.lemma_longest_unique(self.root, k, h);
        }
        assert forall|id: EventId| #[trigger] self.has(id) implies self.depth(id) <= self.depth(
            h,
        ) by {
            let l = self.lemma_longest_exists(id);
            self.lemma_above_depth(id, l);
            assert(self.is_leaf(l) && self.above(self.root, l));
        }
    }
}

} // verus!
