//! The ways in which the tree changes shape: a leaf is added, leaves are taken away, the root
//! moves down.

use vstd::prelude::*;

use crate::event::{EventId, EventV};
use crate::tree::{NodeV, Tree};

verus! {

pub proof fn lemma_filter_same<A>(s: Seq<A>, p: spec_fn(A) -> bool, q: spec_fn(A) -> bool)
    requires
        forall|i: int| 0 <= i < s.len() ==> p(#[trigger] s[i]) == q(s[i]),
    ensures
        s.filter(p) == s.filter(q),
    decreases s.len(),
{
    reveal(Seq::filter);
    if s.len() > 0 {
        let t = s.drop_last();
        assert forall|i: int| 0 <= i < t.len() implies p(#[trigger] t[i]) == q(t[i]) by {
            assert(t[i] == s[i]);
        }
        lemma_filter_same(t, p, q);
        assert(p(s[s.len() - 1]) == q(s[s.len() - 1]));
    }
}

pub proof fn lemma_filter_all<A>(s: Seq<A>, p: spec_fn(A) -> bool)
    requires
        forall|i: int| 0 <= i < s.len() ==> p(#[trigger] s[i]),
    ensures
        s.filter(p) == s,
    decreases s.len(),
{
    reveal(Seq::filter);
    if s.len() > 0 {
        let t = s.drop_last();
        assert forall|i: int| 0 <= i < t.len() implies p(#[trigger] t[i]) by {
            assert(t[i] == s[i]);
        }
        lemma_filter_all(t, p);
        assert(p(s[s.len() - 1]));
        assert(t.push(s.last()) =~= s);
    }
}

/// What a filter keeps, it keeps in order.
pub proof fn lemma_filter_order<A>(s: Seq<A>, p: spec_fn(A) -> bool, i: int, j: int) -> (r: (
    int,
    int,
))
    requires
        0 <= i < j < s.len(),
        p(s[i]),
        p(s[j]),
    ensures
        0 <= r.0 < r.1 < s.filter(p).len(),
        s.filter(p)[r.0] == s[i],
        s.filter(p)[r.1] == s[j],
    decreases s.len(),
{
    reveal(Seq::filter);
    let t = s.drop_last();
    if j < t.len() {
        assert(t[i] == s[i] && t[j] == s[j]);
        lemma_filter_order(t, p, i, j)
    } else {
        t.lemma_filter_contains(p, i);
        assert(t[i] == s[i]);
        let k = choose|k: int| 0 <= k < t.filter(p).len() && t.filter(p)[k] == s[i];
        (k, t.filter(p).len() as int)
    }
}

pub proof fn lemma_filter_no_duplicates<A>(s: Seq<A>, p: spec_fn(A) -> bool)
    requires
        s.no_duplicates(),
    ensures
        s.filter(p).no_duplicates(),
    decreases s.len(),
{
    reveal(Seq::filter);
    if s.len() > 0 {
        let t = s.drop_last();
        assert forall|i: int, j: int| 0 <= i < j < t.len() implies t[i] != t[j] by {
            assert(t[i] == s[i] && t[j] == s[j]);
        }
        lemma_filter_no_duplicates(t, p);
        if t.filter(p).contains(s.last()) {
            t.lemma_filter_contains_rev(p, s.last());
            let i = choose|i: int| 0 <= i < t.len() && t[i] == s.last();
            assert(s[i] == s[s.len() - 1]);
        }
        let f = t.filter(p);
        assert forall|i: int, j: int|
            0 <= i < j < s.filter(p).len() implies s.filter(p)[i] != s.filter(p)[j] by {
            if j == f.len() {
                assert(f.contains(f[i]));
            }
        }
    }
}

pub proof fn lemma_filter_twice<A>(
    s: Seq<A>,
    p: spec_fn(A) -> bool,
    q: spec_fn(A) -> bool,
    r: spec_fn(A) -> bool,
)
    requires
        forall|i: int| 0 <= i < s.len() ==> r(#[trigger] s[i]) == (p(s[i]) && q(s[i])),
    ensures
        s.filter(p).filter(q) == s.filter(r),
    decreases s.len(),
{
    reveal(Seq::filter);
    if s.len() > 0 {
        let t = s.drop_last();
        assert forall|i: int| 0 <= i < t.len() implies r(#[trigger] t[i]) == (p(t[i]) && q(
            t[i],
        )) by {
            assert(t[i] == s[i]);
        }
        lemma_filter_twice(t, p, q, r);
        let x = s[s.len() - 1];
        assert(r(x) == (p(x) && q(x)));
        if p(x) {
            assert(t.filter(p).push(x).drop_last() =~= t.filter(p));
        }
    }
}

/// Filtering one item out of a list without repetition removes it where it stands.
pub proof fn lemma_filter_remove<A>(s: Seq<A>, p: spec_fn(A) -> bool, k: int)
    requires
        0 <= k < s.len(),
        s.no_duplicates(),
        forall|i: int| 0 <= i < s.len() ==> p(#[trigger] s[i]) == (i != k),
    ensures
        s.filter(p) == s.remove(k),
    decreases s.len(),
{
    reveal(Seq::filter);
    let t = s.drop_last();
    let x = s[s.len() - 1];
    assert forall|i: int| 0 <= i < t.len() implies p(#[trigger] t[i]) == (i != k) by {
        assert(t[i] == s[i]);
    }
    assert(p(x) == (s.len() - 1 != k));
    if k == s.len() - 1 {
        lemma_filter_all(t, p);
        assert(t =~= s.remove(k));
    } else {
        assert forall|i: int, j: int| 0 <= i < j < t.len() implies t[i] != t[j] by {
            assert(t[i] == s[i] && t[j] == s[j]);
        }
        lemma_filter_remove(t, p, k);
        assert(t.remove(k).push(x) =~= s.remove(k));
    }
}

impl Tree {
    /// All nodes of `self` stand in `big` with the parents that they have here.
    pub open spec fn part_of(self, big: Tree) -> bool {
        forall|id: EventId| #[trigger]
            self.has(id) ==> big.has(id) && big.parent(id) == self.parent(id) && (self.parent(
                id,
            ) matches Some(p) ==> self.has(p))
    }

    pub proof fn lemma_part_climb(self, big: Tree, id: EventId, k: nat)
        requires
            self.part_of(big),
            self.has(id),
        ensures
            big.climb(id, k) == self.climb(id, k),
        decreases k,
    {
        if k > 0 && self.parent(id) is Some {
            self.lemma_part_climb(big, self.parent(id)->0, (k - 1) as nat);
        }
    }

    pub proof fn lemma_part_above(self, big: Tree, a: EventId, id: EventId)
        requires
            self.part_of(big),
            self.has(id),
        ensures
            big.above(a, id) <==> self.above(a, id),
    {
        if big.above(a, id) {
            let k = choose|k: nat| big.climb(id, k) == Some(a);
            self.lemma_part_climb(big, id, k);
            assert(self.climb(id, k) == Some(a));
        }
        if self.above(a, id) {
            let k = choose|k: nat| self.climb(id, k) == Some(a);
            self.lemma_part_climb(big, id, k);
            assert(big.climb(id, k) == Some(a));
        }
    }

    /// A part of a tree with the same root has the same ways up.
    pub proof fn lemma_part(self, big: Tree)
        requires
            self.part_of(big),
            self.root == big.root,
            self.rooted(),
            big.rooted(),
        ensures
            forall|id: EventId| #[trigger] self.has(id) ==> self.depth(id) == big.depth(id),
            forall|a: EventId, id: EventId| #[trigger]
                self.above(a, id) && self.has(id) ==> big.above(a, id),
            forall|a: EventId, id: EventId| #[trigger]
                big.above(a, id) && self.has(id) ==> self.above(a, id),
    {
        assert forall|id: EventId| #[trigger] self.has(id) implies self.depth(id) == big.depth(
            id,
        ) by {
            self.lemma_depth(id);
            big.lemma_depth(id);
            self.lemma_part_climb(big, id, self.depth(id));
            assert(big.climb(id, self.depth(id)) == Some(big.root));
        }
        assert forall|a: EventId, id: EventId| #[trigger]
            self.above(a, id) && self.has(id) implies big.above(a, id) by {
            self.lemma_part_above(big, a, id);
        }
        assert forall|a: EventId, id: EventId| #[trigger]
            big.above(a, id) && self.has(id) implies self.above(a, id) by {
            self.lemma_part_above(big, a, id);
        }
    }

    /// `event` filed under `id` with its parent link, before the parent lists it.
    pub open spec fn pending(self, id: EventId, event: EventV) -> Tree {
        Tree {
            root: self.root,
            nodes: self.nodes.insert(
                id,
                NodeV {
                    parent: Some(event.previous_event_hash),
                    event,
                    children: Seq::empty(),
                },
            ),
        }
    }

    /// The tree with `id` appended to the children of `p`.
    pub open spec fn adopt(self, p: EventId, id: EventId) -> Tree {
        Tree {
            root: self.root,
            nodes: self.nodes.insert(
                p,
                NodeV { children: self.children(p).push(id), ..self.nodes[p] },
            ),
        }
    }

    /// The tree with `event` hung, under `id`, from the event that it names as its previous one.
    pub open spec fn attach(self, id: EventId, event: EventV) -> Tree {
        self.pending(id, event).adopt(event.previous_event_hash, id)
    }

    pub proof fn lemma_pending(self, id: EventId, event: EventV)
        requires
            self.wf(),
            !self.has(id),
            self.has(event.previous_event_hash),
        ensures
            self.pending(id, event).rooted(),
            self.part_of(self.pending(id, event)),
            self.pending(id, event).depth(id) == self.depth(event.previous_event_hash) + 1,
            self.pending(id, event).nodes.len() == self.nodes.len() + 1,
    {
        let u = self.pending(id, event);
        let p = event.previous_event_hash;
        assert(self.part_of(u));
        assert(u.nodes.dom() =~= self.nodes.dom().insert(id));
        assert forall|x: EventId| #[trigger] u.has(x) implies u.above(u.root, x) by {
            if x != id {
                assert(self.has(x));
                self.lemma_part_above(u, self.root, x);
            } else {
                assert(self.has(p));
                self.lemma_part_above(u, self.root, p);
                let k = choose|k: nat| u.climb(p, k) == Some(u.root);
                assert(u.climb(id, k + 1) == u.climb(p, k));
            }
        }
        assert(self.has(self.root));
        assert forall|x: EventId| #[trigger] u.has(x) && x != u.root implies u.parent(x) is Some
            && u.has(u.parent(x)->0) by {
            if x != id {
                assert(self.has(x));
            }
        }
        assert(u.rooted());
        assert(u.has(id));
        u.lemma_depth_parent(id);
        self.lemma_part(u);
        assert(self.has(p));
    }

    pub proof fn lemma_attach(self, id: EventId, event: EventV)
        requires
            self.wf(),
            !self.has(id),
            self.has(event.previous_event_hash),
        ensures
            self.attach(id, event).wf(),
            self.part_of(self.attach(id, event)),
            self.attach(id, event).is_leaf(id),
            self.attach(id, event).depth(id) == self.depth(event.previous_event_hash) + 1,
            self.attach(id, event).nodes.len() == self.nodes.len() + 1,
            self.attach(id, event).nodes.dom() == self.nodes.dom().insert(id),
    {
        let v = self.pending(id, event);
        let u = self.attach(id, event);
        let p = event.previous_event_hash;
        self.lemma_pending(id, event);
        assert(v.nodes.dom() =~= self.nodes.dom().insert(id));
        assert(u.nodes.dom() =~= v.nodes.dom());
        assert(v.part_of(u));
        assert forall|x: EventId| #[trigger] u.has(x) implies u.above(u.root, x) by {
            assert(v.has(x));
            v.lemma_part_above(u, v.root, x);
        }
        assert(v.has(v.root));
        assert forall|x: EventId| #[trigger] u.has(x) && x != u.root implies u.parent(x) is Some
            && u.has(u.parent(x)->0) by {
            assert(v.has(x));
        }
        assert(u.rooted());
        v.lemma_part(u);
        assert(v.has(id));
        assert forall|x: EventId| #[trigger] u.has(x) && x != u.root implies u.children(
            u.parent(x)->0,
        ).contains(x) by {
            if x == id {
                assert(u.children(p)[self.children(p).len() as int] == id);
            } else {
                assert(self.has(x));
                let q = self.parent(x)->0;
                let i = choose|i: int| 0 <= i < self.children(q).len() && self.children(q)[i] == x;
                assert(u.children(q)[i] == x);
            }
        }
        assert forall|q: EventId, i: int|
            #![trigger u.children(q)[i]]
            u.has(q) && 0 <= i < u.children(q).len() implies u.has(u.children(q)[i]) && u.parent(
            u.children(q)[i],
        ) == Some(q) by {
            if q == p && i == self.children(p).len() {
            } else if q != id {
                assert(u.children(q)[i] == self.children(q)[i]);
            }
        }
        assert forall|q: EventId| u.has(q) implies (#[trigger] u.children(q)).no_duplicates() by {
            if q == p {
                assert(self.children(p).no_duplicates());
                assert forall|i: int| 0 <= i < self.children(p).len() implies self.children(p)[i]
                    != id by {
                    assert(self.has(self.children(p)[i]));
                }
            } else if q != id {
                assert(self.children(q).no_duplicates());
            }
        }
    }

    /// Below `id` there is a leaf that is not among `gone`.
    pub open spec fn survives(self, gone: Set<EventId>, id: EventId) -> bool {
        &&& self.has(id)
        &&& exists|l: EventId| #[trigger]
            self.is_leaf(l) && !gone.contains(l) && self.above(id, l)
    }

    /// The tree without the leaves in `gone`, and without what led to no other leaf.
    pub open spec fn without(self, gone: Set<EventId>) -> Tree {
        Tree {
            root: self.root,
            nodes: Map::new(
                |id: EventId| self.survives(gone, id),
                |id: EventId|
                    NodeV {
                        children: self.children(id).filter(|c: EventId| self.survives(gone, c)),
                        ..self.nodes[id]
                    },
            ),
        }
    }

    pub proof fn lemma_survives_up(self, gone: Set<EventId>, a: EventId, id: EventId)
        requires
            self.wf(),
            self.survives(gone, id),
            self.above(a, id),
        ensures
            self.survives(gone, a),
    {
        let l = choose|l: EventId| #[trigger]
            self.is_leaf(l) && !gone.contains(l) && self.above(id, l);
        self.lemma_above_depth(a, id);
        self.lemma_above_trans(a, id, l);
    }

    pub proof fn lemma_without(self, gone: Set<EventId>)
        requires
            self.wf(),
            exists|l: EventId| #[trigger] self.is_leaf(l) && !gone.contains(l),
        ensures
            self.without(gone).wf(),
            self.without(gone).part_of(self),
            self.without(gone).nodes.len() <= self.nodes.len(),
            forall|l: EventId| #[trigger]
                self.without(gone).is_leaf(l) <==> self.is_leaf(l) && !gone.contains(l),
    {
        let u = self.without(gone);
        let keep = |c: EventId| self.survives(gone, c);
        assert(u.nodes.dom().subset_of(self.nodes.dom()));
        vstd::set_lib::lemma_set_subset_finite(self.nodes.dom(), u.nodes.dom());
        vstd::set_lib::lemma_len_subset(u.nodes.dom(), self.nodes.dom());
        assert forall|id: EventId| #[trigger] u.has(id) implies self.has(id) && self.parent(id)
            == u.parent(id) && (u.parent(id) matches Some(p) ==> u.has(p)) by {
            if id != self.root {
                self.lemma_depth_parent(id);
                self.lemma_survives_up(gone, self.parent(id)->0, id);
            }
        }
        let l = choose|l: EventId| #[trigger] self.is_leaf(l) && !gone.contains(l);
        assert(self.above(self.root, l));
        assert(u.has(self.root));
        assert forall|id: EventId| #[trigger] u.has(id) implies u.above(u.root, id) by {
            u.lemma_part_above(self, self.root, id);
        }
        assert(u.rooted());
        assert forall|p: EventId| #[trigger] u.has(p) implies u.children(p) == self.children(
            p,
        ).filter(keep) by {}
        assert forall|id: EventId| #[trigger] u.has(id) && id != u.root implies u.children(
            u.parent(id)->0,
        ).contains(id) by {
            let p = self.parent(id)->0;
            assert(self.has(id));
            let i = choose|i: int| 0 <= i < self.children(p).len() && self.children(p)[i] == id;
            self.children(p).lemma_filter_contains(keep, i);
            assert(u.has(p));
        }
        assert forall|p: EventId, i: int|
            #![trigger u.children(p)[i]]
            u.has(p) && 0 <= i < u.children(p).len() implies u.has(u.children(p)[i]) && u.parent(
            u.children(p)[i],
        ) == Some(p) by {
            self.children(p).lemma_filter_pred(keep, i);
            assert(u.children(p).contains(u.children(p)[i]));
            self.children(p).lemma_filter_contains_rev(keep, u.children(p)[i]);
            let j = choose|j: int|
                0 <= j < self.children(p).len() && self.children(p)[j] == u.children(p)[i];
            assert(self.parent(self.children(p)[j]) == Some(p));
        }
        assert forall|p: EventId| u.has(p) implies (#[trigger] u.children(p)).no_duplicates() by {
            assert(self.children(p).no_duplicates());
            lemma_filter_no_duplicates(self.children(p), keep);
        }
        assert forall|x: EventId| #[trigger]
            u.is_leaf(x) <==> self.is_leaf(x) && !gone.contains(x) by {
            self.lemma_above_refl(x);
            if u.is_leaf(x) {
                let m = choose|m: EventId| #[trigger]
                    self.is_leaf(m) && !gone.contains(m) && self.above(x, m);
                if m != x {
                    let i = self.lemma_branch(x, m);
                    assert(self.has(self.children(x)[i]));
                    self.children(x).lemma_filter_contains(keep, i);
                }
            }
            if self.is_leaf(x) && !gone.contains(x) {
                assert(u.has(x));
                self.children(x).lemma_filter_len(keep);
            }
        }
    }

    proof fn lemma_survives_twice(self, gone: Set<EventId>, more: Set<EventId>, id: EventId)
        requires
            self.wf(),
            exists|l: EventId| #[trigger] self.is_leaf(l) && !gone.contains(l),
        ensures
            self.without(gone).survives(more, id) <==> self.survives(gone.union(more), id),
    {
        let u = self.without(gone);
        let all = gone.union(more);
        self.lemma_without(gone);
        if u.survives(more, id) {
            let l = choose|l: EventId| #[trigger]
                u.is_leaf(l) && !more.contains(l) && u.above(id, l);
            u.lemma_part_above(self, id, l);
            assert(u.has(id));
            assert(self.is_leaf(l) && !all.contains(l) && self.above(id, l));
        }
        if self.survives(all, id) {
            let l = choose|l: EventId| #[trigger]
                self.is_leaf(l) && !all.contains(l) && self.above(id, l);
            assert(self.is_leaf(l) && !gone.contains(l) && self.above(id, l));
            assert(u.has(id));
            assert(u.is_leaf(l));
            u.lemma_part_above(self, id, l);
            assert(u.is_leaf(l) && !more.contains(l) && u.above(id, l));
        }
    }

    /// Taking leaves away twice is taking them away at once.
    pub proof fn lemma_without_twice(self, gone: Set<EventId>, more: Set<EventId>)
        requires
            self.wf(),
            exists|l: EventId| #[trigger] self.is_leaf(l) && !gone.contains(l),
        ensures
            self.without(gone).without(more) == self.without(gone.union(more)),
    {
        let u = self.without(gone);
        let v = u.without(more);
        let all = gone.union(more);
        let w = self.without(all);
        assert forall|id: EventId| v.nodes.dom().contains(id) <==> w.nodes.dom().contains(id) by {
            self.lemma_survives_twice(gone, more, id);
        }
        assert forall|id: EventId| v.nodes.dom().contains(id) implies #[trigger] v.nodes[id]
            == w.nodes[id] by {
            assert(u.survives(more, id));
            assert(u.has(id));
            assert forall|i: int| 0 <= i < self.children(id).len() implies self.survives(
                all,
                #[trigger] self.children(id)[i],
            ) == (self.survives(gone, self.children(id)[i]) && u.survives(
                more,
                self.children(id)[i],
            )) by {
                self.lemma_survives_twice(gone, more, self.children(id)[i]);
            }
            lemma_filter_twice(
                self.children(id),
                |c: EventId| self.survives(gone, c),
                |c: EventId| u.survives(more, c),
                |c: EventId| self.survives(all, c),
            );
        }
        assert(v.nodes =~= w.nodes);
    }

    /// Taking nothing away changes nothing.
    pub proof fn lemma_without_none(self)
        requires
            self.wf(),
        ensures
            self.without(Set::empty()) == self,
    {
        let none = Set::<EventId>::empty();
        let u = self.without(none);
        assert forall|id: EventId| #[trigger] self.has(id) implies self.survives(none, id) by {
            let l = self.lemma_longest_exists(id);
            assert(self.is_leaf(l) && !none.contains(l) && self.above(id, l));
        }
        assert forall|id: EventId| u.nodes.dom().contains(id) <==> self.nodes.dom().contains(
            id,
        ) by {
            if self.has(id) {
                assert(self.survives(none, id));
            }
        }
        assert forall|id: EventId| u.nodes.dom().contains(id) implies #[trigger] u.nodes[id]
            == self.nodes[id] by {
            assert(self.has(id));
            assert forall|i: int| 0 <= i < self.children(id).len() implies self.survives(
                none,
                #[trigger] self.children(id)[i],
            ) by {
                assert(self.has(self.children(id)[i]));
            }
            lemma_filter_all(self.children(id), |c: EventId| self.survives(none, c));
        }
        assert(u.nodes =~= self.nodes);
    }

    /// As long as the head stays, taking leaves away does not make another node the head.
    pub proof fn lemma_without_head(self, gone: Set<EventId>)
        requires
            self.wf(),
            !gone.contains(self.head()),
        ensures
            self.without(gone).wf(),
            self.without(gone).head() == self.head(),
    {
        let u = self.without(gone);
        let h = self.head();
        self.lemma_head();
        assert(self.is_leaf(h) && !gone.contains(h));
        self.lemma_without(gone);
        u.lemma_part(self);
        assert(u.is_leaf(h));
        assert(u.above(u.root, h));
        assert forall|l: EventId| #[trigger]
            u.is_leaf(l) && u.above(u.root, l) && l != h implies u.beats(h, l) by {
            assert(self.is_leaf(l) && self.above(self.root, l));
            assert(self.beats(h, l));
            if self.precedes(h, l) {
                let (c, i, j) = choose|c: EventId, i: int, j: int|
                    #![trigger self.children(c)[i], self.children(c)[j]]
                    self.has(c) && 0 <= i < j < self.children(c).len() && self.above(
                        self.children(c)[i],
                        h,
                    ) && self.above(self.children(c)[j], l);
                self.lemma_child(c, i);
                self.lemma_child(c, j);
                self.lemma_above_refl(h);
                self.lemma_above_refl(l);
                assert(self.survives(gone, h) && self.survives(gone, l));
                self.lemma_survives_up(gone, self.children(c)[i], h);
                self.lemma_survives_up(gone, self.children(c)[j], l);
                self.lemma_survives_up(gone, c, self.children(c)[i]);
                let (k, m) = lemma_filter_order(
                    self.children(c),
                    |c: EventId| self.survives(gone, c),
                    i,
                    j,
                );
                assert(u.has(c));
                assert(u.children(c)[k] == self.children(c)[i]);
                assert(u.children(c)[m] == self.children(c)[j]);
                assert(u.precedes(h, l));
            }
        }
        assert(u.is_longest(u.root, h));
        u.lemma_head();
    }

    /// The tree without the node `id` and without the mention of it by its parent, which lists it
    /// at `at`.
    pub open spec fn cut(self, id: EventId, at: int) -> Tree {
        let p = self.parent(id)->0;
        Tree {
            root: self.root,
            nodes: self.nodes.remove(id).insert(
                p,
                NodeV { children: self.children(p).remove(at), ..self.nodes[p] },
            ),
        }
    }

    pub proof fn lemma_cut(self, id: EventId, at: int)
        requires
            self.wf(),
            self.is_leaf(id),
            id != self.root,
            0 <= at < self.children(self.parent(id)->0).len(),
            self.children(self.parent(id)->0)[at] == id,
        ensures
            self.cut(id, at).wf(),
            self.cut(id, at).part_of(self),
            self.cut(id, at).nodes.len() == self.nodes.len() - 1,
            self.cut(id, at).nodes.dom() == self.nodes.dom().remove(id),
    {
        let p = self.parent(id)->0;
        let u = self.cut(id, at);
        self.lemma_depth_parent(id);
        assert(p != id);
        assert(u.nodes.dom() =~= self.nodes.dom().remove(id));
        assert forall|x: EventId| #[trigger] u.has(x) implies self.has(x) && self.parent(x)
            == u.parent(x) && (u.parent(x) matches Some(q) ==> u.has(q)) by {
            assert(self.has(x));
            if x != self.root {
                let q = self.parent(x)->0;
                assert(self.has(q));
                if q == id {
                    assert(self.children(id).contains(x));
                }
            }
        }
        assert(u.has(u.root));
        assert forall|x: EventId| #[trigger] u.has(x) implies u.above(u.root, x) by {
            u.lemma_part_above(self, self.root, x);
        }
        assert(u.rooted());
        assert(self.children(p).no_duplicates());
        assert forall|x: EventId| #[trigger] u.has(x) && x != u.root implies u.children(
            u.parent(x)->0,
        ).contains(x) by {
            let q = self.parent(x)->0;
            assert(self.has(x));
            let i = choose|i: int| 0 <= i < self.children(q).len() && self.children(q)[i] == x;
            if q == p {
                if i < at {
                    assert(u.children(p)[i] == x);
                } else {
                    assert(u.children(p)[i - 1] == x);
                }
            }
        }
        assert forall|q: EventId, i: int|
            #![trigger u.children(q)[i]]
            u.has(q) && 0 <= i < u.children(q).len() implies u.has(u.children(q)[i]) && u.parent(
            u.children(q)[i],
        ) == Some(q) by {
            let j = if q == p && i >= at {
                i + 1
            } else {
                i
            };
            assert(u.children(q)[i] == self.children(q)[j]);
            assert(self.has(self.children(q)[j]) && self.parent(self.children(q)[j]) == Some(q));
            if self.children(q)[j] == id {
                assert(self.children(p)[j] == self.children(p)[at]);
            }
        }
        assert forall|q: EventId| u.has(q) implies (#[trigger] u.children(q)).no_duplicates() by {
            assert(self.children(q).no_duplicates());
        }
    }

    /// Cutting a leaf whose parent has other children takes that leaf away and nothing else.
    pub proof fn lemma_cut_last(self, id: EventId, at: int)
        requires
            self.wf(),
            self.is_leaf(id),
            id != self.root,
            0 <= at < self.children(self.parent(id)->0).len(),
            self.children(self.parent(id)->0)[at] == id,
            self.children(self.parent(id)->0).len() > 1,
        ensures
            self.cut(id, at) == self.without(set![id]),
    {
        let p = self.parent(id)->0;
        let u = self.cut(id, at);
        let gone = set![id];
        let w = self.without(gone);
        self.lemma_depth_parent(id);
        assert(self.children(p).no_duplicates());
        assert forall|x: EventId| #[trigger] self.survives(gone, x) <==> self.has(x) && x != id by {
            if self.survives(gone, x) && x == id {
                let l = choose|l: EventId| #[trigger]
                    self.is_leaf(l) && !gone.contains(l) && self.above(id, l);
                let i = self.lemma_branch(id, l);
            }
            if self.has(x) && x != id {
                let l = self.lemma_longest_exists(x);
                if l == id {
                    let i: int = if at == 0 {
                        1
                    } else {
                        0
                    };
                    let c = self.children(p)[i];
                    self.lemma_child(p, i);
                    let m = self.lemma_longest_exists(c);
                    self.lemma_above_parent(x, id);
                    self.lemma_above_trans(p, c, m);
                    self.lemma_above_trans(x, p, m);
                    if m == id {
                        self.lemma_above_parent(c, id);
                        self.lemma_above_refl(id);
                        self.lemma_branch_unique(p, id, i, at);
                    }
                    assert(self.is_leaf(m) && !gone.contains(m) && self.above(x, m));
                } else {
                    assert(self.is_leaf(l) && !gone.contains(l) && self.above(x, l));
                }
            }
        }
        assert(u.nodes.dom() =~= w.nodes.dom());
        let keep = |c: EventId| self.survives(gone, c);
        assert forall|x: EventId| u.nodes.dom().contains(x) implies #[trigger] u.nodes[x]
            == w.nodes[x] by {
            assert(self.has(x));
            assert forall|i: int| 0 <= i < self.children(x).len() implies keep(
                #[trigger] self.children(x)[i],
            ) == !(x == p && i == at) by {
                assert(self.has(self.children(x)[i]));
                assert(self.parent(self.children(x)[i]) == Some(x));
            }
            if x == p {
                lemma_filter_remove(self.children(p), keep, at);
            } else {
                lemma_filter_all(self.children(x), keep);
            }
        }
        assert(u.nodes =~= w.nodes);
    }

    proof fn lemma_survives_cut(self, id: EventId, at: int, x: EventId)
        requires
            self.wf(),
            self.is_leaf(id),
            id != self.root,
            0 <= at < self.children(self.parent(id)->0).len(),
            self.children(self.parent(id)->0)[at] == id,
            self.children(self.parent(id)->0).len() == 1,
        ensures
            self.cut(id, at).survives(set![self.parent(id)->0], x) <==> self.survives(set![id], x),
    {
        let p = self.parent(id)->0;
        let u = self.cut(id, at);
        self.lemma_cut(id, at);
        self.lemma_depth_parent(id);
        if u.survives(set![p], x) {
            let l = choose|l: EventId| #[trigger]
                u.is_leaf(l) && !set![p].contains(l) && u.above(x, l);
            u.lemma_part_above(self, x, l);
            assert(u.has(x));
            assert(self.is_leaf(l) && !set![id].contains(l) && self.above(x, l));
        }
        if self.survives(set![id], x) {
            let l = choose|l: EventId| #[trigger]
                self.is_leaf(l) && !set![id].contains(l) && self.above(x, l);
            if x == id {
                let i = self.lemma_branch(id, l);
            }
            assert(u.has(x));
            assert(u.has(l));
            u.lemma_part_above(self, x, l);
            assert(l != p);
            assert(u.is_leaf(l) && !set![p].contains(l) && u.above(x, l));
        }
    }

    proof fn lemma_cut_on_node(self, id: EventId, at: int, x: EventId)
        requires
            self.wf(),
            self.is_leaf(id),
            id != self.root,
            0 <= at < self.children(self.parent(id)->0).len(),
            self.children(self.parent(id)->0)[at] == id,
            self.children(self.parent(id)->0).len() == 1,
            self.survives(set![id], x),
            self.cut(id, at).survives(set![self.parent(id)->0], x),
        ensures
            self.cut(id, at).without(set![self.parent(id)->0]).nodes[x] == self.without(
                set![id],
            ).nodes[x],
    {
        let p = self.parent(id)->0;
        let u = self.cut(id, at);
        assert(x != p) by {
            if x == p {
                let l = choose|l: EventId| #[trigger]
                    self.is_leaf(l) && !set![id].contains(l) && self.above(x, l);
                let i = self.lemma_branch(p, l);
                self.lemma_below_leaf(id, l);
            }
        }
        let kids = self.children(x);
        assert(u.nodes[x] == self.nodes[x]);
        assert forall|i: int| 0 <= i < kids.len() implies u.survives(set![p], #[trigger] kids[i])
            == self.survives(set![id], kids[i]) by {
            self.lemma_survives_cut(id, at, kids[i]);
        }
        lemma_filter_same(
            kids,
            |c: EventId| u.survives(set![p], c),
            |c: EventId| self.survives(set![id], c),
        );
    }

    /// Nothing hangs below a leaf.
    pub proof fn lemma_below_leaf(self, l: EventId, id: EventId)
        requires
            self.wf(),
            self.is_leaf(l),
            self.has(id),
            self.above(l, id),
        ensures
            id == l,
    {
        if id != l {
            let i = self.lemma_branch(l, id);
        }
    }

    /// Cutting an only child leaves its parent to be taken away next.
    pub proof fn lemma_cut_on(self, id: EventId, at: int)
        requires
            self.wf(),
            self.is_leaf(id),
            id != self.root,
            0 <= at < self.children(self.parent(id)->0).len(),
            self.children(self.parent(id)->0)[at] == id,
            self.children(self.parent(id)->0).len() == 1,
            exists|l: EventId| #[trigger] self.is_leaf(l) && l != id,
        ensures
            self.cut(id, at).is_leaf(self.parent(id)->0),
            exists|l: EventId| #[trigger]
                self.cut(id, at).is_leaf(l) && l != self.parent(id)->0,
            self.cut(id, at).without(set![self.parent(id)->0]) == self.without(set![id]),
    {
        let p = self.parent(id)->0;
        let u = self.cut(id, at);
        let a = u.without(set![p]);
        let b = self.without(set![id]);
        self.lemma_cut(id, at);
        self.lemma_depth_parent(id);
        assert(u.is_leaf(p));
        let other = choose|l: EventId| #[trigger] self.is_leaf(l) && l != id;
        assert(u.is_leaf(other) && other != p);
        assert forall|x: EventId| a.nodes.dom().contains(x) <==> b.nodes.dom().contains(x) by {
            self.lemma_survives_cut(id, at, x);
        }
        assert forall|x: EventId| a.nodes.dom().contains(x) implies #[trigger] a.nodes[x]
            == b.nodes[x] by {
            self.lemma_survives_cut(id, at, x);
            self.lemma_cut_on_node(id, at, x);
        }
        assert(a.nodes =~= b.nodes);
    }
}

} // verus!
