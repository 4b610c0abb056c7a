//! What the tree and what becomes of it come to, said of the nodes alone: of who is filed, who
//! names whom as parent, and in which order children are listed.

use vstd::prelude::*;

use crate::chain;
use crate::event::{self, ActionV, Event, EventAction, EventId, EventV, PrivMsgV};
use crate::map::EventNode;
use crate::model::Model;
use crate::tree::{NodeV, Tree};

verus! {

/// `path` leads down the tree: every node on it is filed, and each but the first has the one
/// before it as its parent.
pub open spec fn is_path(t: Tree, path: Seq<EventId>) -> bool {
    &&& path.len() > 0
    &&& forall|i: int| 0 <= i < path.len() ==> t.nodes.dom().contains(#[trigger] path[i])
    &&& forall|i: int, j: int|
        #![trigger path[i], path[j]]
        0 <= i && j == i + 1 && j < path.len() ==> t.nodes[path[j]].parent == Some(path[i])
}

/// `path` leads down from `a` to `b`.
pub open spec fn leads(t: Tree, path: Seq<EventId>, a: EventId, b: EventId) -> bool {
    is_path(t, path) && path[0] == a && path.last() == b
}

/// Climbing from a node on the path goes back along the path.
proof fn lemma_path_climb(t: Tree, path: Seq<EventId>, i: int, k: nat)
    requires
        is_path(t, path),
        0 <= i < path.len(),
        k <= i,
    ensures
        t.climb(path[i], k) == Some(path[i - k]),
    decreases k,
{
    if k > 0 {
        assert(path[i - 1] == path[i - 1]);
        lemma_path_climb(t, path, i - 1, (k - 1) as nat);
    }
}

pub proof fn lemma_path_depth(t: Tree, path: Seq<EventId>)
    requires
        t.wf(),
        is_path(t, path),
    ensures
        forall|i: int|
            0 <= i < path.len() ==> t.has(#[trigger] path[i]) && t.depth(path[i]) == t.depth(
                path[0],
            ) + i,
        forall|i: int, j: int|
            0 <= i <= j < path.len() ==> t.above(#[trigger] path[i], #[trigger] path[j]),
{
    assert forall|i: int| 0 <= i < path.len() implies t.has(#[trigger] path[i]) && t.depth(path[i])
        == t.depth(path[0]) + i by {
        lemma_path_climb(t, path, i, i as nat);
        t.lemma_climb_depth(path[i], i as nat);
    }
    assert forall|i: int, j: int| 0 <= i <= j < path.len() implies t.above(
        #[trigger] path[i],
        #[trigger] path[j],
    ) by {
        lemma_path_climb(t, path, j, (j - i) as nat);
    }
}

/// Depth is the length of the way down from the root, and the difference between two depths on a
/// path is the number of steps between them.
pub proof fn law_depth_is_the_way_down(t: Tree, path: Seq<EventId>)
    requires
        t.wf(),
        is_path(t, path),
    ensures
        path[0] == t.root ==> t.depth(path.last()) == path.len() - 1,
        t.depth(path.last()) == t.depth(path[0]) + path.len() - 1,
{
    lemma_path_depth(t, path);
    t.lemma_depth_root();
}

/// The nodes above a node are those on the way down to it from the root.
pub proof fn law_above_is_on_the_way_down(t: Tree, path: Seq<EventId>, a: EventId)
    requires
        t.wf(),
        is_path(t, path),
        path[0] == t.root,
    ensures
        t.above(a, path.last()) <==> path.contains(a),
{
    let n = path.len() - 1;
    lemma_path_depth(t, path);
    t.lemma_depth_root();
    if t.above(a, path.last()) {
        t.lemma_above_depth(a, path.last());
        let k = (n - t.depth(a)) as nat;
        lemma_path_climb(t, path, n, k);
        assert(path[n - k] == a);
    }
    if path.contains(a) {
        let i = choose|i: int| 0 <= i < path.len() && path[i] == a;
        assert(t.above(path[i], path[n]));
    }
}

/// The way down from the root to a node.
proof fn lemma_way_down(t: Tree, id: EventId) -> (path: Seq<EventId>)
    requires
        t.wf(),
        t.has(id),
    ensures
        leads(t, path, t.root, id),
        path.len() == t.depth(id) + 1,
    decreases t.depth(id),
{
    t.lemma_depth_root();
    if id == t.root {
        seq![id]
    } else {
        t.lemma_depth_parent(id);
        let before = lemma_way_down(t, t.parent(id)->0);
        before.push(id)
    }
}

/// The way down from `top` to a node below it.
pub proof fn lemma_way_from(t: Tree, top: EventId, id: EventId) -> (path: Seq<EventId>)
    requires
        t.wf(),
        t.has(id),
        t.above(top, id),
    ensures
        leads(t, path, top, id),
        path.len() == t.depth(id) - t.depth(top) + 1,
    decreases t.depth(id),
{
    t.lemma_above_depth(top, id);
    if id == top {
        seq![id]
    } else {
        t.lemma_above_parent(top, id);
        t.lemma_depth_parent(id);
        let before = lemma_way_from(t, top, t.parent(id)->0);
        before.push(id)
    }
}

/// To every node there is a way down from the root, and only one.
pub proof fn law_one_way_down(t: Tree, id: EventId, p: Seq<EventId>, q: Seq<EventId>)
    requires
        t.wf(),
        t.nodes.dom().contains(id),
    ensures
        exists|path: Seq<EventId>| leads(t, path, t.root, id),
        leads(t, p, t.root, id) && leads(t, q, t.root, id) ==> p == q,
{
    let path = lemma_way_down(t, id);
    if leads(t, p, t.root, id) && leads(t, q, t.root, id) {
        law_depth_is_the_way_down(t, p);
        law_depth_is_the_way_down(t, q);
        let n = p.len() - 1;
        assert forall|i: int| 0 <= i < p.len() implies p[i] == q[i] by {
            lemma_path_climb(t, p, n, (n - i) as nat);
            lemma_path_climb(t, q, n, (n - i) as nat);
        }
        assert(p =~= q);
    }
}

/// The nodes form a tree: there are finitely many, the root has no parent, there is a way down from
/// the root to every node, and children are listed once each, by the parent that they name.
pub proof fn law_what_a_tree_is(t: Tree)
    ensures
        t.wf() <==> {
            &&& t.nodes.dom().finite()
            &&& t.nodes.dom().contains(t.root)
            &&& t.nodes[t.root].parent is None
            &&& forall|id: EventId| #[trigger]
                t.nodes.dom().contains(id) ==> exists|path: Seq<EventId>|
                    leads(t, path, t.root, id)
            &&& forall|p: EventId, c: EventId|
                t.nodes.dom().contains(p) ==> (#[trigger] t.nodes[p].children.contains(c)
                    <==> t.nodes.dom().contains(c) && t.nodes[c].parent == Some(p))
            &&& forall|p: EventId| #[trigger]
                t.nodes.dom().contains(p) ==> t.nodes[p].children.no_duplicates()
        },
{
    if t.wf() {
        assert forall|id: EventId| #[trigger] t.nodes.dom().contains(id) implies exists|
            path: Seq<EventId>,
        | leads(t, path, t.root, id) by {
            assert(t.has(id));
            let path = lemma_way_down(t, id);
        }
        assert forall|p: EventId, c: EventId|
            t.nodes.dom().contains(p) implies (#[trigger] t.nodes[p].children.contains(c)
            <==> t.nodes.dom().contains(c) && t.nodes[c].parent == Some(p)) by {
            assert(t.has(p));
            if t.nodes[p].children.contains(c) {
                let i = choose|i: int| 0 <= i < t.children(p).len() && t.children(p)[i] == c;
                t.lemma_child(p, i);
            }
            if t.nodes.dom().contains(c) && t.nodes[c].parent == Some(p) {
                assert(t.has(c));
                assert(t.children(t.parent(c)->0).contains(c));
            }
        }
        assert forall|p: EventId| #[trigger]
            t.nodes.dom().contains(p) implies t.nodes[p].children.no_duplicates() by {
            assert(t.children(p).no_duplicates());
        }
    }
    if {
        &&& t.nodes.dom().finite()
        &&& t.nodes.dom().contains(t.root)
        &&& t.nodes[t.root].parent is None
        &&& forall|id: EventId| #[trigger]
            t.nodes.dom().contains(id) ==> exists|path: Seq<EventId>| leads(t, path, t.root, id)
        &&& forall|p: EventId, c: EventId|
            t.nodes.dom().contains(p) ==> (#[trigger] t.nodes[p].children.contains(c)
                <==> t.nodes.dom().contains(c) && t.nodes[c].parent == Some(p))
        &&& forall|p: EventId| #[trigger]
            t.nodes.dom().contains(p) ==> t.nodes[p].children.no_duplicates()
    } {
        assert forall|id: EventId| #[trigger] t.has(id) && id != t.root implies t.parent(id) is Some
            && t.has(t.parent(id)->0) && t.children(t.parent(id)->0).contains(id) by {
            let path = choose|path: Seq<EventId>| leads(t, path, t.root, id);
            let n = path.len() - 1;
            assert(path[n] == id && path[n - 1] == path[n - 1]);
            assert(t.nodes[path[n - 1]].children.contains(id));
        }
        assert forall|id: EventId| #[trigger] t.has(id) implies t.above(t.root, id) by {
            let path = choose|path: Seq<EventId>| leads(t, path, t.root, id);
            lemma_path_climb(t, path, path.len() - 1, (path.len() - 1) as nat);
        }
        assert forall|p: EventId, i: int|
            #![trigger t.children(p)[i]]
            t.has(p) && 0 <= i < t.children(p).len() implies t.has(t.children(p)[i]) && t.parent(
            t.children(p)[i],
        ) == Some(p) by {
            assert(t.nodes[p].children.contains(t.children(p)[i]));
        }
        assert forall|p: EventId| t.has(p) implies (#[trigger] t.children(p)).no_duplicates() by {}
    }
}

/// The paths `p` and `q` part after their `k`-th step, and `p` goes on into the older branch.
pub open spec fn goes_older(t: Tree, p: Seq<EventId>, q: Seq<EventId>, k: int) -> bool {
    &&& 0 <= k && k + 1 < p.len() && k + 1 < q.len()
    &&& p[k] == q[k]
    &&& exists|i: int, j: int|
        #![trigger t.nodes[p[k]].children[i], t.nodes[p[k]].children[j]]
        0 <= i < j < t.nodes[p[k]].children.len() && t.nodes[p[k]].children[i] == p[k + 1]
            && t.nodes[p[k]].children[j] == q[k + 1]
}

/// The end of the longest chain from `top` has no children, and no way down from `top` to another
/// node without children is longer. Of those as long, none ends in a later event, and none that
/// ends in an event of the same time goes through an older branch.
pub proof fn law_longest_chain(
    t: Tree,
    top: EventId,
    h: EventId,
    p: Seq<EventId>,
    l: EventId,
    q: Seq<EventId>,
)
    requires
        t.wf(),
        t.is_longest(top, h),
        leads(t, p, top, h),
        leads(t, q, top, l),
        t.nodes[l].children.len() == 0,
        l != h,
    ensures
        t.nodes[h].children.len() == 0,
        q.len() <= p.len(),
        q.len() == p.len() ==> t.nodes[l].event.timestamp <= t.nodes[h].event.timestamp,
        q.len() == p.len() && t.nodes[l].event.timestamp == t.nodes[h].event.timestamp
            ==> exists|k: int| #[trigger] goes_older(t, p, q, k),
{
    lemma_path_depth(t, p);
    lemma_path_depth(t, q);
    assert(t.has(l) && t.is_leaf(l));
    assert(t.above(q[0], q[q.len() - 1]));
    assert(t.beats(h, l));
    if q.len() == p.len() && t.nodes[l].event.timestamp == t.nodes[h].event.timestamp {
        assert(t.precedes(h, l));
        let (c, i, j) = choose|c: EventId, i: int, j: int|
            #![trigger t.children(c)[i], t.children(c)[j]]
            t.has(c) && 0 <= i < j < t.children(c).len() && t.above(t.children(c)[i], h)
                && t.above(t.children(c)[j], l);
        t.lemma_child(c, i);
        t.lemma_child(c, j);
        t.lemma_above_trans(c, t.children(c)[i], h);
        t.lemma_above_trans(c, t.children(c)[j], l);
        assert(t.has(top) && t.above(top, h) && t.above(top, l));
        if t.depth(c) < t.depth(top) {
            t.lemma_above_chain(t.children(c)[i], top, h);
            t.lemma_above_chain(t.children(c)[j], top, l);
            t.lemma_branch_unique(c, top, i, j);
        }
        let n = p.len() - 1;
        let k = t.depth(c) - t.depth(top);
        t.lemma_above_depth(c, h);
        t.lemma_above_depth(c, l);
        t.lemma_above_depth(t.children(c)[i], h);
        t.lemma_above_depth(t.children(c)[j], l);
        lemma_path_climb(t, p, n, (n - k) as nat);
        lemma_path_climb(t, q, n, (n - k) as nat);
        lemma_path_climb(t, p, n, (n - k - 1) as nat);
        lemma_path_climb(t, q, n, (n - k - 1) as nat);
        assert(t.nodes[p[k]].children[i] == p[k + 1]);
        assert(t.nodes[p[k]].children[j] == q[k + 1]);
        assert(goes_older(t, p, q, k));
    }
}

/// The head is filed, has no children and ends the longest chain from the root: no way down to
/// another node without children is longer. Of those as long, none ends in a later event, and none
/// that ends in an event of the same time goes through an older branch.
pub proof fn law_head_ends_the_longest_chain(
    t: Tree,
    p: Seq<EventId>,
    l: EventId,
    q: Seq<EventId>,
)
    requires
        t.wf(),
        leads(t, p, t.root, t.head()),
        leads(t, q, t.root, l),
        t.nodes[l].children.len() == 0,
        l != t.head(),
    ensures
        q.len() <= p.len(),
        q.len() == p.len() ==> t.nodes[l].event.timestamp <= t.nodes[t.head()].event.timestamp,
        q.len() == p.len() && t.nodes[l].event.timestamp == t.nodes[t.head()].event.timestamp
            ==> exists|k: int| #[trigger] goes_older(t, p, q, k),
{
    t.lemma_head();
    law_longest_chain(t, t.root, t.head(), p, l, q);
}

/// There is a head, and every chain that starts at a node has an end.
pub proof fn law_every_chain_has_an_end(t: Tree, top: EventId)
    requires
        t.wf(),
        t.nodes.dom().contains(top),
    ensures
        t.nodes.dom().contains(t.head()),
        t.nodes[t.head()].children.len() == 0,
        t.is_longest(t.root, t.head()),
        exists|h: EventId| t.is_longest(top, h),
        forall|h: EventId| #[trigger]
            t.is_longest(top, h) ==> t.nodes.dom().contains(h) && t.nodes[h].children.len() == 0
                && exists|p: Seq<EventId>| leads(t, p, top, h),
{
    t.lemma_head();
    let g = t.lemma_longest_exists(top);
    assert forall|h: EventId| #[trigger] t.is_longest(top, h) implies t.nodes.dom().contains(h)
        && t.nodes[h].children.len() == 0 && exists|p: Seq<EventId>| leads(t, p, top, h) by {
        let p = lemma_way_from(t, top, h);
    }
}

/// Two paths, equally long, go together up to their `k`-th step and part after it.
pub open spec fn part_after(p: Seq<EventId>, q: Seq<EventId>, k: int) -> bool {
    &&& p.len() == q.len()
    &&& 0 <= k && k + 1 < p.len()
    &&& p[k] == q[k]
    &&& p[k + 1] != q[k + 1]
}

/// Paths that share a node on one level share those on the levels above.
proof fn lemma_together(t: Tree, p: Seq<EventId>, q: Seq<EventId>, i: int, m: int)
    requires
        is_path(t, p),
        is_path(t, q),
        0 <= i <= m,
        m < p.len(),
        m < q.len(),
        p[m] == q[m],
    ensures
        p[i] == q[i],
{
    lemma_path_climb(t, p, m, (m - i) as nat);
    lemma_path_climb(t, q, m, (m - i) as nat);
}

/// Where two paths part.
proof fn lemma_parting_step(p: Seq<EventId>, q: Seq<EventId>, n: int) -> (k: int)
    requires
        p.len() == q.len(),
        0 <= n < p.len(),
        p[0] == q[0],
        p[n] != q[n],
    ensures
        part_after(p, q, k),
    decreases n,
{
    if p[n - 1] == q[n - 1] {
        n - 1
    } else {
        lemma_parting_step(p, q, n - 1)
    }
}

/// Nodes whose ways down part after the `k`-th step have the `k`-th node as their lowest common
/// one.
proof fn lemma_fork_step(t: Tree, p: Seq<EventId>, q: Seq<EventId>, k: int)
    requires
        t.wf(),
        is_path(t, p),
        is_path(t, q),
        part_after(p, q, k),
    ensures
        t.fork(p.last(), q.last()) == p[k],
{
    let n = p.len() - 1;
    let m = (n - k) as nat;
    lemma_path_climb(t, p, n, m);
    lemma_path_climb(t, q, n, m);
    assert forall|j: nat| j < m implies #[trigger] t.climb(p.last(), j) != t.climb(
        q.last(),
        j,
    ) by {
        lemma_path_climb(t, p, n, j);
        lemma_path_climb(t, q, n, j);
        if p[n - j] == q[n - j] {
            lemma_together(t, p, q, k + 1, n - j);
        }
    }
    t.lemma_meet_climb(p.last(), q.last(), m);
}

/// The node to which two others are counted is the second one if the first hangs from it; where
/// both stand equally deep it is the last node that the ways down to them share; and otherwise it
/// is the root.
pub proof fn law_where_two_nodes_meet(
    t: Tree,
    a: EventId,
    b: EventId,
    p: Seq<EventId>,
    q: Seq<EventId>,
)
    requires
        t.wf(),
        leads(t, p, t.root, a),
        leads(t, q, t.root, b),
    ensures
        t.nodes[a].parent == Some(b) ==> t.meet(a, b) == b,
        a == b ==> t.meet(a, b) == a,
        p.len() == q.len() && a != b ==> exists|k: int| #[trigger]
            part_after(p, q, k) && t.meet(a, b) == p[k],
        p.len() != q.len() && t.nodes[a].parent != Some(b) ==> t.meet(a, b) == t.root,
        p.contains(t.meet(a, b)) && q.contains(t.meet(a, b)),
{
    lemma_path_depth(t, p);
    lemma_path_depth(t, q);
    t.lemma_depth_root();
    assert(t.has(a) && t.has(b));
    if t.nodes[a].parent == Some(b) {
        assert(a != t.root);
        t.lemma_depth_parent(a);
    }
    if a == b {
        t.lemma_fork(a, b);
        assert(t.above(t.fork(a, b), a));
        t.lemma_above_refl(a);
        assert(t.is_fork(a, b, a));
    }
    if p.len() == q.len() && a != b {
        let k = lemma_parting_step(p, q, p.len() - 1);
        lemma_fork_step(t, p, q, k);
        assert(part_after(p, q, k) && t.meet(a, b) == p[k]);
    }
    t.lemma_meet(a, b);
    law_above_is_on_the_way_down(t, p, t.meet(a, b));
    law_above_is_on_the_way_down(t, q, t.meet(a, b));
}

/// How far a node lies behind another is what the way down to the other is longer, and one more.
pub proof fn law_gap_is_the_difference(t: Tree, p: Seq<EventId>, q: Seq<EventId>)
    requires
        t.wf(),
        is_path(t, p),
        is_path(t, q),
        p[0] == t.root,
        q[0] == t.root,
    ensures
        t.gap(p.last(), q.last()) == q.len() + 1 - p.len(),
{
    law_depth_is_the_way_down(t, p);
    law_depth_is_the_way_down(t, q);
}

/// `q` leads from the root to a node without children, is as long as `p` and parts from it after
/// the `k`-th step.
pub open spec fn rivals(t: Tree, p: Seq<EventId>, q: Seq<EventId>, k: int) -> bool {
    &&& leads(t, q, t.root, q.last())
    &&& t.nodes[q.last()].children.len() == 0
    &&& part_after(p, q, k)
}

proof fn lemma_rival_is_candidate(t: Tree, p: Seq<EventId>, q: Seq<EventId>, k: int)
    requires
        t.wf(),
        leads(t, p, t.root, t.head()),
        rivals(t, p, q, k),
    ensures
        t.candidate(p[k]),
        t.depth(p[k]) == k,
        !t.single(),
{
    let l = q.last();
    let h = t.head();
    let n = p.len() - 1;
    t.lemma_head();
    lemma_path_depth(t, p);
    lemma_path_depth(t, q);
    t.lemma_depth_root();
    if p[n] == q[n] {
        lemma_together(t, p, q, k + 1, n);
    }
    assert(t.has(l) && t.is_leaf(l) && l != h);
    lemma_fork_step(t, q, p, k);
    if t.parent(l) == Some(h) {
        assert(l != t.root);
        t.lemma_depth_parent(l);
    }
    assert(t.meet(l, h) == p[k]);
}

proof fn lemma_candidate_is_rival(t: Tree, p: Seq<EventId>, c: EventId) -> (q: Seq<EventId>)
    requires
        t.wf(),
        leads(t, p, t.root, t.head()),
        t.candidate(c),
        t.depth(c) > 0,
    ensures
        rivals(t, p, q, t.depth(c) as int),
        p[t.depth(c) as int] == c,
{
    let h = t.head();
    let l = choose|l: EventId| #[trigger] t.is_leaf(l) && l != h && t.meet(l, h) == c;
    t.lemma_head();
    t.lemma_depth_root();
    if t.parent(l) == Some(h) {
        assert(l != t.root);
        t.lemma_depth_parent(l);
        t.lemma_below_leaf(h, l);
    }
    let q = lemma_way_down(t, l);
    law_depth_is_the_way_down(t, p);
    let k = lemma_parting_step(p, q, p.len() - 1);
    lemma_fork_step(t, q, p, k);
    lemma_path_depth(t, p);
    assert(p[k] == c);
    q
}

/// The root belongs at the lowest node at which another chain as long as the one to the head
/// leaves the way to the head, if that is more than ten steps down; otherwise it belongs where it
/// is.
pub proof fn law_where_the_root_belongs(t: Tree, p: Seq<EventId>)
    requires
        t.wf(),
        leads(t, p, t.root, t.head()),
    ensures
        (forall|q: Seq<EventId>, k: int| #[trigger] rivals(t, p, q, k) ==> k <= 10)
            ==> t.next_root() == t.root,
        (exists|q: Seq<EventId>, k: int| #[trigger] rivals(t, p, q, k) && k > 10) ==> exists|
            q: Seq<EventId>,
            m: int,
        | #[trigger]
            rivals(t, p, q, m) && m > 10 && t.next_root() == p[m] && t.next_root() != t.root && (
            forall|r: Seq<EventId>, k: int| #[trigger] rivals(t, p, r, k) ==> k <= m),
{
    lemma_path_depth(t, p);
    t.lemma_depth_root();
    if exists|q: Seq<EventId>, k: int| #[trigger] rivals(t, p, q, k) && k > 10 {
        let (q, k) = choose|q: Seq<EventId>, k: int| #[trigger] rivals(t, p, q, k) && k > 10;
        lemma_rival_is_candidate(t, p, q, k);
        t.lemma_anchor();
        let c = t.anchor();
        let m = t.depth(c) as int;
        let r = lemma_candidate_is_rival(t, p, c);
        assert forall|s: Seq<EventId>, j: int| #[trigger] rivals(t, p, s, j) implies j <= m by {
            lemma_rival_is_candidate(t, p, s, j);
        }
        assert(rivals(t, p, r, m));
    }
    if forall|q: Seq<EventId>, k: int| #[trigger] rivals(t, p, q, k) ==> k <= 10 {
        if t.next_root() != t.root {
            t.lemma_anchor();
            let r = lemma_candidate_is_rival(t, p, t.anchor());
            assert(rivals(t, p, r, t.depth(t.anchor()) as int));
        }
    }
}

/// Nothing branches off on the way to a node exactly if every node before it on the way down from
/// the root has one child.
pub proof fn law_clear_way(t: Tree, p: Seq<EventId>)
    requires
        t.wf(),
        is_path(t, p),
        p[0] == t.root,
    ensures
        t.clear(p.last()) <==> forall|i: int|
            0 <= i < p.len() - 1 ==> t.nodes[#[trigger] p[i]].children.len() == 1,
{
    let n = p.len() - 1;
    lemma_path_depth(t, p);
    if t.clear(p.last()) {
        assert forall|i: int| 0 <= i < p.len() - 1 implies t.nodes[#[trigger] p[i]].children.len()
            == 1 by {
            assert(t.above(p[i], p[n]));
            assert(t.depth(p[i]) != t.depth(p[n]));
        }
    }
    if forall|i: int| 0 <= i < p.len() - 1 ==> t.nodes[#[trigger] p[i]].children.len() == 1 {
        assert forall|x: EventId| #[trigger]
            t.above(x, p.last()) && x != p.last() implies t.children(x).len() == 1 by {
            law_above_is_on_the_way_down(t, p, x);
            let i = choose|i: int| 0 <= i < p.len() && p[i] == x;
            assert(t.nodes[p[i]].children.len() == 1);
        }
    }
}

/// Moving the root to `r` keeps the nodes to which there is a way down from `r`, and no others.
/// `r` loses its parent; nothing else about the nodes that are kept changes.
pub proof fn law_moving_the_root(t: Tree, r: EventId, id: EventId)
    requires
        t.wf(),
        t.nodes.dom().contains(r),
    ensures
        t.reroot(r).root == r,
        t.reroot(r).nodes.dom().contains(id) <==> exists|path: Seq<EventId>|
            leads(t, path, r, id),
        t.reroot(r).nodes[r] == (NodeV { parent: None, ..t.nodes[r] }),
        t.reroot(r).nodes.dom().contains(id) && id != r ==> t.reroot(r).nodes[id] == t.nodes[id],
{
    t.lemma_reroot(r);
    let u = t.reroot(r);
    assert(u.has(id) <==> t.has(id) && t.above(r, id));
    if u.has(id) {
        let path = lemma_way_from(t, r, id);
    }
    if exists|path: Seq<EventId>| leads(t, path, r, id) {
        let path = choose|path: Seq<EventId>| leads(t, path, r, id);
        lemma_path_depth(t, path);
        assert(t.above(path[0], path[path.len() - 1]));
    }
}

/// Taking leaves away keeps the nodes from which there is a way down to a leaf that stays, and no
/// others. The root, parents and events stay as they are, and so does the order of the children.
pub proof fn law_taking_leaves_away(t: Tree, gone: Set<EventId>, id: EventId)
    requires
        t.wf(),
    ensures
        t.without(gone).root == t.root,
        t.without(gone).nodes.dom().contains(id) <==> exists|path: Seq<EventId>, l: EventId|
            leads(t, path, id, l) && t.nodes[l].children.len() == 0 && !gone.contains(l),
        t.without(gone).nodes.dom().contains(id) ==> t.without(gone).nodes[id].parent
            == t.nodes[id].parent && t.without(gone).nodes[id].event == t.nodes[id].event
            && t.without(gone).nodes[id].children == t.nodes[id].children.filter(
            |c: EventId| t.without(gone).nodes.dom().contains(c),
        ),
{
    let u = t.without(gone);
    if u.nodes.dom().contains(id) {
        let l = choose|l: EventId| #[trigger] t.is_leaf(l) && !gone.contains(l) && t.above(id, l);
        let path = lemma_way_from(t, id, l);
        assert(leads(t, path, id, l) && t.nodes[l].children.len() == 0 && !gone.contains(l));
        crate::shape::lemma_filter_same(
            t.nodes[id].children,
            |c: EventId| t.survives(gone, c),
            |c: EventId| u.nodes.dom().contains(c),
        );
    }
    if exists|path: Seq<EventId>, l: EventId|
        leads(t, path, id, l) && t.nodes[l].children.len() == 0 && !gone.contains(l) {
        let (path, l) = choose|path: Seq<EventId>, l: EventId|
            leads(t, path, id, l) && t.nodes[l].children.len() == 0 && !gone.contains(l);
        lemma_path_depth(t, path);
        assert(t.above(path[0], path[path.len() - 1]));
        assert(t.has(l) && t.is_leaf(l));
    }
}

/// Pruning takes away the leaves whose way down from the root is more than nine steps shorter than
/// the way to the head, and no others, with the nodes that lead to such leaves only.
pub proof fn law_pruning_by_length(t: Tree, p: Seq<EventId>, l: EventId, q: Seq<EventId>)
    requires
        t.wf(),
        leads(t, p, t.root, t.head()),
        leads(t, q, t.root, l),
    ensures
        t.nodes[l].children.len() == 0 ==> (t.pruned().nodes.dom().contains(l) <==> p.len() + 1
            - q.len() <= 10),
        t.pruned().nodes.dom().contains(l) <==> exists|m: EventId, r: Seq<EventId>|
            leads(t, r, t.root, m) && t.nodes[m].children.len() == 0 && p.len() + 1 - r.len() <= 10
                && r.contains(l),
        t.pruned().root == t.root,
        t.pruned().nodes.dom().contains(l) ==> t.pruned().nodes[l].parent == t.nodes[l].parent
            && t.pruned().nodes[l].event == t.nodes[l].event && t.pruned().nodes[l].children
            == t.nodes[l].children.filter(|c: EventId| t.pruned().nodes.dom().contains(c)),
{
    let u = t.pruned();
    let gone = t.stale();
    lemma_path_depth(t, p);
    lemma_path_depth(t, q);
    t.lemma_depth_root();
    law_taking_leaves_away(t, gone, l);
    assert(t.has(l));
    if u.nodes.dom().contains(l) {
        let m = choose|m: EventId| #[trigger] t.is_leaf(m) && !gone.contains(m) && t.above(l, m);
        let r = lemma_way_down(t, m);
        law_above_is_on_the_way_down(t, r, l);
        assert(leads(t, r, t.root, m) && t.nodes[m].children.len() == 0 && p.len() + 1 - r.len()
            <= 10 && r.contains(l));
        if t.nodes[l].children.len() == 0 {
            t.lemma_below_leaf(l, m);
        }
    }
    if t.nodes[l].children.len() == 0 && p.len() + 1 - q.len() <= 10 {
        t.lemma_above_refl(l);
        assert(t.is_leaf(l) && !gone.contains(l) && t.above(l, l));
    }
    if exists|m: EventId, r: Seq<EventId>|
        leads(t, r, t.root, m) && t.nodes[m].children.len() == 0 && p.len() + 1 - r.len() <= 10
            && r.contains(l) {
        let (m, r) = choose|m: EventId, r: Seq<EventId>|
            leads(t, r, t.root, m) && t.nodes[m].children.len() == 0 && p.len() + 1 - r.len() <= 10
                && r.contains(l);
        law_depth_is_the_way_down(t, r);
        law_above_is_on_the_way_down(t, r, l);
        assert(t.has(m)) by {
            assert(r[r.len() - 1] == m);
        }
        assert(t.is_leaf(m) && !gone.contains(m) && t.above(l, m));
    }
}

/// An event that arrives when its previous one is in the tidied tree, at most ten steps less deep
/// than the head, is hung there: it is filed under the digest of its bytes, without children, and
/// is the youngest child of its previous event. Nothing else in the tidied tree changes. Any other
/// event changes nothing in it.
pub proof fn law_arrival(t: Tree, e: EventV, p: Seq<EventId>, q: Seq<EventId>, other: EventId)
    requires
        t.wf(),
        chain::can_settle(t, e),
        leads(t.tidied(), p, t.tidied().root, t.head()),
    ensures
        leads(t.tidied(), q, t.tidied().root, e.previous_event_hash) && p.len() - q.len() <= 10
            ==> {
            let id = crate::digest::ripemd256(crate::serial::event_bytes(e));
            let prev = e.previous_event_hash;
            let u = t.tidied();
            let v = chain::settle(t, e);
            &&& v.root == u.root
            &&& v.nodes.dom() == u.nodes.dom().insert(id)
            &&& !u.nodes.dom().contains(id)
            &&& v.nodes[id] == NodeV { parent: Some(prev), event: e, children: Seq::empty() }
            &&& v.nodes[prev] == NodeV {
                children: u.nodes[prev].children.push(id),
                ..u.nodes[prev]
            }
            &&& u.nodes.dom().contains(other) && other != prev ==> v.nodes[other]
                == u.nodes[other]
        },
        leads(t.tidied(), q, t.tidied().root, e.previous_event_hash) && p.len() - q.len() > 10
            ==> chain::settle(t, e) == t.tidied(),
        !t.tidied().nodes.dom().contains(e.previous_event_hash) ==> chain::settle(t, e)
            == t.tidied(),
{
    let u = t.tidied();
    let prev = e.previous_event_hash;
    let id = event::event_id(e);
    t.lemma_tidied();
    u.lemma_depth_root();
    lemma_path_depth(u, p);
    if leads(u, q, u.root, prev) {
        lemma_path_depth(u, q);
        assert(u.has(prev)) by {
            assert(q[q.len() - 1] == prev);
        }
        if p.len() - q.len() <= 10 {
            let v = chain::settle(t, e);
            assert(u.takes(e));
            assert(id != prev);
            assert(v.nodes.dom() =~= u.nodes.dom().insert(id));
            assert(v.nodes[prev].children == u.nodes[prev].children.push(id));
        }
    }
}

/// Tidying is pruning and then moving the root to where it belongs in the pruned tree.
pub proof fn law_tidying_prunes_and_moves_the_root(t: Tree, id: EventId)
    requires
        t.wf(),
    ensures
        t.tidied().root == t.pruned().next_root(),
        t.tidied().nodes.dom().contains(id) <==> exists|path: Seq<EventId>|
            leads(t.pruned(), path, t.pruned().next_root(), id),
        t.tidied().nodes.dom().contains(id) && id != t.tidied().root ==> t.tidied().nodes[id]
            == t.pruned().nodes[id],
        t.tidied().nodes[t.tidied().root] == (NodeV {
            parent: None,
            ..t.pruned().nodes[t.tidied().root]
        }),
{
    t.lemma_pruned();
    t.pruned().lemma_next_root();
    law_moving_the_root(t.pruned(), t.pruned().next_root(), id);
}

/// An event can be dealt with exactly if every node before the place where the root belongs in the
/// pruned tree has one child and, in case the event is to be hung, its bytes can be digested, the
/// digest is not the id of a node, and there is room for one more node.
pub proof fn law_when_an_event_can_be_dealt_with(t: Tree, e: EventV, p: Seq<EventId>)
    requires
        t.wf(),
        leads(t.pruned(), p, t.root, t.pruned().next_root()),
    ensures
        chain::can_settle(t, e) <==> {
            let u = t.tidied();
            let prev = e.previous_event_hash;
            &&& forall|i: int|
                0 <= i < p.len() - 1 ==> t.pruned().nodes[#[trigger] p[i]].children.len() == 1
            &&& u.nodes.dom().contains(prev) && u.depth(u.head()) - u.depth(prev) <= 10 ==> {
                &&& crate::serial::event_bytes(e).len() < 0x2000_0000_0000_0000
                &&& !u.nodes.dom().contains(
                    crate::digest::ripemd256(crate::serial::event_bytes(e)),
                )
                &&& u.nodes.dom().len() + 1 < 0xffff_ffff
            }
        },
{
    t.lemma_pruned();
    t.lemma_tidied();
    law_clear_way(t.pruned(), p);
}

/// Events are dealt with one after the other, in the order in which they come.
pub proof fn law_arrivals_in_order(t: Tree, events: Seq<EventV>, e: EventV)
    ensures
        chain::settle_all(t, Seq::empty()) == t,
        chain::can_settle_all(t, Seq::empty()),
        chain::settle_all(t, events.push(e)) == chain::settle(chain::settle_all(t, events), e),
        chain::can_settle_all(t, events.push(e)) <==> chain::can_settle_all(t, events)
            && chain::can_settle(chain::settle_all(t, events), e),
{
    let n = events.len() as int;
    let all = events.push(e);
    assert(all.drop_last() =~= events);
    assert(all.take(n) =~= events);
    if chain::can_settle_all(t, all) {
        assert(chain::can_settle(chain::settle_all(t, all.take(n)), all[n]));
        assert forall|i: int| 0 <= i < n implies chain::can_settle(
            #[trigger] chain::settle_all(t, events.take(i)),
            events[i],
        ) by {
            assert(all.take(i) =~= events.take(i));
            assert(chain::can_settle(chain::settle_all(t, all.take(i)), all[i]));
        }
    }
    if chain::can_settle_all(t, events) && chain::can_settle(chain::settle_all(t, events), e) {
        assert forall|i: int| 0 <= i < all.len() implies chain::can_settle(
            #[trigger] chain::settle_all(t, all.take(i)),
            all[i],
        ) by {
            if i < n {
                assert(all.take(i) =~= events.take(i));
                assert(chain::can_settle(chain::settle_all(t, events.take(i)), events[i]));
            }
        }
    }
}

/// The contents of a model are its root, what its map files, and the contents of the events put
/// aside, in order. It is well formed exactly if the map is, the nodes form a tree, and there are
/// few enough of them to be counted in 32 bits.
pub proof fn law_contents_of_a_model(m: Model)
    ensures
        m@.tree == m.tree(),
        m@.tree.root == m.current_root,
        m@.tree.nodes == m.event_map@,
        m@.orphans.len() == m.orphans@.len(),
        forall|i: int| 0 <= i < m.orphans@.len() ==> #[trigger] m@.orphans[i] == m.orphans@[i]@,
        m.wf() <==> m.event_map.wf() && m.tree().wf() && m.event_map@.dom().len() < 0xffff_ffff,
{
}

/// The contents of a node are its fields.
pub proof fn law_contents_of_a_node(n: EventNode)
    ensures
        n@.parent == n.parent,
        n@.event == n.event@,
        n@.children == n.children@,
{
}

/// The contents of an event are its fields.
pub proof fn law_contents_of_an_event(e: Event)
    ensures
        e@.previous_event_hash == e.previous_event_hash,
        e@.timestamp == e.timestamp,
        e.action matches EventAction::PrivMsg(m) ==> e@.action == ActionV::PrivMsg(
            PrivMsgV { nick: m.nick@, msg: m.msg@ },
        ),
{
}

/// A new model files one event, under its digest: the one of `root`, who says that there be dark,
/// at the given time, after an event whose id is all zeros.
pub proof fn law_new_model_holds_one_event(timestamp: u64)
    ensures
        ({
            let t = crate::model::root_tree(timestamp);
            let n = t.nodes[t.root];
            &&& t.nodes.dom() == set![t.root]
            &&& t.root == crate::digest::ripemd256(crate::serial::event_bytes(n.event))
            &&& n.parent is None
            &&& n.children.len() == 0
            &&& n.event.timestamp == timestamp
            &&& forall|i: int| 0 <= i < 32 ==> #[trigger] n.event.previous_event_hash@[i] == 0
            &&& n.event.action == ActionV::PrivMsg(
                PrivMsgV {
                    nick: seq!['r', 'o', 'o', 't'],
                    msg: seq![
                        'L', 'e', 't', ' ', 't', 'h', 'e', 'r', 'e', ' ', 'b', 'e', ' ', 'd', 'a',
                        'r', 'k',
                    ],
                },
            )
        }),
{
    let t = crate::model::root_tree(timestamp);
    reveal_strlit("root");
    reveal_strlit("Let there be dark");
    crate::serial::lemma_id_bytes(Seq::new(32, |i: int| 0u8));
    assert("root"@ =~= seq!['r', 'o', 'o', 't']);
    assert("Let there be dark"@ =~= seq![
        'L', 'e', 't', ' ', 't', 'h', 'e', 'r', 'e', ' ', 'b', 'e', ' ', 'd', 'a', 'r', 'k',
    ]);
    assert(t.nodes.dom() =~= set![t.root]);
}

} // verus!
