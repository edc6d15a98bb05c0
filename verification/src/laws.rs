//! What holds of a graph that was built from a snapshot and then placed.

use crate::dsas::fan;
use crate::dsas::place_of;
use crate::dsas::same_shape;
use crate::dsas::walk;
use crate::dsas::GraphView;
use crate::dsas::Walk;
use crate::json_deserialize::BaseInfo;
use crate::scene::Placement;
use crate::scene::SceneOpView;
use crate::traversal::discover;
use crate::traversal::found_by;
use crate::traversal::frontier;
use crate::traversal::lemma_bounded_distinct;
use crate::traversal::lemma_discover_push;
use crate::traversal::lemma_frontier;
use crate::traversal::lemma_frontier_settled;
use crate::traversal::lemma_frontier_complete;
use crate::traversal::lemma_frontier_sound;
use crate::traversal::links_of;
use crate::traversal::reachable;
use vstd::prelude::*;

verus! {

/// The nodes that a journal has drawn, in the order of their drawing.
pub open spec fn created(journal: Seq<SceneOpView>) -> Seq<u32>
    decreases journal.len(),
{
    if journal.len() == 0 {
        Seq::empty()
    } else {
        match journal.last() {
            SceneOpView::CreateNode { id, .. } => created(journal.drop_last()).push(id),
            _ => created(journal.drop_last()),
        }
    }
}

/// How many times a journal moves a node that is drawn already.
pub open spec fn moves(journal: Seq<SceneOpView>) -> nat
    decreases journal.len(),
{
    if journal.len() == 0 {
        0
    } else {
        match journal.last() {
            SceneOpView::MoveNode { .. } => moves(journal.drop_last()) + 1,
            _ => moves(journal.drop_last()),
        }
    }
}

/// The places at which a journal has drawn nodes, in the order of their
/// drawing.
pub open spec fn places(journal: Seq<SceneOpView>) -> Seq<Placement>
    decreases journal.len(),
{
    if journal.len() == 0 {
        Seq::empty()
    } else {
        match journal.last() {
            SceneOpView::CreateNode { place, .. } => places(journal.drop_last()).push(place),
            _ => places(journal.drop_last()),
        }
    }
}

/// What one more command adds to the nodes drawn, to their places and to
/// the moves.
pub proof fn lemma_journal_push(journal: Seq<SceneOpView>, op: SceneOpView)
    ensures
        created(journal.push(op)) == match op {
            SceneOpView::CreateNode { id, .. } => created(journal).push(id),
            _ => created(journal),
        },
        places(journal.push(op)) == match op {
            SceneOpView::CreateNode { place, .. } => places(journal).push(place),
            _ => places(journal),
        },
        moves(journal.push(op)) == match op {
            SceneOpView::MoveNode { .. } => moves(journal) + 1,
            _ => moves(journal),
        },
{
    assert(journal.push(op).drop_last() =~= journal);
}

/// `a` is as far as a placement walk over `g1` can have come when its
/// journal has drawn exactly the nodes of `order` beyond what `g1` had
/// drawn, has moved nothing, and every node of `order` is drawn.
pub open spec fn drawn_so_far(g1: GraphView, a: GraphView, order: Seq<u32>) -> bool {
    &&& same_shape(a, g1)
    &&& created(a.journal) == created(g1.journal) + order
    &&& moves(a.journal) == moves(g1.journal)
    &&& forall|x: int| 0 <= x < order.len() ==> (#[trigger] a.nodes[order[x]]).visual is Some
    &&& forall|x: int| 0 <= x < order.len() ==> a.nodes.contains_key(#[trigger] order[x])
}

/// Drawing a node that is not yet in `order` carries `drawn_so_far` on.
proof fn lemma_draw(g1: GraphView, a: GraphView, order: Seq<u32>, v: u32, place: Placement)
    requires
        drawn_so_far(g1, a, order),
        a.nodes.contains_key(v),
    ensures
        drawn_so_far(g1, a.draw(v, place), order.push(v)),
        places(a.draw(v, place).journal) == places(a.journal).push(place),
{
    let b = a.draw(v, place);
    let label = a.labels[v as int];
    lemma_journal_push(
        a.journal,
        SceneOpView::CreateNode { id: v, label, color: crate::tree::NodeColor::Default, place },
    );
    assert(created(b.journal) =~= created(g1.journal) + order.push(v));
    assert forall|x: int| 0 <= x < order.push(v).len() implies (#[trigger] b.nodes[order.push(v)[x]]).visual is Some
        && b.nodes.contains_key(order.push(v)[x]) by {
        if x < order.len() {
            assert(a.nodes[order[x]].visual is Some);
        }
    }
}

/// Marking an edge of a node to itself carries `drawn_so_far` on.
proof fn lemma_loop_back(g1: GraphView, a: GraphView, order: Seq<u32>, u: u32)
    requires
        drawn_so_far(g1, a, order),
        a.nodes.contains_key(u),
    ensures
        drawn_so_far(g1, a.loop_back(u), order),
        places(a.loop_back(u).journal) == places(a.journal),
{
    let b = a.loop_back(u);
    match a.nodes[u].visual {
        Some(visual) => {
            let weight = a.weight_between(u, u);
            let op1 = SceneOpView::ColorNode { id: u, color: crate::tree::NodeColor::Blue };
            let op2 = SceneOpView::WeightNode { id: u, weight };
            lemma_journal_push(a.journal, op1);
            lemma_journal_push(a.journal.push(op1), op2);
            assert forall|x: int| 0 <= x < order.len() implies (#[trigger] b.nodes[order[x]]).visual is Some by {
                assert(a.nodes[order[x]].visual is Some);
            }
        },
        None => {},
    }
}

/// Drawing an edge carries `drawn_so_far` on.
proof fn lemma_show_edge(g1: GraphView, a: GraphView, order: Seq<u32>, u: u32, v: u32)
    requires
        drawn_so_far(g1, a, order),
    ensures
        drawn_so_far(g1, a.show_edge(u, v), order),
        places(a.show_edge(u, v).journal) == places(a.journal),
{
    if a.edges.contains_key((u, v)) {
        let weight = a.edges[(u, v)].weight;
        let op1 = SceneOpView::RemoveEdge { from: u, to: v };
        let op2 = SceneOpView::CreateEdge { from: u, to: v, weight };
        lemma_journal_push(a.journal, op1);
        lemma_journal_push(a.journal, op2);
        lemma_journal_push(a.journal.push(op1), op2);
    }
}

/// The first `count` places of node `u`.
pub open spec fn slots(g1: GraphView, u: u32, count: nat) -> Seq<Placement> {
    Seq::new(count, |j: int| place_of(g1, u, j as u32))
}

/// Looking at the first `i` neighbours of an expanded node draws exactly
/// the nodes that a breadth-first walk discovers among them.
proof fn lemma_fan(g1: GraphView, w: Walk, u: u32, i: nat)
    requires
        g1.wf(),
        g1.nodes.contains_key(u),
        i <= g1.nodes[u].neighbors.len(),
        drawn_so_far(g1, w.g, w.order),
        w.order.contains(u),
    ensures
        fan(g1, w, u, i).order == w.order + discover(
            g1.nodes[u].neighbors.take(i as int),
            w.order.to_set(),
        ),
        drawn_so_far(g1, fan(g1, w, u, i).g, fan(g1, w, u, i).order),
        w.g.journal.is_prefix_of(fan(g1, w, u, i).g.journal),
        fan(g1, w, u, i).order.len() >= w.order.len(),
        places(fan(g1, w, u, i).g.journal) == places(w.g.journal) + slots(
            g1,
            u,
            (fan(g1, w, u, i).order.len() - w.order.len()) as nat,
        ),
    decreases i,
{
    let list = g1.nodes[u].neighbors;
    if i == 0 {
        assert(list.take(0) =~= Seq::<u32>::empty());
        assert(w.order + Seq::<u32>::empty() =~= w.order);
        assert(places(w.g.journal) + slots(g1, u, 0) =~= places(w.g.journal));
    } else {
        lemma_fan(g1, w, u, (i - 1) as nat);
        let before = fan(g1, w, u, (i - 1) as nat);
        let v = list[i - 1];
        let slot = (before.order.len() - w.order.len()) as u32;
        let part = list.take(i - 1);
        let found = discover(part, w.order.to_set());
        assert(list.take(i as int) =~= part.push(v));
        lemma_discover_push(part, v, w.order.to_set());
        assert(g1.nodes.contains_key(v));
        assert(before.g.nodes.contains_key(v));
        assert(before.g.nodes.contains_key(u));
        if v == u {
            lemma_loop_back(g1, before.g, before.order, u);
        } else {
            assert(before.order.contains(v) <==> w.order.to_set().contains(v) || found.contains(v)) by {
                crate::dsas::lemma_joined_contains(w.order, found, v);
            }
            if before.order.contains(v) {
                lemma_show_edge(g1, before.g, before.order, u, v);
            } else {
                lemma_draw(g1, before.g, before.order, v, crate::dsas::place_of(g1, u, slot));
                lemma_show_edge(
                    g1,
                    before.g.draw(v, crate::dsas::place_of(g1, u, slot)),
                    before.order.push(v),
                    u,
                    v,
                );
                assert(before.order.push(v) =~= w.order + found.push(v));
                let count = (before.order.len() - w.order.len()) as nat;
                assert(slots(g1, u, count + 1) =~= slots(g1, u, count).push(place_of(g1, u, slot)));
                assert((places(w.g.journal) + slots(g1, u, count)).push(place_of(g1, u, slot)) =~= places(
                    w.g.journal,
                ) + slots(g1, u, count + 1));
            }
        }
    }
}

/// The places that the children of the node expanded as number `k` are
/// given: one after the other, as many as the node was first to reach.
pub open spec fn block(g1: GraphView, adj: Map<u32, Seq<u32>>, root: u32, k: nat) -> Seq<Placement> {
    let before = frontier(adj, root, k);
    let after = frontier(adj, root, k + 1);
    if before.len() <= k {
        Seq::empty()
    } else {
        slots(g1, before[k as int], (after.len() - before.len()) as nat)
    }
}

/// The places given out once `n` nodes were expanded: the anchor for the
/// root, then the places of the children of each node in turn.
pub open spec fn given(g1: GraphView, adj: Map<u32, Seq<u32>>, root: u32, n: nat) -> Seq<Placement>
    decreases n,
{
    if n == 0 {
        seq![Placement::Anchor]
    } else {
        given(g1, adj, root, (n - 1) as nat) + block(g1, adj, root, (n - 1) as nat)
    }
}

/// `p` is a place of one of the first `n` nodes expanded.
pub open spec fn owned(g1: GraphView, adj: Map<u32, Seq<u32>>, root: u32, n: nat, p: Placement) -> bool {
    exists|k: nat, j: nat|
        k < n && k < frontier(adj, root, k).len() && j < 0x1_0000_0000 && p == #[trigger] place_of(
            g1,
            frontier(adj, root, k)[k as int],
            j as u32,
        )
}

/// No place is given out twice, and there are as many places as nodes.
proof fn lemma_given(g1: GraphView, adj: Map<u32, Seq<u32>>, root: u32, n: nat)
    ensures
        given(g1, adj, root, n).no_duplicates(),
        given(g1, adj, root, n).len() == frontier(adj, root, n).len(),
        given(g1, adj, root, n)[0] == Placement::Anchor,
        forall|x: int|
            1 <= x < given(g1, adj, root, n).len() ==> owned(g1, adj, root, n, #[trigger] given(g1, adj, root, n)[x]),
    decreases n,
{
    let all = given(g1, adj, root, n);
    lemma_frontier(adj, root, n);
    if n > 0 {
        let m = (n - 1) as nat;
        lemma_given(g1, adj, root, m);
        let so_far = given(g1, adj, root, m);
        let more = block(g1, adj, root, m);
        let before = frontier(adj, root, m);
        let after = frontier(adj, root, n);
        lemma_frontier(adj, root, m);
        lemma_bounded_distinct(after, 0x1_0000_0000);
        assert(before.is_prefix_of(after));
        assert forall|x: int| 1 <= x < all.len() implies owned(g1, adj, root, n, #[trigger] all[x]) by {
            if x < so_far.len() {
                assert(owned(g1, adj, root, m, so_far[x]));
                let (k, j) = choose|k: nat, j: nat|
                    k < m && k < frontier(adj, root, k).len() && j < 0x1_0000_0000 && so_far[x]
                        == #[trigger] place_of(g1, frontier(adj, root, k)[k as int], j as u32);
                assert(all[x] == place_of(g1, frontier(adj, root, k)[k as int], j as u32));
            } else {
                let j = (x - so_far.len()) as nat;
                assert(all[x] == place_of(g1, before[m as int], j as u32));
            }
        }
        assert forall|x: int, y: int| 0 <= x < y < all.len() implies all[x] != all[y] by {
            if y >= so_far.len() {
                let u = before[m as int];
                let jy = (y - so_far.len()) as nat;
                assert(all[y] == place_of(g1, u, jy as u32));
                if x >= so_far.len() {
                    let jx = (x - so_far.len()) as nat;
                    assert(all[x] == place_of(g1, u, jx as u32));
                } else if x >= 1 {
                    assert(owned(g1, adj, root, m, so_far[x]));
                    let (k, j) = choose|k: nat, j: nat|
                        k < m && k < frontier(adj, root, k).len() && j < 0x1_0000_0000 && so_far[x]
                            == #[trigger] place_of(g1, frontier(adj, root, k)[k as int], j as u32);
                    let fk = frontier(adj, root, k);
                    lemma_frontier(adj, root, m);
                    assert(fk.is_prefix_of(before));
                    assert(fk[k as int] == before[k as int]);
                    assert(before[k as int] != before[m as int]);
                } else {
                    assert(all[x] == Placement::Anchor);
                }
            }
        }
    }
}

/// The walk over a graph built from a snapshot draws the nodes in the order
/// in which the build discovered them.
proof fn lemma_walk(g: GraphView, base: &BaseInfo, n: nat)
    requires
        g.built(base).wf(),
    ensures
        walk(g.built(base), n).order == frontier(base.adjacency(), g.root, n),
        drawn_so_far(g.built(base), walk(g.built(base), n).g, walk(g.built(base), n).order),
        walk(g.built(base), 0).g.journal.is_prefix_of(walk(g.built(base), n).g.journal),
        places(walk(g.built(base), n).g.journal) == places(g.journal) + given(
            g.built(base),
            base.adjacency(),
            g.root,
            n,
        ),
    decreases n,
{
    let adj = base.adjacency();
    let g1 = g.built(base);
    let root = g.root;
    let total = g.labels.len();
    let all = frontier(adj, root, total);
    lemma_frontier(adj, root, total);
    assert(all[0] == root);
    assert(all.contains(root));
    assert(g1.nodes.contains_key(root));
    if n == 0 {
        assert(created(g1.journal) + Seq::<u32>::empty() =~= created(g1.journal));
        lemma_draw(g1, g1, Seq::<u32>::empty(), root, Placement::Anchor);
        assert(Seq::<u32>::empty().push(root) =~= seq![root]);
        assert(places(g.journal).push(Placement::Anchor) =~= places(g.journal) + given(g1, adj, root, 0));
    } else {
        lemma_walk(g, base, (n - 1) as nat);
        let w = walk(g1, (n - 1) as nat);
        let prev = frontier(adj, root, (n - 1) as nat);
        let so_far = given(g1, adj, root, (n - 1) as nat);
        let more = block(g1, adj, root, (n - 1) as nat);
        assert((places(g.journal) + so_far) + more =~= places(g.journal) + (so_far + more));
        if prev.len() < n {
            assert(more =~= Seq::<Placement>::empty());
            assert(places(g.journal) + so_far + more =~= places(g.journal) + so_far);
        }
        if prev.len() >= n {
            let u = prev[n - 1];
            lemma_prefix_of_all(g, base, (n - 1) as nat);
            assert(all[n - 1] == u);
            assert(all.contains(u));
            assert(all.index_of(u) == n - 1);
            assert(prev.contains(u));
            let fresh = discover(links_of(adj, u), prev.to_set());
            assert(found_by(adj, root, (n - 1) as nat) == fresh);
            assert(g1.nodes[u].neighbors == links_of(adj, u));
            assert(g1.nodes[u].neighbors.take(g1.nodes[u].neighbors.len() as int) =~= g1.nodes[u].neighbors);
            if u != root && g1.nodes[u].new_neighbors == 0 {
                lemma_frontier(adj, root, n);
                lemma_bounded_distinct(frontier(adj, root, n), 0x1_0000_0000);
                assert(fresh.len() == 0);
                assert(prev + fresh =~= prev);
                assert(more =~= Seq::<Placement>::empty());
                assert(places(g.journal) + so_far + more =~= places(g.journal) + so_far);
            } else {
                lemma_fan(g1, w, u, g1.nodes[u].neighbors.len());
            }
        }
    }
}

/// What is discovered at any stage is a start of what is discovered in the
/// end.
proof fn lemma_prefix_of_all(g: GraphView, base: &BaseInfo, n: nat)
    requires
        g.built(base).wf(),
    ensures
        frontier(base.adjacency(), g.root, n).is_prefix_of(
            frontier(base.adjacency(), g.root, g.labels.len()),
        ),
        frontier(base.adjacency(), g.root, g.labels.len()).len() <= g.labels.len(),
{
    let adj = base.adjacency();
    let total = g.labels.len();
    let all = frontier(adj, g.root, total);
    let g1 = g.built(base);
    lemma_frontier(adj, g.root, total);
    assert forall|i: int| 0 <= i < all.len() implies all[i] < total by {
        assert(all.contains(all[i]));
        assert(g1.nodes.contains_key(all[i]));
    }
    lemma_bounded_distinct(all, total);
    if n > total {
        lemma_frontier_settled(adj, g.root, total, n);
    }
}

/// Building a graph from a snapshot and placing it draws every node of the
/// graph, one by one in the order of their discovery and none twice; no
/// two nodes are drawn at the same place; the root comes first and goes to
/// the anchor; and no node is moved after it was drawn.
pub proof fn lemma_every_node_placed(g: GraphView, base: &BaseInfo)
    requires
        g.built(base).wf(),
    ensures
        ({
            let built = g.built(base);
            let placed = built.placed();
            let order = frontier(base.adjacency(), g.root, g.labels.len());
            &&& same_shape(placed, built)
            &&& forall|k: u32| built.nodes.contains_key(k) <==> order.contains(k)
            &&& order.no_duplicates()
            &&& forall|k: u32| built.nodes.contains_key(k) ==> (#[trigger] placed.nodes[k]).visual is Some
            &&& created(placed.journal) == created(g.journal) + order
            &&& exists|given: Seq<Placement>|
                #![trigger given.no_duplicates()]
                places(placed.journal) == places(g.journal) + given && given.len() == order.len()
                    && given.no_duplicates()
            &&& moves(placed.journal) == moves(g.journal)
            &&& placed.journal.len() > g.journal.len()
            &&& placed.journal[g.journal.len() as int] == (SceneOpView::CreateNode {
                id: g.root,
                label: g.labels[g.root as int],
                color: crate::tree::NodeColor::Default,
                place: Placement::Anchor,
            })
        }),
{
    let adj = base.adjacency();
    let built = g.built(base);
    let total = g.labels.len();
    let bound = built.id_bound();
    let order = frontier(adj, g.root, total);
    lemma_walk(g, base, bound);
    lemma_prefix_of_all(g, base, bound);
    lemma_frontier(adj, g.root, total);
    lemma_frontier(adj, g.root, bound);
    lemma_bounded_distinct(order, 0x1_0000_0000);
    let w = walk(built, bound);
    assert(w.order == order) by {
        if bound < total {
            lemma_frontier(adj, g.root, bound);
            lemma_bounded_distinct(frontier(adj, g.root, bound), 0x1_0000_0000);
            lemma_frontier_settled(adj, g.root, bound, total);
        }
    }
    assert forall|k: u32| built.nodes.contains_key(k) implies (#[trigger] w.g.nodes[k]).visual is Some by {
        let x = choose|x: int| 0 <= x < order.len() && order[x] == k;
        assert(w.g.nodes[order[x]].visual is Some);
    }
    let first = walk(built, 0).g.journal;
    assert(first[g.journal.len() as int] == w.g.journal[g.journal.len() as int]);
    lemma_given(built, adj, g.root, bound);
    let handed = given(built, adj, g.root, bound);
    assert(frontier(adj, g.root, bound) == order);
    assert(places(w.g.journal) == places(g.journal) + handed && handed.len() == order.len()
        && handed.no_duplicates());
}

/// The nodes of a graph built from a snapshot are the nodes that the edges
/// of the snapshot lead to from the root, the root among them.
pub proof fn lemma_built_nodes_are_reachable(g: GraphView, base: &BaseInfo)
    requires
        g.built(base).wf(),
    ensures
        forall|k: u32|
            #[trigger] g.built(base).nodes.contains_key(k) <==> reachable(base.adjacency(), g.root, k),
{
    let adj = base.adjacency();
    let total = g.labels.len();
    lemma_prefix_of_all(g, base, total);
    assert forall|k: u32| #[trigger] g.built(base).nodes.contains_key(k) <==> reachable(adj, g.root, k) by {
        if g.built(base).nodes.contains_key(k) {
            lemma_frontier_sound(adj, g.root, total, k);
        }
        if reachable(adj, g.root, k) {
            lemma_frontier_complete(adj, g.root, total, k);
        }
    }
}

} // verus!
