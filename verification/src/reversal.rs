//! Taking back an edit that was just replayed: what comes back, and for
//! which edits.

use crate::dsas::GraphView;
use crate::json_deserialize::DiffInfo;
use crate::json_deserialize::Edge;
use crate::json_deserialize::Node;
use crate::replay::admit_edges;
use crate::replay::admit_nodes;
use crate::replay::backward;
use crate::replay::change_labels;
use crate::replay::change_weights;
use crate::replay::forward;
use crate::replay::has_id;
use crate::replay::ids_of;
use crate::replay::old_part;
use crate::replay::part;
use crate::replay::restore_edges;
use crate::replay::retire_edges;
use crate::replay::retire_nodes;
use crate::scene::Placement;
use crate::tree::NodeColor;
use vstd::prelude::*;

verus! {

/// The label text that node `k` shows, if it is drawn.
pub open spec fn label_of(g: GraphView, k: u32) -> Option<Seq<char>> {
    match g.nodes[k].visual {
        Some(v) => Some(v.label),
        None => None,
    }
}

/// Two graphs have the same nodes, and every node shows the same label text
/// in both.
pub open spec fn same_nodes(a: GraphView, b: GraphView) -> bool {
    &&& forall|k: u32| a.nodes.contains_key(k) <==> b.nodes.contains_key(k)
    &&& forall|k: u32| a.nodes.contains_key(k) ==> #[trigger] label_of(a, k) == label_of(b, k)
}

/// Two graphs have the same edges, and every edge has the same weight text
/// in both.
pub open spec fn same_edges(a: GraphView, b: GraphView) -> bool {
    &&& forall|p: (u32, u32)| a.edges.contains_key(p) <==> b.edges.contains_key(p)
    &&& forall|p: (u32, u32)| a.edges.contains_key(p) ==> (#[trigger] a.edges[p]).weight == b.edges[p].weight
}

/// What giving a drawn node a label does.
pub proof fn lemma_relabel(g: GraphView, id: u32, text: Seq<char>)
    requires
        g.wf(),
        g.nodes.contains_key(id),
    ensures
        g.relabel(id, text).wf(),
        g.relabel(id, text).labels == g.labels,
        g.relabel(id, text).root == g.root,
        g.relabel(id, text).edges == g.edges,
        forall|k: u32| g.relabel(id, text).nodes.contains_key(k) <==> g.nodes.contains_key(k),
        forall|k: u32|
            #[trigger] label_of(g.relabel(id, text), k) == if k == id && label_of(g, k) is Some {
                Some(text)
            } else {
                label_of(g, k)
            },
{
    let h = g.relabel(id, text);
    assert forall|k: u32, i: int| h.nodes.contains_key(k) && 0 <= i < h.nodes[k].neighbors.len() implies h.nodes.contains_key(
        #[trigger] h.nodes[k].neighbors[i],
    ) by {
        assert(h.nodes[k].neighbors == g.nodes[k].neighbors);
        assert(g.nodes.contains_key(g.nodes[k].neighbors[i]));
    }
}

/// What giving a drawn node a colour does.
pub proof fn lemma_recolor(g: GraphView, id: u32, color: NodeColor)
    requires
        g.wf(),
        g.nodes.contains_key(id),
    ensures
        g.recolor(id, color).wf(),
        g.recolor(id, color).labels == g.labels,
        g.recolor(id, color).root == g.root,
        g.recolor(id, color).edges == g.edges,
        forall|k: u32| g.recolor(id, color).nodes.contains_key(k) <==> g.nodes.contains_key(k),
        forall|k: u32| #[trigger] label_of(g.recolor(id, color), k) == label_of(g, k),
{
    let h = g.recolor(id, color);
    assert forall|k: u32, i: int| h.nodes.contains_key(k) && 0 <= i < h.nodes[k].neighbors.len() implies h.nodes.contains_key(
        #[trigger] h.nodes[k].neighbors[i],
    ) by {
        assert(h.nodes[k].neighbors == g.nodes[k].neighbors);
        assert(g.nodes.contains_key(g.nodes[k].neighbors[i]));
    }
}

/// What giving an edge a weight does.
pub proof fn lemma_reweigh(g: GraphView, from: u32, to: u32, text: Seq<char>)
    requires
        g.wf(),
        g.edges.contains_key((from, to)),
    ensures
        g.reweigh(from, to, text).wf(),
        g.reweigh(from, to, text).labels == g.labels,
        g.reweigh(from, to, text).root == g.root,
        g.reweigh(from, to, text).nodes == g.nodes,
        forall|p: (u32, u32)| g.reweigh(from, to, text).edges.contains_key(p) <==> g.edges.contains_key(p),
        forall|p: (u32, u32)|
            (#[trigger] g.reweigh(from, to, text).edges[p]).weight == if p == (from, to) {
                text
            } else {
                g.edges[p].weight
            },
{
    let h = g.reweigh(from, to, text);
    assert forall|p: (u32, u32)| #[trigger] h.edges.contains_key(p) implies h.nodes.contains_key(p.0)
        && h.nodes.contains_key(p.1) by {
        assert(g.edges.contains_key(p));
    }
}

/// What adding a node does.
pub proof fn lemma_add_node(g: GraphView, id: u32, color: NodeColor, place: Placement)
    requires
        g.wf(),
        id < g.labels.len(),
        !g.nodes.contains_key(id),
    ensures
        g.add_node(id, color, place).wf(),
        g.add_node(id, color, place).labels == g.labels,
        g.add_node(id, color, place).edges == g.edges,
        forall|k: u32| g.add_node(id, color, place).nodes.contains_key(k) <==> g.nodes.contains_key(k) || k == id,
        forall|k: u32|
            #[trigger] label_of(g.add_node(id, color, place), k) == if k == id {
                Some(g.labels[id as int])
            } else {
                label_of(g, k)
            },
{
    let h = g.add_node(id, color, place);
    assert forall|k: u32, i: int| h.nodes.contains_key(k) && 0 <= i < h.nodes[k].neighbors.len() implies h.nodes.contains_key(
        #[trigger] h.nodes[k].neighbors[i],
    ) by {
        assert(h.nodes[k].neighbors == g.nodes[k].neighbors);
        assert(g.nodes.contains_key(g.nodes[k].neighbors[i]));
    }
    assert forall|p: (u32, u32)| #[trigger] h.edges.contains_key(p) implies h.nodes.contains_key(p.0)
        && h.nodes.contains_key(p.1) by {
        assert(g.edges.contains_key(p));
    }
    assert forall|k: u32| #[trigger] h.nodes.contains_key(k) implies h.nodes.contains_key(h.root) by {
        if exists|j: u32| g.nodes.contains_key(j) {
            let j = choose|j: u32| g.nodes.contains_key(j);
            assert(g.nodes.contains_key(g.root));
        }
    }
}

/// What setting an edge does.
pub proof fn lemma_add_edge(g: GraphView, from: u32, to: u32, text: Seq<char>)
    requires
        g.wf(),
        g.nodes.contains_key(from),
        g.nodes.contains_key(to),
    ensures
        g.add_edge(from, to, text).wf(),
        g.add_edge(from, to, text).labels == g.labels,
        g.add_edge(from, to, text).root == g.root,
        g.add_edge(from, to, text).nodes == g.nodes,
        forall|p: (u32, u32)|
            g.add_edge(from, to, text).edges.contains_key(p) <==> g.edges.contains_key(p) || p == (from, to),
        forall|p: (u32, u32)|
            (#[trigger] g.add_edge(from, to, text).edges[p]).weight == if p == (from, to) {
                text
            } else {
                g.edges[p].weight
            },
{
    let h = g.add_edge(from, to, text);
    assert forall|p: (u32, u32)| #[trigger] h.edges.contains_key(p) implies h.nodes.contains_key(p.0)
        && h.nodes.contains_key(p.1) by {
        if p != (from, to) {
            assert(g.edges.contains_key(p));
        }
    }
}

/// What taking out an edge does.
pub proof fn lemma_remove_edge(g: GraphView, from: u32, to: u32)
    requires
        g.wf(),
    ensures
        g.remove_edge(from, to).wf(),
        g.remove_edge(from, to).labels == g.labels,
        g.remove_edge(from, to).root == g.root,
        g.remove_edge(from, to).nodes == g.nodes,
        forall|p: (u32, u32)|
            g.remove_edge(from, to).edges.contains_key(p) <==> g.edges.contains_key(p) && p != (from, to),
        forall|p: (u32, u32)|
            g.remove_edge(from, to).edges.contains_key(p) ==> #[trigger] g.remove_edge(from, to).edges[p]
                == g.edges[p],
{
    let h = g.remove_edge(from, to);
    assert forall|p: (u32, u32)| #[trigger] h.edges.contains_key(p) implies h.nodes.contains_key(p.0)
        && h.nodes.contains_key(p.1) by {
        assert(g.edges.contains_key(p));
    }
}

/// What making two nodes neighbours, counting a reached node, or moving a
/// node does: nothing to the nodes' labels, the edges or the root.
pub proof fn lemma_link(g: GraphView, from: u32, to: u32)
    requires
        g.wf(),
        g.nodes.contains_key(from),
        g.nodes.contains_key(to),
    ensures
        g.link(from, to).wf(),
        g.link(from, to).labels == g.labels,
        g.link(from, to).root == g.root,
        g.link(from, to).edges == g.edges,
        forall|k: u32| g.link(from, to).nodes.contains_key(k) <==> g.nodes.contains_key(k),
        forall|k: u32| #[trigger] label_of(g.link(from, to), k) == label_of(g, k),
{
    lemma_befriend(g, from, to);
    if from != to {
        lemma_befriend(g.befriend(from, to), to, from);
    }
}

proof fn lemma_befriend(g: GraphView, from: u32, to: u32)
    requires
        g.wf(),
        g.nodes.contains_key(from),
        g.nodes.contains_key(to),
    ensures
        g.befriend(from, to).wf(),
        g.befriend(from, to).labels == g.labels,
        g.befriend(from, to).root == g.root,
        g.befriend(from, to).edges == g.edges,
        forall|k: u32| g.befriend(from, to).nodes.contains_key(k) <==> g.nodes.contains_key(k),
        forall|k: u32| #[trigger] label_of(g.befriend(from, to), k) == label_of(g, k),
{
    let h = g.befriend(from, to);
    assert forall|k: u32, i: int| h.nodes.contains_key(k) && 0 <= i < h.nodes[k].neighbors.len() implies h.nodes.contains_key(
        #[trigger] h.nodes[k].neighbors[i],
    ) by {
        if k == from {
            if i < g.nodes[k].neighbors.len() {
                assert(g.nodes.contains_key(g.nodes[k].neighbors[i]));
            }
        } else {
            assert(h.nodes[k].neighbors == g.nodes[k].neighbors);
            assert(g.nodes.contains_key(g.nodes[k].neighbors[i]));
        }
    }
}

pub proof fn lemma_bump(g: GraphView, id: u32)
    requires
        g.wf(),
        g.nodes.contains_key(id),
    ensures
        g.bump(id).wf(),
        g.bump(id).labels == g.labels,
        g.bump(id).root == g.root,
        g.bump(id).edges == g.edges,
        forall|k: u32| g.bump(id).nodes.contains_key(k) <==> g.nodes.contains_key(k),
        forall|k: u32| #[trigger] label_of(g.bump(id), k) == label_of(g, k),
{
    let h = g.bump(id);
    assert forall|k: u32, i: int| h.nodes.contains_key(k) && 0 <= i < h.nodes[k].neighbors.len() implies h.nodes.contains_key(
        #[trigger] h.nodes[k].neighbors[i],
    ) by {
        assert(h.nodes[k].neighbors == g.nodes[k].neighbors);
        assert(g.nodes.contains_key(g.nodes[k].neighbors[i]));
    }
}

/// What taking out a node does: the node goes, with the edges that touch
/// it; the other nodes keep their labels and the other edges their weights.
pub proof fn lemma_remove_node(g: GraphView, id: u32)
    requires
        g.wf(),
        g.nodes.contains_key(id),
    ensures
        g.remove_node(id).wf(),
        g.remove_node(id).labels == g.labels,
        forall|k: u32| g.remove_node(id).nodes.contains_key(k) <==> g.nodes.contains_key(k) && k != id,
        forall|k: u32|
            g.nodes.contains_key(k) && k != id ==> #[trigger] label_of(g.remove_node(id), k) == label_of(g, k),
        forall|p: (u32, u32)|
            g.remove_node(id).edges.contains_key(p) <==> g.edges.contains_key(p) && p.0 != id && p.1 != id,
        forall|p: (u32, u32)|
            g.remove_node(id).edges.contains_key(p) ==> #[trigger] g.remove_node(id).edges[p] == g.edges[p],
{
    let noted = if g.nodes[id].visual is Some {
        g.note(crate::scene::SceneOpView::RemoveNode { id })
    } else {
        g
    };
    assert(noted.wf());
    noted.lemma_remove_edges_of_node(id);
    let h = g.remove_node(id);
    let cut = noted.remove_edges_of_node(id);
    assert(h.edges == cut.edges);
    assert forall|p: (u32, u32)| h.edges.contains_key(p) <==> g.edges.contains_key(p) && p.0 != id && p.1
        != id by {
        assert(cut.edges.contains_key(p) <==> noted.edges.contains_key(p) && p.0 != id && p.1 != id);
    }
    assert forall|p: (u32, u32)| h.edges.contains_key(p) implies #[trigger] h.edges[p] == g.edges[p] by {
        assert(cut.edges.contains_key(p));
        assert(cut.edges[p] == noted.edges[p]);
    }
    if exists|j: u32| h.nodes.contains_key(j) {
        let j = choose|j: u32| h.nodes.contains_key(j);
        lemma_least_exists(h.nodes, j);
        assert(g.nodes.contains_key(j));
        assert(g.nodes.contains_key(g.root));
    }
    crate::dsas::lemma_removed_wf(g, h, id);
}

/// Among nodes there is one with the smallest id.
pub proof fn lemma_least_exists(nodes: Map<u32, crate::dsas::WrapperView>, w: u32)
    requires
        nodes.contains_key(w),
    ensures
        nodes.contains_key(crate::dsas::least_key(nodes)),
        forall|j: u32| j < crate::dsas::least_key(nodes) ==> !nodes.contains_key(j),
    decreases w,
{
    if exists|j: u32| j < w && nodes.contains_key(j) {
        let j = choose|j: u32| j < w && nodes.contains_key(j);
        lemma_least_exists(nodes, j);
    } else {
        assert(nodes.contains_key(w) && forall|j: u32| j < w ==> !nodes.contains_key(j));
    }
}


/// The ends of an edge, as a pair.
pub open spec fn pair(e: Edge) -> (u32, u32) {
    (e.from_id, e.to_id)
}

/// Whether `items` names the edge `p`.
pub open spec fn has_pair(items: Seq<Edge>, p: (u32, u32)) -> bool {
    exists|i: int| 0 <= i < items.len() && pair(#[trigger] items[i]) == p
}

/// The text of the last entry of `items` for node `k`, if there is one.
pub open spec fn last_label(items: Seq<Node>, k: u32) -> Option<Seq<char>>
    decreases items.len(),
{
    if items.len() == 0 {
        None
    } else if items.last().id == k {
        Some(items.last().label@)
    } else {
        last_label(items.drop_last(), k)
    }
}

/// The text of the last entry of `items` for the edge `p`, if there is one.
pub open spec fn last_weight(items: Seq<Edge>, p: (u32, u32)) -> Option<Seq<char>>
    decreases items.len(),
{
    if items.len() == 0 {
        None
    } else if pair(items.last()) == p {
        Some(items.last().weight@)
    } else {
        last_weight(items.drop_last(), p)
    }
}

/// A list names the nodes that its start names, and the node of its last
/// entry.
pub proof fn lemma_ids_last(items: Seq<Node>)
    requires
        items.len() > 0,
    ensures
        forall|k: u32| #[trigger] has_id(items, k) <==> has_id(items.drop_last(), k) || items.last().id == k,
{
    let init = items.drop_last();
    assert forall|k: u32| #[trigger] has_id(items, k) <==> has_id(init, k) || items.last().id == k by {
        if has_id(items, k) {
            let i = choose|i: int| 0 <= i < items.len() && (#[trigger] items[i]).id == k;
            if i < items.len() - 1 {
                assert(init[i].id == k);
            }
        }
        if has_id(init, k) {
            let i = choose|i: int| 0 <= i < init.len() && (#[trigger] init[i]).id == k;
            assert(items[i].id == k);
        }
        if items.last().id == k {
            assert(items[items.len() - 1].id == k);
        }
    }
}

/// A list names the edges that its start names, and the edge of its last
/// entry.
pub proof fn lemma_pairs_last(items: Seq<Edge>)
    requires
        items.len() > 0,
    ensures
        forall|p: (u32, u32)|
            #[trigger] has_pair(items, p) <==> has_pair(items.drop_last(), p) || pair(items.last()) == p,
{
    let init = items.drop_last();
    assert forall|p: (u32, u32)| #[trigger] has_pair(items, p) <==> has_pair(init, p) || pair(items.last())
        == p by {
        if has_pair(items, p) {
            let i = choose|i: int| 0 <= i < items.len() && pair(#[trigger] items[i]) == p;
            if i < items.len() - 1 {
                assert(pair(init[i]) == p);
            }
        }
        if has_pair(init, p) {
            let i = choose|i: int| 0 <= i < init.len() && pair(#[trigger] init[i]) == p;
            assert(pair(items[i]) == p);
        }
        if pair(items.last()) == p {
            assert(pair(items[items.len() - 1]) == p);
        }
    }
}

/// There is a last entry for an edge exactly when the list names the edge.
pub proof fn lemma_last_weight(items: Seq<Edge>, p: (u32, u32))
    ensures
        last_weight(items, p) is Some <==> has_pair(items, p),
    decreases items.len(),
{
    if items.len() > 0 {
        lemma_last_weight(items.drop_last(), p);
        lemma_pairs_last(items);
    }
}

/// There is a last entry for a node exactly when the list names the node.
pub proof fn lemma_last_label(items: Seq<Node>, k: u32)
    ensures
        last_label(items, k) is Some <==> has_id(items, k),
    decreases items.len(),
{
    if items.len() > 0 {
        lemma_last_label(items.drop_last(), k);
        lemma_ids_last(items);
    }
}

/// What a list of label changes does: every drawn node that it names ends
/// with the side, old or new, of the last change that names it.
pub proof fn lemma_change_labels(g: GraphView, items: Seq<Node>, fw: bool)
    requires
        g.wf(),
        change_labels(g, items, fw) is Ok,
    ensures
        ({
            let h = change_labels(g, items, fw)->Ok_0;
            &&& h.wf()
            &&& h.labels == g.labels
            &&& h.root == g.root
            &&& h.edges == g.edges
            &&& forall|k: u32| #[trigger] h.nodes.contains_key(k) <==> g.nodes.contains_key(k)
            &&& forall|k: u32|
                #[trigger] label_of(h, k) == match last_label(items, k) {
                    Some(t) => if label_of(g, k) is Some {
                        Some(part(t, fw))
                    } else {
                        label_of(g, k)
                    },
                    None => label_of(g, k),
                }
        }),
    decreases items.len(),
{
    if items.len() > 0 {
        let init = items.drop_last();
        let c = items.last();
        lemma_change_labels(g, init, fw);
        let h1 = change_labels(g, init, fw)->Ok_0;
        lemma_relabel(h1, c.id, part(c.label@, fw));
    }
}

/// What a list of weight changes does: every edge that it names ends with
/// the side, old or new, of the last change that names it.
pub proof fn lemma_change_weights(g: GraphView, items: Seq<Edge>, fw: bool)
    requires
        g.wf(),
        change_weights(g, items, fw) is Ok,
    ensures
        ({
            let h = change_weights(g, items, fw)->Ok_0;
            &&& h.wf()
            &&& h.labels == g.labels
            &&& h.root == g.root
            &&& h.nodes == g.nodes
            &&& forall|p: (u32, u32)| #[trigger] h.edges.contains_key(p) <==> g.edges.contains_key(p)
            &&& forall|p: (u32, u32)|
                (#[trigger] h.edges[p]).weight == match last_weight(items, p) {
                    Some(t) => part(t, fw),
                    None => g.edges[p].weight,
                }
        }),
    decreases items.len(),
{
    if items.len() > 0 {
        let init = items.drop_last();
        let c = items.last();
        lemma_change_weights(g, init, fw);
        let h1 = change_weights(g, init, fw)->Ok_0;
        lemma_reweigh(h1, c.from_id, c.to_id, part(c.weight@, fw));
    }
}

/// What a list of joining nodes does: the nodes are new, each has a label,
/// and each is drawn under its label.
pub proof fn lemma_admit_nodes(g: GraphView, items: Seq<Node>, color: NodeColor)
    requires
        g.wf(),
        admit_nodes(g, items, color) is Ok,
    ensures
        ({
            let h = admit_nodes(g, items, color)->Ok_0;
            &&& h.wf()
            &&& h.labels == g.labels
            &&& h.edges == g.edges
            &&& forall|k: u32| #[trigger] h.nodes.contains_key(k) <==> g.nodes.contains_key(k) || has_id(items, k)
            &&& forall|k: u32| #[trigger] has_id(items, k) ==> !g.nodes.contains_key(k) && k < g.labels.len()
            &&& forall|k: u32|
                #[trigger] label_of(h, k) == if has_id(items, k) {
                    Some(g.labels[k as int])
                } else {
                    label_of(g, k)
                }
        }),
    decreases items.len(),
{
    let h = admit_nodes(g, items, color)->Ok_0;
    if items.len() > 0 {
        let init = items.drop_last();
        let c = items.last();
        lemma_admit_nodes(g, init, color);
        let h1 = admit_nodes(g, init, color)->Ok_0;
        lemma_add_node(h1, c.id, color, Placement::Beside { at: h1.root });
        lemma_ids_last(items);
        assert(h == h1.add_node(c.id, color, Placement::Beside { at: h1.root }));
        assert forall|k: u32| #[trigger] h.nodes.contains_key(k) <==> g.nodes.contains_key(k) || has_id(
            items,
            k,
        ) by {
            assert(h1.nodes.contains_key(k) <==> g.nodes.contains_key(k) || has_id(init, k));
        }
        assert forall|k: u32| #[trigger] has_id(items, k) implies !g.nodes.contains_key(k) && k
            < g.labels.len() by {
            if has_id(init, k) {
            } else {
                assert(k == c.id);
                assert(!h1.nodes.contains_key(k));
            }
        }
        assert forall|k: u32|
            #[trigger] label_of(h, k) == if has_id(items, k) {
                Some(g.labels[k as int])
            } else {
                label_of(g, k)
            } by {
            assert(label_of(h1, k) == if has_id(init, k) {
                Some(g.labels[k as int])
            } else {
                label_of(g, k)
            });
        }
    } else {
        assert(forall|k: u32| !has_id(items, k));
    }
}

/// What one joining edge does.
proof fn lemma_admit_edge(g: GraphView, pending: Set<u32>, c: Edge)
    requires
        g.wf(),
        g.admit_edge(pending, c) is Ok,
    ensures
        ({
            let h = g.admit_edge(pending, c)->Ok_0.0;
            &&& h.wf()
            &&& h.labels == g.labels
            &&& h.root == g.root
            &&& forall|k: u32| #[trigger] h.nodes.contains_key(k) <==> g.nodes.contains_key(k)
            &&& forall|k: u32| #[trigger] label_of(h, k) == label_of(g, k)
            &&& forall|p: (u32, u32)| #[trigger] h.edges.contains_key(p) <==> g.edges.contains_key(p) || p == pair(c)
            &&& forall|p: (u32, u32)|
                (#[trigger] h.edges[p]).weight == if p == pair(c) {
                    c.weight@
                } else {
                    g.edges[p].weight
                }
        }),
{
    let a = if pending.contains(c.from_id) {
        g.move_node(c.from_id, Placement::Random)
    } else {
        g
    };
    lemma_link(a, c.from_id, c.to_id);
    let b = a.link(c.from_id, c.to_id);
    if pending.contains(c.to_id) {
        lemma_bump(b, c.from_id);
    }
    let d = if pending.contains(c.to_id) {
        b.bump(c.from_id).move_node(c.to_id, Placement::Near { neighbor: c.from_id })
    } else {
        b
    };
    assert(d.wf());
    lemma_add_edge(d, c.from_id, c.to_id, c.weight@);
    let h = g.admit_edge(pending, c)->Ok_0.0;
    assert(h == d.add_edge(c.from_id, c.to_id, c.weight@));
    assert forall|k: u32| #[trigger] label_of(h, k) == label_of(g, k) by {
        assert(label_of(b, k) == label_of(a, k));
        assert(label_of(d, k) == label_of(b, k));
    }
}

/// What a list of joining edges does: the edges are there, each with the
/// weight of the last entry that names it.
pub proof fn lemma_admit_edges(g: GraphView, pending: Set<u32>, items: Seq<Edge>)
    requires
        g.wf(),
        admit_edges(g, pending, items) is Ok,
    ensures
        ({
            let h = admit_edges(g, pending, items)->Ok_0.0;
            &&& h.wf()
            &&& h.labels == g.labels
            &&& h.root == g.root
            &&& forall|k: u32| #[trigger] h.nodes.contains_key(k) <==> g.nodes.contains_key(k)
            &&& forall|k: u32| #[trigger] label_of(h, k) == label_of(g, k)
            &&& forall|p: (u32, u32)|
                #[trigger] h.edges.contains_key(p) <==> g.edges.contains_key(p) || has_pair(items, p)
            &&& forall|p: (u32, u32)|
                (#[trigger] h.edges[p]).weight == match last_weight(items, p) {
                    Some(t) => t,
                    None => g.edges[p].weight,
                }
        }),
    decreases items.len(),
{
    let h = admit_edges(g, pending, items)->Ok_0.0;
    if items.len() > 0 {
        let init = items.drop_last();
        let c = items.last();
        lemma_admit_edges(g, pending, init);
        let s1 = admit_edges(g, pending, init)->Ok_0;
        let h1 = s1.0;
        lemma_admit_edge(h1, s1.1, c);
        lemma_pairs_last(items);
        assert(h == h1.admit_edge(s1.1, c)->Ok_0.0);
        assert forall|k: u32| #[trigger] h.nodes.contains_key(k) <==> g.nodes.contains_key(k) by {
            assert(h1.nodes.contains_key(k) <==> g.nodes.contains_key(k));
        }
        assert forall|k: u32| #[trigger] label_of(h, k) == label_of(g, k) by {
            assert(label_of(h1, k) == label_of(g, k));
        }
        assert forall|p: (u32, u32)| #[trigger] h.edges.contains_key(p) <==> g.edges.contains_key(p)
            || has_pair(items, p) by {
            assert(h1.edges.contains_key(p) <==> g.edges.contains_key(p) || has_pair(init, p));
        }
        assert forall|p: (u32, u32)|
            (#[trigger] h.edges[p]).weight == match last_weight(items, p) {
                Some(t) => t,
                None => g.edges[p].weight,
            } by {
            assert(h1.edges[p].weight == match last_weight(init, p) {
                Some(t) => t,
                None => g.edges[p].weight,
            });
        }
    } else {
        assert(forall|p: (u32, u32)| !has_pair(items, p));
    }
}

/// What a list of edges that come back does.
pub proof fn lemma_restore_edges(g: GraphView, items: Seq<Edge>)
    requires
        g.wf(),
        restore_edges(g, items) is Ok,
    ensures
        ({
            let h = restore_edges(g, items)->Ok_0;
            &&& h.wf()
            &&& h.labels == g.labels
            &&& h.root == g.root
            &&& h.nodes == g.nodes
            &&& forall|p: (u32, u32)|
                #[trigger] h.edges.contains_key(p) <==> g.edges.contains_key(p) || has_pair(items, p)
            &&& forall|p: (u32, u32)|
                (#[trigger] h.edges[p]).weight == match last_weight(items, p) {
                    Some(t) => t,
                    None => g.edges[p].weight,
                }
        }),
    decreases items.len(),
{
    let h = restore_edges(g, items)->Ok_0;
    if items.len() > 0 {
        let init = items.drop_last();
        let c = items.last();
        lemma_restore_edges(g, init);
        let h1 = restore_edges(g, init)->Ok_0;
        lemma_add_edge(h1, c.from_id, c.to_id, c.weight@);
        lemma_pairs_last(items);
        assert(h == h1.add_edge(c.from_id, c.to_id, c.weight@));
        assert forall|p: (u32, u32)| #[trigger] h.edges.contains_key(p) <==> g.edges.contains_key(p)
            || has_pair(items, p) by {
            assert(h1.edges.contains_key(p) <==> g.edges.contains_key(p) || has_pair(init, p));
        }
        assert forall|p: (u32, u32)|
            (#[trigger] h.edges[p]).weight == match last_weight(items, p) {
                Some(t) => t,
                None => g.edges[p].weight,
            } by {
            assert(h1.edges[p].weight == match last_weight(init, p) {
                Some(t) => t,
                None => g.edges[p].weight,
            });
        }
    } else {
        assert(forall|p: (u32, u32)| !has_pair(items, p));
    }
}

/// What a list of leaving edges does: the edges were there and are gone;
/// the others are as they were.
pub proof fn lemma_retire_edges(g: GraphView, items: Seq<Edge>)
    requires
        g.wf(),
        retire_edges(g, items) is Ok,
    ensures
        ({
            let h = retire_edges(g, items)->Ok_0;
            &&& h.wf()
            &&& h.labels == g.labels
            &&& h.root == g.root
            &&& h.nodes == g.nodes
            &&& forall|p: (u32, u32)|
                #[trigger] h.edges.contains_key(p) <==> g.edges.contains_key(p) && !has_pair(items, p)
            &&& forall|p: (u32, u32)| #[trigger] has_pair(items, p) ==> g.edges.contains_key(p)
            &&& forall|p: (u32, u32)| h.edges.contains_key(p) ==> #[trigger] h.edges[p] == g.edges[p]
        }),
    decreases items.len(),
{
    let h = retire_edges(g, items)->Ok_0;
    if items.len() > 0 {
        let init = items.drop_last();
        let c = items.last();
        lemma_retire_edges(g, init);
        let h1 = retire_edges(g, init)->Ok_0;
        lemma_remove_edge(h1, c.from_id, c.to_id);
        lemma_pairs_last(items);
        assert(h == h1.remove_edge(c.from_id, c.to_id));
        assert(h1.edges.contains_key(pair(c)));
        assert forall|p: (u32, u32)| #[trigger] h.edges.contains_key(p) <==> g.edges.contains_key(p)
            && !has_pair(items, p) by {
            assert(h1.edges.contains_key(p) <==> g.edges.contains_key(p) && !has_pair(init, p));
        }
        assert forall|p: (u32, u32)| #[trigger] has_pair(items, p) implies g.edges.contains_key(p) by {
            if !has_pair(init, p) {
                assert(p == pair(c));
            }
        }
        assert forall|p: (u32, u32)| h.edges.contains_key(p) implies #[trigger] h.edges[p] == g.edges[p] by {
            assert(h1.edges.contains_key(p));
            assert(h1.edges[p] == g.edges[p]);
        }
    } else {
        assert(forall|p: (u32, u32)| !has_pair(items, p));
    }
}

/// What a list of leaving nodes does: the nodes were there and are gone,
/// with the edges that touched them; the rest is as it was.
pub proof fn lemma_retire_nodes(g: GraphView, items: Seq<Node>)
    requires
        g.wf(),
        retire_nodes(g, items) is Ok,
    ensures
        ({
            let h = retire_nodes(g, items)->Ok_0;
            &&& h.wf()
            &&& h.labels == g.labels
            &&& forall|k: u32| #[trigger] h.nodes.contains_key(k) <==> g.nodes.contains_key(k) && !has_id(items, k)
            &&& forall|k: u32| #[trigger] has_id(items, k) ==> g.nodes.contains_key(k)
            &&& forall|k: u32| h.nodes.contains_key(k) ==> #[trigger] label_of(h, k) == label_of(g, k)
            &&& forall|p: (u32, u32)|
                #[trigger] h.edges.contains_key(p) <==> g.edges.contains_key(p) && !has_id(items, p.0)
                    && !has_id(items, p.1)
            &&& forall|p: (u32, u32)| h.edges.contains_key(p) ==> #[trigger] h.edges[p] == g.edges[p]
        }),
    decreases items.len(),
{
    let h = retire_nodes(g, items)->Ok_0;
    if items.len() > 0 {
        let init = items.drop_last();
        let c = items.last();
        lemma_retire_nodes(g, init);
        let h1 = retire_nodes(g, init)->Ok_0;
        lemma_remove_node(h1, c.id);
        lemma_ids_last(items);
        assert(h == h1.remove_node(c.id));
        assert(h1.nodes.contains_key(c.id));
        assert forall|k: u32| #[trigger] h.nodes.contains_key(k) <==> g.nodes.contains_key(k) && !has_id(
            items,
            k,
        ) by {
            assert(h1.nodes.contains_key(k) <==> g.nodes.contains_key(k) && !has_id(init, k));
        }
        assert forall|k: u32| #[trigger] has_id(items, k) implies g.nodes.contains_key(k) by {
            if !has_id(init, k) {
                assert(k == c.id);
            }
        }
        assert forall|k: u32| h.nodes.contains_key(k) implies #[trigger] label_of(h, k) == label_of(g, k) by {
            assert(h1.nodes.contains_key(k));
            assert(label_of(h1, k) == label_of(g, k));
        }
        assert forall|p: (u32, u32)| #[trigger] h.edges.contains_key(p) <==> g.edges.contains_key(p)
            && !has_id(items, p.0) && !has_id(items, p.1) by {
            assert(h1.edges.contains_key(p) <==> g.edges.contains_key(p) && !has_id(init, p.0) && !has_id(
                init,
                p.1,
            ));
            assert(has_id(items, p.0) <==> has_id(init, p.0) || c.id == p.0);
            assert(has_id(items, p.1) <==> has_id(init, p.1) || c.id == p.1);
        }
        assert forall|p: (u32, u32)| h.edges.contains_key(p) implies #[trigger] h.edges[p] == g.edges[p] by {
            assert(h1.edges.contains_key(p));
            assert(h1.edges[p] == g.edges[p]);
        }
    } else {
        assert(forall|k: u32| !has_id(items, k));
    }
}

/// What handing the root over does: only the root and colours change.
pub proof fn lemma_switch_root(g: GraphView, root: u32)
    requires
        g.wf(),
        g.switch_root(root) is Ok,
    ensures
        ({
            let h = g.switch_root(root)->Ok_0;
            &&& h.wf()
            &&& h.labels == g.labels
            &&& h.root == root
            &&& h.edges == g.edges
            &&& forall|k: u32| #[trigger] h.nodes.contains_key(k) <==> g.nodes.contains_key(k)
            &&& forall|k: u32| #[trigger] label_of(h, k) == label_of(g, k)
        }),
{
    assert(g.nodes.contains_key(g.root));
    lemma_recolor(g, g.root, NodeColor::Default);
    lemma_recolor(g.recolor(g.root, NodeColor::Default), root, NodeColor::Blue);
}


/// An edit can be taken back without loss when
///  - the edges it adds are new;
///  - every edge that goes with a node it removes is listed among the edges
///    it removes;
///  - the old side of the last change of a weight is the weight that the
///    edge had, and an edge that is removed without such a change is listed
///    with the weight that it had;
///  - the old side of the last change of a label is the label that the node
///    showed, and a node that is removed without such a change showed the
///    label that belongs to it; a node that is not drawn is not removed.
pub open spec fn reversible(g: GraphView, diff: &DiffInfo) -> bool {
    &&& forall|p: (u32, u32)| #[trigger] has_pair(diff.added_edges@, p) ==> !g.edges.contains_key(p)
    &&& forall|p: (u32, u32)|
        #[trigger] g.edges.contains_key(p) && (has_id(diff.removed_nodes@, p.0) || has_id(
            diff.removed_nodes@,
            p.1,
        )) ==> has_pair(diff.removed_edges@, p)
    &&& forall|p: (u32, u32)|
        #[trigger] g.edges.contains_key(p) ==> match last_weight(diff.weights_changed@, p) {
            Some(t) => old_part(t) == g.edges[p].weight,
            None => match last_weight(diff.removed_edges@, p) {
                Some(t) => t == g.edges[p].weight,
                None => true,
            },
        }
    &&& forall|k: u32|
        #[trigger] g.nodes.contains_key(k) ==> match label_of(g, k) {
            Some(l) => match last_label(diff.labels_changed@, k) {
                Some(t) => old_part(t) == l,
                None => has_id(diff.removed_nodes@, k) ==> g.labels[k as int] == l,
            },
            None => !has_id(diff.removed_nodes@, k),
        }
}

/// The label that a node shows after the label changes of `items`, where
/// it showed `was` before.
pub open spec fn relabeled(items: Seq<Node>, k: u32, was: Option<Seq<char>>, fw: bool) -> Option<Seq<char>> {
    match last_label(items, k) {
        Some(t) => if was is Some {
            Some(part(t, fw))
        } else {
            was
        },
        None => was,
    }
}

/// The weight that an edge has after the weight changes of `items`, where
/// it had `was` before.
pub open spec fn reweighed(items: Seq<Edge>, p: (u32, u32), was: Seq<char>, fw: bool) -> Seq<char> {
    match last_weight(items, p) {
        Some(t) => part(t, fw),
        None => was,
    }
}

/// What replaying an edit makes of the nodes.
#[verifier::rlimit(80)]
#[verifier::spinoff_prover]
proof fn lemma_forward_nodes(g: GraphView, diff: &DiffInfo)
    requires
        g.wf(),
        forward(g, diff) is Ok,
    ensures
        ({
            let h = forward(g, diff)->Ok_0;
            let an = diff.added_nodes@;
            let rn = diff.removed_nodes@;
            &&& h.wf()
            &&& h.labels == g.labels
            &&& forall|k: u32|
                #[trigger] h.nodes.contains_key(k) <==> (g.nodes.contains_key(k) || has_id(an, k)) && !has_id(
                    rn,
                    k,
                )
            &&& forall|k: u32| #[trigger] has_id(an, k) ==> !g.nodes.contains_key(k) && k < g.labels.len()
            &&& forall|k: u32| #[trigger] has_id(rn, k) ==> g.nodes.contains_key(k) || has_id(an, k)
            &&& forall|k: u32|
                h.nodes.contains_key(k) ==> #[trigger] label_of(h, k) == if has_id(an, k) {
                    Some(g.labels[k as int])
                } else {
                    relabeled(diff.labels_changed@, k, label_of(g, k), true)
                }
        }),
{
    let lc = diff.labels_changed@;
    let wc = diff.weights_changed@;
    let an = diff.added_nodes@;
    let ae = diff.added_edges@;
    let re = diff.removed_edges@;
    let rn = diff.removed_nodes@;
    let f1 = g.switch_root(diff.root_id)->Ok_0;
    let f2 = change_labels(f1, lc, true)->Ok_0;
    let f3 = change_weights(f2, wc, true)->Ok_0;
    let f4 = admit_nodes(f3, an, NodeColor::Red)->Ok_0;
    let f5 = admit_edges(f4, ids_of(an), ae)->Ok_0.0;
    let f6 = retire_edges(f5, re)->Ok_0;
    let f7 = retire_nodes(f6, rn)->Ok_0;
    lemma_forward_phases(g, diff);
    lemma_switch_root(g, diff.root_id);
    lemma_change_labels(f1, lc, true);
    lemma_change_weights(f2, wc, true);
    lemma_admit_nodes(f3, an, NodeColor::Red);
    lemma_admit_edges(f4, ids_of(an), ae);
    lemma_retire_edges(f5, re);
    lemma_retire_nodes(f6, rn);
    assert forall|k: u32|
        #[trigger] f7.nodes.contains_key(k) <==> (g.nodes.contains_key(k) || has_id(an, k)) && !has_id(
            rn,
            k,
        ) by {
        assert(f5.nodes.contains_key(k) <==> f4.nodes.contains_key(k));
        assert(f4.nodes.contains_key(k) <==> f3.nodes.contains_key(k) || has_id(an, k));
        assert(f2.nodes.contains_key(k) <==> f1.nodes.contains_key(k));
        assert(f1.nodes.contains_key(k) <==> g.nodes.contains_key(k));
    }
    assert forall|k: u32| #[trigger] has_id(an, k) implies !g.nodes.contains_key(k) && k < g.labels.len() by {
        assert(f2.nodes.contains_key(k) <==> f1.nodes.contains_key(k));
        assert(f1.nodes.contains_key(k) <==> g.nodes.contains_key(k));
    }
    assert forall|k: u32| #[trigger] has_id(rn, k) implies g.nodes.contains_key(k) || has_id(an, k) by {
        assert(f6.nodes.contains_key(k));
        assert(f5.nodes.contains_key(k) <==> f4.nodes.contains_key(k));
        assert(f4.nodes.contains_key(k) <==> f3.nodes.contains_key(k) || has_id(an, k));
        assert(f2.nodes.contains_key(k) <==> f1.nodes.contains_key(k));
        assert(f1.nodes.contains_key(k) <==> g.nodes.contains_key(k));
    }
    assert forall|k: u32| f7.nodes.contains_key(k) implies #[trigger] label_of(f7, k) == if has_id(an, k) {
        Some(g.labels[k as int])
    } else {
        relabeled(lc, k, label_of(g, k), true)
    } by {
        assert(label_of(f7, k) == label_of(f6, k));
        assert(label_of(f6, k) == label_of(f5, k));
        assert(label_of(f5, k) == label_of(f4, k));
        assert(label_of(f4, k) == if has_id(an, k) {
            Some(f3.labels[k as int])
        } else {
            label_of(f3, k)
        });
        assert(f3.labels == g.labels);
        assert(label_of(f3, k) == label_of(f2, k));
        assert(label_of(f2, k) == relabeled(lc, k, label_of(f1, k), true));
        assert(label_of(f1, k) == label_of(g, k));
    }
}

/// Every step of an edit that was replayed was taken.
proof fn lemma_forward_phases(g: GraphView, diff: &DiffInfo)
    requires
        forward(g, diff) is Ok,
    ensures
        ({
            let f1 = g.switch_root(diff.root_id);
            let f2 = change_labels(f1->Ok_0, diff.labels_changed@, true);
            let f3 = change_weights(f2->Ok_0, diff.weights_changed@, true);
            let f4 = admit_nodes(f3->Ok_0, diff.added_nodes@, NodeColor::Red);
            let f5 = admit_edges(f4->Ok_0, ids_of(diff.added_nodes@), diff.added_edges@);
            let f6 = retire_edges(f5->Ok_0.0, diff.removed_edges@);
            let f7 = retire_nodes(f6->Ok_0, diff.removed_nodes@);
            &&& f1 is Ok
            &&& f2 is Ok
            &&& f3 is Ok
            &&& f4 is Ok
            &&& f5 is Ok
            &&& f6 is Ok
            &&& f7 is Ok
            &&& forward(g, diff) == f7
        }),
{
}

/// Every step of an edit that was taken back was taken.
proof fn lemma_backward_phases(x: GraphView, diff: &DiffInfo, root: u32)
    requires
        backward(x, diff, root) is Ok,
    ensures
        ({
            let b1 = admit_nodes(x, diff.removed_nodes@, NodeColor::Default);
            let b2 = restore_edges(b1->Ok_0, diff.removed_edges@);
            let b3 = retire_edges(b2->Ok_0, diff.added_edges@);
            let b4 = retire_nodes(b3->Ok_0, diff.added_nodes@);
            let b5 = change_weights(b4->Ok_0, diff.weights_changed@, false);
            let b6 = change_labels(b5->Ok_0, diff.labels_changed@, false);
            let b7 = b6->Ok_0.switch_root(root);
            &&& b1 is Ok
            &&& b2 is Ok
            &&& b3 is Ok
            &&& b4 is Ok
            &&& b5 is Ok
            &&& b6 is Ok
            &&& b7 is Ok
            &&& backward(x, diff, root) == b7
        }),
{
}

/// What replaying an edit makes of the edges.
proof fn lemma_forward_edges(g: GraphView, diff: &DiffInfo)
    requires
        g.wf(),
        forward(g, diff) is Ok,
    ensures
        ({
            let h = forward(g, diff)->Ok_0;
            let ae = diff.added_edges@;
            let re = diff.removed_edges@;
            let rn = diff.removed_nodes@;
            &&& forall|p: (u32, u32)|
                #[trigger] h.edges.contains_key(p) <==> (g.edges.contains_key(p) || has_pair(ae, p)) && !has_pair(
                    re,
                    p,
                ) && !has_id(rn, p.0) && !has_id(rn, p.1)
            &&& forall|p: (u32, u32)| #[trigger] has_pair(re, p) ==> g.edges.contains_key(p) || has_pair(ae, p)
            &&& forall|p: (u32, u32)|
                h.edges.contains_key(p) ==> (#[trigger] h.edges[p]).weight == match last_weight(ae, p) {
                    Some(t) => t,
                    None => reweighed(diff.weights_changed@, p, g.edges[p].weight, true),
                }
        }),
{
    let lc = diff.labels_changed@;
    let wc = diff.weights_changed@;
    let an = diff.added_nodes@;
    let ae = diff.added_edges@;
    let re = diff.removed_edges@;
    let rn = diff.removed_nodes@;
    let f1 = g.switch_root(diff.root_id)->Ok_0;
    let f2 = change_labels(f1, lc, true)->Ok_0;
    let f3 = change_weights(f2, wc, true)->Ok_0;
    let f4 = admit_nodes(f3, an, NodeColor::Red)->Ok_0;
    let f5 = admit_edges(f4, ids_of(an), ae)->Ok_0.0;
    let f6 = retire_edges(f5, re)->Ok_0;
    let f7 = retire_nodes(f6, rn)->Ok_0;
    lemma_forward_phases(g, diff);
    lemma_switch_root(g, diff.root_id);
    lemma_change_labels(f1, lc, true);
    lemma_change_weights(f2, wc, true);
    lemma_admit_nodes(f3, an, NodeColor::Red);
    lemma_admit_edges(f4, ids_of(an), ae);
    lemma_retire_edges(f5, re);
    lemma_retire_nodes(f6, rn);
    assert forall|p: (u32, u32)|
        #[trigger] f7.edges.contains_key(p) <==> (g.edges.contains_key(p) || has_pair(ae, p)) && !has_pair(
            re,
            p,
        ) && !has_id(rn, p.0) && !has_id(rn, p.1) by {
        assert(f6.edges.contains_key(p) <==> f5.edges.contains_key(p) && !has_pair(re, p));
        assert(f5.edges.contains_key(p) <==> f4.edges.contains_key(p) || has_pair(ae, p));
        assert(f3.edges.contains_key(p) <==> f2.edges.contains_key(p));
    }
    assert forall|p: (u32, u32)| #[trigger] has_pair(re, p) implies g.edges.contains_key(p) || has_pair(
        ae,
        p,
    ) by {
        assert(f5.edges.contains_key(p));
        assert(f5.edges.contains_key(p) <==> f4.edges.contains_key(p) || has_pair(ae, p));
        assert(f3.edges.contains_key(p) <==> f2.edges.contains_key(p));
    }
    assert forall|p: (u32, u32)| f7.edges.contains_key(p) implies (#[trigger] f7.edges[p]).weight
        == match last_weight(ae, p) {
        Some(t) => t,
        None => reweighed(wc, p, g.edges[p].weight, true),
    } by {
        assert(f6.edges.contains_key(p));
        assert(f7.edges[p] == f6.edges[p]);
        assert(f6.edges[p] == f5.edges[p]);
        assert(f5.edges[p].weight == match last_weight(ae, p) {
            Some(t) => t,
            None => f4.edges[p].weight,
        });
        assert(f3.edges[p].weight == match last_weight(wc, p) {
            Some(t) => part(t, true),
            None => f2.edges[p].weight,
        });
    }
}

/// What taking back an edit makes of the nodes.
proof fn lemma_backward_nodes(x: GraphView, diff: &DiffInfo, root: u32)
    requires
        x.wf(),
        backward(x, diff, root) is Ok,
    ensures
        ({
            let h = backward(x, diff, root)->Ok_0;
            let an = diff.added_nodes@;
            let rn = diff.removed_nodes@;
            &&& h.wf()
            &&& h.labels == x.labels
            &&& h.root == root
            &&& forall|k: u32|
                #[trigger] h.nodes.contains_key(k) <==> (x.nodes.contains_key(k) || has_id(rn, k)) && !has_id(
                    an,
                    k,
                )
            &&& forall|k: u32|
                h.nodes.contains_key(k) ==> #[trigger] label_of(h, k) == relabeled(
                    diff.labels_changed@,
                    k,
                    if has_id(rn, k) {
                        Some(x.labels[k as int])
                    } else {
                        label_of(x, k)
                    },
                    false,
                )
        }),
{
    let lc = diff.labels_changed@;
    let wc = diff.weights_changed@;
    let an = diff.added_nodes@;
    let ae = diff.added_edges@;
    let re = diff.removed_edges@;
    let rn = diff.removed_nodes@;
    let b1 = admit_nodes(x, rn, NodeColor::Default)->Ok_0;
    let b2 = restore_edges(b1, re)->Ok_0;
    let b3 = retire_edges(b2, ae)->Ok_0;
    let b4 = retire_nodes(b3, an)->Ok_0;
    let b5 = change_weights(b4, wc, false)->Ok_0;
    let b6 = change_labels(b5, lc, false)->Ok_0;
    let b7 = b6.switch_root(root)->Ok_0;
    lemma_backward_phases(x, diff, root);
    lemma_admit_nodes(x, rn, NodeColor::Default);
    lemma_restore_edges(b1, re);
    lemma_retire_edges(b2, ae);
    lemma_retire_nodes(b3, an);
    lemma_change_weights(b4, wc, false);
    lemma_change_labels(b5, lc, false);
    lemma_switch_root(b6, root);
    assert forall|k: u32|
        #[trigger] b7.nodes.contains_key(k) <==> (x.nodes.contains_key(k) || has_id(rn, k)) && !has_id(
            an,
            k,
        ) by {
        assert(b7.nodes.contains_key(k) <==> b6.nodes.contains_key(k));
        assert(b6.nodes.contains_key(k) <==> b5.nodes.contains_key(k));
        assert(b4.nodes.contains_key(k) <==> b3.nodes.contains_key(k) && !has_id(an, k));
        assert(b1.nodes.contains_key(k) <==> x.nodes.contains_key(k) || has_id(rn, k));
    }
    assert forall|k: u32| b7.nodes.contains_key(k) implies #[trigger] label_of(b7, k) == relabeled(
        lc,
        k,
        if has_id(rn, k) {
            Some(x.labels[k as int])
        } else {
            label_of(x, k)
        },
        false,
    ) by {
        assert(label_of(b7, k) == label_of(b6, k));
        assert(b6.nodes.contains_key(k));
        assert(b5.nodes.contains_key(k));
        assert(b4.nodes.contains_key(k));
        assert(label_of(b4, k) == label_of(b3, k));
        assert(label_of(b1, k) == if has_id(rn, k) {
            Some(x.labels[k as int])
        } else {
            label_of(x, k)
        });
    }
}

/// What taking back an edit makes of the edges.
proof fn lemma_backward_edges(x: GraphView, diff: &DiffInfo, root: u32)
    requires
        x.wf(),
        backward(x, diff, root) is Ok,
    ensures
        ({
            let h = backward(x, diff, root)->Ok_0;
            let an = diff.added_nodes@;
            let ae = diff.added_edges@;
            let re = diff.removed_edges@;
            &&& forall|p: (u32, u32)|
                #[trigger] h.edges.contains_key(p) <==> (x.edges.contains_key(p) || has_pair(re, p)) && !has_pair(
                    ae,
                    p,
                ) && !has_id(an, p.0) && !has_id(an, p.1)
            &&& forall|p: (u32, u32)|
                h.edges.contains_key(p) ==> (#[trigger] h.edges[p]).weight == reweighed(
                    diff.weights_changed@,
                    p,
                    match last_weight(re, p) {
                        Some(t) => t,
                        None => x.edges[p].weight,
                    },
                    false,
                )
        }),
{
    let lc = diff.labels_changed@;
    let wc = diff.weights_changed@;
    let an = diff.added_nodes@;
    let ae = diff.added_edges@;
    let re = diff.removed_edges@;
    let rn = diff.removed_nodes@;
    let b1 = admit_nodes(x, rn, NodeColor::Default)->Ok_0;
    let b2 = restore_edges(b1, re)->Ok_0;
    let b3 = retire_edges(b2, ae)->Ok_0;
    let b4 = retire_nodes(b3, an)->Ok_0;
    let b5 = change_weights(b4, wc, false)->Ok_0;
    let b6 = change_labels(b5, lc, false)->Ok_0;
    let b7 = b6.switch_root(root)->Ok_0;
    lemma_backward_phases(x, diff, root);
    lemma_admit_nodes(x, rn, NodeColor::Default);
    lemma_restore_edges(b1, re);
    lemma_retire_edges(b2, ae);
    lemma_retire_nodes(b3, an);
    lemma_change_weights(b4, wc, false);
    lemma_change_labels(b5, lc, false);
    lemma_switch_root(b6, root);
    assert forall|p: (u32, u32)|
        #[trigger] b7.edges.contains_key(p) <==> (x.edges.contains_key(p) || has_pair(re, p)) && !has_pair(
            ae,
            p,
        ) && !has_id(an, p.0) && !has_id(an, p.1) by {
        assert(b5.edges.contains_key(p) <==> b4.edges.contains_key(p));
        assert(b4.edges.contains_key(p) <==> b3.edges.contains_key(p) && !has_id(an, p.0) && !has_id(an, p.1));
        assert(b3.edges.contains_key(p) <==> b2.edges.contains_key(p) && !has_pair(ae, p));
        assert(b2.edges.contains_key(p) <==> b1.edges.contains_key(p) || has_pair(re, p));
    }
    assert forall|p: (u32, u32)| b7.edges.contains_key(p) implies (#[trigger] b7.edges[p]).weight
        == reweighed(
        wc,
        p,
        match last_weight(re, p) {
            Some(t) => t,
            None => x.edges[p].weight,
        },
        false,
    ) by {
        assert(b5.edges.contains_key(p));
        assert(b4.edges.contains_key(p));
        assert(b3.edges.contains_key(p));
        assert(b4.edges[p] == b3.edges[p]);
        assert(b3.edges[p] == b2.edges[p]);
        assert(b5.edges[p].weight == match last_weight(wc, p) {
            Some(t) => part(t, false),
            None => b4.edges[p].weight,
        });
        assert(b2.edges[p].weight == match last_weight(re, p) {
            Some(t) => t,
            None => b1.edges[p].weight,
        });
    }
}

/// Replaying an edit and taking it back at once restores the nodes, the
/// edges, every label text, every weight text and the root, for every edit
/// that can be taken back without loss.
pub proof fn lemma_forward_then_backward(g: GraphView, diff: &DiffInfo)
    requires
        g.wf(),
        forward(g, diff) is Ok,
        backward(forward(g, diff)->Ok_0, diff, g.root) is Ok,
        reversible(g, diff),
    ensures
        ({
            let back = backward(forward(g, diff)->Ok_0, diff, g.root)->Ok_0;
            &&& back.wf()
            &&& back.labels == g.labels
            &&& back.root == g.root
            &&& same_nodes(back, g)
            &&& same_edges(back, g)
        }),
{
    let x = forward(g, diff)->Ok_0;
    let back = backward(x, diff, g.root)->Ok_0;
    let lc = diff.labels_changed@;
    let wc = diff.weights_changed@;
    let an = diff.added_nodes@;
    let ae = diff.added_edges@;
    let re = diff.removed_edges@;
    let rn = diff.removed_nodes@;
    lemma_forward_nodes(g, diff);
    lemma_forward_edges(g, diff);
    lemma_backward_nodes(x, diff, g.root);
    lemma_backward_edges(x, diff, g.root);
    assert forall|k: u32| back.nodes.contains_key(k) <==> g.nodes.contains_key(k) by {
        assert(back.nodes.contains_key(k) <==> (x.nodes.contains_key(k) || has_id(rn, k)) && !has_id(an, k));
        assert(x.nodes.contains_key(k) <==> (g.nodes.contains_key(k) || has_id(an, k)) && !has_id(rn, k));
    }
    assert forall|k: u32| back.nodes.contains_key(k) implies #[trigger] label_of(back, k) == label_of(g, k) by {
        lemma_last_label(lc, k);
        assert(g.nodes.contains_key(k));
        assert(!has_id(an, k));
        if !has_id(rn, k) {
            assert(x.nodes.contains_key(k));
            assert(label_of(x, k) == relabeled(lc, k, label_of(g, k), true));
        }
    }
    assert forall|p: (u32, u32)| back.edges.contains_key(p) <==> g.edges.contains_key(p) by {
        assert(back.edges.contains_key(p) <==> (x.edges.contains_key(p) || has_pair(re, p)) && !has_pair(ae, p)
            && !has_id(an, p.0) && !has_id(an, p.1));
        assert(x.edges.contains_key(p) <==> (g.edges.contains_key(p) || has_pair(ae, p)) && !has_pair(re, p)
            && !has_id(rn, p.0) && !has_id(rn, p.1));
        if g.edges.contains_key(p) {
            assert(g.nodes.contains_key(p.0) && g.nodes.contains_key(p.1));
        }
    }
    assert forall|p: (u32, u32)| back.edges.contains_key(p) implies (#[trigger] back.edges[p]).weight
        == g.edges[p].weight by {
        lemma_last_weight(ae, p);
        lemma_last_weight(re, p);
        assert(g.edges.contains_key(p));
        assert(!has_pair(ae, p));
        if !has_pair(re, p) {
            assert(x.edges.contains_key(p));
            assert(x.edges[p].weight == reweighed(wc, p, g.edges[p].weight, true));
        }
    }
}

} // verus!
