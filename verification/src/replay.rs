//! Applying one edit of the history to a graph, forwards or backwards.
//!
//! An edit is applied step by step and stops at the first step that cannot
//! be taken. It is tried on a copy, so that an edit that fails changes
//! nothing.

use crate::dsas::Graph;
use crate::dsas::GraphError;
use crate::dsas::GraphView;
use crate::json_deserialize::DiffInfo;
use crate::json_deserialize::Edge;
use crate::json_deserialize::Node;
use crate::scene::Placement;
use crate::tree::NodeColor;
use std::collections::HashSet;
use vstd::prelude::*;
use vstd::string::StrSliceExecFns;

verus! {

broadcast use vstd::std_specs::hash::group_hash_axioms;

/// Whether the three characters from position `i` of `s` are `===`.
pub open spec fn delim_at(s: Seq<char>, i: int) -> bool {
    0 <= i && i + 3 <= s.len() && s[i] == '=' && s[i + 1] == '=' && s[i + 2] == '='
}

/// Whether `s` holds `===` somewhere.
#[verifier::opaque]
pub open spec fn has_delim(s: Seq<char>) -> bool {
    exists|i: int| delim_at(s, i)
}

/// Where the first `===` of `s` starts.
#[verifier::opaque]
pub open spec fn delim_pos(s: Seq<char>) -> int {
    choose|i: int| delim_at(s, i) && forall|j: int| 0 <= j < i ==> !delim_at(s, j)
}

/// What stands before the first `===`: the value that a change replaces.
pub open spec fn old_part(s: Seq<char>) -> Seq<char> {
    s.subrange(0, delim_pos(s))
}

/// What stands after the first `===`: the value that a change brings.
pub open spec fn new_part(s: Seq<char>) -> Seq<char> {
    s.subrange(delim_pos(s) + 3, s.len() as int)
}

/// The side of a change that applies when the history is walked forwards or
/// backwards.
pub open spec fn part(s: Seq<char>, forward: bool) -> Seq<char> {
    if forward {
        new_part(s)
    } else {
        old_part(s)
    }
}

/// Finds the first `===` of `text`.
pub fn find_delimiter(text: &str) -> (r: Option<usize>)
    ensures
        match r {
            Some(i) => has_delim(text@) && i == delim_pos(text@) && i + 3 <= text@.len(),
            None => !has_delim(text@),
        },
{
    let len = text.unicode_len();
    proof {
        reveal(has_delim);
        reveal(delim_pos);
    }
    if len < 3 {
        return None;
    }
    let mut i: usize = 0;
    while i <= len - 3
        invariant
            len == text@.len(),
            len >= 3,
            forall|j: int| 0 <= j < i ==> !delim_at(text@, j),
        decreases len - i,
    {
        proof {
            reveal(has_delim);
            reveal(delim_pos);
        }
        let hit: bool = text.get_char(i) == '=' && text.get_char(i + 1) == '=' && text.get_char(i + 2) == '=';
        if hit {
            proof {
                assert(delim_at(text@, i as int));
                let p = delim_pos(text@);
                assert(delim_at(text@, p) && forall|j: int| 0 <= j < p ==> !delim_at(text@, j));
                if p < i {
                    assert(!delim_at(text@, p));
                }
                if i < p {
                    assert(!delim_at(text@, i as int));
                }
            }
            return Some(i);
        }
        i += 1;
    }
    None
}

/// The side of the change `text` that applies in the given direction, where
/// the text holds `===`.
pub fn split_change(text: &str, forward: bool) -> (r: Option<String>)
    ensures
        match r {
            Some(t) => has_delim(text@) && t@ == part(text@, forward),
            None => !has_delim(text@),
        },
{
    match find_delimiter(text) {
        None => None,
        Some(i) => {
            let len = text.unicode_len();
            if forward {
                Some(text.substring_char(i + 3, len).to_owned())
            } else {
                Some(text.substring_char(0, i).to_owned())
            }
        },
    }
}

impl GraphView {
    /// The graph after `root` became the root and took over its colour.
    pub open spec fn switch_root(self, root: u32) -> Result<GraphView, GraphError> {
        if !self.nodes.contains_key(root) {
            Err(GraphError::MissingNode(root))
        } else {
            Ok(self.recolor(self.root, NodeColor::Default).recolor(root, NodeColor::Blue).reroot(root))
        }
    }

    /// The graph after the label of a node changed.
    pub open spec fn change_label(self, c: Node, forward: bool) -> Result<GraphView, GraphError> {
        if !self.nodes.contains_key(c.id) {
            Err(GraphError::MissingNode(c.id))
        } else if !has_delim(c.label@) {
            Err(GraphError::MalformedLabel(c.id))
        } else {
            Ok(self.relabel(c.id, part(c.label@, forward)))
        }
    }

    /// The graph after the weight of an edge changed.
    pub open spec fn change_weight(self, c: Edge, forward: bool) -> Result<GraphView, GraphError> {
        if !self.edges.contains_key((c.from_id, c.to_id)) {
            Err(GraphError::MissingEdge(c.from_id, c.to_id))
        } else if !has_delim(c.weight@) {
            Err(GraphError::MalformedWeight(c.from_id, c.to_id))
        } else {
            Ok(self.reweigh(c.from_id, c.to_id, part(c.weight@, forward)))
        }
    }

    /// The graph after a node joined it, drawn where the root is.
    pub open spec fn admit_node(self, c: Node, color: NodeColor) -> Result<GraphView, GraphError> {
        if c.id >= self.labels.len() {
            Err(GraphError::MissingNode(c.id))
        } else if self.nodes.contains_key(c.id) {
            Err(GraphError::DuplicateNode(c.id))
        } else {
            Ok(self.add_node(c.id, color, Placement::Beside { at: self.root }))
        }
    }

    /// The graph after an edge joined it, and the nodes that still wait for
    /// a place. A waiting start node is moved anywhere; a waiting end node
    /// is moved next to the start node and waits no longer.
    pub open spec fn admit_edge(self, pending: Set<u32>, c: Edge) -> Result<(GraphView, Set<u32>), GraphError> {
        if !self.nodes.contains_key(c.from_id) {
            Err(GraphError::MissingNode(c.from_id))
        } else if !self.nodes.contains_key(c.to_id) {
            Err(GraphError::MissingNode(c.to_id))
        } else {
            let g = if pending.contains(c.from_id) {
                self.move_node(c.from_id, Placement::Random)
            } else {
                self
            };
            let g = g.link(c.from_id, c.to_id);
            let g = if pending.contains(c.to_id) {
                g.bump(c.from_id).move_node(c.to_id, Placement::Near { neighbor: c.from_id })
            } else {
                g
            };
            Ok((g.add_edge(c.from_id, c.to_id, c.weight@), pending.remove(c.to_id)))
        }
    }

    /// The graph after an edge came back as it is recorded.
    pub open spec fn restore_edge(self, c: Edge) -> Result<GraphView, GraphError> {
        if !self.nodes.contains_key(c.from_id) {
            Err(GraphError::MissingNode(c.from_id))
        } else if !self.nodes.contains_key(c.to_id) {
            Err(GraphError::MissingNode(c.to_id))
        } else {
            Ok(self.add_edge(c.from_id, c.to_id, c.weight@))
        }
    }

    /// The graph after an edge left it.
    pub open spec fn retire_edge(self, c: Edge) -> Result<GraphView, GraphError> {
        if !self.edges.contains_key((c.from_id, c.to_id)) {
            Err(GraphError::MissingEdge(c.from_id, c.to_id))
        } else {
            Ok(self.remove_edge(c.from_id, c.to_id))
        }
    }

    /// The graph after a node left it.
    pub open spec fn retire_node(self, c: Node) -> Result<GraphView, GraphError> {
        if !self.nodes.contains_key(c.id) {
            Err(GraphError::MissingNode(c.id))
        } else {
            Ok(self.remove_node(c.id))
        }
    }
}

/// The graph after the label changes of `items` were applied in turn.
pub open spec fn change_labels(g: GraphView, items: Seq<Node>, forward: bool) -> Result<GraphView, GraphError>
    decreases items.len(),
{
    if items.len() == 0 {
        Ok(g)
    } else {
        match change_labels(g, items.drop_last(), forward) {
            Ok(g1) => g1.change_label(items.last(), forward),
            Err(e) => Err(e),
        }
    }
}

/// The graph after the weight changes of `items` were applied in turn.
pub open spec fn change_weights(g: GraphView, items: Seq<Edge>, forward: bool) -> Result<GraphView, GraphError>
    decreases items.len(),
{
    if items.len() == 0 {
        Ok(g)
    } else {
        match change_weights(g, items.drop_last(), forward) {
            Ok(g1) => g1.change_weight(items.last(), forward),
            Err(e) => Err(e),
        }
    }
}

/// The graph after the nodes of `items` joined it in turn.
pub open spec fn admit_nodes(g: GraphView, items: Seq<Node>, color: NodeColor) -> Result<GraphView, GraphError>
    decreases items.len(),
{
    if items.len() == 0 {
        Ok(g)
    } else {
        match admit_nodes(g, items.drop_last(), color) {
            Ok(g1) => g1.admit_node(items.last(), color),
            Err(e) => Err(e),
        }
    }
}

/// Whether `items` names node `k`.
pub open spec fn has_id(items: Seq<Node>, k: u32) -> bool {
    exists|i: int| 0 <= i < items.len() && (#[trigger] items[i]).id == k
}

/// The ids of the nodes of `items`.
pub open spec fn ids_of(items: Seq<Node>) -> Set<u32> {
    Set::new(|k: u32| has_id(items, k))
}

/// The graph after the edges of `items` joined it in turn, and the nodes
/// that still wait for a place.
pub open spec fn admit_edges(g: GraphView, pending: Set<u32>, items: Seq<Edge>) -> Result<
    (GraphView, Set<u32>),
    GraphError,
>
    decreases items.len(),
{
    if items.len() == 0 {
        Ok((g, pending))
    } else {
        match admit_edges(g, pending, items.drop_last()) {
            Ok((g1, waiting)) => g1.admit_edge(waiting, items.last()),
            Err(e) => Err(e),
        }
    }
}

/// The graph after the edges of `items` came back in turn.
pub open spec fn restore_edges(g: GraphView, items: Seq<Edge>) -> Result<GraphView, GraphError>
    decreases items.len(),
{
    if items.len() == 0 {
        Ok(g)
    } else {
        match restore_edges(g, items.drop_last()) {
            Ok(g1) => g1.restore_edge(items.last()),
            Err(e) => Err(e),
        }
    }
}

/// The graph after the edges of `items` left it in turn.
pub open spec fn retire_edges(g: GraphView, items: Seq<Edge>) -> Result<GraphView, GraphError>
    decreases items.len(),
{
    if items.len() == 0 {
        Ok(g)
    } else {
        match retire_edges(g, items.drop_last()) {
            Ok(g1) => g1.retire_edge(items.last()),
            Err(e) => Err(e),
        }
    }
}

/// The graph after the nodes of `items` left it in turn.
pub open spec fn retire_nodes(g: GraphView, items: Seq<Node>) -> Result<GraphView, GraphError>
    decreases items.len(),
{
    if items.len() == 0 {
        Ok(g)
    } else {
        match retire_nodes(g, items.drop_last()) {
            Ok(g1) => g1.retire_node(items.last()),
            Err(e) => Err(e),
        }
    }
}

/// The graph after the edit was applied forwards: the root changes hands,
/// labels and weights take their new values, the added nodes and edges come,
/// and the removed edges and nodes go. The first step that cannot be taken is
/// the error.
pub open spec fn forward(g: GraphView, diff: &DiffInfo) -> Result<GraphView, GraphError> {
    match g.switch_root(diff.root_id) {
        Err(e) => Err(e),
        Ok(g) => match change_labels(g, diff.labels_changed@, true) {
            Err(e) => Err(e),
            Ok(g) => match change_weights(g, diff.weights_changed@, true) {
                Err(e) => Err(e),
                Ok(g) => match admit_nodes(g, diff.added_nodes@, NodeColor::Red) {
                    Err(e) => Err(e),
                    Ok(g) => match admit_edges(g, ids_of(diff.added_nodes@), diff.added_edges@) {
                        Err(e) => Err(e),
                        Ok((g, _)) => match retire_edges(g, diff.removed_edges@) {
                            Err(e) => Err(e),
                            Ok(g) => retire_nodes(g, diff.removed_nodes@),
                        },
                    },
                },
            },
        },
    }
}

/// The graph after the edit was taken back: the removed nodes and edges
/// come back, the added edges and nodes go, weights and labels take their
/// old values, and `root` becomes the root again.
pub open spec fn backward(g: GraphView, diff: &DiffInfo, root: u32) -> Result<GraphView, GraphError> {
    match admit_nodes(g, diff.removed_nodes@, NodeColor::Default) {
        Err(e) => Err(e),
        Ok(g) => match restore_edges(g, diff.removed_edges@) {
            Err(e) => Err(e),
            Ok(g) => match retire_edges(g, diff.added_edges@) {
                Err(e) => Err(e),
                Ok(g) => match retire_nodes(g, diff.added_nodes@) {
                    Err(e) => Err(e),
                    Ok(g) => match change_weights(g, diff.weights_changed@, false) {
                        Err(e) => Err(e),
                        Ok(g) => match change_labels(g, diff.labels_changed@, false) {
                            Err(e) => Err(e),
                            Ok(g) => g.switch_root(root),
                        },
                    },
                },
            },
        },
    }
}


/// One item more is one step more.
proof fn lemma_change_labels_step(g: GraphView, items: Seq<Node>, i: int, forward: bool)
    requires
        0 <= i < items.len(),
        change_labels(g, items.take(i), forward) is Ok,
    ensures
        change_labels(g, items.take(i + 1), forward) == change_labels(
            g,
            items.take(i),
            forward,
        )->Ok_0.change_label(items[i], forward),
{
    assert(items.take(i + 1).drop_last() =~= items.take(i));
    assert(items.take(i + 1).last() == items[i]);
}

/// An error met on the way stays the error of the whole list.
proof fn lemma_change_labels_stop(g: GraphView, items: Seq<Node>, i: int, forward: bool)
    requires
        0 <= i <= items.len(),
        change_labels(g, items.take(i), forward) is Err,
    ensures
        change_labels(g, items, forward) == change_labels(g, items.take(i), forward),
    decreases items.len() - i,
{
    if i < items.len() {
        assert(items.take(i + 1).drop_last() =~= items.take(i));
        lemma_change_labels_stop(g, items, i + 1, forward);
    } else {
        assert(items.take(i) =~= items);
    }
}

/// One item more is one step more.
proof fn lemma_change_weights_step(g: GraphView, items: Seq<Edge>, i: int, forward: bool)
    requires
        0 <= i < items.len(),
        change_weights(g, items.take(i), forward) is Ok,
    ensures
        change_weights(g, items.take(i + 1), forward) == change_weights(
            g,
            items.take(i),
            forward,
        )->Ok_0.change_weight(items[i], forward),
{
    assert(items.take(i + 1).drop_last() =~= items.take(i));
    assert(items.take(i + 1).last() == items[i]);
}

/// An error met on the way stays the error of the whole list.
proof fn lemma_change_weights_stop(g: GraphView, items: Seq<Edge>, i: int, forward: bool)
    requires
        0 <= i <= items.len(),
        change_weights(g, items.take(i), forward) is Err,
    ensures
        change_weights(g, items, forward) == change_weights(g, items.take(i), forward),
    decreases items.len() - i,
{
    if i < items.len() {
        assert(items.take(i + 1).drop_last() =~= items.take(i));
        lemma_change_weights_stop(g, items, i + 1, forward);
    } else {
        assert(items.take(i) =~= items);
    }
}

/// One item more is one step more.
proof fn lemma_admit_nodes_step(g: GraphView, items: Seq<Node>, i: int, color: NodeColor)
    requires
        0 <= i < items.len(),
        admit_nodes(g, items.take(i), color) is Ok,
    ensures
        admit_nodes(g, items.take(i + 1), color) == admit_nodes(g, items.take(i), color)->Ok_0.admit_node(items[i], color),
{
    assert(items.take(i + 1).drop_last() =~= items.take(i));
    assert(items.take(i + 1).last() == items[i]);
}

/// An error met on the way stays the error of the whole list.
proof fn lemma_admit_nodes_stop(g: GraphView, items: Seq<Node>, i: int, color: NodeColor)
    requires
        0 <= i <= items.len(),
        admit_nodes(g, items.take(i), color) is Err,
    ensures
        admit_nodes(g, items, color) == admit_nodes(g, items.take(i), color),
    decreases items.len() - i,
{
    if i < items.len() {
        assert(items.take(i + 1).drop_last() =~= items.take(i));
        lemma_admit_nodes_stop(g, items, i + 1, color);
    } else {
        assert(items.take(i) =~= items);
    }
}

/// One item more is one step more.
proof fn lemma_admit_edges_step(g: GraphView, pending: Set<u32>, items: Seq<Edge>, i: int)
    requires
        0 <= i < items.len(),
        admit_edges(g, pending, items.take(i)) is Ok,
    ensures
        admit_edges(g, pending, items.take(i + 1)) == admit_edges(g, pending, items.take(i))->Ok_0.0.admit_edge(
            admit_edges(g, pending, items.take(i))->Ok_0.1,
            items[i],
        ),
{
    assert(items.take(i + 1).drop_last() =~= items.take(i));
    assert(items.take(i + 1).last() == items[i]);
}

/// An error met on the way stays the error of the whole list.
proof fn lemma_admit_edges_stop(g: GraphView, pending: Set<u32>, items: Seq<Edge>, i: int)
    requires
        0 <= i <= items.len(),
        admit_edges(g, pending, items.take(i)) is Err,
    ensures
        admit_edges(g, pending, items) == admit_edges(g, pending, items.take(i)),
    decreases items.len() - i,
{
    if i < items.len() {
        assert(items.take(i + 1).drop_last() =~= items.take(i));
        lemma_admit_edges_stop(g, pending, items, i + 1);
    } else {
        assert(items.take(i) =~= items);
    }
}

/// One item more is one step more.
proof fn lemma_restore_edges_step(g: GraphView, items: Seq<Edge>, i: int)
    requires
        0 <= i < items.len(),
        restore_edges(g, items.take(i)) is Ok,
    ensures
        restore_edges(g, items.take(i + 1)) == restore_edges(g, items.take(i))->Ok_0.restore_edge(items[i]),
{
    assert(items.take(i + 1).drop_last() =~= items.take(i));
    assert(items.take(i + 1).last() == items[i]);
}

/// An error met on the way stays the error of the whole list.
proof fn lemma_restore_edges_stop(g: GraphView, items: Seq<Edge>, i: int)
    requires
        0 <= i <= items.len(),
        restore_edges(g, items.take(i)) is Err,
    ensures
        restore_edges(g, items) == restore_edges(g, items.take(i)),
    decreases items.len() - i,
{
    if i < items.len() {
        assert(items.take(i + 1).drop_last() =~= items.take(i));
        lemma_restore_edges_stop(g, items, i + 1);
    } else {
        assert(items.take(i) =~= items);
    }
}

/// One item more is one step more.
proof fn lemma_retire_edges_step(g: GraphView, items: Seq<Edge>, i: int)
    requires
        0 <= i < items.len(),
        retire_edges(g, items.take(i)) is Ok,
    ensures
        retire_edges(g, items.take(i + 1)) == retire_edges(g, items.take(i))->Ok_0.retire_edge(items[i]),
{
    assert(items.take(i + 1).drop_last() =~= items.take(i));
    assert(items.take(i + 1).last() == items[i]);
}

/// An error met on the way stays the error of the whole list.
proof fn lemma_retire_edges_stop(g: GraphView, items: Seq<Edge>, i: int)
    requires
        0 <= i <= items.len(),
        retire_edges(g, items.take(i)) is Err,
    ensures
        retire_edges(g, items) == retire_edges(g, items.take(i)),
    decreases items.len() - i,
{
    if i < items.len() {
        assert(items.take(i + 1).drop_last() =~= items.take(i));
        lemma_retire_edges_stop(g, items, i + 1);
    } else {
        assert(items.take(i) =~= items);
    }
}

/// One item more is one step more.
proof fn lemma_retire_nodes_step(g: GraphView, items: Seq<Node>, i: int)
    requires
        0 <= i < items.len(),
        retire_nodes(g, items.take(i)) is Ok,
    ensures
        retire_nodes(g, items.take(i + 1)) == retire_nodes(g, items.take(i))->Ok_0.retire_node(items[i]),
{
    assert(items.take(i + 1).drop_last() =~= items.take(i));
    assert(items.take(i + 1).last() == items[i]);
}

/// An error met on the way stays the error of the whole list.
proof fn lemma_retire_nodes_stop(g: GraphView, items: Seq<Node>, i: int)
    requires
        0 <= i <= items.len(),
        retire_nodes(g, items.take(i)) is Err,
    ensures
        retire_nodes(g, items) == retire_nodes(g, items.take(i)),
    decreases items.len() - i,
{
    if i < items.len() {
        assert(items.take(i + 1).drop_last() =~= items.take(i));
        lemma_retire_nodes_stop(g, items, i + 1);
    } else {
        assert(items.take(i) =~= items);
    }
}

impl Graph {
    /// Makes `root` the root and has the colours follow.
    fn switch_root(&mut self, root: u32) -> (r: Result<(), GraphError>)
        requires
            old(self).wf(),
        ensures
            final(self).wf(),
            match old(self)@.switch_root(root) {
                Ok(g) => r is Ok && final(self)@ == g,
                Err(e) => r == Err::<(), GraphError>(e),
            },
    {
        if !self.node_exists(root) {
            return Err(GraphError::MissingNode(root));
        }
        let old_root = self.root();
        if self.node_exists(old_root) {
            self.recolor(old_root, NodeColor::Default);
        }
        self.recolor(root, NodeColor::Blue);
        self.reroot(root);
        Ok(())
    }

    /// Changes the label of a node.
    fn change_label(&mut self, c: &Node, forward: bool) -> (r: Result<(), GraphError>)
        requires
            old(self).wf(),
        ensures
            final(self).wf(),
            match old(self)@.change_label(*c, forward) {
                Ok(g) => r is Ok && final(self)@ == g,
                Err(e) => r == Err::<(), GraphError>(e),
            },
    {
        if !self.node_exists(c.id) {
            return Err(GraphError::MissingNode(c.id));
        }
        match split_change(c.label.as_str(), forward) {
            None => Err(GraphError::MalformedLabel(c.id)),
            Some(text) => {
                self.relabel(c.id, text.as_str());
                Ok(())
            },
        }
    }

    /// Changes the weight of an edge.
    fn change_weight(&mut self, c: &Edge, forward: bool) -> (r: Result<(), GraphError>)
        requires
            old(self).wf(),
        ensures
            final(self).wf(),
            match old(self)@.change_weight(*c, forward) {
                Ok(g) => r is Ok && final(self)@ == g,
                Err(e) => r == Err::<(), GraphError>(e),
            },
    {
        if !self.edge_exists(c.from_id, c.to_id) {
            return Err(GraphError::MissingEdge(c.from_id, c.to_id));
        }
        match split_change(c.weight.as_str(), forward) {
            None => Err(GraphError::MalformedWeight(c.from_id, c.to_id)),
            Some(text) => self.reweigh(c.from_id, c.to_id, text.as_str()),
        }
    }

    /// Lets a node join, drawn where the root is.
    fn admit_node(&mut self, c: &Node, color: NodeColor) -> (r: Result<(), GraphError>)
        requires
            old(self).wf(),
        ensures
            final(self).wf(),
            match old(self)@.admit_node(*c, color) {
                Ok(g) => r is Ok && final(self)@ == g,
                Err(e) => r == Err::<(), GraphError>(e),
            },
    {
        let at = self.root();
        self.add_node(c.id, color, Placement::Beside { at })
    }

    /// Lets an edge come back as it is recorded.
    fn restore_edge(&mut self, c: &Edge) -> (r: Result<(), GraphError>)
        requires
            old(self).wf(),
        ensures
            final(self).wf(),
            match old(self)@.restore_edge(*c) {
                Ok(g) => r is Ok && final(self)@ == g,
                Err(e) => r == Err::<(), GraphError>(e),
            },
    {
        self.add_edge(c.from_id, c.to_id, c.weight.as_str())
    }

    /// Lets an edge go.
    fn retire_edge(&mut self, c: &Edge) -> (r: Result<(), GraphError>)
        requires
            old(self).wf(),
        ensures
            final(self).wf(),
            match old(self)@.retire_edge(*c) {
                Ok(g) => r is Ok && final(self)@ == g,
                Err(e) => r == Err::<(), GraphError>(e),
            },
    {
        self.remove_edge(c.from_id, c.to_id)
    }

    /// Lets a node go.
    fn retire_node(&mut self, c: &Node) -> (r: Result<(), GraphError>)
        requires
            old(self).wf(),
        ensures
            final(self).wf(),
            match old(self)@.retire_node(*c) {
                Ok(g) => r is Ok && final(self)@ == g,
                Err(e) => r == Err::<(), GraphError>(e),
            },
    {
        self.remove_node(c.id)
    }

    /// Lets an edge join; `pending` holds the nodes that wait for a place.
    fn admit_edge(&mut self, pending: &mut HashSet<u32>, c: &Edge) -> (r: Result<(), GraphError>)
        requires
            old(self).wf(),
        ensures
            final(self).wf(),
            match old(self)@.admit_edge(old(pending)@, *c) {
                Ok(s) => r is Ok && final(self)@ == s.0 && final(pending)@ == s.1,
                Err(e) => r == Err::<(), GraphError>(e),
            },
    {
        if !self.node_exists(c.from_id) {
            return Err(GraphError::MissingNode(c.from_id));
        }
        if !self.node_exists(c.to_id) {
            return Err(GraphError::MissingNode(c.to_id));
        }
        if pending.contains(&c.from_id) {
            self.move_node(c.from_id, Placement::Random);
        }
        self.link(c.from_id, c.to_id);
        if pending.contains(&c.to_id) {
            self.bump(c.from_id);
            self.move_node(c.to_id, Placement::Near { neighbor: c.from_id });
        }
        pending.remove(&c.to_id);
        self.add_edge(c.from_id, c.to_id, c.weight.as_str())
    }

    /// Applies the label changes in turn.
    fn change_labels(&mut self, items: &Vec<Node>, forward: bool) -> (r: Result<(), GraphError>)
        requires
            old(self).wf(),
        ensures
            final(self).wf(),
            match change_labels(old(self)@, items@, forward) {
                Ok(g) => r is Ok && final(self)@ == g,
                Err(e) => r == Err::<(), GraphError>(e),
            },
    {
        let mut i: usize = 0;
        assert(items@.take(0) =~= Seq::<Node>::empty());
        while i < items.len()
            invariant
                i <= items@.len(),
                self.wf(),
                change_labels(old(self)@, items@.take(i as int), forward) == Ok::<GraphView, GraphError>(self@),
            decreases items@.len() - i,
        {
            proof {
                lemma_change_labels_step(old(self)@, items@, i as int, forward);
            }
            match self.change_label(&items[i], forward) {
                Ok(_) => {},
                Err(e) => {
                    proof {
                        lemma_change_labels_stop(old(self)@, items@, i + 1, forward);
                    }
                    return Err(e);
                },
            }
            i += 1;
        }
        assert(items@.take(items@.len() as int) =~= items@);
        Ok(())
    }

    /// Applies the weight changes in turn.
    fn change_weights(&mut self, items: &Vec<Edge>, forward: bool) -> (r: Result<(), GraphError>)
        requires
            old(self).wf(),
        ensures
            final(self).wf(),
            match change_weights(old(self)@, items@, forward) {
                Ok(g) => r is Ok && final(self)@ == g,
                Err(e) => r == Err::<(), GraphError>(e),
            },
    {
        let mut i: usize = 0;
        assert(items@.take(0) =~= Seq::<Edge>::empty());
        while i < items.len()
            invariant
                i <= items@.len(),
                self.wf(),
                change_weights(old(self)@, items@.take(i as int), forward) == Ok::<GraphView, GraphError>(self@),
            decreases items@.len() - i,
        {
            proof {
                lemma_change_weights_step(old(self)@, items@, i as int, forward);
            }
            match self.change_weight(&items[i], forward) {
                Ok(_) => {},
                Err(e) => {
                    proof {
                        lemma_change_weights_stop(old(self)@, items@, i + 1, forward);
                    }
                    return Err(e);
                },
            }
            i += 1;
        }
        assert(items@.take(items@.len() as int) =~= items@);
        Ok(())
    }

    /// Lets the nodes join in turn.
    fn admit_nodes(&mut self, items: &Vec<Node>, color: NodeColor) -> (r: Result<(), GraphError>)
        requires
            old(self).wf(),
        ensures
            final(self).wf(),
            match admit_nodes(old(self)@, items@, color) {
                Ok(g) => r is Ok && final(self)@ == g,
                Err(e) => r == Err::<(), GraphError>(e),
            },
    {
        let mut i: usize = 0;
        assert(items@.take(0) =~= Seq::<Node>::empty());
        while i < items.len()
            invariant
                i <= items@.len(),
                self.wf(),
                admit_nodes(old(self)@, items@.take(i as int), color) == Ok::<GraphView, GraphError>(self@),
            decreases items@.len() - i,
        {
            proof {
                lemma_admit_nodes_step(old(self)@, items@, i as int, color);
            }
            match self.admit_node(&items[i], color) {
                Ok(_) => {},
                Err(e) => {
                    proof {
                        lemma_admit_nodes_stop(old(self)@, items@, i + 1, color);
                    }
                    return Err(e);
                },
            }
            i += 1;
        }
        assert(items@.take(items@.len() as int) =~= items@);
        Ok(())
    }

    /// Lets the edges come back in turn.
    fn restore_edges(&mut self, items: &Vec<Edge>) -> (r: Result<(), GraphError>)
        requires
            old(self).wf(),
        ensures
            final(self).wf(),
            match restore_edges(old(self)@, items@) {
                Ok(g) => r is Ok && final(self)@ == g,
                Err(e) => r == Err::<(), GraphError>(e),
            },
    {
        let mut i: usize = 0;
        assert(items@.take(0) =~= Seq::<Edge>::empty());
        while i < items.len()
            invariant
                i <= items@.len(),
                self.wf(),
                restore_edges(old(self)@, items@.take(i as int)) == Ok::<GraphView, GraphError>(self@),
            decreases items@.len() - i,
        {
            proof {
                lemma_restore_edges_step(old(self)@, items@, i as int);
            }
            match self.restore_edge(&items[i]) {
                Ok(_) => {},
                Err(e) => {
                    proof {
                        lemma_restore_edges_stop(old(self)@, items@, i + 1);
                    }
                    return Err(e);
                },
            }
            i += 1;
        }
        assert(items@.take(items@.len() as int) =~= items@);
        Ok(())
    }

    /// Lets the edges go in turn.
    fn retire_edges(&mut self, items: &Vec<Edge>) -> (r: Result<(), GraphError>)
        requires
            old(self).wf(),
        ensures
            final(self).wf(),
            match retire_edges(old(self)@, items@) {
                Ok(g) => r is Ok && final(self)@ == g,
                Err(e) => r == Err::<(), GraphError>(e),
            },
    {
        let mut i: usize = 0;
        assert(items@.take(0) =~= Seq::<Edge>::empty());
        while i < items.len()
            invariant
                i <= items@.len(),
                self.wf(),
                retire_edges(old(self)@, items@.take(i as int)) == Ok::<GraphView, GraphError>(self@),
            decreases items@.len() - i,
        {
            proof {
                lemma_retire_edges_step(old(self)@, items@, i as int);
            }
            match self.retire_edge(&items[i]) {
                Ok(_) => {},
                Err(e) => {
                    proof {
                        lemma_retire_edges_stop(old(self)@, items@, i + 1);
                    }
                    return Err(e);
                },
            }
            i += 1;
        }
        assert(items@.take(items@.len() as int) =~= items@);
        Ok(())
    }

    /// Lets the nodes go in turn.
    fn retire_nodes(&mut self, items: &Vec<Node>) -> (r: Result<(), GraphError>)
        requires
            old(self).wf(),
        ensures
            final(self).wf(),
            match retire_nodes(old(self)@, items@) {
                Ok(g) => r is Ok && final(self)@ == g,
                Err(e) => r == Err::<(), GraphError>(e),
            },
    {
        let mut i: usize = 0;
        assert(items@.take(0) =~= Seq::<Node>::empty());
        while i < items.len()
            invariant
                i <= items@.len(),
                self.wf(),
                retire_nodes(old(self)@, items@.take(i as int)) == Ok::<GraphView, GraphError>(self@),
            decreases items@.len() - i,
        {
            proof {
                lemma_retire_nodes_step(old(self)@, items@, i as int);
            }
            match self.retire_node(&items[i]) {
                Ok(_) => {},
                Err(e) => {
                    proof {
                        lemma_retire_nodes_stop(old(self)@, items@, i + 1);
                    }
                    return Err(e);
                },
            }
            i += 1;
        }
        assert(items@.take(items@.len() as int) =~= items@);
        Ok(())
    }

    /// Lets the edges join in turn.
    fn admit_edges(&mut self, pending: &mut HashSet<u32>, items: &Vec<Edge>) -> (r: Result<(), GraphError>)
        requires
            old(self).wf(),
        ensures
            final(self).wf(),
            match admit_edges(old(self)@, old(pending)@, items@) {
                Ok(s) => r is Ok && final(self)@ == s.0,
                Err(e) => r == Err::<(), GraphError>(e),
            },
    {
        let mut i: usize = 0;
        assert(items@.take(0) =~= Seq::<Edge>::empty());
        while i < items.len()
            invariant
                i <= items@.len(),
                self.wf(),
                admit_edges(old(self)@, old(pending)@, items@.take(i as int)) == Ok::<
                    (GraphView, Set<u32>),
                    GraphError,
                >((self@, pending@)),
            decreases items@.len() - i,
        {
            proof {
                lemma_admit_edges_step(old(self)@, old(pending)@, items@, i as int);
            }
            match self.admit_edge(pending, &items[i]) {
                Ok(_) => {},
                Err(e) => {
                    proof {
                        lemma_admit_edges_stop(old(self)@, old(pending)@, items@, i + 1);
                    }
                    return Err(e);
                },
            }
            i += 1;
        }
        assert(items@.take(items@.len() as int) =~= items@);
        Ok(())
    }
}


/// The ids of the nodes of `items`, as a set.
fn gather_ids(items: &Vec<Node>) -> (r: HashSet<u32>)
    ensures
        r@ == ids_of(items@),
{
    let mut out: HashSet<u32> = HashSet::new();
    let mut i: usize = 0;
    while i < items.len()
        invariant
            i <= items@.len(),
            forall|k: u32| out@.contains(k) <==> exists|j: int| 0 <= j < i && (#[trigger] items@[j]).id == k,
        decreases items@.len() - i,
    {
        out.insert(items[i].id);
        i += 1;
    }
    assert forall|k: u32| out@.contains(k) <==> has_id(items@, k) by {
        if has_id(items@, k) {
            let j = choose|j: int| 0 <= j < items@.len() && (#[trigger] items@[j]).id == k;
            assert(out@.contains(k));
        }
    }
    assert(out@ =~= ids_of(items@));
    out
}

impl Graph {
    /// Applies the edit forwards, as far as it goes.
    fn advance(&mut self, diff: &DiffInfo) -> (r: Result<(), GraphError>)
        requires
            old(self).wf(),
        ensures
            final(self).wf(),
            match forward(old(self)@, diff) {
                Ok(g) => r is Ok && final(self)@ == g,
                Err(e) => r == Err::<(), GraphError>(e),
            },
    {
        match self.switch_root(diff.root_id) {
            Err(e) => { return Err(e); },
            Ok(_) => {},
        }
        match self.change_labels(&diff.labels_changed, true) {
            Err(e) => { return Err(e); },
            Ok(_) => {},
        }
        match self.change_weights(&diff.weights_changed, true) {
            Err(e) => { return Err(e); },
            Ok(_) => {},
        }
        match self.admit_nodes(&diff.added_nodes, NodeColor::Red) {
            Err(e) => { return Err(e); },
            Ok(_) => {},
        }
        let mut pending = gather_ids(&diff.added_nodes);
        match self.admit_edges(&mut pending, &diff.added_edges) {
            Err(e) => { return Err(e); },
            Ok(_) => {},
        }
        match self.retire_edges(&diff.removed_edges) {
            Err(e) => { return Err(e); },
            Ok(_) => {},
        }
        self.retire_nodes(&diff.removed_nodes)
    }

    /// Takes the edit back, as far as that goes.
    fn retreat(&mut self, diff: &DiffInfo, root: u32) -> (r: Result<(), GraphError>)
        requires
            old(self).wf(),
        ensures
            final(self).wf(),
            match backward(old(self)@, diff, root) {
                Ok(g) => r is Ok && final(self)@ == g,
                Err(e) => r == Err::<(), GraphError>(e),
            },
    {
        match self.admit_nodes(&diff.removed_nodes, NodeColor::Default) {
            Err(e) => { return Err(e); },
            Ok(_) => {},
        }
        match self.restore_edges(&diff.removed_edges) {
            Err(e) => { return Err(e); },
            Ok(_) => {},
        }
        match self.retire_edges(&diff.added_edges) {
            Err(e) => { return Err(e); },
            Ok(_) => {},
        }
        match self.retire_nodes(&diff.added_nodes) {
            Err(e) => { return Err(e); },
            Ok(_) => {},
        }
        match self.change_weights(&diff.weights_changed, false) {
            Err(e) => { return Err(e); },
            Ok(_) => {},
        }
        match self.change_labels(&diff.labels_changed, false) {
            Err(e) => { return Err(e); },
            Ok(_) => {},
        }
        self.switch_root(root)
    }

    /// Applies the edit forwards. An edit that cannot be applied changes
    /// nothing.
    pub fn forward(&mut self, diff: &DiffInfo) -> (r: Result<(), GraphError>)
        requires
            old(self).wf(),
        ensures
            final(self).wf(),
            match forward(old(self)@, diff) {
                Ok(g) => r is Ok && final(self)@ == g,
                Err(e) => r == Err::<(), GraphError>(e) && final(self)@ == old(self)@,
            },
    {
        let mut g = self.duplicate();
        match g.advance(diff) {
            Err(e) => Err(e),
            Ok(_) => {
                *self = g;
                Ok(())
            },
        }
    }

    /// Takes the edit back and makes `root` the root again. An edit that
    /// cannot be taken back changes nothing.
    pub fn backward(&mut self, diff: &DiffInfo, root: u32) -> (r: Result<(), GraphError>)
        requires
            old(self).wf(),
        ensures
            final(self).wf(),
            match backward(old(self)@, diff, root) {
                Ok(g) => r is Ok && final(self)@ == g,
                Err(e) => r == Err::<(), GraphError>(e) && final(self)@ == old(self)@,
            },
    {
        let mut g = self.duplicate();
        match g.retreat(diff, root) {
            Err(e) => Err(e),
            Ok(_) => {
                *self = g;
                Ok(())
            },
        }
    }
}

} // verus!
