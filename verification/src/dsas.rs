//! The live graph: its nodes, its edges, its root, and the journal of scene
//! commands that its changes give rise to.

use crate::json_deserialize::targets;
use crate::json_deserialize::BaseInfo;
use crate::json_deserialize::Link;
use crate::scene::ops_view;
use crate::scene::SceneOp;
use crate::scene::SceneOpView;
use crate::tree::Line;
use crate::tree::LineState;
use crate::tree::LineView;
use crate::scene::Placement;
use crate::tree::Node;
use crate::tree::NodeColor;
use crate::tree::NodeView;
use crate::traversal::discover;
use crate::traversal::found_by;
use crate::traversal::frontier;
use crate::traversal::lemma_bounded_distinct;
use crate::traversal::lemma_discover;
use crate::traversal::lemma_discover_push;
use crate::traversal::lemma_frontier;
use crate::traversal::lemma_frontier_settled;
use crate::traversal::links_of;
use std::collections::HashMap;
use vstd::prelude::*;

verus! {

broadcast use vstd::std_specs::hash::group_hash_axioms;

/// Why an operation on a graph was refused. A refused operation changes
/// nothing.
#[derive(Debug, Clone, Copy, PartialEq, Eq, Structural)]
pub enum GraphError {
    /// The node is not in the graph, or has no label.
    MissingNode(u32),
    /// The edge is not in the graph.
    MissingEdge(u32, u32),
    /// The snapshot lists no edges for a node that it refers to.
    MissingAdjacency(u32),
    /// The node is in the graph already.
    DuplicateNode(u32),
    /// The changed label of the node lacks the `===` between old and new.
    MalformedLabel(u32),
    /// The changed weight of the edge lacks the `===` between old and new.
    MalformedWeight(u32, u32),
    /// There is no such listener.
    MissingListener(usize),
}

/// The mathematical content of a [`NodeWrapper`].
pub struct WrapperView {
    pub visual: Option<NodeView>,
    pub neighbors: Seq<u32>,
    pub new_neighbors: u32,
}

/// A node of the live graph.
#[derive(Debug, Clone)]
pub struct NodeWrapper {
    /// The drawn form of the node, once it has one.
    pub visual_node: Option<Node>,
    /// The nodes next to this one, in the order in which they were recorded.
    pub neighbors: Vec<u32>,
    /// How many of the neighbours were first reached from this node.
    pub new_neighbors: u32,
}

impl View for NodeWrapper {
    type V = WrapperView;

    open spec fn view(&self) -> WrapperView {
        WrapperView {
            visual: match self.visual_node {
                Some(n) => Some(n@),
                None => None,
            },
            neighbors: self.neighbors@,
            new_neighbors: self.new_neighbors,
        }
    }
}

impl NodeWrapper {
    /// A copy with the same content.
    pub fn duplicate(&self) -> (r: Self)
        ensures
            r@ == self@,
    {
        let mut neighbors: Vec<u32> = Vec::new();
        let mut i: usize = 0;
        while i < self.neighbors.len()
            invariant
                i <= self.neighbors@.len(),
                neighbors@ == self.neighbors@.take(i as int),
            decreases self.neighbors@.len() - i,
        {
            neighbors.push(self.neighbors[i]);
            assert(self.neighbors@.take(i + 1) =~= self.neighbors@.take(i as int).push(self.neighbors@[i as int]));
            i += 1;
        }
        assert(self.neighbors@.take(self.neighbors@.len() as int) =~= self.neighbors@);
        NodeWrapper {
            visual_node: match &self.visual_node {
                Some(n) => Some(n.duplicate()),
                None => None,
            },
            neighbors,
            new_neighbors: self.new_neighbors,
        }
    }

    /// A drawn node without neighbours.
    pub fn new(text: &str, color: crate::tree::NodeColor) -> (r: Self)
        ensures
            r@ == (WrapperView {
                visual: Some(NodeView { label: text@, color, weight: None }),
                neighbors: Seq::<u32>::empty(),
                new_neighbors: 0,
            }),
    {
        NodeWrapper { visual_node: Some(Node::new(text, color)), neighbors: Vec::new(), new_neighbors: 0 }
    }
}

/// The key under which the edge from `from` to `to` is stored.
pub open spec fn edge_key(from: u32, to: u32) -> u64 {
    (from * 0x1_0000_0000 + to) as u64
}

fn pack(from: u32, to: u32) -> (k: u64)
    ensures
        k == edge_key(from, to),
{
    from as u64 * 0x1_0000_0000u64 + to as u64
}

/// Different edges have different keys.
pub proof fn lemma_edge_key_injective(a: u32, b: u32, c: u32, d: u32)
    requires
        edge_key(a, b) == edge_key(c, d),
    ensures
        a == c && b == d,
{
}

/// The mathematical content of a [`Graph`].
pub struct GraphView {
    /// The label of every node that the history knows, by node id.
    pub labels: Seq<Seq<char>>,
    pub root: u32,
    pub nodes: Map<u32, WrapperView>,
    pub edges: Map<(u32, u32), LineView>,
    /// The scene commands that are owed to the renderer, oldest first.
    pub journal: Seq<SceneOpView>,
}

impl GraphView {
    /// Every node has a label, every neighbour and every end of an edge is a
    /// node, and a graph that has nodes has its root among them.
    pub open spec fn wf(self) -> bool {
        &&& forall|k: u32| #[trigger] self.nodes.contains_key(k) ==> k < self.labels.len()
        &&& forall|k: u32, i: int|
            self.nodes.contains_key(k) && 0 <= i < self.nodes[k].neighbors.len()
                ==> self.nodes.contains_key(#[trigger] self.nodes[k].neighbors[i])
        &&& forall|p: (u32, u32)| #[trigger]
            self.edges.contains_key(p) ==> self.nodes.contains_key(p.0) && self.nodes.contains_key(p.1)
        &&& forall|k: u32| #[trigger] self.nodes.contains_key(k) ==> self.nodes.contains_key(self.root)
    }

    /// The graph with one more command in its journal.
    pub open spec fn note(self, op: SceneOpView) -> GraphView {
        GraphView { journal: self.journal.push(op), ..self }
    }

    /// Whether the edge is in the graph and drawn.
    pub open spec fn edge_shown(self, from: u32, to: u32) -> bool {
        self.edges.contains_key((from, to)) && !(self.edges[(from, to)].state is Novisual)
    }

    /// The graph after the edge from `from` to `to` was set to an arrow with
    /// the given weight. An edge that was drawn before is taken off the scene
    /// first.
    pub open spec fn add_edge(self, from: u32, to: u32, weight: Seq<char>) -> GraphView {
        let g = if self.edge_shown(from, to) {
            self.note(SceneOpView::RemoveEdge { from, to })
        } else {
            self
        };
        GraphView {
            edges: g.edges.insert((from, to), LineView { state: LineState::StartToEnd, weight }),
            ..g.note(SceneOpView::CreateEdge { from, to, weight })
        }
    }

    /// The graph after the edge from `from` to `to` left it.
    pub open spec fn remove_edge(self, from: u32, to: u32) -> GraphView {
        let g = if self.edge_shown(from, to) {
            self.note(SceneOpView::RemoveEdge { from, to })
        } else {
            self
        };
        GraphView { edges: g.edges.remove((from, to)), ..g }
    }
}

/// A rooted directed graph with what it shows on screen.
pub struct Graph {
    node_labels: Vec<String>,
    nodes: HashMap<u32, NodeWrapper>,
    edges: HashMap<u64, Line>,
    root: u32,
    journal: Vec<SceneOp>,
}

impl View for Graph {
    type V = GraphView;

    closed spec fn view(&self) -> GraphView {
        GraphView {
            labels: Seq::new(self.node_labels@.len(), |i: int| self.node_labels@[i]@),
            root: self.root,
            nodes: Map::new(|k: u32| self.nodes@.contains_key(k), |k: u32| self.nodes@[k]@),
            edges: Map::new(
                |p: (u32, u32)| self.edges@.contains_key(edge_key(p.0, p.1)),
                |p: (u32, u32)| self.edges@[edge_key(p.0, p.1)]@,
            ),
            journal: ops_view(self.journal@),
        }
    }
}

impl Graph {
    /// The graph is well formed when its content is.
    pub open spec fn wf(&self) -> bool {
        self@.wf()
    }

    /// An empty graph over the given labels, with `root` as its root to be.
    pub fn new(node_labels: Vec<String>, root: u32) -> (r: Self)
        ensures
            r.wf(),
            r@.labels == Seq::new(node_labels@.len(), |i: int| node_labels@[i]@),
            r@.root == root,
            r@.nodes == Map::<u32, WrapperView>::empty(),
            r@.edges == Map::<(u32, u32), LineView>::empty(),
            r@.journal == Seq::<SceneOpView>::empty(),
    {
        let g = Graph {
            node_labels,
            nodes: HashMap::new(),
            edges: HashMap::new(),
            root,
            journal: Vec::new(),
        };
        assert(g@.nodes =~= Map::<u32, WrapperView>::empty());
        assert(g@.edges =~= Map::<(u32, u32), LineView>::empty());
        assert(g@.journal =~= Seq::<SceneOpView>::empty());
        g
    }

    /// Appends a command to the journal.
    fn log(&mut self, op: SceneOp)
        ensures
            final(self)@ == old(self)@.note(op@),
            final(self).nodes == old(self).nodes,
            final(self).edges == old(self).edges,
            final(self).root == old(self).root,
            final(self).node_labels == old(self).node_labels,
    {
        self.journal.push(op);
        assert(ops_view(self.journal@) =~= ops_view(old(self).journal@).push(op@));
    }

    pub fn root(&self) -> (r: u32)
        ensures
            r == self@.root,
    {
        self.root
    }

    pub fn node_exists(&self, id: u32) -> (r: bool)
        ensures
            r == self@.nodes.contains_key(id),
    {
        self.nodes.contains_key(&id)
    }

    pub fn edge_exists(&self, from_id: u32, to_id: u32) -> (r: bool)
        ensures
            r == self@.edges.contains_key((from_id, to_id)),
    {
        let k = pack(from_id, to_id);
        self.edges.contains_key(&k)
    }

    /// The node `id`, if it is in the graph.
    pub fn node(&self, id: u32) -> (r: Option<&NodeWrapper>)
        ensures
            match r {
                Some(w) => self@.nodes.contains_key(id) && w@ == self@.nodes[id],
                None => !self@.nodes.contains_key(id),
            },
    {
        self.nodes.get(&id)
    }

    /// The edge from `from_id` to `to_id`, if it is in the graph.
    pub fn edge(&self, from_id: u32, to_id: u32) -> (r: Option<&Line>)
        ensures
            match r {
                Some(l) => self@.edges.contains_key((from_id, to_id)) && l@ == self@.edges[(from_id, to_id)],
                None => !self@.edges.contains_key((from_id, to_id)),
            },
    {
        let k = pack(from_id, to_id);
        self.edges.get(&k)
    }

    /// Hands over the scene commands gathered so far and empties the journal.
    pub fn take_journal(&mut self) -> (r: Vec<SceneOp>)
        ensures
            ops_view(r@) == old(self)@.journal,
            final(self)@ == (GraphView { journal: Seq::<SceneOpView>::empty(), ..old(self)@ }),
            old(self).wf() ==> final(self).wf(),
    {
        let mut out: Vec<SceneOp> = Vec::new();
        std::mem::swap(&mut out, &mut self.journal);
        assert(ops_view(self.journal@) =~= Seq::<SceneOpView>::empty());
        out
    }

    /// Sets the edge from `from_id` to `to_id` to an arrow with the given
    /// weight text. Both ends have to be nodes of the graph.
    pub fn add_edge(&mut self, from_id: u32, to_id: u32, weight_str: &str) -> (r: Result<(), GraphError>)
        requires
            old(self).wf(),
        ensures
            final(self).wf(),
            match r {
                Ok(_) => {
                    &&& old(self)@.nodes.contains_key(from_id)
                    &&& old(self)@.nodes.contains_key(to_id)
                    &&& final(self)@ == old(self)@.add_edge(from_id, to_id, weight_str@)
                },
                Err(e) => {
                    &&& final(self)@ == old(self)@
                    &&& e == if old(self)@.nodes.contains_key(from_id) {
                        GraphError::MissingNode(to_id)
                    } else {
                        GraphError::MissingNode(from_id)
                    }
                    &&& !old(self)@.nodes.contains_key(from_id) || !old(self)@.nodes.contains_key(to_id)
                },
            },
    {
        if !self.nodes.contains_key(&from_id) {
            return Err(GraphError::MissingNode(from_id));
        }
        if !self.nodes.contains_key(&to_id) {
            return Err(GraphError::MissingNode(to_id));
        }
        let k = pack(from_id, to_id);
        let shown = match self.edges.get(&k) {
            Some(l) => match l.state() {
                LineState::Novisual => false,
                _ => true,
            },
            None => false,
        };
        if shown {
            self.log(SceneOp::RemoveEdge { from: from_id, to: to_id });
        }
        self.log(SceneOp::CreateEdge { from: from_id, to: to_id, weight: weight_str.to_owned() });
        self.edges.insert(k, Line::new(LineState::StartToEnd, weight_str));
        proof {
            let goal = old(self)@.add_edge(from_id, to_id, weight_str@);
            assert forall|p: (u32, u32)| self@.edges.contains_key(p) == goal.edges.contains_key(p) by {
                if edge_key(p.0, p.1) == k {
                    lemma_edge_key_injective(p.0, p.1, from_id, to_id);
                }
            }
            assert(self@.edges =~= goal.edges);
            assert(self@.nodes =~= goal.nodes);
        }
        Ok(())
    }

    /// Takes the edge from `from_id` to `to_id` out of the graph.
    pub fn remove_edge(&mut self, from_id: u32, to_id: u32) -> (r: Result<(), GraphError>)
        requires
            old(self).wf(),
        ensures
            final(self).wf(),
            match r {
                Ok(_) => {
                    &&& old(self)@.edges.contains_key((from_id, to_id))
                    &&& final(self)@ == old(self)@.remove_edge(from_id, to_id)
                },
                Err(e) => {
                    &&& !old(self)@.edges.contains_key((from_id, to_id))
                    &&& final(self)@ == old(self)@
                    &&& e == GraphError::MissingEdge(from_id, to_id)
                },
            },
    {
        let k = pack(from_id, to_id);
        let shown = match self.edges.get(&k) {
            Some(l) => match l.state() {
                LineState::Novisual => false,
                _ => true,
            },
            None => { return Err(GraphError::MissingEdge(from_id, to_id)); },
        };
        if shown {
            self.log(SceneOp::RemoveEdge { from: from_id, to: to_id });
        }
        self.edges.remove(&k);
        proof {
            let goal = old(self)@.remove_edge(from_id, to_id);
            assert forall|p: (u32, u32)| self@.edges.contains_key(p) == goal.edges.contains_key(p) by {
                if edge_key(p.0, p.1) == k {
                    lemma_edge_key_injective(p.0, p.1, from_id, to_id);
                }
            }
            assert(self@.edges =~= goal.edges);
            assert(self@.nodes =~= goal.nodes);
        }
        Ok(())
    }
}




/// The weight text of the last edge to `v` in an adjacency list.
pub open spec fn weight_of(links: Seq<Link>, v: u32) -> Seq<char>
    decreases links.len(),
{
    if links.len() == 0 {
        Seq::empty()
    } else if links.last().to_id == v {
        links.last().weight@
    } else {
        weight_of(links.drop_last(), v)
    }
}

/// The first entry of `list` that is no node id, if there is one.
pub open spec fn first_bad(list: Seq<u32>, count: nat) -> Option<u32>
    decreases list.len(),
{
    if list.len() == 0 {
        None
    } else {
        match first_bad(list.drop_last(), count) {
            Some(v) => Some(v),
            None => if list.last() >= count {
                Some(list.last())
            } else {
                None
            },
        }
    }
}

/// What is wrong with the node that is expanded as number `n`, if anything:
/// the snapshot lists no edges for it, or one of its edges leads to a node
/// without a label.
pub open spec fn fault_at(adj: Map<u32, Seq<u32>>, root: u32, count: nat, n: nat) -> Option<GraphError> {
    let order = frontier(adj, root, n);
    if order.len() <= n {
        None
    } else if !adj.contains_key(order[n as int]) {
        Some(GraphError::MissingAdjacency(order[n as int]))
    } else {
        match first_bad(adj[order[n as int]], count) {
            Some(v) => Some(GraphError::MissingNode(v)),
            None => None,
        }
    }
}

/// The snapshot can be walked from `root`: the root and every node reached
/// has a label and a list of edges.
pub open spec fn traversable(adj: Map<u32, Seq<u32>>, root: u32, count: nat) -> bool {
    root < count && forall|n: nat| (#[trigger] fault_at(adj, root, count, n)) is None
}

/// `e` is the first fault that a walk from `root` meets.
pub open spec fn first_fault(adj: Map<u32, Seq<u32>>, root: u32, count: nat, e: GraphError) -> bool {
    if root >= count {
        e == GraphError::MissingNode(root)
    } else {
        exists|n: nat|
            (#[trigger] fault_at(adj, root, count, n)) == Some(e) && forall|m: nat|
                m < n ==> (#[trigger] fault_at(adj, root, count, m)) is None
    }
}

impl GraphView {
    /// The graph that a walk over the snapshot from this graph's root
    /// builds: the nodes reached, each with its adjacency list and the number
    /// of nodes it was first to reach, and a placeholder for every edge that
    /// leaves a node reached. Nothing is drawn.
    pub open spec fn built(self, base: &BaseInfo) -> GraphView {
        let adj = base.adjacency();
        let order = frontier(adj, self.root, self.labels.len());
        GraphView {
            nodes: Map::new(
                |k: u32| order.contains(k),
                |k: u32|
                    WrapperView {
                        visual: None,
                        neighbors: links_of(adj, k),
                        new_neighbors: found_by(adj, self.root, order.index_of(k) as nat).len() as u32,
                    },
            ),
            edges: Map::new(
                |p: (u32, u32)| order.contains(p.0) && links_of(adj, p.0).contains(p.1),
                |p: (u32, u32)|
                    LineView { state: LineState::Novisual, weight: weight_of(base.edges@[p.0]@, p.1) },
            ),
            ..self
        }
    }
}

/// An all-false table with one entry per label.
fn blank_marks(count: usize) -> (marks: Vec<bool>)
    ensures
        marks@.len() == count,
        forall|i: int| 0 <= i < count ==> !marks@[i],
{
    let mut marks: Vec<bool> = Vec::new();
    let mut i: usize = 0;
    while i < count
        invariant
            i <= count,
            marks@.len() == i,
            forall|j: int| 0 <= j < i ==> !marks@[j],
        decreases count - i,
    {
        marks.push(false);
        i += 1;
    }
    marks
}

/// Whether `k` is among the first `n` entries of `order`.
pub open spec fn expanded(order: Seq<u32>, n: int, k: u32) -> bool {
    exists|j: int| 0 <= j < n && j < order.len() && order[j] == k
}


/// A clean start of a list followed by a bad entry makes that entry the
/// first bad one of the whole list.
proof fn lemma_first_bad(list: Seq<u32>, i: int, j: int, count: nat)
    requires
        0 <= i < j <= list.len(),
        first_bad(list.take(i), count) is None,
        list[i] >= count,
    ensures
        first_bad(list.take(j), count) == Some(list[i]),
    decreases j - i,
{
    assert(list.take(j).drop_last() =~= list.take(j - 1));
    if j > i + 1 {
        lemma_first_bad(list, i, j - 1, count);
    }
}

/// A clean list stays clean when a node id is appended.
proof fn lemma_first_bad_push(list: Seq<u32>, v: u32, count: nat)
    requires
        first_bad(list, count) is None,
        v < count,
    ensures
        first_bad(list.push(v), count) is None,
{
    assert(list.push(v).drop_last() =~= list);
}

/// The weight text recorded for `v` after one more link was read.
proof fn lemma_weight_of_push(links: Seq<Link>, l: Link, v: u32)
    ensures
        weight_of(links.push(l), v) == if l.to_id == v {
            l.weight@
        } else {
            weight_of(links, v)
        },
{
    assert(links.push(l).drop_last() =~= links);
}

/// `seen` marks exactly the nodes of `order`, all of which have a label.
spec fn marked(seen: Seq<bool>, order: Seq<u32>, count: usize) -> bool {
    &&& seen.len() == count
    &&& order.no_duplicates()
    &&& forall|x: int| 0 <= x < order.len() ==> #[trigger] order[x] < count
    &&& forall|v: u32| v < count ==> (#[trigger] seen[v as int] <==> order.contains(v))
}

/// Membership in a list that is two lists joined.
pub proof fn lemma_joined_contains(a: Seq<u32>, b: Seq<u32>, v: u32)
    ensures
        (a + b).contains(v) <==> a.contains(v) || b.contains(v),
{
    if (a + b).contains(v) {
        let x = choose|x: int| 0 <= x < (a + b).len() && (a + b)[x] == v;
        if x < a.len() {
            assert(a[x] == v);
        } else {
            assert(b[x - a.len()] == v);
        }
    }
    if a.contains(v) {
        let x = choose|x: int| 0 <= x < a.len() && a[x] == v;
        assert((a + b)[x] == v);
    }
    if b.contains(v) {
        let x = choose|x: int| 0 <= x < b.len() && b[x] == v;
        assert((a + b)[a.len() + x] == v);
    }
}

/// A list without repeats joined with what is discovered beyond it has no
/// repeats.
proof fn lemma_joined_distinct(prev: Seq<u32>, list: Seq<u32>)
    requires
        prev.no_duplicates(),
    ensures
        (prev + discover(list, prev.to_set())).no_duplicates(),
{
    let found = discover(list, prev.to_set());
    lemma_discover(list, prev.to_set());
    assert forall|a: int, b: int| 0 <= a < b < (prev + found).len() implies (prev + found)[a] != (prev
        + found)[b] by {
        if b >= prev.len() {
            assert(found.contains(found[b - prev.len()]));
            if a < prev.len() {
                assert(prev.contains(prev[a]));
            }
        }
    }
}

/// The edges that leave `c`, once its list has been read up to `links`.
spec fn edges_scanned(before: Map<u64, Line>, after: Map<u64, Line>, c: u32, links: Seq<Link>) -> bool {
    &&& forall|p: (u32, u32)|
        after.contains_key(#[trigger] edge_key(p.0, p.1)) <==> before.contains_key(edge_key(p.0, p.1)) || (p.0
            == c && targets(links).contains(p.1))
    &&& forall|p: (u32, u32)|
        after.contains_key(#[trigger] edge_key(p.0, p.1)) ==> after[edge_key(p.0, p.1)]@ == if p.0 == c
            && targets(links).contains(p.1) {
            LineView { state: LineState::Novisual, weight: weight_of(links, p.1) }
        } else {
            before[edge_key(p.0, p.1)]@
        }
}

/// Reads the adjacency list of `c`: marks and queues the nodes seen for the
/// first time, and registers a placeholder for every edge. Returns the
/// neighbours and how many of them are new, or the first entry that is no
/// node.
fn scan(
    links: &Vec<Link>,
    c: u32,
    count: usize,
    seen: &mut Vec<bool>,
    order: &mut Vec<u32>,
    edges: &mut HashMap<u64, Line>,
) -> (r: Result<(Vec<u32>, u32), u32>)
    requires
        marked(old(seen)@, old(order)@, count),
        old(order)@.len() >= 1,
    ensures
        match r {
            Ok((neighbors, fresh)) => {
                &&& neighbors@ == targets(links@)
                &&& first_bad(neighbors@, count as nat) is None
                &&& final(order)@ == old(order)@ + discover(neighbors@, old(order)@.to_set())
                &&& fresh == discover(neighbors@, old(order)@.to_set()).len()
                &&& marked(final(seen)@, final(order)@, count)
                &&& forall|x: int| 0 <= x < neighbors@.len() ==> final(order)@.contains(#[trigger] neighbors@[x])
                &&& edges_scanned(old(edges)@, final(edges)@, c, links@)
            },
            Err(v) => first_bad(targets(links@), count as nat) == Some(v),
        },
{
    let ghost prev = order@;
    let mut neighbors: Vec<u32> = Vec::new();
    let mut fresh: u32 = 0;
    let mut i: usize = 0;
    proof {
        assert(links@.take(0) =~= Seq::<Link>::empty());
        assert(targets(links@.take(0)) =~= Seq::<u32>::empty());
        assert(order@ =~= prev + discover(neighbors@, prev.to_set()));
    }
    while i < links.len()
        invariant
            i <= links@.len(),
            prev == old(order)@,
            prev.no_duplicates(),
            prev.len() >= 1,
            neighbors@ == targets(links@.take(i as int)),
            first_bad(neighbors@, count as nat) is None,
            order@ == prev + discover(neighbors@, prev.to_set()),
            fresh == discover(neighbors@, prev.to_set()).len(),
            marked(seen@, order@, count),
            forall|x: int| 0 <= x < neighbors@.len() ==> order@.contains(#[trigger] neighbors@[x]),
            edges_scanned(old(edges)@, edges@, c, links@.take(i as int)),
        decreases links@.len() - i,
    {
        let v: u32 = links[i].to_id;
        let ghost scanned = neighbors@;
        let ghost before_edges = edges@;
        let ghost o = order@;
        proof {
            assert(links@.take(i + 1) =~= links@.take(i as int).push(links@[i as int]));
            assert(targets(links@.take(i + 1)) =~= scanned.push(v));
        }
        if v as usize >= count {
            proof {
                let list = targets(links@);
                assert(list.take(i as int) =~= scanned);
                assert(list.take(list.len() as int) =~= list);
                lemma_first_bad(list, i as int, list.len() as int, count as nat);
            }
            return Err(v);
        }
        neighbors.push(v);
        proof {
            lemma_joined_contains(prev, discover(scanned, prev.to_set()), v);
            lemma_first_bad_push(scanned, v, count as nat);
            lemma_discover_push(scanned, v, prev.to_set());
            lemma_weight_of_push(links@.take(i as int), links@[i as int], v);
            lemma_joined_distinct(prev, scanned.push(v));
        }
        if !seen[v as usize] {
            proof {
                lemma_bounded_distinct(prev + discover(scanned.push(v), prev.to_set()), 0x1_0000_0000);
            }
            seen.set(v as usize, true);
            order.push(v);
            fresh += 1;
        }
        proof {
            assert(order@ =~= prev + discover(neighbors@, prev.to_set()));
            assert forall|w: u32| w < count implies (#[trigger] seen@[w as int] <==> order@.contains(w)) by {
                if order@.contains(w) {
                    let x = choose|x: int| 0 <= x < order@.len() && order@[x] == w;
                    if x < o.len() {
                        assert(o[x] == w);
                    }
                }
                if o.contains(w) {
                    let x = choose|x: int| 0 <= x < o.len() && o[x] == w;
                    assert(order@[x] == w);
                }
                if w == v {
                    if !o.contains(v) {
                        assert(order@[order@.len() - 1] == v);
                    }
                }
            }
            assert(seen@[v as int]);
            assert(order@.contains(v));
            assert forall|x: int| 0 <= x < neighbors@.len() implies order@.contains(#[trigger] neighbors@[x]) by {
                if x < scanned.len() {
                    assert(o.contains(scanned[x]));
                    let y = choose|y: int| 0 <= y < o.len() && o[y] == scanned[x];
                    assert(order@[y] == scanned[x]);
                } else {
                    assert(neighbors@[x] == v);
                }
            }
        }
        let k = pack(c, v);
        edges.insert(k, Line::new(LineState::Novisual, links[i].weight.as_str()));
        proof {
            let part = links@.take(i as int);
            let more = links@.take(i + 1);
            assert forall|p: (u32, u32)|
                edges@.contains_key(#[trigger] edge_key(p.0, p.1)) <==> old(edges)@.contains_key(
                    edge_key(p.0, p.1),
                ) || (p.0 == c && targets(more).contains(p.1)) by {
                if edge_key(p.0, p.1) == k {
                    lemma_edge_key_injective(p.0, p.1, c, v);
                    assert(targets(more)[i as int] == v);
                }
                if p.0 == c && targets(more).contains(p.1) && p.1 != v {
                    let x = choose|x: int| 0 <= x < targets(more).len() && targets(more)[x] == p.1;
                    assert(targets(part)[x] == p.1);
                }
                if p.0 == c && targets(part).contains(p.1) {
                    let x = choose|x: int| 0 <= x < targets(part).len() && targets(part)[x] == p.1;
                    assert(targets(more)[x] == p.1);
                }
            }
            assert forall|p: (u32, u32)|
                edges@.contains_key(#[trigger] edge_key(p.0, p.1)) implies edges@[edge_key(p.0, p.1)]@ == if p.0
                == c && targets(more).contains(p.1) {
                LineView { state: LineState::Novisual, weight: weight_of(more, p.1) }
            } else {
                old(edges)@[edge_key(p.0, p.1)]@
            } by {
                assert(more == part.push(links@[i as int]));
                lemma_weight_of_push(part, links@[i as int], p.1);
                if edge_key(p.0, p.1) == k {
                    lemma_edge_key_injective(p.0, p.1, c, v);
                    assert(targets(more)[i as int] == v);
                } else {
                    assert(before_edges.contains_key(edge_key(p.0, p.1)));
                    if p.0 == c && targets(more).contains(p.1) {
                        let x = choose|x: int| 0 <= x < targets(more).len() && targets(more)[x] == p.1;
                        assert(targets(part)[x] == p.1);
                    }
                    if p.0 == c && targets(part).contains(p.1) {
                        let x = choose|x: int| 0 <= x < targets(part).len() && targets(part)[x] == p.1;
                        assert(targets(more)[x] == p.1);
                    }
                }
            }
        }
        i += 1;
    }
    proof {
        assert(links@.take(links@.len() as int) =~= links@);
    }
    Ok((neighbors, fresh))
}

/// What the walk has built once `n` nodes of `order` are expanded.
spec fn grown_to(
    nodes: Map<u32, NodeWrapper>,
    edges: Map<u64, Line>,
    base: &BaseInfo,
    root: u32,
    order: Seq<u32>,
    n: int,
) -> bool {
    let adj = base.adjacency();
    &&& forall|k: u32| #[trigger] nodes.contains_key(k) <==> expanded(order, n, k)
    &&& forall|j: int|
        0 <= j < n ==> (#[trigger] nodes[order[j]])@ == (WrapperView {
            visual: None,
            neighbors: links_of(adj, order[j]),
            new_neighbors: found_by(adj, root, j as nat).len() as u32,
        })
    &&& forall|k: u32, x: int|
        nodes.contains_key(k) && 0 <= x < nodes[k]@.neighbors.len() ==> order.contains(
            #[trigger] nodes[k]@.neighbors[x],
        )
    &&& forall|p: (u32, u32)|
        edges.contains_key(#[trigger] edge_key(p.0, p.1)) <==> expanded(order, n, p.0) && links_of(
            adj,
            p.0,
        ).contains(p.1)
    &&& forall|p: (u32, u32)|
        edges.contains_key(#[trigger] edge_key(p.0, p.1)) ==> edges[edge_key(p.0, p.1)]@ == (LineView {
            state: LineState::Novisual,
            weight: weight_of(base.edges@[p.0]@, p.1),
        })
}

/// Expanding node number `n` carries what was built one step on.
proof fn lemma_grown_step(
    nodes: Map<u32, NodeWrapper>,
    edges: Map<u64, Line>,
    edges2: Map<u64, Line>,
    base: &BaseInfo,
    root: u32,
    prev: Seq<u32>,
    order: Seq<u32>,
    n: int,
    w: NodeWrapper,
)
    requires
        0 <= n < prev.len(),
        prev == frontier(base.adjacency(), root, n as nat),
        order == frontier(base.adjacency(), root, (n + 1) as nat),
        grown_to(nodes, edges, base, root, prev, n),
        base.edges@.contains_key(prev[n]),
        edges_scanned(edges, edges2, prev[n], base.edges@[prev[n]]@),
        w@ == (WrapperView {
            visual: None,
            neighbors: targets(base.edges@[prev[n]]@),
            new_neighbors: found_by(base.adjacency(), root, n as nat).len() as u32,
        }),
        forall|x: int| 0 <= x < w@.neighbors.len() ==> order.contains(#[trigger] w@.neighbors[x]),
    ensures
        grown_to(nodes.insert(prev[n], w), edges2, base, root, order, n + 1),
{
    let adj = base.adjacency();
    let c = prev[n];
    let nodes2 = nodes.insert(c, w);
    lemma_frontier(adj, root, n as nat);
    lemma_frontier(adj, root, (n + 1) as nat);
    assert(prev.is_prefix_of(order));
    assert forall|k: u32| expanded(order, n + 1, k) <==> expanded(prev, n, k) || k == c by {
        if expanded(order, n + 1, k) {
            let j = choose|j: int| 0 <= j < n + 1 && j < order.len() && order[j] == k;
            if j < n {
                assert(prev[j] == k);
            }
        }
        if expanded(prev, n, k) {
            let j = choose|j: int| 0 <= j < n && j < prev.len() && prev[j] == k;
            assert(order[j] == k);
        }
        if k == c {
            assert(order[n] == c);
        }
    }
    assert(!expanded(prev, n, c));
    assert forall|j: int| 0 <= j < n + 1 implies (#[trigger] nodes2[order[j]])@ == (WrapperView {
        visual: None,
        neighbors: links_of(adj, order[j]),
        new_neighbors: found_by(adj, root, j as nat).len() as u32,
    }) by {
        if j < n {
            assert(prev[j] == order[j]);
            assert(prev[j] != prev[n]);
            assert(nodes[prev[j]]@.neighbors == links_of(adj, prev[j]));
        }
    }
    assert forall|k: u32, x: int|
        nodes2.contains_key(k) && 0 <= x < nodes2[k]@.neighbors.len() implies order.contains(
        #[trigger] nodes2[k]@.neighbors[x],
    ) by {
        if k != c {
            let v = nodes[k]@.neighbors[x];
            assert(prev.contains(v));
            let y = choose|y: int| 0 <= y < prev.len() && prev[y] == v;
            assert(order[y] == v);
        }
    }
    assert forall|p: (u32, u32)|
        edges2.contains_key(#[trigger] edge_key(p.0, p.1)) <==> expanded(order, n + 1, p.0) && links_of(
            adj,
            p.0,
        ).contains(p.1) by {
        assert(expanded(order, n + 1, p.0) <==> expanded(prev, n, p.0) || p.0 == c);
    }
    assert forall|p: (u32, u32)|
        edges2.contains_key(#[trigger] edge_key(p.0, p.1)) implies edges2[edge_key(p.0, p.1)]@ == (LineView {
        state: LineState::Novisual,
        weight: weight_of(base.edges@[p.0]@, p.1),
    }) by {
        assert(expanded(order, n + 1, p.0) <==> expanded(prev, n, p.0) || p.0 == c);
    }
}

impl Graph {
    /// Walks the snapshot breadth-first from the graph's root and replaces
    /// the nodes and edges of the graph by what the walk finds. Nothing is
    /// drawn yet: nodes have no drawn form and edges are placeholders.
    ///
    /// The walk fails, and the graph stays as it is, at the first node that
    /// has no label or no list of edges.
    pub fn build_base(&mut self, base_info: &BaseInfo) -> (r: Result<(), GraphError>)
        requires
            old(self).wf(),
        ensures
            final(self).wf(),
            match r {
                Ok(_) => {
                    &&& traversable(base_info.adjacency(), old(self)@.root, old(self)@.labels.len())
                    &&& final(self)@ == old(self)@.built(base_info)
                    &&& final(self)@.nodes.contains_key(old(self)@.root)
                },
                Err(e) => {
                    &&& final(self)@ == old(self)@
                    &&& first_fault(base_info.adjacency(), old(self)@.root, old(self)@.labels.len(), e)
                },
            },
    {
        let count: usize = self.node_labels.len();
        let root: u32 = self.root;
        let ghost adj = base_info.adjacency();
        if root as usize >= count {
            return Err(GraphError::MissingNode(root));
        }
        let mut seen = blank_marks(count);
        seen.set(root as usize, true);
        let mut order: Vec<u32> = Vec::new();
        order.push(root);
        let mut nodes: HashMap<u32, NodeWrapper> = HashMap::new();
        let mut edges: HashMap<u64, Line> = HashMap::new();
        let mut n: usize = 0;
        proof {
            assert(order@ =~= frontier(adj, root, 0));
            assert forall|v: u32| v < count implies (#[trigger] seen@[v as int] <==> order@.contains(v)) by {
                if v == root {
                    assert(order@[0] == v);
                }
            }
        }
        while n < order.len()
            invariant
                adj == base_info.adjacency(),
                count == self@.labels.len(),
                root == self@.root,
                root < count,
                *self == *old(self),
                self.wf(),
                n <= order@.len(),
                order@ == frontier(adj, root, n as nat),
                marked(seen@, order@, count),
                forall|m: nat| m < n ==> (#[trigger] fault_at(adj, root, count as nat, m)) is None,
                grown_to(nodes@, edges@, base_info, root, order@, n as int),
            decreases count - n,
        {
            let c: u32 = order[n];
            let ghost prev = order@;
            let ghost old_edges = edges@;
            proof {
                lemma_bounded_distinct(prev, count as nat);
            }
            let links = match base_info.edges.get(&c) {
                Some(l) => l,
                None => {
                    assert(fault_at(adj, root, count as nat, n as nat) == Some(GraphError::MissingAdjacency(c)));
                    return Err(GraphError::MissingAdjacency(c));
                },
            };
            assert(links_of(adj, c) == targets(links@));
            let (neighbors, fresh) = match scan(links, c, count, &mut seen, &mut order, &mut edges) {
                Ok(found) => found,
                Err(v) => {
                    assert(fault_at(adj, root, count as nat, n as nat) == Some(GraphError::MissingNode(v)));
                    return Err(GraphError::MissingNode(v));
                },
            };
            let w = NodeWrapper { visual_node: None, neighbors, new_neighbors: fresh };
            proof {
                assert(order@ == frontier(adj, root, (n + 1) as nat));
                assert(found_by(adj, root, n as nat) == discover(targets(links@), prev.to_set()));
                assert(fault_at(adj, root, count as nat, n as nat) is None);
                lemma_grown_step(nodes@, old_edges, edges@, base_info, root, prev, order@, n as int, w);
            }
            nodes.insert(c, w);
            n += 1;
        }
        proof {
            let total = old(self)@.labels.len();
            lemma_frontier(adj, root, n as nat);
            lemma_bounded_distinct(order@, count as nat);
            lemma_frontier_settled(adj, root, n as nat, total);
            assert forall|m: nat| (#[trigger] fault_at(adj, root, count as nat, m)) is None by {
                if m >= n {
                    lemma_frontier_settled(adj, root, n as nat, m);
                }
            }
        }
        let ghost before = self@;
        self.nodes = nodes;
        self.edges = edges;
        proof {
            let goal = before.built(base_info);
            assert forall|k: u32| order@.contains(k) <==> expanded(order@, n as int, k) by {
                if order@.contains(k) {
                    let j = choose|j: int| 0 <= j < order@.len() && order@[j] == k;
                    assert(expanded(order@, n as int, k));
                }
            }
            assert forall|k: u32| self@.nodes.contains_key(k) implies self@.nodes[k] == goal.nodes[k] by {
                let j = choose|j: int| 0 <= j < n && j < order@.len() && order@[j] == k;
                let j2 = order@.index_of(k);
                assert(j2 == j);
                assert(self.nodes@[order@[j]]@.neighbors == links_of(adj, k));
            }
            assert(self@.nodes =~= goal.nodes);
            assert(self@.edges =~= goal.edges);
            assert(self@ == goal);
            assert forall|k: u32| #[trigger] self@.nodes.contains_key(k) implies k < self@.labels.len() by {
                let j = choose|j: int| 0 <= j < n && j < order@.len() && order@[j] == k;
                assert(order@[j] < count);
            }
            assert forall|p: (u32, u32)| #[trigger] self@.edges.contains_key(p) implies self@.nodes.contains_key(
                p.0,
            ) && self@.nodes.contains_key(p.1) by {
                assert(self.edges@.contains_key(edge_key(p.0, p.1)));
                assert(expanded(order@, n as int, p.0));
                let x = choose|x: int|
                    0 <= x < links_of(adj, p.0).len() && links_of(adj, p.0)[x] == p.1;
                assert(self.nodes@[p.0]@.neighbors[x] == p.1);
                assert(order@.contains(p.1));
            }
            assert forall|k: u32, i: int|
                self@.nodes.contains_key(k) && 0 <= i < self@.nodes[k].neighbors.len() implies self@.nodes.contains_key(
                #[trigger] self@.nodes[k].neighbors[i],
            ) by {
                let v = self.nodes@[k]@.neighbors[i];
                assert(order@.contains(v));
            }
            assert(order@[0] == root);
            assert(order@.contains(root));
        }
        Ok(())
    }
}


/// The smallest id among the given nodes.
pub open spec fn least_key(nodes: Map<u32, WrapperView>) -> u32 {
    choose|k: u32| nodes.contains_key(k) && forall|j: u32| j < k ==> !nodes.contains_key(j)
}

/// `list` without the entries equal to `id`.
pub open spec fn without(list: Seq<u32>, id: u32) -> Seq<u32>
    decreases list.len(),
{
    if list.len() == 0 {
        Seq::empty()
    } else if list.last() == id {
        without(list.drop_last(), id)
    } else {
        without(list.drop_last(), id).push(list.last())
    }
}

/// `without` keeps exactly the entries that differ from `id`.
pub proof fn lemma_without(list: Seq<u32>, id: u32)
    ensures
        forall|v: u32| #[trigger] without(list, id).contains(v) <==> list.contains(v) && v != id,
    decreases list.len(),
{
    if list.len() > 0 {
        let rest = without(list.drop_last(), id);
        let out = without(list, id);
        lemma_without(list.drop_last(), id);
        assert forall|v: u32| #[trigger] out.contains(v) <==> list.contains(v) && v != id by {
            if out.contains(v) {
                let x = choose|x: int| 0 <= x < out.len() && out[x] == v;
                if x < rest.len() {
                    assert(rest[x] == v);
                    assert(rest.contains(v));
                    let y = choose|y: int| 0 <= y < list.drop_last().len() && list.drop_last()[y] == v;
                    assert(list[y] == v);
                } else {
                    assert(list[list.len() - 1] == v);
                }
            }
            if list.contains(v) && v != id {
                let y = choose|y: int| 0 <= y < list.len() && list[y] == v;
                if y < list.len() - 1 {
                    assert(list.drop_last()[y] == v);
                    assert(rest.contains(v));
                    let x = choose|x: int| 0 <= x < rest.len() && rest[x] == v;
                    assert(out[x] == v);
                } else {
                    assert(out[out.len() - 1] == v);
                }
            }
        }
    }
}

/// The node as it is once `id` has left its neighbours.
pub open spec fn purged(w: WrapperView, id: u32) -> WrapperView {
    WrapperView { neighbors: without(w.neighbors, id), ..w }
}

impl GraphView {
    /// One more than the largest id a node can have.
    pub open spec fn id_bound(self) -> nat {
        if self.labels.len() < 0x1_0000_0000 {
            self.labels.len()
        } else {
            0x1_0000_0000
        }
    }

    /// The graph without the edge from `from` to `to`, if it had it.
    pub open spec fn drop_edge(self, from: u32, to: u32) -> GraphView {
        if self.edges.contains_key((from, to)) {
            self.remove_edge(from, to)
        } else {
            self
        }
    }

    /// The graph without the edges from `id` to the nodes below `n`, dropped
    /// in rising order of their ends.
    pub open spec fn drop_outgoing(self, id: u32, n: nat) -> GraphView
        decreases n,
    {
        if n == 0 {
            self
        } else {
            self.drop_outgoing(id, (n - 1) as nat).drop_edge(id, (n - 1) as u32)
        }
    }

    /// The graph without the edges to `id` from the nodes below `n`, dropped
    /// in rising order of their starts.
    pub open spec fn drop_incoming(self, id: u32, n: nat) -> GraphView
        decreases n,
    {
        if n == 0 {
            self
        } else {
            self.drop_incoming(id, (n - 1) as nat).drop_edge((n - 1) as u32, id)
        }
    }

    /// The graph without the edges that start or end at `id`: first those
    /// that start there, then the others.
    pub open spec fn remove_edges_of_node(self, id: u32) -> GraphView {
        self.drop_outgoing(id, self.id_bound()).drop_incoming(id, self.id_bound())
    }

    /// The smallest id of a node of the graph.
    pub open spec fn least_node(self) -> u32 {
        least_key(self.nodes)
    }

    /// The graph after node `id` left it: it is taken off the scene, its
    /// edges go, no node has it as a neighbour any more, and where it was the
    /// root the remaining node with the smallest id takes over.
    pub open spec fn remove_node(self, id: u32) -> GraphView {
        let g = if self.nodes[id].visual is Some {
            self.note(SceneOpView::RemoveNode { id })
        } else {
            self
        };
        let g = g.remove_edges_of_node(id);
        let nodes = nodes_without(self.nodes, id);
        GraphView {
            nodes,
            root: if self.root == id && exists|k: u32| nodes.contains_key(k) {
                least_key(nodes)
            } else {
                self.root
            },
            ..g
        }
    }

    /// The graph after a drawn node without neighbours joined it. The first
    /// node of a graph becomes its root.
    pub open spec fn add_node(self, id: u32, color: NodeColor, place: Placement) -> GraphView {
        let label = self.labels[id as int];
        let g = self.note(SceneOpView::CreateNode { id, label, color, place });
        GraphView {
            nodes: g.nodes.insert(
                id,
                WrapperView {
                    visual: Some(NodeView { label, color, weight: None }),
                    neighbors: Seq::empty(),
                    new_neighbors: 0,
                },
            ),
            root: if exists|k: u32| self.nodes.contains_key(k) {
                self.root
            } else {
                id
            },
            ..g
        }
    }

    /// The graph after everything left it and the scene was cleared.
    pub open spec fn clean_graph(self) -> GraphView {
        GraphView { nodes: Map::empty(), edges: Map::empty(), ..self.note(SceneOpView::Clear) }
    }

    /// Dropping edges leaves the nodes, the root and the labels alone, and
    /// keeps a graph well formed.
    pub proof fn lemma_drop_outgoing(self, id: u32, n: nat)
        requires
            self.wf(),
        ensures
            self.drop_outgoing(id, n).wf(),
            self.drop_outgoing(id, n).nodes == self.nodes,
            self.drop_outgoing(id, n).root == self.root,
            self.drop_outgoing(id, n).labels == self.labels,
            forall|p: (u32, u32)|
                #![trigger self.drop_outgoing(id, n).edges.contains_key(p)]
                self.drop_outgoing(id, n).edges.contains_key(p) <==> self.edges.contains_key(p) && !(p.0 == id
                    && p.1 < n),
            forall|p: (u32, u32)|
                #![trigger self.drop_outgoing(id, n).edges[p]]
                self.drop_outgoing(id, n).edges.contains_key(p) ==> self.drop_outgoing(id, n).edges[p]
                    == self.edges[p],
        decreases n,
    {
        if n > 0 {
            self.lemma_drop_outgoing(id, (n - 1) as nat);
        }
    }

    pub proof fn lemma_drop_incoming(self, id: u32, n: nat)
        requires
            self.wf(),
        ensures
            self.drop_incoming(id, n).wf(),
            self.drop_incoming(id, n).nodes == self.nodes,
            self.drop_incoming(id, n).root == self.root,
            self.drop_incoming(id, n).labels == self.labels,
            forall|p: (u32, u32)|
                #![trigger self.drop_incoming(id, n).edges.contains_key(p)]
                self.drop_incoming(id, n).edges.contains_key(p) <==> self.edges.contains_key(p) && !(p.1 == id
                    && p.0 < n),
            forall|p: (u32, u32)|
                #![trigger self.drop_incoming(id, n).edges[p]]
                self.drop_incoming(id, n).edges.contains_key(p) ==> self.drop_incoming(id, n).edges[p]
                    == self.edges[p],
        decreases n,
    {
        if n > 0 {
            self.lemma_drop_incoming(id, (n - 1) as nat);
        }
    }

    /// After the edges of `id` were removed, the graph holds exactly the
    /// edges that neither start nor end at `id`, unchanged.
    pub proof fn lemma_remove_edges_of_node(self, id: u32)
        requires
            self.wf(),
        ensures
            self.remove_edges_of_node(id).wf(),
            self.remove_edges_of_node(id).nodes == self.nodes,
            self.remove_edges_of_node(id).root == self.root,
            self.remove_edges_of_node(id).labels == self.labels,
            forall|p: (u32, u32)|
                #![trigger self.remove_edges_of_node(id).edges.contains_key(p)]
                self.remove_edges_of_node(id).edges.contains_key(p) <==> self.edges.contains_key(p) && p.0 != id
                    && p.1 != id,
            forall|p: (u32, u32)|
                #![trigger self.remove_edges_of_node(id).edges[p]]
                self.remove_edges_of_node(id).edges.contains_key(p) ==> self.remove_edges_of_node(id).edges[p]
                    == self.edges[p],
    {
        let n = self.id_bound();
        self.lemma_drop_outgoing(id, n);
        self.drop_outgoing(id, n).lemma_drop_incoming(id, n);
    }
}


/// A copy of `list` without the entries equal to `id`.
fn strip(list: &Vec<u32>, id: u32) -> (r: Vec<u32>)
    ensures
        r@ == without(list@, id),
{
    let mut out: Vec<u32> = Vec::new();
    let mut i: usize = 0;
    assert(list@.take(0) =~= Seq::<u32>::empty());
    while i < list.len()
        invariant
            i <= list@.len(),
            out@ == without(list@.take(i as int), id),
        decreases list@.len() - i,
    {
        proof {
            assert(list@.take(i + 1).drop_last() =~= list@.take(i as int));
        }
        if list[i] != id {
            out.push(list[i]);
        }
        i += 1;
    }
    assert(list@.take(list@.len() as int) =~= list@);
    out
}

/// Takes `id` out of the neighbours of every node below `bound`.
fn purge(nodes: &mut HashMap<u32, NodeWrapper>, id: u32, bound: u64)
    requires
        bound <= 0x1_0000_0000,
    ensures
        forall|j: u32| #[trigger] final(nodes)@.contains_key(j) <==> old(nodes)@.contains_key(j),
        forall|j: u32|
            final(nodes)@.contains_key(j) ==> (#[trigger] final(nodes)@[j])@ == if j < bound {
                purged(old(nodes)@[j]@, id)
            } else {
                old(nodes)@[j]@
            },
{
    let mut k: u64 = 0;
    while k < bound
        invariant
            k <= bound <= 0x1_0000_0000,
            forall|j: u32| #[trigger] nodes@.contains_key(j) <==> old(nodes)@.contains_key(j),
            forall|j: u32|
                nodes@.contains_key(j) ==> (#[trigger] nodes@[j])@ == if j < k {
                    purged(old(nodes)@[j]@, id)
                } else {
                    old(nodes)@[j]@
                },
        decreases bound - k,
    {
        let key = k as u32;
        let ghost before = nodes@;
        match nodes.remove(&key) {
            Some(w) => {
                let neighbors = strip(&w.neighbors, id);
                let kept = NodeWrapper { visual_node: w.visual_node, neighbors, new_neighbors: w.new_neighbors };
                assert(kept@ == purged(before[key]@, id));
                nodes.insert(key, kept);
                assert(nodes@ =~= before.insert(key, kept));
            },
            None => {
                assert(nodes@ =~= before);
            },
        }
        k += 1;
    }
}

/// The nodes that `remove_node` leaves.
pub open spec fn nodes_without(nodes: Map<u32, WrapperView>, id: u32) -> Map<u32, WrapperView> {
    Map::new(|k: u32| nodes.contains_key(k) && k != id, |k: u32| purged(nodes[k], id))
}

/// Two smallest ids of the same nodes are one.
proof fn lemma_least_unique(nodes: Map<u32, WrapperView>, a: u32, b: u32)
    requires
        nodes.contains_key(a) && forall|j: u32| j < a ==> !nodes.contains_key(j),
        nodes.contains_key(b) && forall|j: u32| j < b ==> !nodes.contains_key(j),
    ensures
        a == b,
{
}

/// What `remove_node` leaves is well formed.
pub proof fn lemma_removed_wf(before: GraphView, after: GraphView, id: u32)
    requires
        before.wf(),
        before.nodes.contains_key(id),
        after.labels == before.labels,
        after.nodes == nodes_without(before.nodes, id),
        forall|p: (u32, u32)|
            #[trigger] after.edges.contains_key(p) ==> before.edges.contains_key(p) && p.0 != id && p.1 != id,
        (forall|j: u32| !after.nodes.contains_key(j)) || after.nodes.contains_key(after.root),
    ensures
        after.wf(),
{
    assert forall|j: u32, i: int|
        after.nodes.contains_key(j) && 0 <= i < after.nodes[j].neighbors.len() implies after.nodes.contains_key(
        #[trigger] after.nodes[j].neighbors[i],
    ) by {
        let v = after.nodes[j].neighbors[i];
        lemma_without(before.nodes[j].neighbors, id);
        assert(without(before.nodes[j].neighbors, id).contains(v));
        let x = choose|x: int| 0 <= x < before.nodes[j].neighbors.len() && before.nodes[j].neighbors[x] == v;
        assert(before.nodes.contains_key(before.nodes[j].neighbors[x]));
    }
}

impl Graph {
    /// One more than the largest id a node can have.
    fn id_bound(&self) -> (r: u64)
        ensures
            r == self@.id_bound(),
    {
        let count: u64 = self.node_labels.len() as u64;
        if count < 0x1_0000_0000 {
            count
        } else {
            0x1_0000_0000
        }
    }

    /// Takes every edge that starts or ends at `id` out of the graph.
    pub fn remove_edges_of_node(&mut self, id: u32)
        requires
            old(self).wf(),
        ensures
            final(self).wf(),
            final(self)@ == old(self)@.remove_edges_of_node(id),
    {
        let bound = self.id_bound();
        let mut v: u64 = 0;
        while v < bound
            invariant
                v <= bound <= 0x1_0000_0000,
                bound == old(self)@.id_bound(),
                self.wf(),
                self@ == old(self)@.drop_outgoing(id, v as nat),
            decreases bound - v,
        {
            let _ = self.remove_edge(id, v as u32);
            v += 1;
        }
        let ghost mid = self@;
        let mut u: u64 = 0;
        while u < bound
            invariant
                u <= bound <= 0x1_0000_0000,
                bound == old(self)@.id_bound(),
                mid == old(self)@.drop_outgoing(id, bound as nat),
                self.wf(),
                self@ == mid.drop_incoming(id, u as nat),
            decreases bound - u,
        {
            let _ = self.remove_edge(u as u32, id);
            u += 1;
        }
    }

    /// The smallest id below `bound` of a node of the graph.
    fn least(&self, bound: u64) -> (r: Option<u32>)
        requires
            bound <= 0x1_0000_0000,
        ensures
            match r {
                Some(k) => self.nodes@.contains_key(k) && forall|j: u32| j < k ==> !self.nodes@.contains_key(j),
                None => forall|j: u32| j < bound ==> !self.nodes@.contains_key(j),
            },
    {
        let mut k: u64 = 0;
        while k < bound
            invariant
                k <= bound <= 0x1_0000_0000,
                forall|j: u32| j < k ==> !self.nodes@.contains_key(j),
            decreases bound - k,
        {
            let id = k as u32;
            if self.nodes.contains_key(&id) {
                return Some(id);
            }
            k += 1;
        }
        None
    }

    /// Takes node `id` out of the graph, with its edges and with every
    /// mention of it among the neighbours of other nodes.
    pub fn remove_node(&mut self, id: u32) -> (r: Result<(), GraphError>)
        requires
            old(self).wf(),
        ensures
            final(self).wf(),
            match r {
                Ok(_) => old(self)@.nodes.contains_key(id) && final(self)@ == old(self)@.remove_node(id),
                Err(e) => {
                    &&& !old(self)@.nodes.contains_key(id)
                    &&& final(self)@ == old(self)@
                    &&& e == GraphError::MissingNode(id)
                },
            },
    {
        let drawn = match self.nodes.get(&id) {
            None => { return Err(GraphError::MissingNode(id)); },
            Some(w) => w.visual_node.is_some(),
        };
        if drawn {
            self.log(SceneOp::RemoveNode { id });
        }
        let ghost noted = self@;
        proof {
            assert(noted.nodes == old(self)@.nodes);
            assert(noted.edges == old(self)@.edges);
            assert(noted.wf());
            noted.lemma_remove_edges_of_node(id);
        }
        self.remove_edges_of_node(id);
        let ghost cut = self@;
        let bound = self.id_bound();
        self.nodes.remove(&id);
        let ghost mid = self.nodes@;
        purge(&mut self.nodes, id, bound);
        let ghost goal_nodes = nodes_without(old(self)@.nodes, id);
        proof {
            assert forall|j: u32| self@.nodes.contains_key(j) implies self@.nodes[j] == goal_nodes[j] by {
                assert(mid.contains_key(j));
                assert(old(self)@.nodes.contains_key(j));
                assert(j < bound);
                assert(self.nodes@[j]@ == purged(mid[j]@, id));
            }
            assert(self@.nodes =~= goal_nodes);
        }
        if self.root == id {
            match self.least(bound) {
                Some(k) => {
                    proof {
                        assert(goal_nodes.contains_key(k) && forall|j: u32|
                            j < k ==> !goal_nodes.contains_key(j));
                        let pick = least_key(goal_nodes);
                        lemma_least_unique(goal_nodes, k, pick);
                        assert(old(self)@.root == id);
                        assert(old(self)@.remove_node(id).root == pick);
                    }
                    self.root = k;
                },
                None => {
                    assert forall|j: u32| !goal_nodes.contains_key(j) by {
                        if goal_nodes.contains_key(j) {
                            assert(old(self)@.nodes.contains_key(j));
                            assert(j < bound);
                        }
                    }
                    assert(old(self)@.remove_node(id).root == id);
                },
            }
        }
        proof {
            assert(self@.nodes == goal_nodes);
            assert(self@.edges == cut.edges);
            assert(self@.journal == cut.journal);
            assert(self@.labels == cut.labels);
            let goal = old(self)@.remove_node(id);
            let noted2 = if old(self)@.nodes[id].visual is Some {
                old(self)@.note(SceneOpView::RemoveNode { id })
            } else {
                old(self)@
            };
            assert(noted2 == noted);
            assert(cut == noted2.remove_edges_of_node(id));
            assert(goal.nodes == goal_nodes);
            assert(goal.edges == cut.edges);
            assert(goal.journal == cut.journal);
            assert(goal.labels == cut.labels);
            assert(cut.root == old(self)@.root);
            assert(goal.root == self@.root);
            assert(self@ == goal);
            lemma_removed_wf(old(self)@, self@, id);
        }
        Ok(())
    }

    /// Adds a drawn node without neighbours under the label that belongs to
    /// `id`. The first node of a graph becomes its root.
    pub fn add_node(&mut self, id: u32, color: NodeColor, place: Placement) -> (r: Result<(), GraphError>)
        requires
            old(self).wf(),
        ensures
            final(self).wf(),
            match r {
                Ok(_) => {
                    &&& id < old(self)@.labels.len()
                    &&& !old(self)@.nodes.contains_key(id)
                    &&& final(self)@ == old(self)@.add_node(id, color, place)
                },
                Err(e) => {
                    &&& final(self)@ == old(self)@
                    &&& e == if id >= old(self)@.labels.len() {
                        GraphError::MissingNode(id)
                    } else {
                        GraphError::DuplicateNode(id)
                    }
                    &&& id >= old(self)@.labels.len() || old(self)@.nodes.contains_key(id)
                },
            },
    {
        if id as usize >= self.node_labels.len() {
            return Err(GraphError::MissingNode(id));
        }
        if self.nodes.contains_key(&id) {
            return Err(GraphError::DuplicateNode(id));
        }
        let bound = self.id_bound();
        let first = self.least(bound);
        let empty = first.is_none();
        proof {
            match first {
                None => {
                    assert forall|k: u32| !self@.nodes.contains_key(k) by {
                        if self@.nodes.contains_key(k) {
                            assert(k < bound);
                        }
                    }
                },
                Some(k) => {
                    assert(self@.nodes.contains_key(k));
                },
            }
        }
        let label = self.node_labels[id as usize].clone();
        let w = NodeWrapper::new(label.as_str(), color);
        self.log(SceneOp::CreateNode { id, label, color, place });
        self.nodes.insert(id, w);
        if empty {
            self.root = id;
        }
        proof {
            let goal = old(self)@.add_node(id, color, place);
            assert(label@ == old(self)@.labels[id as int]);
            assert(self@.nodes =~= goal.nodes);
            assert(self@.journal == goal.journal);
            assert(self@.root == goal.root);
            assert(self@.edges == goal.edges);
            assert(self@ == goal);
        }
        Ok(())
    }

    /// Empties the graph and has the scene cleared.
    pub fn clean_graph(&mut self)
        ensures
            final(self).wf(),
            final(self)@ == old(self)@.clean_graph(),
    {
        self.log(SceneOp::Clear);
        self.nodes.clear();
        self.edges.clear();
        proof {
            let goal = old(self)@.clean_graph();
            assert(self@.nodes =~= goal.nodes);
            assert(self@.edges =~= goal.edges);
        }
    }
}


impl GraphView {
    /// The graph after node `v` was drawn afresh at `place`, in the default
    /// colour and under its own label.
    pub open spec fn draw(self, v: u32, place: Placement) -> GraphView {
        let label = self.labels[v as int];
        let g = self.note(SceneOpView::CreateNode { id: v, label, color: NodeColor::Default, place });
        GraphView {
            nodes: g.nodes.insert(
                v,
                WrapperView {
                    visual: Some(NodeView { label, color: NodeColor::Default, weight: None }),
                    ..g.nodes[v]
                },
            ),
            ..g
        }
    }

    /// The weight text of the edge from `u` to `v`; empty where there is no
    /// such edge.
    pub open spec fn weight_between(self, u: u32, v: u32) -> Seq<char> {
        if self.edges.contains_key((u, v)) {
            self.edges[(u, v)].weight
        } else {
            Seq::empty()
        }
    }

    /// The graph after the drawn node `u` was marked as having an edge to
    /// itself: it turns blue and shows the weight of that edge.
    pub open spec fn loop_back(self, u: u32) -> GraphView {
        match self.nodes[u].visual {
            Some(visual) => {
                let weight = self.weight_between(u, u);
                let g = self.note(SceneOpView::ColorNode { id: u, color: NodeColor::Blue }).note(
                    SceneOpView::WeightNode { id: u, weight },
                );
                GraphView {
                    nodes: g.nodes.insert(
                        u,
                        WrapperView {
                            visual: Some(
                                NodeView { color: NodeColor::Blue, weight: Some(weight), ..visual },
                            ),
                            ..g.nodes[u]
                        },
                    ),
                    ..g
                }
            },
            None => self,
        }
    }

    /// The graph after the edge from `u` to `v`, if there is one, was drawn
    /// as an arrow under its own weight.
    pub open spec fn show_edge(self, u: u32, v: u32) -> GraphView {
        if self.edges.contains_key((u, v)) {
            self.add_edge(u, v, self.edges[(u, v)].weight)
        } else {
            self
        }
    }
}

impl Graph {
    /// Replaces what node `id` shows.
    fn set_visual(&mut self, id: u32, visual: Node)
        requires
            old(self).wf(),
            old(self)@.nodes.contains_key(id),
        ensures
            final(self).wf(),
            final(self)@ == (GraphView {
                nodes: old(self)@.nodes.insert(
                    id,
                    WrapperView { visual: Some(visual@), ..old(self)@.nodes[id] },
                ),
                ..old(self)@
            }),
    {
        match self.nodes.remove(&id) {
            Some(w) => {
                let kept = NodeWrapper {
                    visual_node: Some(visual),
                    neighbors: w.neighbors,
                    new_neighbors: w.new_neighbors,
                };
                self.nodes.insert(id, kept);
            },
            None => {},
        }
        proof {
            let goal = GraphView {
                nodes: old(self)@.nodes.insert(
                    id,
                    WrapperView { visual: Some(visual@), ..old(self)@.nodes[id] },
                ),
                ..old(self)@
            };
            assert(self@.nodes =~= goal.nodes);
            assert(self@.edges =~= goal.edges);
            assert(self@ == goal);
            assert forall|k: u32, i: int|
                goal.nodes.contains_key(k) && 0 <= i < goal.nodes[k].neighbors.len() implies goal.nodes.contains_key(
                #[trigger] goal.nodes[k].neighbors[i],
            ) by {
                assert(goal.nodes[k].neighbors == old(self)@.nodes[k].neighbors);
                assert(old(self)@.nodes.contains_key(old(self)@.nodes[k].neighbors[i]));
            }
            assert(goal.wf());
        }
    }

    /// Draws node `v` afresh at `place`.
    fn draw(&mut self, v: u32, place: Placement)
        requires
            old(self).wf(),
            old(self)@.nodes.contains_key(v),
        ensures
            final(self).wf(),
            final(self)@ == old(self)@.draw(v, place),
            same_shape(final(self)@, old(self)@),
    {
        let label = self.node_labels[v as usize].clone();
        let visual = Node::new(label.as_str(), NodeColor::Default);
        self.log(SceneOp::CreateNode { id: v, label, color: NodeColor::Default, place });
        self.set_visual(v, visual);
    }

    /// Marks the drawn node `u` as having an edge to itself.
    fn loop_back(&mut self, u: u32)
        requires
            old(self).wf(),
            old(self)@.nodes.contains_key(u),
        ensures
            final(self).wf(),
            final(self)@ == old(self)@.loop_back(u),
            same_shape(final(self)@, old(self)@),
    {
        let label = match self.nodes.get(&u) {
            Some(w) => match &w.visual_node {
                Some(visual) => visual.label().clone(),
                None => { return ; },
            },
            None => { return ; },
        };
        let k = pack(u, u);
        let weight = match self.edges.get(&k) {
            Some(l) => l.weight().clone(),
            None => String::new(),
        };
        let mut visual = Node::new(label.as_str(), NodeColor::Blue);
        visual.weight_node(weight.as_str());
        self.log(SceneOp::ColorNode { id: u, color: NodeColor::Blue });
        self.log(SceneOp::WeightNode { id: u, weight });
        self.set_visual(u, visual);
    }

    /// Draws the edge from `u` to `v`, if there is one, as an arrow.
    fn show_edge(&mut self, u: u32, v: u32)
        requires
            old(self).wf(),
        ensures
            final(self).wf(),
            final(self)@ == old(self)@.show_edge(u, v),
            same_shape(final(self)@, old(self)@),
    {
        let k = pack(u, v);
        let weight = match self.edges.get(&k) {
            Some(l) => l.weight().clone(),
            None => { return ; },
        };
        let _ = self.add_edge(u, v, weight.as_str());
    }
}


/// Two graphs with the same labels, root and nodes, and the same neighbours
/// for every node. What the nodes show, the edges and the journal may differ.
pub open spec fn same_shape(a: GraphView, b: GraphView) -> bool {
    &&& a.labels == b.labels
    &&& a.root == b.root
    &&& forall|k: u32| a.nodes.contains_key(k) <==> b.nodes.contains_key(k)
    &&& forall|k: u32|
        a.nodes.contains_key(k) ==> (#[trigger] a.nodes[k]).neighbors == b.nodes[k].neighbors
            && a.nodes[k].new_neighbors == b.nodes[k].new_neighbors
}

/// A placement walk in progress: the graph so far, and the nodes drawn so
/// far in the order of their drawing.
pub struct Walk {
    pub g: GraphView,
    pub order: Seq<u32>,
}

/// Where the child of `u` that is drawn as number `slot` goes: the children
/// of the root go on the ring, those of other nodes into the node's fan.
pub open spec fn place_of(g0: GraphView, u: u32, slot: u32) -> Placement {
    if u == g0.root {
        Placement::Ring { slot, slices: g0.nodes[u].new_neighbors }
    } else {
        Placement::Fan { parent: u, slot, children: g0.nodes[u].new_neighbors }
    }
}

/// The walk after neighbour `v` of `u` was looked at: `u` itself marks an
/// edge of `u` to itself; a node not yet drawn is drawn at place number
/// `slot` of `u`; and the edge from `u` to `v` is drawn.
pub open spec fn visit(g0: GraphView, w: Walk, u: u32, v: u32, slot: u32) -> Walk {
    if v == u {
        Walk { g: w.g.loop_back(u), ..w }
    } else {
        let w1 = if w.order.contains(v) {
            w
        } else {
            Walk { g: w.g.draw(v, place_of(g0, u, slot)), order: w.order.push(v) }
        };
        Walk { g: w1.g.show_edge(u, v), ..w1 }
    }
}

/// The walk after the first `i` neighbours of `u` were looked at. The places
/// of `u` are given out in the order in which its neighbours are drawn.
pub open spec fn fan(g0: GraphView, w: Walk, u: u32, i: nat) -> Walk
    decreases i,
{
    if i == 0 {
        w
    } else {
        let before = fan(g0, w, u, (i - 1) as nat);
        visit(g0, before, u, g0.nodes[u].neighbors[i - 1], (before.order.len() - w.order.len()) as u32)
    }
}

/// The walk after `u` was expanded. A node other than the root that was
/// first to reach no node is passed over.
pub open spec fn expand(g0: GraphView, w: Walk, u: u32) -> Walk {
    if u != g0.root && g0.nodes[u].new_neighbors == 0 {
        w
    } else {
        fan(g0, w, u, g0.nodes[u].neighbors.len())
    }
}

/// The walk after `n` nodes were expanded: it starts with the root drawn at
/// the anchor, and expands the nodes in the order in which they were drawn.
pub open spec fn walk(g0: GraphView, n: nat) -> Walk
    decreases n,
{
    if n == 0 {
        Walk { g: g0.draw(g0.root, Placement::Anchor), order: seq![g0.root] }
    } else {
        let w = walk(g0, (n - 1) as nat);
        if w.order.len() < n {
            w
        } else {
            expand(g0, w, w.order[n - 1])
        }
    }
}

/// Once every node drawn has been expanded the walk is over.
pub proof fn lemma_walk_settled(g0: GraphView, n: nat, m: nat)
    requires
        walk(g0, n).order.len() <= n,
        n <= m,
    ensures
        walk(g0, m) == walk(g0, n),
    decreases m,
{
    if m > n {
        lemma_walk_settled(g0, n, (m - 1) as nat);
    }
}

impl GraphView {
    /// The graph after the placement walk from its root: every node that the
    /// walk reaches is drawn, once, and the edges that leave the expanded
    /// nodes are drawn.
    pub open spec fn placed(self) -> GraphView {
        walk(self, self.id_bound()).g
    }
}

/// A copy of a list of node ids.
fn copy_ids(list: &Vec<u32>) -> (r: Vec<u32>)
    ensures
        r@ == list@,
{
    let mut out: Vec<u32> = Vec::new();
    let mut i: usize = 0;
    while i < list.len()
        invariant
            i <= list@.len(),
            out@ == list@.take(i as int),
        decreases list@.len() - i,
    {
        out.push(list[i]);
        assert(list@.take(i + 1) =~= list@.take(i as int).push(list@[i as int]));
        i += 1;
    }
    assert(list@.take(list@.len() as int) =~= list@);
    out
}

impl Graph {
    /// Looks at every neighbour of `u` in turn: draws those not yet drawn,
    /// each at its place, and draws the edges to them.
    fn fan_out(
        &mut self,
        u: u32,
        neighbors: &Vec<u32>,
        count: usize,
        seen: &mut Vec<bool>,
        order: &mut Vec<u32>,
        Ghost(g0): Ghost<GraphView>,
    )
        requires
            old(self).wf(),
            g0.wf(),
            same_shape(old(self)@, g0),
            g0.nodes.contains_key(u),
            neighbors@ == g0.nodes[u].neighbors,
            count == g0.labels.len(),
            marked(old(seen)@, old(order)@, count),
            old(order)@.len() >= 1,
        ensures
            final(self).wf(),
            same_shape(final(self)@, g0),
            marked(final(seen)@, final(order)@, count),
            final(order)@.len() >= old(order)@.len(),
            ({
                fan(g0, Walk { g: old(self)@, order: old(order)@ }, u, neighbors@.len()) == (Walk {
                    g: final(self)@,
                    order: final(order)@,
                })
            }),
    {
        let ghost w0 = Walk { g: self@, order: order@ };
        let is_root = u == self.root;
        let children: u32 = match self.nodes.get(&u) {
            Some(w) => w.new_neighbors,
            None => 0,
        };
        proof {
            assert(self@.nodes.contains_key(u));
            assert(self@.nodes[u].new_neighbors == g0.nodes[u].new_neighbors);
        }
        let mut slot: u32 = 0;
        let mut i: usize = 0;
        while i < neighbors.len()
            invariant
                i <= neighbors@.len(),
                self.wf(),
                g0.wf(),
                same_shape(self@, g0),
                g0.nodes.contains_key(u),
                neighbors@ == g0.nodes[u].neighbors,
                count == g0.labels.len(),
                marked(seen@, order@, count),
                order@.len() >= 1,
                is_root == (u == g0.root),
                children == g0.nodes[u].new_neighbors,
                slot + w0.order.len() == order@.len(),
                w0.order.len() >= 1,
                w0.order == old(order)@,
                fan(g0, w0, u, i as nat) == (Walk { g: self@, order: order@ }),
            decreases neighbors@.len() - i,
        {
            let v: u32 = neighbors[i];
            let ghost w = Walk { g: self@, order: order@ };
            assert(g0.nodes.contains_key(v));
            assert(v < count);
            if v == u {
                self.loop_back(u);
            } else {
                if !seen[v as usize] {
                    let place = if is_root {
                        Placement::Ring { slot, slices: children }
                    } else {
                        Placement::Fan { parent: u, slot, children }
                    };
                    proof {
                        assert(order@.push(v).no_duplicates());
                        lemma_bounded_distinct(order@.push(v), 0x1_0000_0000);
                    }
                    self.draw(v, place);
                    let ghost o = order@;
                    seen.set(v as usize, true);
                    order.push(v);
                    slot += 1;
                    proof {
                        assert forall|x: u32| x < count implies (#[trigger] seen@[x as int] <==> order@.contains(x)) by {
                            if order@.contains(x) {
                                let y = choose|y: int| 0 <= y < order@.len() && order@[y] == x;
                                if y < o.len() {
                                    assert(o[y] == x);
                                }
                            }
                            if o.contains(x) {
                                let y = choose|y: int| 0 <= y < o.len() && o[y] == x;
                                assert(order@[y] == x);
                            }
                            if x == v {
                                assert(order@[order@.len() - 1] == v);
                            }
                        }
                    }
                }
                self.show_edge(u, v);
            }
            assert(visit(g0, w, u, v, (w.order.len() - w0.order.len()) as u32) == (Walk {
                g: self@,
                order: order@,
            }));
            i += 1;
        }
    }
}


impl Graph {
    /// Draws the graph for the first time. The root is drawn at the anchor;
    /// then the nodes are expanded in the order in which they were drawn,
    /// and every neighbour a node is first to reach is drawn at a place of
    /// that node: on the ring for the root, in the node's fan otherwise. A
    /// node with an edge to itself turns blue and shows that edge's weight.
    ///
    /// Fails, changing nothing, where the root is no node of the graph.
    pub fn bigbang_base(&mut self) -> (r: Result<(), GraphError>)
        requires
            old(self).wf(),
        ensures
            final(self).wf(),
            match r {
                Ok(_) => {
                    &&& old(self)@.nodes.contains_key(old(self)@.root)
                    &&& final(self)@ == old(self)@.placed()
                    &&& same_shape(final(self)@, old(self)@)
                },
                Err(e) => {
                    &&& !old(self)@.nodes.contains_key(old(self)@.root)
                    &&& final(self)@ == old(self)@
                    &&& e == GraphError::MissingNode(old(self)@.root)
                },
            },
    {
        let root: u32 = self.root;
        if !self.nodes.contains_key(&root) {
            return Err(GraphError::MissingNode(root));
        }
        let count: usize = self.node_labels.len();
        let ghost g0 = self@;
        proof {
            assert(g0.nodes.contains_key(root));
            assert(count == g0.labels.len());
            assert(root < count);
        }
        let mut seen = blank_marks(count);
        seen.set(root as usize, true);
        let mut order: Vec<u32> = Vec::new();
        order.push(root);
        proof {
            assert forall|v: u32| v < count implies (#[trigger] seen@[v as int] <==> order@.contains(v)) by {
                if v == root {
                    assert(order@[0] == v);
                }
            }
        }
        self.draw(root, Placement::Anchor);
        let mut n: usize = 0;
        while n < order.len()
            invariant
                g0.wf(),
                g0 == old(self)@,
                root == g0.root,
                count == g0.labels.len(),
                self.wf(),
                same_shape(self@, g0),
                n <= order@.len(),
                order@.len() >= 1,
                marked(seen@, order@, count),
                forall|x: int| 0 <= x < order@.len() ==> g0.nodes.contains_key(#[trigger] order@[x]),
                walk(g0, n as nat) == (Walk { g: self@, order: order@ }),
            decreases count - n,
        {
            let u: u32 = order[n];
            let ghost w = Walk { g: self@, order: order@ };
            proof {
                lemma_bounded_distinct(order@, count as nat);
                assert(g0.nodes.contains_key(u));
                assert(self@.nodes.contains_key(u));
                assert(self@.nodes[u].neighbors == g0.nodes[u].neighbors);
                assert(self@.nodes[u].new_neighbors == g0.nodes[u].new_neighbors);
            }
            let (neighbors, children) = match self.nodes.get(&u) {
                Some(node) => (copy_ids(&node.neighbors), node.new_neighbors),
                None => (Vec::new(), 0),
            };
            if u == root || children != 0 {
                self.fan_out(u, &neighbors, count, &mut seen, &mut order, Ghost(g0));
                proof {
                    lemma_fan_nodes(g0, w, u, neighbors@.len() as nat);
                    let done = fan(g0, w, u, neighbors@.len() as nat);
                    assert forall|x: int| 0 <= x < order@.len() implies g0.nodes.contains_key(
                        #[trigger] order@[x],
                    ) by {
                        assert(done.order[x] == order@[x]);
                    }
                }
            }
            assert(expand(g0, w, u) == (Walk { g: self@, order: order@ }));
            n += 1;
        }
        proof {
            lemma_bounded_distinct(order@, count as nat);
            lemma_bounded_distinct(order@, 0x1_0000_0000);
            lemma_walk_settled(g0, n as nat, g0.id_bound());
        }
        Ok(())
    }
}

/// Every node that a fan draws is a neighbour of the node it belongs to.
proof fn lemma_fan_nodes(g0: GraphView, w: Walk, u: u32, i: nat)
    requires
        g0.wf(),
        g0.nodes.contains_key(u),
        i <= g0.nodes[u].neighbors.len(),
        forall|x: int| 0 <= x < w.order.len() ==> g0.nodes.contains_key(#[trigger] w.order[x]),
    ensures
        forall|x: int|
            0 <= x < fan(g0, w, u, i).order.len() ==> g0.nodes.contains_key(
                #[trigger] fan(g0, w, u, i).order[x],
            ),
    decreases i,
{
    if i > 0 {
        lemma_fan_nodes(g0, w, u, (i - 1) as nat);
        let before = fan(g0, w, u, (i - 1) as nat);
        let v = g0.nodes[u].neighbors[i - 1];
        let after = fan(g0, w, u, i);
        assert(g0.nodes.contains_key(v));
        assert forall|x: int| 0 <= x < after.order.len() implies g0.nodes.contains_key(
            #[trigger] after.order[x],
        ) by {
            if x < before.order.len() {
                assert(after.order[x] == before.order[x]);
            }
        }
    }
}


impl GraphView {
    /// The graph after the drawn node `id` took the colour `color`. A node
    /// that is not drawn stays as it is.
    pub open spec fn recolor(self, id: u32, color: NodeColor) -> GraphView {
        match self.nodes[id].visual {
            Some(visual) => GraphView {
                nodes: self.nodes.insert(
                    id,
                    WrapperView { visual: Some(NodeView { color, ..visual }), ..self.nodes[id] },
                ),
                ..self.note(SceneOpView::ColorNode { id, color })
            },
            None => self,
        }
    }

    /// The graph after the drawn node `id` took the label `label`. A node
    /// that is not drawn stays as it is.
    pub open spec fn relabel(self, id: u32, label: Seq<char>) -> GraphView {
        match self.nodes[id].visual {
            Some(visual) => GraphView {
                nodes: self.nodes.insert(
                    id,
                    WrapperView { visual: Some(NodeView { label, ..visual }), ..self.nodes[id] },
                ),
                ..self.note(SceneOpView::LabelNode { id, label })
            },
            None => self,
        }
    }

    /// The graph after the edge from `from` to `to` took the weight text
    /// `weight`. The scene is told where the edge is drawn.
    pub open spec fn reweigh(self, from: u32, to: u32, weight: Seq<char>) -> GraphView {
        let g = if self.edge_shown(from, to) {
            self.note(SceneOpView::WeightEdge { from, to, weight })
        } else {
            self
        };
        GraphView { edges: g.edges.insert((from, to), LineView { weight, ..self.edges[(from, to)] }), ..g }
    }

    /// The graph after `to` joined the neighbours of `from`.
    pub open spec fn befriend(self, from: u32, to: u32) -> GraphView {
        GraphView {
            nodes: self.nodes.insert(
                from,
                WrapperView { neighbors: self.nodes[from].neighbors.push(to), ..self.nodes[from] },
            ),
            ..self
        }
    }

    /// The graph after the ends of a new edge became neighbours of each
    /// other. A node with an edge to itself is its own neighbour once.
    pub open spec fn link(self, from: u32, to: u32) -> GraphView {
        if from == to {
            self.befriend(from, to)
        } else {
            self.befriend(from, to).befriend(to, from)
        }
    }

    /// The graph after `id` was counted as first to reach one node more.
    pub open spec fn bump(self, id: u32) -> GraphView {
        let count = self.nodes[id].new_neighbors;
        GraphView {
            nodes: self.nodes.insert(
                id,
                WrapperView {
                    new_neighbors: if count < u32::MAX {
                        (count + 1) as u32
                    } else {
                        count
                    },
                    ..self.nodes[id]
                },
            ),
            ..self
        }
    }

    /// The graph after the scene was told to move node `id` to `place`.
    pub open spec fn move_node(self, id: u32, place: Placement) -> GraphView {
        self.note(SceneOpView::MoveNode { id, place })
    }

    /// The graph with `root` as its root.
    pub open spec fn reroot(self, root: u32) -> GraphView {
        GraphView { root, ..self }
    }
}

impl Graph {
    /// Replaces node `id` by `w`, which has to be a node of the graph with
    /// neighbours that are nodes of the graph.
    fn put_node(&mut self, id: u32, w: NodeWrapper)
        requires
            old(self).wf(),
            old(self)@.nodes.contains_key(id),
            forall|i: int| 0 <= i < w@.neighbors.len() ==> old(self)@.nodes.contains_key(#[trigger] w@.neighbors[i]),
        ensures
            final(self).wf(),
            final(self)@ == (GraphView { nodes: old(self)@.nodes.insert(id, w@), ..old(self)@ }),
    {
        self.nodes.insert(id, w);
        proof {
            let goal = GraphView { nodes: old(self)@.nodes.insert(id, w@), ..old(self)@ };
            assert(self@.nodes =~= goal.nodes);
            assert(self@.edges =~= goal.edges);
            assert(self@ == goal);
            assert forall|k: u32, i: int|
                goal.nodes.contains_key(k) && 0 <= i < goal.nodes[k].neighbors.len() implies goal.nodes.contains_key(
                #[trigger] goal.nodes[k].neighbors[i],
            ) by {
                if k != id {
                    assert(old(self)@.nodes.contains_key(old(self)@.nodes[k].neighbors[i]));
                }
            }
            assert(goal.wf());
        }
    }

    /// Gives the drawn node `id` the colour `color`.
    pub fn recolor(&mut self, id: u32, color: NodeColor)
        requires
            old(self).wf(),
            old(self)@.nodes.contains_key(id),
        ensures
            final(self).wf(),
            final(self)@ == old(self)@.recolor(id, color),
    {
        let mut visual = match self.nodes.get(&id) {
            Some(w) => match &w.visual_node {
                Some(visual) => visual.duplicate(),
                None => { return ; },
            },
            None => { return ; },
        };
        visual.color_node(color);
        self.log(SceneOp::ColorNode { id, color });
        self.set_visual(id, visual);
    }

    /// Gives the drawn node `id` the label `label`.
    pub fn relabel(&mut self, id: u32, label: &str)
        requires
            old(self).wf(),
            old(self)@.nodes.contains_key(id),
        ensures
            final(self).wf(),
            final(self)@ == old(self)@.relabel(id, label@),
    {
        let mut visual = match self.nodes.get(&id) {
            Some(w) => match &w.visual_node {
                Some(visual) => visual.duplicate(),
                None => { return ; },
            },
            None => { return ; },
        };
        visual.label_node(label);
        self.log(SceneOp::LabelNode { id, label: label.to_owned() });
        self.set_visual(id, visual);
    }

    /// Gives the edge from `from_id` to `to_id` the weight text `weight`.
    pub fn reweigh(&mut self, from_id: u32, to_id: u32, weight: &str) -> (r: Result<(), GraphError>)
        requires
            old(self).wf(),
        ensures
            final(self).wf(),
            match r {
                Ok(_) => {
                    &&& old(self)@.edges.contains_key((from_id, to_id))
                    &&& final(self)@ == old(self)@.reweigh(from_id, to_id, weight@)
                },
                Err(e) => {
                    &&& !old(self)@.edges.contains_key((from_id, to_id))
                    &&& final(self)@ == old(self)@
                    &&& e == GraphError::MissingEdge(from_id, to_id)
                },
            },
    {
        let k = pack(from_id, to_id);
        let state = match self.edges.get(&k) {
            Some(l) => l.state(),
            None => { return Err(GraphError::MissingEdge(from_id, to_id)); },
        };
        match state {
            LineState::Novisual => {},
            _ => {
                self.log(SceneOp::WeightEdge { from: from_id, to: to_id, weight: weight.to_owned() });
            },
        }
        self.edges.insert(k, Line::new(state, weight));
        proof {
            let goal = old(self)@.reweigh(from_id, to_id, weight@);
            assert forall|p: (u32, u32)| self@.edges.contains_key(p) == goal.edges.contains_key(p) by {
                if edge_key(p.0, p.1) == k {
                    lemma_edge_key_injective(p.0, p.1, from_id, to_id);
                }
            }
            assert(self@.edges =~= goal.edges);
            assert(self@.nodes =~= goal.nodes);
            assert(self@ == goal);
            assert forall|p: (u32, u32)| #[trigger] goal.edges.contains_key(p) implies goal.nodes.contains_key(
                p.0,
            ) && goal.nodes.contains_key(p.1) by {
                assert(old(self)@.edges.contains_key(p));
            }
            assert(goal.wf());
        }
        Ok(())
    }

    /// Adds `to` to the neighbours of `from`. Both have to be nodes.
    fn befriend(&mut self, from: u32, to: u32)
        requires
            old(self).wf(),
            old(self)@.nodes.contains_key(from),
            old(self)@.nodes.contains_key(to),
        ensures
            final(self).wf(),
            final(self)@ == old(self)@.befriend(from, to),
    {
        let w = match self.nodes.get(&from) {
            Some(w) => w.duplicate(),
            None => { return ; },
        };
        let mut neighbors = w.neighbors;
        neighbors.push(to);
        let kept = NodeWrapper { visual_node: w.visual_node, neighbors, new_neighbors: w.new_neighbors };
        proof {
            assert forall|i: int| 0 <= i < kept@.neighbors.len() implies self@.nodes.contains_key(
                #[trigger] kept@.neighbors[i],
            ) by {
                if i < kept@.neighbors.len() - 1 {
                    assert(self@.nodes.contains_key(self@.nodes[from].neighbors[i]));
                }
            }
        }
        self.put_node(from, kept);
    }

    /// Makes the ends of a new edge neighbours of each other.
    pub fn link(&mut self, from: u32, to: u32)
        requires
            old(self).wf(),
            old(self)@.nodes.contains_key(from),
            old(self)@.nodes.contains_key(to),
        ensures
            final(self).wf(),
            final(self)@ == old(self)@.link(from, to),
    {
        self.befriend(from, to);
        if from != to {
            self.befriend(to, from);
        }
    }

    /// Counts `id` as first to reach one node more.
    pub fn bump(&mut self, id: u32)
        requires
            old(self).wf(),
            old(self)@.nodes.contains_key(id),
        ensures
            final(self).wf(),
            final(self)@ == old(self)@.bump(id),
    {
        let w = match self.nodes.get(&id) {
            Some(w) => w.duplicate(),
            None => { return ; },
        };
        let count = if w.new_neighbors < u32::MAX {
            w.new_neighbors + 1
        } else {
            w.new_neighbors
        };
        let kept = NodeWrapper { visual_node: w.visual_node, neighbors: w.neighbors, new_neighbors: count };
        proof {
            assert forall|i: int| 0 <= i < kept@.neighbors.len() implies self@.nodes.contains_key(
                #[trigger] kept@.neighbors[i],
            ) by {
                assert(self@.nodes.contains_key(self@.nodes[id].neighbors[i]));
            }
        }
        self.put_node(id, kept);
    }

    /// Has the scene move node `id` to `place`.
    pub fn move_node(&mut self, id: u32, place: Placement)
        requires
            old(self).wf(),
        ensures
            final(self).wf(),
            final(self)@ == old(self)@.move_node(id, place),
    {
        self.log(SceneOp::MoveNode { id, place });
    }

    /// Makes the node `root` the root.
    pub fn reroot(&mut self, root: u32)
        requires
            old(self).wf(),
            old(self)@.nodes.contains_key(root),
        ensures
            final(self).wf(),
            final(self)@ == old(self)@.reroot(root),
    {
        self.root = root;
    }
}


/// A copy of a table of labels.
pub fn copy_labels(labels: &Vec<String>) -> (r: Vec<String>)
    ensures
        r@.len() == labels@.len(),
        forall|i: int| 0 <= i < r@.len() ==> (#[trigger] r@[i])@ == labels@[i]@,
{
    let mut out: Vec<String> = Vec::new();
    let mut i: usize = 0;
    while i < labels.len()
        invariant
            i <= labels@.len(),
            out@.len() == i,
            forall|j: int| 0 <= j < i ==> (#[trigger] out@[j])@ == labels@[j]@,
        decreases labels@.len() - i,
    {
        out.push(labels[i].clone());
        i += 1;
    }
    out
}

/// A copy of a journal.
fn copy_journal(journal: &Vec<SceneOp>) -> (r: Vec<SceneOp>)
    ensures
        ops_view(r@) == ops_view(journal@),
{
    let mut out: Vec<SceneOp> = Vec::new();
    let mut i: usize = 0;
    while i < journal.len()
        invariant
            i <= journal@.len(),
            out@.len() == i,
            forall|j: int| 0 <= j < i ==> (#[trigger] out@[j])@ == journal@[j]@,
        decreases journal@.len() - i,
    {
        out.push(journal[i].duplicate());
        i += 1;
    }
    assert(ops_view(out@) =~= ops_view(journal@));
    out
}

impl Graph {
    /// A copy of the graph with the same content.
    pub fn duplicate(&self) -> (r: Self)
        ensures
            r@ == self@,
            self.wf() ==> r.wf(),
    {
        let g = Graph {
            node_labels: copy_labels(&self.node_labels),
            nodes: self.nodes.clone(),
            edges: self.edges.clone(),
            root: self.root,
            journal: copy_journal(&self.journal),
        };
        proof {
            assert(g@.labels =~= self@.labels);
            assert(g@.nodes =~= self@.nodes);
            assert(g@.edges =~= self@.edges);
        }
        g
    }

    /// The label that belongs to node `id`, if there is one.
    pub fn label_of(&self, id: u32) -> (r: Option<&String>)
        ensures
            match r {
                Some(l) => id < self@.labels.len() && l@ == self@.labels[id as int],
                None => id >= self@.labels.len(),
            },
    {
        if (id as usize) < self.node_labels.len() {
            Some(&self.node_labels[id as usize])
        } else {
            None
        }
    }
}


/// The ids below `n` of the given nodes, in rising order.
pub open spec fn ids_below(nodes: Map<u32, WrapperView>, n: nat) -> Seq<u32>
    decreases n,
{
    if n == 0 {
        Seq::empty()
    } else {
        let rest = ids_below(nodes, (n - 1) as nat);
        if nodes.contains_key((n - 1) as u32) {
            rest.push((n - 1) as u32)
        } else {
            rest
        }
    }
}

/// The pairs of `id` with each of its neighbours other than itself, in the
/// order of the neighbours.
pub open spec fn pulls(id: u32, neighbors: Seq<u32>) -> Seq<(u32, u32)>
    decreases neighbors.len(),
{
    if neighbors.len() == 0 {
        Seq::empty()
    } else if neighbors.last() == id {
        pulls(id, neighbors.drop_last())
    } else {
        pulls(id, neighbors.drop_last()).push((id, neighbors.last()))
    }
}

/// The pairs that a spring pulls together, for the nodes below `n`.
pub open spec fn springs_below(nodes: Map<u32, WrapperView>, n: nat) -> Seq<(u32, u32)>
    decreases n,
{
    if n == 0 {
        Seq::empty()
    } else {
        let rest = springs_below(nodes, (n - 1) as nat);
        if nodes.contains_key((n - 1) as u32) {
            rest + pulls((n - 1) as u32, nodes[(n - 1) as u32].neighbors)
        } else {
            rest
        }
    }
}

impl GraphView {
    /// The ids of the nodes, in rising order.
    pub open spec fn node_ids(self) -> Seq<u32> {
        ids_below(self.nodes, self.id_bound())
    }

    /// The pairs of nodes that a spring pulls together: every node, in
    /// rising order, with each of its neighbours other than itself.
    pub open spec fn springs(self) -> Seq<(u32, u32)> {
        springs_below(self.nodes, self.id_bound())
    }
}

impl Graph {
    /// The ids of the nodes, in rising order.
    pub fn node_ids(&self) -> (r: Vec<u32>)
        ensures
            r@ == self@.node_ids(),
    {
        let bound = self.id_bound();
        let mut out: Vec<u32> = Vec::new();
        let mut k: u64 = 0;
        while k < bound
            invariant
                k <= bound <= 0x1_0000_0000,
                out@ == ids_below(self@.nodes, k as nat),
            decreases bound - k,
        {
            let id = k as u32;
            if self.nodes.contains_key(&id) {
                out.push(id);
            }
            k += 1;
        }
        out
    }

    /// The pairs of nodes that a spring pulls together.
    pub fn springs(&self) -> (r: Vec<(u32, u32)>)
        ensures
            r@ == self@.springs(),
    {
        let bound = self.id_bound();
        let mut out: Vec<(u32, u32)> = Vec::new();
        let mut k: u64 = 0;
        while k < bound
            invariant
                k <= bound <= 0x1_0000_0000,
                out@ == springs_below(self@.nodes, k as nat),
            decreases bound - k,
        {
            let id = k as u32;
            let ghost before = out@;
            match self.nodes.get(&id) {
                Some(w) => {
                    let mut i: usize = 0;
                    assert(w.neighbors@.take(0) =~= Seq::<u32>::empty());
                    assert(before + Seq::<(u32, u32)>::empty() =~= before);
                    while i < w.neighbors.len()
                        invariant
                            i <= w.neighbors@.len(),
                            out@ == before + pulls(id, w.neighbors@.take(i as int)),
                        decreases w.neighbors@.len() - i,
                    {
                        let v = w.neighbors[i];
                        proof {
                            assert(w.neighbors@.take(i + 1).drop_last() =~= w.neighbors@.take(i as int));
                        }
                        if v != id {
                            out.push((id, v));
                            assert(out@ =~= before + pulls(id, w.neighbors@.take(i + 1)));
                        }
                        i += 1;
                    }
                    assert(w.neighbors@.take(w.neighbors@.len() as int) =~= w.neighbors@);
                },
                None => {},
            }
            k += 1;
        }
        out
    }

    /// Empties the graph, has the scene cleared, and names the root that the
    /// graph is to be built from next.
    pub fn restart(&mut self, root: u32)
        ensures
            final(self).wf(),
            final(self)@ == old(self)@.clean_graph().reroot(root),
    {
        self.clean_graph();
        self.root = root;
    }
}

} // verus!
