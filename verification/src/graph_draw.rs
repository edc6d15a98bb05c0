//! The drawing of one history: a graph for every listener, the listener on
//! show, and how far its history has been replayed.

use crate::dsas::copy_labels;
use crate::dsas::first_fault;
use crate::dsas::traversable;
use crate::dsas::Graph;
use crate::dsas::GraphError;
use crate::dsas::GraphView;
use crate::hashgrid::GridView;
use crate::hashgrid::region_valid;
use crate::hashgrid::HashGrid;
use crate::json_deserialize::Root;
use crate::json_deserialize::BaseInfo;
use crate::replay::backward;
use crate::replay::forward;
use vstd::prelude::*;

verus! {

broadcast use {vstd::std_specs::hash::group_hash_axioms, vstd::laws_eq::group_laws_eq};

/// Cell side of the occupancy grid where none is asked for.
pub const GRID_SPACE: u16 = 5;

/// How the first layout of a graph is made.
#[derive(Debug, Clone, Copy, PartialEq, Eq, Structural)]
pub enum Algorithm {
    BigBang,
    Randomized,
}

/// Something that can draw itself into a viewport.
pub trait Render {
    fn render(viewport: ((i32, i32), (i32, i32)), number: usize);
}

/// Why a drawing could not be built.
#[derive(Debug, Clone, Copy, PartialEq, Eq, Structural)]
pub enum BuildError {
    /// No history was given.
    MissingRoot,
    /// The viewport is inverted or the grid spacing is zero.
    InvalidGrid,
}

/// The mathematical content of a [`GraphDraw`], apart from its history.
pub struct DrawView {
    pub listener_id: usize,
    pub diff_step: usize,
    /// Whether the layout has come to rest.
    pub stable: bool,
    pub graphs: Seq<GraphView>,
    pub grid: GridView<i32>,
    pub viewport: ((i32, i32), (i32, i32)),
    pub initial_position: (i32, i32),
    pub initial_algorithm: Algorithm,
}

/// The drawing of one history.
pub struct GraphDraw {
    viewport: ((i32, i32), (i32, i32)),
    grid_spacing: u16,
    grid: HashGrid<i32>,
    root: Root,
    initial_algorithm: Algorithm,
    listener_id: usize,
    initial_position: (i32, i32),
    stable: bool,
    diff_step: usize,
    graphs: Vec<Graph>,
}

impl View for GraphDraw {
    type V = DrawView;

    closed spec fn view(&self) -> DrawView {
        DrawView {
            listener_id: self.listener_id,
            diff_step: self.diff_step,
            stable: self.stable,
            graphs: Seq::new(self.graphs@.len(), |i: int| self.graphs@[i]@),
            grid: self.grid@,
            viewport: self.viewport,
            initial_position: self.initial_position,
            initial_algorithm: self.initial_algorithm,
        }
    }
}

/// The root that the graph of a listener had before the edit at `step`: the
/// root that the edit before it set, or the root of the snapshot.
pub open spec fn root_before(source: &Root, listener: int, step: int) -> u32 {
    if step == 0 {
        source.bases@[listener].root_id
    } else {
        source.diffs@[listener]@[step - 1].root_id
    }
}

impl GraphDraw {
    /// The history that is drawn.
    pub closed spec fn source(&self) -> Root {
        self.root
    }

    /// The graphs and the grid are well formed, and the replay has not run
    /// past the end of the history on show.
    pub closed spec fn wf(&self) -> bool {
        &&& self.grid.wf()
        &&& self.grid_spacing == self.grid@.ds
        &&& forall|i: int| 0 <= i < self.graphs@.len() ==> (#[trigger] self.graphs@[i]).wf()
        &&& self.listener_id < self.root.diffs@.len() ==> self.diff_step <= self.root.diffs@[self.listener_id as int]@.len()
    }

    /// How the next step forwards ends: in an error; in nothing, where the
    /// history is at its end; or in a new graph for the listener on show.
    pub open spec fn forward_outcome(&self) -> Result<Option<GraphView>, GraphError> {
        let l = self@.listener_id as int;
        let source = self.source();
        if l >= self@.graphs.len() || l >= source.diffs@.len() {
            Err(GraphError::MissingListener(self@.listener_id))
        } else if self@.diff_step >= source.diffs@[l]@.len() {
            Ok(None)
        } else {
            match forward(self@.graphs[l], &source.diffs@[l]@[self@.diff_step as int]) {
                Ok(g) => Ok(Some(g)),
                Err(e) => Err(e),
            }
        }
    }

    /// How the next step backwards ends: in an error; in nothing, where the
    /// history is at its start; or in a new graph for the listener on show.
    pub open spec fn backward_outcome(&self) -> Result<Option<GraphView>, GraphError> {
        let l = self@.listener_id as int;
        let source = self.source();
        if l >= self@.graphs.len() || l >= source.diffs@.len() || l >= source.bases@.len() {
            Err(GraphError::MissingListener(self@.listener_id))
        } else if self@.diff_step == 0 {
            Ok(None)
        } else {
            let step = self@.diff_step - 1;
            match backward(self@.graphs[l], &source.diffs@[l]@[step], root_before(&source, l, step)) {
                Ok(g) => Ok(Some(g)),
                Err(e) => Err(e),
            }
        }
    }

    pub fn diff_step(&self) -> (r: usize)
        ensures
            r == self@.diff_step,
    {
        self.diff_step
    }

    pub fn listener_id(&self) -> (r: usize)
        ensures
            r == self@.listener_id,
    {
        self.listener_id
    }

    pub fn is_stable(&self) -> (r: bool)
        ensures
            r == self@.stable,
    {
        self.stable
    }

    /// The graph of listener `i`, if there is one.
    pub fn graph(&self, i: usize) -> (r: Option<&Graph>)
        ensures
            match r {
                Some(g) => i < self@.graphs.len() && g@ == self@.graphs[i as int],
                None => i >= self@.graphs.len(),
            },
    {
        if i < self.graphs.len() {
            Some(&self.graphs[i])
        } else {
            None
        }
    }

    /// Hands over the scene commands that the graph of listener `i` has
    /// gathered.
    pub fn take_journal(&mut self, i: usize) -> (r: Vec<crate::scene::SceneOp>)
        requires
            old(self).wf(),
        ensures
            final(self).wf(),
            final(self).source() == old(self).source(),
            if i < old(self)@.graphs.len() {
                &&& crate::scene::ops_view(r@) == old(self)@.graphs[i as int].journal
                &&& final(self)@ == (DrawView {
                    graphs: old(self)@.graphs.update(
                        i as int,
                        GraphView {
                            journal: Seq::<crate::scene::SceneOpView>::empty(),
                            ..old(self)@.graphs[i as int]
                        },
                    ),
                    ..old(self)@
                })
            } else {
                r@.len() == 0 && final(self)@ == old(self)@
            },
    {
        if i >= self.graphs.len() {
            return Vec::new();
        }
        let out = self.graphs[i].take_journal();
        proof {
            assert(self@.graphs =~= old(self)@.graphs.update(
                i as int,
                GraphView {
                    journal: Seq::<crate::scene::SceneOpView>::empty(),
                    ..old(self)@.graphs[i as int]
                },
            ));
        }
        out
    }

    /// Records whether the layout has come to rest.
    pub fn set_stable(&mut self, stable: bool)
        requires
            old(self).wf(),
        ensures
            final(self).wf(),
            final(self).source() == old(self).source(),
            final(self)@ == (DrawView { stable, ..old(self)@ }),
    {
        self.stable = stable;
    }

    /// Replays one edit of the history on show. At the end of the history
    /// nothing happens. An edit that cannot be applied changes nothing.
    /// A replayed edit sets the layout in motion again.
    pub fn forward_diff(&mut self) -> (r: Result<(), GraphError>)
        requires
            old(self).wf(),
        ensures
            final(self).wf(),
            final(self).source() == old(self).source(),
            match old(self).forward_outcome() {
                Ok(None) => r is Ok && final(self)@ == old(self)@,
                Ok(Some(g)) => r is Ok && final(self)@ == (DrawView {
                    diff_step: (old(self)@.diff_step + 1) as usize,
                    stable: false,
                    graphs: old(self)@.graphs.update(old(self)@.listener_id as int, g),
                    ..old(self)@
                }),
                Err(e) => r == Err::<(), GraphError>(e) && final(self)@ == old(self)@,
            },
    {
        let l = self.listener_id;
        if l >= self.graphs.len() || l >= self.root.diffs.len() {
            return Err(GraphError::MissingListener(l));
        }
        if self.diff_step >= self.root.diffs[l].len() {
            return Ok(());
        }
        match self.graphs[l].forward(&self.root.diffs[l][self.diff_step]) {
            Err(e) => {
                proof {
                    assert(self@.graphs =~= old(self)@.graphs);
                }
                Err(e)
            },
            Ok(_) => {
                self.diff_step = self.diff_step + 1;
                self.stable = false;
                proof {
                    assert(self@.graphs =~= old(self)@.graphs.update(l as int, self.graphs@[l as int]@));
                }
                Ok(())
            },
        }
    }

    /// Takes back the edit replayed last. At the start of the history
    /// nothing happens. An edit that cannot be taken back changes nothing.
    pub fn backward_diff(&mut self) -> (r: Result<(), GraphError>)
        requires
            old(self).wf(),
        ensures
            final(self).wf(),
            final(self).source() == old(self).source(),
            match old(self).backward_outcome() {
                Ok(None) => r is Ok && final(self)@ == old(self)@,
                Ok(Some(g)) => r is Ok && final(self)@ == (DrawView {
                    diff_step: (old(self)@.diff_step - 1) as usize,
                    stable: false,
                    graphs: old(self)@.graphs.update(old(self)@.listener_id as int, g),
                    ..old(self)@
                }),
                Err(e) => r == Err::<(), GraphError>(e) && final(self)@ == old(self)@,
            },
    {
        let l = self.listener_id;
        if l >= self.graphs.len() || l >= self.root.diffs.len() || l >= self.root.bases.len() {
            return Err(GraphError::MissingListener(l));
        }
        if self.diff_step == 0 {
            return Ok(());
        }
        let step = self.diff_step - 1;
        let root = if step == 0 {
            self.root.bases[l].root_id
        } else {
            self.root.diffs[l][step - 1].root_id
        };
        match self.graphs[l].backward(&self.root.diffs[l][step], root) {
            Err(e) => {
                proof {
                    assert(self@.graphs =~= old(self)@.graphs);
                }
                Err(e)
            },
            Ok(_) => {
                self.diff_step = step;
                self.stable = false;
                proof {
                    assert(self@.graphs =~= old(self)@.graphs.update(l as int, self.graphs@[l as int]@));
                }
                Ok(())
            },
        }
    }
}


/// The labels of a history, by node id.
pub open spec fn labels_of(source: &Root) -> Seq<Seq<char>> {
    Seq::new(source.nodes@.len(), |i: int| source.nodes@[i]@)
}

/// A graph without nodes over the labels of the history.
pub open spec fn fresh_graph(source: &Root, root: u32) -> GraphView {
    GraphView {
        labels: labels_of(source),
        root,
        nodes: Map::empty(),
        edges: Map::empty(),
        journal: Seq::empty(),
    }
}

/// The graph `start` after it was cleared and then built from the snapshot
/// and placed; the first fault of the snapshot where it cannot be walked.
pub open spec fn rebuilt(start: GraphView, base: &BaseInfo) -> Result<GraphView, GraphError> {
    let cleared = start.clean_graph().reroot(base.root_id);
    if traversable(base.adjacency(), base.root_id, start.labels.len()) {
        Ok(cleared.built(base).placed())
    } else {
        Err(
            choose|e: GraphError| first_fault(base.adjacency(), base.root_id, start.labels.len(), e),
        )
    }
}

/// What one step of the relaxation has to look at.
pub struct StepPlan {
    /// The root: the one node that stays where it is.
    pub root: u32,
    /// The nodes, in rising order of their ids. Each pushes every other
    /// away.
    pub nodes: Vec<u32>,
    /// The pairs that a spring pulls together.
    pub springs: Vec<(u32, u32)>,
}

/// Clears `g`, builds it from the snapshot and places it.
fn rebuild(g: &mut Graph, base: &BaseInfo) -> (r: Result<(), GraphError>)
    requires
        old(g).wf(),
    ensures
        final(g).wf(),
        match r {
            Ok(_) => rebuilt(old(g)@, base) == Ok::<GraphView, GraphError>(final(g)@),
            Err(e) => {
                &&& !traversable(base.adjacency(), base.root_id, old(g)@.labels.len())
                &&& first_fault(base.adjacency(), base.root_id, old(g)@.labels.len(), e)
            },
        },
{
    g.restart(base.root_id);
    match g.build_base(base) {
        Err(e) => {
            proof {
                lemma_fault_not_traversable(base.adjacency(), base.root_id, old(g)@.labels.len(), e);
            }
            return Err(e);
        },
        Ok(_) => {},
    }
    match g.bigbang_base() {
        Err(e) => Err(e),
        Ok(_) => Ok(()),
    }
}

/// A snapshot with a fault cannot be walked.
proof fn lemma_fault_not_traversable(adj: Map<u32, Seq<u32>>, root: u32, count: nat, e: GraphError)
    requires
        first_fault(adj, root, count, e),
    ensures
        !traversable(adj, root, count),
{
    if root < count {
        let n = choose|n: nat|
            (#[trigger] crate::dsas::fault_at(adj, root, count, n)) == Some(e) && forall|m: nat|
                m < n ==> (#[trigger] crate::dsas::fault_at(adj, root, count, m)) is None;
        assert(crate::dsas::fault_at(adj, root, count, n) is Some);
    }
}

impl GraphDraw {
    /// Adds the graph of listener `listener_id` to the drawing. The graph of
    /// the first listener is built from its snapshot and placed at once; the
    /// others stay empty until they are put on show.
    pub fn add_new_graph(&mut self, listener_id: usize) -> (r: Result<(), GraphError>)
        requires
            old(self).wf(),
        ensures
            final(self).wf(),
            final(self).source() == old(self).source(),
            match r {
                Ok(_) => {
                    &&& listener_id < old(self).source().bases@.len()
                    &&& final(self)@.graphs.len() == old(self)@.graphs.len() + 1
                    &&& final(self)@ == (DrawView {
                        graphs: old(self)@.graphs.push(final(self)@.graphs.last()),
                        ..old(self)@
                    })
                    &&& ({
                        let source = old(self).source();
                        let base = source.bases@[listener_id as int];
                        let fresh = fresh_graph(&source, base.root_id);
                        if listener_id == 0 {
                            rebuilt(fresh, &base) == Ok::<GraphView, GraphError>(final(self)@.graphs.last())
                        } else {
                            final(self)@.graphs.last() == fresh
                        }
                    })
                },
                Err(e) => {
                    &&& final(self)@ == old(self)@
                    &&& if listener_id >= old(self).source().bases@.len() {
                        e == GraphError::MissingListener(listener_id)
                    } else {
                        let source = old(self).source();
                        let base = source.bases@[listener_id as int];
                        &&& listener_id == 0
                        &&& first_fault(base.adjacency(), base.root_id, labels_of(&source).len(), e)
                    }
                },
            },
    {
        if listener_id >= self.root.bases.len() {
            return Err(GraphError::MissingListener(listener_id));
        }
        let base = &self.root.bases[listener_id];
        let mut g = Graph::new(copy_labels(&self.root.nodes), base.root_id);
        proof {
            assert(g@.labels =~= labels_of(&self.root));
            assert(g@ == fresh_graph(&self.root, base.root_id));
        }
        if listener_id == 0 {
            match rebuild(&mut g, base) {
                Err(e) => { return Err(e); },
                Ok(_) => {},
            }
        }
        self.graphs.push(g);
        proof {
            assert(self@.graphs =~= old(self)@.graphs.push(g@));
        }
        Ok(())
    }

    /// Puts listener number `new_id`, counted from one, on show: the graph
    /// on show is cleared, the replay starts over, and the graph of the
    /// listener is built from its snapshot and placed. Where there is no
    /// such listener, or its snapshot cannot be walked, nothing changes.
    pub fn change_listener_id(&mut self, new_id: usize) -> (r: Result<(), GraphError>)
        requires
            old(self).wf(),
        ensures
            final(self).wf(),
            final(self).source() == old(self).source(),
            match r {
                Ok(_) => {
                    let source = old(self).source();
                    let l = old(self)@.listener_id as int;
                    let t = new_id - 1;
                    &&& 0 < new_id <= old(self)@.graphs.len()
                    &&& t < source.bases@.len()
                    &&& l < old(self)@.graphs.len()
                    &&& rebuilt(old(self)@.graphs[t], &source.bases@[t]) is Ok
                    &&& final(self)@ == (DrawView {
                        listener_id: t as usize,
                        diff_step: 0,
                        stable: false,
                        graphs: old(self)@.graphs.update(l, old(self)@.graphs[l].clean_graph()).update(
                            t,
                            rebuilt(old(self)@.graphs[t], &source.bases@[t])->Ok_0,
                        ),
                        ..old(self)@
                    })
                },
                Err(e) => {
                    let source = old(self).source();
                    let t = new_id - 1;
                    &&& final(self)@ == old(self)@
                    &&& if new_id == 0 || new_id > old(self)@.graphs.len() || t >= source.bases@.len()
                        || old(self)@.listener_id >= old(self)@.graphs.len() {
                        e == GraphError::MissingListener(new_id)
                    } else {
                        first_fault(
                            source.bases@[t].adjacency(),
                            source.bases@[t].root_id,
                            old(self)@.graphs[t].labels.len(),
                            e,
                        )
                    }
                },
            },
    {
        let l = self.listener_id;
        let missing: bool = new_id == 0 || new_id > self.graphs.len() || new_id - 1 >= self.root.bases.len();
        if missing || l >= self.graphs.len() {
            return Err(GraphError::MissingListener(new_id));
        }
        let t = new_id - 1;
        let mut target = self.graphs[t].duplicate();
        match rebuild(&mut target, &self.root.bases[t]) {
            Err(e) => { return Err(e); },
            Ok(_) => {},
        }
        self.graphs[l].clean_graph();
        self.graphs[t] = target;
        self.listener_id = t;
        self.diff_step = 0;
        self.stable = false;
        proof {
            assert(self@.graphs =~= old(self)@.graphs.update(l as int, old(self)@.graphs[l as int].clean_graph()).update(
                t as int,
                target@,
            ));
        }
        Ok(())
    }

    /// What the next step of the relaxation has to look at; nothing while
    /// the layout rests or no graph is on show.
    pub fn simulation_step(&self) -> (r: Option<StepPlan>)
        ensures
            match r {
                Some(plan) => {
                    let g = self@.graphs[self@.listener_id as int];
                    &&& !self@.stable
                    &&& self@.listener_id < self@.graphs.len()
                    &&& plan.root == g.root
                    &&& plan.nodes@ == g.node_ids()
                    &&& plan.springs@ == g.springs()
                },
                None => self@.stable || self@.listener_id >= self@.graphs.len(),
            },
    {
        if self.stable || self.listener_id >= self.graphs.len() {
            return None;
        }
        let g = &self.graphs[self.listener_id];
        Some(StepPlan { root: g.root(), nodes: g.node_ids(), springs: g.springs() })
    }
}


/// The viewport of a drawing where none is asked for.
pub open spec fn default_viewport() -> ((i32, i32), (i32, i32)) {
    ((0, 0), (800, 600))
}

/// The whole number halfway between `a` and `b`, rounded towards zero.
pub open spec fn midpoint(a: i32, b: i32) -> int {
    let sum = a + b;
    if sum >= 0 {
        sum / 2
    } else {
        -((-sum) / 2)
    }
}

fn halfway(a: i32, b: i32) -> (r: i32)
    ensures
        r == midpoint(a, b),
{
    let sum: i64 = a as i64 + b as i64;
    if sum >= 0 {
        ((sum as u64) / 2) as i32
    } else {
        let half: u64 = ((-sum) as u64) / 2;
        (0 - half as i64) as i32
    }
}

/// What a drawing is to be built from. What is left open takes its default.
pub struct GraphDrawBuilder {
    pub viewport: Option<((i32, i32), (i32, i32))>,
    pub grid_spacing: Option<u16>,
    pub root: Option<Root>,
    pub initial_algorithm: Option<Algorithm>,
    pub listener_id: Option<usize>,
    pub initial_position: Option<(i32, i32)>,
}

impl GraphDrawBuilder {
    pub fn new() -> (r: Self)
        ensures
            r.viewport is None,
            r.grid_spacing is None,
            r.root is None,
            r.initial_algorithm is None,
            r.listener_id is None,
            r.initial_position is None,
    {
        GraphDrawBuilder {
            viewport: None,
            grid_spacing: None,
            root: None,
            initial_algorithm: None,
            listener_id: None,
            initial_position: None,
        }
    }

    pub fn initial_position(self, pos: (i32, i32)) -> (r: Self)
        ensures
            r == (GraphDrawBuilder { initial_position: Some(pos), ..self }),
    {
        let mut b = self;
        b.initial_position = Some(pos);
        b
    }

    pub fn viewport(self, top_left: (i32, i32), bottom_right: (i32, i32)) -> (r: Self)
        ensures
            r == (GraphDrawBuilder { viewport: Some((top_left, bottom_right)), ..self }),
    {
        let mut b = self;
        b.viewport = Some((top_left, bottom_right));
        b
    }

    pub fn grid_spacing(self, grid_spacing: u16) -> (r: Self)
        ensures
            r == (GraphDrawBuilder { grid_spacing: Some(grid_spacing), ..self }),
    {
        let mut b = self;
        b.grid_spacing = Some(grid_spacing);
        b
    }

    pub fn root(self, root: Root) -> (r: Self)
        ensures
            r == (GraphDrawBuilder { root: Some(root), ..self }),
    {
        let mut b = self;
        b.root = Some(root);
        b
    }

    pub fn initial_algorithm(self, algorithm: Algorithm) -> (r: Self)
        ensures
            r == (GraphDrawBuilder { initial_algorithm: Some(algorithm), ..self }),
    {
        let mut b = self;
        b.initial_algorithm = Some(algorithm);
        b
    }

    pub fn listener_id(self, id: usize) -> (r: Self)
        ensures
            r == (GraphDrawBuilder { listener_id: Some(id), ..self }),
    {
        let mut b = self;
        b.listener_id = Some(id);
        b
    }

    /// The viewport that the drawing will have.
    pub open spec fn chosen_viewport(&self) -> ((i32, i32), (i32, i32)) {
        match self.viewport {
            Some(v) => v,
            None => default_viewport(),
        }
    }

    /// The cell side that the grid of the drawing will have.
    pub open spec fn chosen_spacing(&self) -> u16 {
        match self.grid_spacing {
            Some(s) => s,
            None => GRID_SPACE,
        }
    }

    /// The content of the drawing that `build` makes: no graphs yet, an
    /// empty grid over the viewport, and the anchor at the centre of the
    /// viewport unless another is asked for.
    pub open spec fn plan(&self) -> DrawView {
        let viewport = self.chosen_viewport();
        DrawView {
            listener_id: match self.listener_id {
                Some(l) => l,
                None => 0,
            },
            diff_step: 0,
            stable: false,
            graphs: Seq::empty(),
            grid: GridView::<i32>::blank(viewport, self.chosen_spacing() as int),
            viewport,
            initial_position: match self.initial_position {
                Some(p) => p,
                None => (
                    midpoint(viewport.0.0, viewport.1.0) as i32,
                    midpoint(viewport.0.1, viewport.1.1) as i32,
                ),
            },
            initial_algorithm: match self.initial_algorithm {
                Some(a) => a,
                None => Algorithm::BigBang,
            },
        }
    }

    /// Builds the drawing. A history is required, and the viewport has to be
    /// one that a grid can cover.
    pub fn build(self) -> (r: Result<GraphDraw, BuildError>)
        ensures
            match r {
                Ok(d) => {
                    &&& d.wf()
                    &&& self.root == Some(d.source())
                    &&& region_valid(self.chosen_viewport(), self.chosen_spacing())
                    &&& d@ == self.plan()
                },
                Err(e) => e == if self.root is None {
                    BuildError::MissingRoot
                } else {
                    BuildError::InvalidGrid
                } && (self.root is None || !region_valid(self.chosen_viewport(), self.chosen_spacing())),
            },
    {
        let root = match self.root {
            Some(root) => root,
            None => { return Err(BuildError::MissingRoot); },
        };
        let viewport = match self.viewport {
            Some(v) => v,
            None => ((0, 0), (800, 600)),
        };
        let grid_spacing = match self.grid_spacing {
            Some(s) => s,
            None => GRID_SPACE,
        };
        let grid = match HashGrid::<i32>::new(viewport, grid_spacing) {
            Ok(g) => g,
            Err(_) => { return Err(BuildError::InvalidGrid); },
        };
        let initial_position = match self.initial_position {
            Some(p) => p,
            None => (halfway(viewport.0.0, viewport.1.0), halfway(viewport.0.1, viewport.1.1)),
        };
        let d = GraphDraw {
            viewport,
            grid_spacing,
            grid,
            root,
            initial_algorithm: match self.initial_algorithm {
                Some(a) => a,
                None => Algorithm::BigBang,
            },
            listener_id: match self.listener_id {
                Some(l) => l,
                None => 0,
            },
            initial_position,
            stable: false,
            diff_step: 0,
            graphs: Vec::new(),
        };
        proof {
            assert(d@.graphs =~= Seq::<GraphView>::empty());
        }
        Ok(d)
    }
}

impl GraphDraw {
    pub fn viewport(&self) -> (r: ((i32, i32), (i32, i32)))
        ensures
            r == self@.viewport,
    {
        self.viewport
    }

    pub fn initial_position(&self) -> (r: (i32, i32))
        ensures
            r == self@.initial_position,
    {
        self.initial_position
    }

    pub fn initial_algorithm(&self) -> (r: Algorithm)
        ensures
            r == self@.initial_algorithm,
    {
        self.initial_algorithm
    }

    /// The cell side of the occupancy grid.
    pub fn grid_spacing(&self) -> (r: u16)
        requires
            self.wf(),
        ensures
            r == self@.grid.ds,
    {
        self.grid_spacing
    }

    /// The history that is drawn.
    pub fn history(&self) -> (r: &Root)
        ensures
            *r == self.source(),
    {
        &self.root
    }

    /// The occupancy grid of the drawing, for reading.
    pub fn grid(&self) -> (r: &HashGrid<i32>)
        ensures
            r@ == self@.grid,
            self.wf() ==> r.wf(),
    {
        &self.grid
    }
}

} // verus!
