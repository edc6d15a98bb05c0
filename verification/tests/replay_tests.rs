use graph_layout::dsas::Graph;
use graph_layout::dsas::GraphError;
use graph_layout::graph_draw::Algorithm;
use graph_layout::graph_draw::BuildError;
use graph_layout::graph_draw::GraphDraw;
use graph_layout::graph_draw::GraphDrawBuilder;
use graph_layout::json_deserialize::BaseInfo;
use graph_layout::json_deserialize::DiffInfo;
use graph_layout::json_deserialize::Edge;
use graph_layout::json_deserialize::Link;
use graph_layout::json_deserialize::Node;
use graph_layout::json_deserialize::Root;
use graph_layout::replay::find_delimiter;
use graph_layout::replay::split_change;
use graph_layout::scene::Placement;
use graph_layout::scene::SceneOp;
use graph_layout::tree::NodeColor;
use std::collections::HashMap;

fn node_labels(n: usize) -> Vec<String> {
    let mut out = Vec::new();
    for i in 0..n {
        out.push(format!("n{}", i));
    }
    out
}

fn snapshot(root: u32, lists: Vec<(u32, Vec<(u32, &str)>)>) -> BaseInfo {
    let mut edges: HashMap<u32, Vec<Link>> = HashMap::new();
    for (from, links) in lists {
        let mut list = Vec::new();
        for (to, w) in links {
            list.push(Link { to_id: to, weight: w.to_string() });
        }
        edges.insert(from, list);
    }
    BaseInfo { edges, root_id: root, note: String::new() }
}

fn chain() -> BaseInfo {
    snapshot(0, vec![(0, vec![(1, "w01")]), (1, vec![(2, "w12")]), (2, vec![(3, "w23")]), (3, vec![])])
}

fn edge(from: u32, to: u32, weight: &str) -> Edge {
    Edge { from_id: from, to_id: to, weight: weight.to_string() }
}

fn node(id: u32, label: &str) -> Node {
    Node { id, label: label.to_string() }
}

fn empty_diff(root: u32) -> DiffInfo {
    DiffInfo {
        added_edges: Vec::new(),
        removed_edges: Vec::new(),
        added_nodes: Vec::new(),
        removed_nodes: Vec::new(),
        weights_changed: Vec::new(),
        labels_changed: Vec::new(),
        note: String::new(),
        root_id: root,
    }
}

fn placed_chain() -> Graph {
    let mut g = Graph::new(node_labels(12), 0);
    assert_eq!(g.build_base(&chain()), Ok(()));
    assert_eq!(g.bigbang_base(), Ok(()));
    let _ = g.take_journal();
    g
}

fn label(g: &Graph, id: u32) -> String {
    g.node(id).unwrap().visual_node.as_ref().unwrap().label().clone()
}

fn color(g: &Graph, id: u32) -> NodeColor {
    g.node(id).unwrap().visual_node.as_ref().unwrap().color()
}

fn adding_diff() -> DiffInfo {
    let mut d = empty_diff(0);
    d.added_nodes.push(node(10, ""));
    d.added_edges.push(edge(3, 10, "w"));
    d
}

fn busy_diff() -> DiffInfo {
    let mut d = empty_diff(1);
    d.labels_changed.push(node(2, "n2===two"));
    d.weights_changed.push(edge(0, 1, "w01===heavy"));
    d.added_nodes.push(node(10, ""));
    d.added_edges.push(edge(3, 10, "w"));
    d.added_edges.push(edge(10, 0, "back"));
    d.removed_edges.push(edge(1, 2, "w12"));
    d.removed_edges.push(edge(2, 3, "w23"));
    d.removed_nodes.push(node(2, ""));
    d
}

#[test]
fn delimiter_is_found_at_its_first_place() {
    assert_eq!(find_delimiter("old===new"), Some(3));
    assert_eq!(find_delimiter("===new"), Some(0));
    assert_eq!(find_delimiter("a====b===c"), Some(1));
    assert_eq!(find_delimiter("a==b"), None);
    assert_eq!(find_delimiter(""), None);
    assert_eq!(find_delimiter("é==="), Some(1));
}

#[test]
fn change_splits_into_old_and_new() {
    assert_eq!(split_change("old===new", true), Some("new".to_string()));
    assert_eq!(split_change("old===new", false), Some("old".to_string()));
    assert_eq!(split_change("===", true), Some(String::new()));
    assert_eq!(split_change("===", false), Some(String::new()));
    assert_eq!(split_change("a===b===c", true), Some("b===c".to_string()));
    assert_eq!(split_change("a===b===c", false), Some("a".to_string()));
    assert_eq!(split_change("plain", true), None);
}

#[test]
fn forward_adds_node_with_edge() {
    let mut g = placed_chain();
    assert_eq!(g.forward(&adding_diff()), Ok(()));
    assert!(g.node_exists(10));
    assert_eq!(g.node(10).unwrap().neighbors, vec![3]);
    assert!(g.node(3).unwrap().neighbors.contains(&10));
    assert_eq!(g.node(3).unwrap().new_neighbors, 1);
    assert!(g.edge_exists(3, 10));
    assert_eq!(g.edge(3, 10).unwrap().weight(), "w");
    assert_eq!(label(&g, 10), "n10");
    assert_eq!(color(&g, 10), NodeColor::Red);
    let journal = g.take_journal();
    assert!(journal.iter().any(|op| matches!(
        op,
        SceneOp::CreateNode { id: 10, color: NodeColor::Red, place: Placement::Beside { at: 0 }, .. }
    )));
    assert!(journal.iter().any(|op| matches!(
        op,
        SceneOp::MoveNode { id: 10, place: Placement::Near { neighbor: 3 } }
    )));
    assert!(journal.iter().any(|op| matches!(op, SceneOp::CreateEdge { from: 3, to: 10, .. })));
}

#[test]
fn forward_places_a_waiting_start_node_anywhere() {
    let mut g = placed_chain();
    let mut d = empty_diff(0);
    d.added_nodes.push(node(10, ""));
    d.added_nodes.push(node(11, ""));
    d.added_edges.push(edge(10, 11, "x"));
    assert_eq!(g.forward(&d), Ok(()));
    let journal = g.take_journal();
    let moves: Vec<&SceneOp> = journal.iter().filter(|op| matches!(op, SceneOp::MoveNode { .. })).collect();
    assert_eq!(moves.len(), 2);
    assert!(matches!(moves[0], SceneOp::MoveNode { id: 10, place: Placement::Random }));
    assert!(matches!(moves[1], SceneOp::MoveNode { id: 11, place: Placement::Near { neighbor: 10 } }));
    assert_eq!(g.node(10).unwrap().neighbors, vec![11]);
    assert_eq!(g.node(11).unwrap().neighbors, vec![10]);
}

#[test]
fn forward_applies_every_kind_of_change() {
    let mut g = placed_chain();
    assert_eq!(g.forward(&busy_diff()), Ok(()));
    assert_eq!(g.root(), 1);
    assert_eq!(color(&g, 1), NodeColor::Blue);
    assert_eq!(color(&g, 0), NodeColor::Default);
    assert_eq!(g.node_ids(), vec![0, 1, 3, 10]);
    assert_eq!(g.edge(0, 1).unwrap().weight(), "heavy");
    assert!(!g.edge_exists(1, 2));
    assert!(!g.edge_exists(2, 3));
    assert!(g.edge_exists(3, 10));
    assert!(g.edge_exists(10, 0));
    assert_eq!(g.node(1).unwrap().neighbors, Vec::<u32>::new());
    let journal = g.take_journal();
    assert!(journal.iter().any(|op| match op {
        SceneOp::LabelNode { id: 2, label } => label == "two",
        _ => false,
    }));
    assert!(journal.iter().any(|op| match op {
        SceneOp::WeightEdge { from: 0, to: 1, weight } => weight == "heavy",
        _ => false,
    }));
    assert!(journal.iter().any(|op| matches!(op, SceneOp::RemoveNode { id: 2 })));
}

#[test]
fn forward_then_backward_restores_nodes_edges_texts_and_root() {
    let mut g = placed_chain();
    let before_ids = g.node_ids();
    let d = busy_diff();
    assert_eq!(g.forward(&d), Ok(()));
    assert_eq!(g.backward(&d, 0), Ok(()));
    assert_eq!(g.node_ids(), before_ids);
    assert_eq!(g.root(), 0);
    for id in 0..4u32 {
        assert_eq!(label(&g, id), format!("n{}", id));
    }
    for (from, to, w) in [(0u32, 1u32, "w01"), (1, 2, "w12"), (2, 3, "w23")] {
        assert_eq!(g.edge(from, to).unwrap().weight(), w);
    }
    assert!(!g.edge_exists(3, 10));
    assert!(!g.edge_exists(10, 0));
    assert!(!g.node_exists(10));
    assert_eq!(color(&g, 0), NodeColor::Blue);
    assert_eq!(color(&g, 1), NodeColor::Default);
}

#[test]
fn forward_reports_what_is_missing() {
    let mut d = empty_diff(9);
    assert_eq!(placed_chain().forward(&d), Err(GraphError::MissingNode(9)));
    d = empty_diff(0);
    d.labels_changed.push(node(7, "a===b"));
    assert_eq!(placed_chain().forward(&d), Err(GraphError::MissingNode(7)));
    d = empty_diff(0);
    d.labels_changed.push(node(1, "no delimiter"));
    assert_eq!(placed_chain().forward(&d), Err(GraphError::MalformedLabel(1)));
    d = empty_diff(0);
    d.weights_changed.push(edge(1, 0, "a===b"));
    assert_eq!(placed_chain().forward(&d), Err(GraphError::MissingEdge(1, 0)));
    d = empty_diff(0);
    d.weights_changed.push(edge(0, 1, "a=b"));
    assert_eq!(placed_chain().forward(&d), Err(GraphError::MalformedWeight(0, 1)));
    d = empty_diff(0);
    d.added_nodes.push(node(2, ""));
    assert_eq!(placed_chain().forward(&d), Err(GraphError::DuplicateNode(2)));
    d = empty_diff(0);
    d.added_nodes.push(node(12, ""));
    assert_eq!(placed_chain().forward(&d), Err(GraphError::MissingNode(12)));
    d = empty_diff(0);
    d.added_edges.push(edge(0, 8, "w"));
    assert_eq!(placed_chain().forward(&d), Err(GraphError::MissingNode(8)));
    d = empty_diff(0);
    d.removed_edges.push(edge(0, 2, "w"));
    assert_eq!(placed_chain().forward(&d), Err(GraphError::MissingEdge(0, 2)));
    d = empty_diff(0);
    d.removed_nodes.push(node(5, ""));
    assert_eq!(placed_chain().forward(&d), Err(GraphError::MissingNode(5)));
}

fn history() -> Root {
    let mut second = empty_diff(1);
    second.labels_changed.push(node(1, "n1===one"));
    let broken = {
        let mut d = empty_diff(0);
        d.removed_edges.push(edge(3, 0, "none"));
        d
    };
    Root {
        bases: vec![chain(), snapshot(2, vec![(2, vec![(1, "x")]), (1, vec![])])],
        diffs: vec![vec![adding_diff(), second, broken], vec![]],
        nodes: node_labels(12),
        total_listeners: 2,
    }
}

fn drawing() -> GraphDraw {
    let mut d = match GraphDrawBuilder::new().root(history()).viewport((0, 0), (1920, 1080)).build() {
        Ok(d) => d,
        Err(_) => panic!("the drawing was refused"),
    };
    assert_eq!(d.add_new_graph(0), Ok(()));
    assert_eq!(d.add_new_graph(1), Ok(()));
    d
}

#[test]
fn builder_fills_in_defaults() {
    let d = match GraphDrawBuilder::new().root(history()).build() {
        Ok(d) => d,
        Err(_) => panic!("the drawing was refused"),
    };
    assert_eq!(d.viewport(), ((0, 0), (800, 600)));
    assert_eq!(d.initial_position(), (400, 300));
    assert_eq!(d.grid_spacing(), 5);
    assert_eq!(d.initial_algorithm(), Algorithm::BigBang);
    assert_eq!(d.listener_id(), 0);
    assert_eq!(d.diff_step(), 0);
    assert!(!d.is_stable());
    assert!(d.graph(0).is_none());
}

#[test]
fn builder_takes_what_is_asked_for() {
    let d = match GraphDrawBuilder::new()
        .root(history())
        .viewport((-7, -3), (2, 0))
        .grid_spacing(2)
        .initial_algorithm(Algorithm::Randomized)
        .listener_id(1)
        .build()
    {
        Ok(d) => d,
        Err(_) => panic!("the drawing was refused"),
    };
    assert_eq!(d.viewport(), ((-7, -3), (2, 0)));
    assert_eq!(d.initial_position(), (-2, -1));
    assert_eq!(d.grid_spacing(), 2);
    assert_eq!(d.initial_algorithm(), Algorithm::Randomized);
    assert_eq!(d.listener_id(), 1);
    let e = match GraphDrawBuilder::new().root(history()).initial_position((5, 6)).build() {
        Ok(d) => d,
        Err(_) => panic!("the drawing was refused"),
    };
    assert_eq!(e.initial_position(), (5, 6));
}

#[test]
fn builder_needs_a_history_and_a_grid() {
    assert!(matches!(GraphDrawBuilder::new().build(), Err(BuildError::MissingRoot)));
    assert!(matches!(
        GraphDrawBuilder::new().root(history()).grid_spacing(0).build(),
        Err(BuildError::InvalidGrid)
    ));
    assert!(matches!(
        GraphDrawBuilder::new().root(history()).viewport((10, 10), (0, 0)).build(),
        Err(BuildError::InvalidGrid)
    ));
}

#[test]
fn first_listener_is_built_and_placed_at_once() {
    let d = drawing();
    let first = d.graph(0).unwrap();
    assert_eq!(first.node_ids(), vec![0, 1, 2, 3]);
    assert!(first.node(3).unwrap().visual_node.is_some());
    let second = d.graph(1).unwrap();
    assert!(second.node_ids().is_empty());
    assert_eq!(second.root(), 2);
}

#[test]
fn add_new_graph_needs_a_snapshot() {
    let mut d = drawing();
    assert_eq!(d.add_new_graph(2), Err(GraphError::MissingListener(2)));
    assert!(d.graph(2).is_none());
}

#[test]
fn forward_diff_steps_through_history_and_stops_at_its_end() {
    let mut d = drawing();
    d.set_stable(true);
    assert_eq!(d.forward_diff(), Ok(()));
    assert_eq!(d.diff_step(), 1);
    assert!(!d.is_stable());
    assert!(d.graph(0).unwrap().node_exists(10));
    assert_eq!(d.forward_diff(), Ok(()));
    assert_eq!(d.diff_step(), 2);
    assert_eq!(d.graph(0).unwrap().root(), 1);
    assert_eq!(label(d.graph(0).unwrap(), 1), "one");
}

#[test]
fn failed_forward_diff_changes_nothing() {
    let mut d = drawing();
    assert_eq!(d.forward_diff(), Ok(()));
    assert_eq!(d.forward_diff(), Ok(()));
    let _ = d.take_journal(0);
    d.set_stable(true);
    assert_eq!(d.forward_diff(), Err(GraphError::MissingEdge(3, 0)));
    assert_eq!(d.diff_step(), 2);
    assert!(d.is_stable());
    assert_eq!(d.graph(0).unwrap().root(), 1);
    assert!(d.take_journal(0).is_empty());
}

#[test]
fn backward_diff_walks_back_to_the_snapshot() {
    let mut d = drawing();
    assert_eq!(d.backward_diff(), Ok(()));
    assert_eq!(d.diff_step(), 0);
    assert_eq!(d.forward_diff(), Ok(()));
    assert_eq!(d.forward_diff(), Ok(()));
    d.set_stable(true);
    assert_eq!(d.backward_diff(), Ok(()));
    assert_eq!(d.diff_step(), 1);
    assert!(!d.is_stable());
    assert_eq!(d.graph(0).unwrap().root(), 0);
    assert_eq!(label(d.graph(0).unwrap(), 1), "n1");
    assert!(d.graph(0).unwrap().node_exists(10));
    assert_eq!(d.backward_diff(), Ok(()));
    assert_eq!(d.diff_step(), 0);
    assert!(!d.graph(0).unwrap().node_exists(10));
    assert!(!d.graph(0).unwrap().edge_exists(3, 10));
    assert_eq!(d.graph(0).unwrap().node_ids(), vec![0, 1, 2, 3]);
    assert_eq!(d.graph(0).unwrap().root(), 0);
}

#[test]
fn forward_diff_without_graph_is_an_error() {
    let mut d = match GraphDrawBuilder::new().root(history()).build() {
        Ok(d) => d,
        Err(_) => panic!("the drawing was refused"),
    };
    assert_eq!(d.forward_diff(), Err(GraphError::MissingListener(0)));
    assert_eq!(d.backward_diff(), Err(GraphError::MissingListener(0)));
    assert!(d.simulation_step().is_none());
}

#[test]
fn change_listener_clears_the_old_graph_and_builds_the_new() {
    let mut d = drawing();
    assert_eq!(d.forward_diff(), Ok(()));
    let _ = d.take_journal(0);
    d.set_stable(true);
    assert_eq!(d.change_listener_id(2), Ok(()));
    assert_eq!(d.listener_id(), 1);
    assert_eq!(d.diff_step(), 0);
    assert!(!d.is_stable());
    assert!(d.graph(0).unwrap().node_ids().is_empty());
    assert_eq!(d.graph(1).unwrap().node_ids(), vec![1, 2]);
    assert_eq!(d.graph(1).unwrap().root(), 2);
    let old = d.take_journal(0);
    assert_eq!(old.len(), 1);
    assert!(matches!(old[0], SceneOp::Clear));
    let new = d.take_journal(1);
    assert!(matches!(new[0], SceneOp::Clear));
    assert!(matches!(new[1], SceneOp::CreateNode { id: 2, place: Placement::Anchor, .. }));
    assert!(matches!(new[2], SceneOp::CreateNode { id: 1, place: Placement::Ring { slot: 0, slices: 1 }, .. }));
}

#[test]
fn change_listener_back_rebuilds_from_the_snapshot() {
    let mut d = drawing();
    assert_eq!(d.forward_diff(), Ok(()));
    assert_eq!(d.forward_diff(), Ok(()));
    assert_eq!(d.change_listener_id(1), Ok(()));
    assert_eq!(d.listener_id(), 0);
    assert_eq!(d.diff_step(), 0);
    assert_eq!(d.graph(0).unwrap().node_ids(), vec![0, 1, 2, 3]);
    assert_eq!(d.graph(0).unwrap().root(), 0);
    assert_eq!(label(d.graph(0).unwrap(), 1), "n1");
}

#[test]
fn change_listener_refuses_unknown_listener() {
    let mut d = drawing();
    assert_eq!(d.change_listener_id(0), Err(GraphError::MissingListener(0)));
    assert_eq!(d.change_listener_id(3), Err(GraphError::MissingListener(3)));
    assert_eq!(d.listener_id(), 0);
    assert_eq!(d.graph(0).unwrap().node_ids(), vec![0, 1, 2, 3]);
}

#[test]
fn simulation_step_plans_only_while_unstable() {
    let mut d = drawing();
    let plan = d.simulation_step().expect("a plan");
    assert_eq!(plan.root, 0);
    assert_eq!(plan.nodes, vec![0, 1, 2, 3]);
    assert_eq!(plan.springs, vec![(0, 1), (1, 2), (2, 3)]);
    d.set_stable(true);
    assert!(d.simulation_step().is_none());
}
