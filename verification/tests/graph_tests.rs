use graph_layout::dsas::Graph;
use graph_layout::dsas::GraphError;
use graph_layout::json_deserialize::BaseInfo;
use graph_layout::json_deserialize::Link;
use graph_layout::scene::Placement;
use graph_layout::scene::SceneOp;
use graph_layout::tree::LineState;
use graph_layout::tree::NodeColor;
use std::collections::HashMap;

fn labels(n: usize) -> Vec<String> {
    let mut out = Vec::new();
    for i in 0..n {
        out.push(format!("n{}", i));
    }
    out
}

fn base(root: u32, lists: Vec<(u32, Vec<(u32, &str)>)>) -> BaseInfo {
    let mut edges: HashMap<u32, Vec<Link>> = HashMap::new();
    for (from, links) in lists {
        let mut list = Vec::new();
        for (to, w) in links {
            list.push(Link { to_id: to, weight: w.to_string() });
        }
        edges.insert(from, list);
    }
    BaseInfo { edges, root_id: root, note: String::new() }
}

fn star() -> BaseInfo {
    base(
        0,
        vec![
            (0, vec![(1, "a"), (2, "b"), (3, "c"), (4, "d")]),
            (1, vec![]),
            (2, vec![]),
            (3, vec![]),
            (4, vec![]),
        ],
    )
}

fn tree() -> BaseInfo {
    base(
        0,
        vec![
            (0, vec![(1, "01"), (2, "02")]),
            (1, vec![(3, "13"), (4, "14"), (0, "10")]),
            (2, vec![(4, "24"), (2, "22"), (5, "25")]),
            (3, vec![]),
            (4, vec![(0, "40")]),
            (5, vec![]),
        ],
    )
}

fn neighbors(g: &Graph, id: u32) -> Vec<u32> {
    g.node(id).expect("node").neighbors.clone()
}

#[test]
fn build_base_records_neighbors_and_pending_children() {
    let mut g = Graph::new(labels(6), 0);
    assert_eq!(g.build_base(&tree()), Ok(()));
    assert_eq!(g.node_ids(), vec![0, 1, 2, 3, 4, 5]);
    assert_eq!(neighbors(&g, 0), vec![1, 2]);
    assert_eq!(neighbors(&g, 1), vec![3, 4, 0]);
    assert_eq!(neighbors(&g, 2), vec![4, 2, 5]);
    assert_eq!(g.node(0).unwrap().new_neighbors, 2);
    assert_eq!(g.node(1).unwrap().new_neighbors, 2);
    assert_eq!(g.node(2).unwrap().new_neighbors, 1);
    assert_eq!(g.node(3).unwrap().new_neighbors, 0);
    assert_eq!(g.node(4).unwrap().new_neighbors, 0);
    assert_eq!(g.node(5).unwrap().new_neighbors, 0);
    assert!(g.node(0).unwrap().visual_node.is_none());
    assert!(g.edge_exists(1, 0));
    assert!(g.edge_exists(2, 2));
    assert!(!g.edge_exists(0, 3));
    assert_eq!(g.edge(2, 5).unwrap().state(), LineState::Novisual);
    assert_eq!(g.edge(2, 5).unwrap().weight(), "25");
    assert!(g.take_journal().is_empty());
}

#[test]
fn build_base_leaves_out_what_the_root_does_not_reach() {
    let mut g = Graph::new(labels(4), 1);
    let b = base(1, vec![(0, vec![(1, "x")]), (1, vec![(2, "y")]), (2, vec![]), (3, vec![])]);
    assert_eq!(g.build_base(&b), Ok(()));
    assert_eq!(g.node_ids(), vec![1, 2]);
    assert!(!g.edge_exists(0, 1));
    assert!(g.edge_exists(1, 2));
}

#[test]
fn build_base_reports_unlabelled_node() {
    let mut g = Graph::new(labels(3), 0);
    let b = base(0, vec![(0, vec![(1, "a"), (7, "b")]), (1, vec![])]);
    assert_eq!(g.build_base(&b), Err(GraphError::MissingNode(7)));
    assert!(g.node_ids().is_empty());
    let mut h = Graph::new(labels(3), 5);
    assert_eq!(h.build_base(&b), Err(GraphError::MissingNode(5)));
}

#[test]
fn build_base_reports_missing_adjacency() {
    let mut g = Graph::new(labels(3), 0);
    let b = base(0, vec![(0, vec![(1, "a"), (2, "b")]), (1, vec![])]);
    assert_eq!(g.build_base(&b), Err(GraphError::MissingAdjacency(2)));
    assert!(!g.node_exists(0));
}

#[test]
fn bigbang_places_four_children_on_quarter_turns() {
    let mut g = Graph::new(labels(5), 0);
    assert_eq!(g.build_base(&star()), Ok(()));
    assert_eq!(g.bigbang_base(), Ok(()));
    let journal = g.take_journal();
    let mut placed: Vec<(u32, Placement)> = Vec::new();
    for op in &journal {
        if let SceneOp::CreateNode { id, place, color, .. } = op {
            assert_eq!(*color, NodeColor::Default);
            placed.push((*id, *place));
        }
        assert!(!matches!(op, SceneOp::MoveNode { .. }));
    }
    assert_eq!(
        placed,
        vec![
            (0, Placement::Anchor),
            (1, Placement::Ring { slot: 0, slices: 4 }),
            (2, Placement::Ring { slot: 1, slices: 4 }),
            (3, Placement::Ring { slot: 2, slices: 4 }),
            (4, Placement::Ring { slot: 3, slices: 4 }),
        ]
    );
    for (i, (_, place)) in placed.iter().skip(1).enumerate() {
        if let Placement::Ring { slot, slices } = place {
            let (over, under) = Placement::ring_step(*slices);
            assert_eq!((over, under), (2, 4));
            assert_eq!((*slot * over) as usize * 2, i * under as usize);
            let angle = (*slot as f32) * (over as f32) * std::f32::consts::PI / (under as f32);
            let expected = (i as f32) * std::f32::consts::FRAC_PI_2;
            assert!((angle - expected).abs() < 1e-6);
        } else {
            panic!("a child of the root belongs on the ring");
        }
    }
}

#[test]
fn ring_step_is_capped_for_a_lone_child() {
    assert_eq!(Placement::ring_step(0), (3, 4));
    assert_eq!(Placement::ring_step(1), (3, 4));
    assert_eq!(Placement::ring_step(2), (2, 2));
    assert_eq!(Placement::ring_step(3), (2, 3));
    assert_eq!(Placement::ring_step(8), (2, 8));
}

#[test]
fn fan_offsets_balance_about_the_middle() {
    assert_eq!(Placement::fan_offset(0, 1), 0);
    assert_eq!(Placement::fan_offset(0, 2), 1);
    assert_eq!(Placement::fan_offset(1, 2), -1);
    assert_eq!(Placement::fan_offset(0, 3), 2);
    assert_eq!(Placement::fan_offset(1, 3), 0);
    assert_eq!(Placement::fan_offset(2, 3), -2);
    assert_eq!(Placement::fan_offset(0, 4), 3);
    assert_eq!(Placement::fan_offset(3, 4), -3);
    for children in 1..9u32 {
        let mut sum = 0i64;
        for slot in 0..children {
            sum += Placement::fan_offset(slot, children);
            assert_eq!(Placement::fan_offset(slot, children), -Placement::fan_offset(children - 1 - slot, children));
        }
        assert_eq!(sum, 0);
    }
    assert_eq!(Placement::fan_offset(u32::MAX, 0), -1 - 2 * (u32::MAX as i64));
}

#[test]
fn bigbang_draws_every_node_once_and_materializes_edges() {
    let mut g = Graph::new(labels(6), 0);
    assert_eq!(g.build_base(&tree()), Ok(()));
    assert_eq!(g.bigbang_base(), Ok(()));
    for id in 0..6u32 {
        assert!(g.node(id).unwrap().visual_node.is_some());
    }
    let journal = g.take_journal();
    let mut created: Vec<u32> = Vec::new();
    let mut places: Vec<Placement> = Vec::new();
    for op in &journal {
        if let SceneOp::CreateNode { id, place, label, .. } = op {
            created.push(*id);
            places.push(*place);
            assert_eq!(label, &format!("n{}", id));
        }
    }
    assert_eq!(created, vec![0, 1, 2, 3, 4, 5]);
    assert_eq!(
        places,
        vec![
            Placement::Anchor,
            Placement::Ring { slot: 0, slices: 2 },
            Placement::Ring { slot: 1, slices: 2 },
            Placement::Fan { parent: 1, slot: 0, children: 2 },
            Placement::Fan { parent: 1, slot: 1, children: 2 },
            Placement::Fan { parent: 2, slot: 0, children: 1 },
        ]
    );
    for i in 0..places.len() {
        for j in 0..i {
            assert_ne!(places[i], places[j]);
        }
    }
    assert!(matches!(journal[0], SceneOp::CreateNode { id: 0, place: Placement::Anchor, .. }));
    assert_eq!(g.edge(0, 1).unwrap().state(), LineState::StartToEnd);
    assert_eq!(g.edge(1, 0).unwrap().state(), LineState::StartToEnd);
    assert_eq!(g.edge(2, 4).unwrap().state(), LineState::StartToEnd);
    assert_eq!(g.edge(4, 0).unwrap().state(), LineState::Novisual);
    assert_eq!(g.edge(0, 1).unwrap().weight(), "01");
}

#[test]
fn bigbang_marks_self_loop() {
    let mut g = Graph::new(labels(6), 0);
    assert_eq!(g.build_base(&tree()), Ok(()));
    assert_eq!(g.bigbang_base(), Ok(()));
    let two = g.node(2).unwrap().visual_node.as_ref().unwrap();
    assert_eq!(two.color(), NodeColor::Blue);
    assert_eq!(two.weight(), &Some("22".to_string()));
    let one = g.node(1).unwrap().visual_node.as_ref().unwrap();
    assert_eq!(one.color(), NodeColor::Default);
    assert_eq!(one.weight(), &None);
    let journal = g.take_journal();
    assert!(journal.iter().any(|op| matches!(op, SceneOp::ColorNode { id: 2, color: NodeColor::Blue })));
    assert!(journal.iter().any(|op| match op {
        SceneOp::WeightNode { id: 2, weight } => weight == "22",
        _ => false,
    }));
}

#[test]
fn bigbang_without_root_fails() {
    let mut g = Graph::new(labels(3), 0);
    assert_eq!(g.bigbang_base(), Err(GraphError::MissingNode(0)));
    assert!(g.take_journal().is_empty());
}

#[test]
fn add_and_remove_edge() {
    let mut g = Graph::new(labels(6), 0);
    assert_eq!(g.build_base(&tree()), Ok(()));
    assert_eq!(g.add_edge(3, 5, "w"), Ok(()));
    assert_eq!(g.edge(3, 5).unwrap().state(), LineState::StartToEnd);
    assert_eq!(g.edge(3, 5).unwrap().weight(), "w");
    assert_eq!(g.add_edge(3, 9, "w"), Err(GraphError::MissingNode(9)));
    assert_eq!(g.add_edge(9, 3, "w"), Err(GraphError::MissingNode(9)));
    assert_eq!(g.remove_edge(3, 5), Ok(()));
    assert!(!g.edge_exists(3, 5));
    assert_eq!(g.remove_edge(3, 5), Err(GraphError::MissingEdge(3, 5)));
    let journal = g.take_journal();
    assert_eq!(journal.len(), 2);
    assert!(matches!(journal[0], SceneOp::CreateEdge { from: 3, to: 5, .. }));
    assert!(matches!(journal[1], SceneOp::RemoveEdge { from: 3, to: 5 }));
}

#[test]
fn remove_node_takes_edges_and_mentions_along() {
    let mut g = Graph::new(labels(6), 0);
    assert_eq!(g.build_base(&tree()), Ok(()));
    assert_eq!(g.bigbang_base(), Ok(()));
    let _ = g.take_journal();
    assert_eq!(g.remove_node(4), Ok(()));
    assert_eq!(g.node_ids(), vec![0, 1, 2, 3, 5]);
    assert_eq!(neighbors(&g, 1), vec![3, 0]);
    assert_eq!(neighbors(&g, 2), vec![2, 5]);
    assert!(!g.edge_exists(1, 4));
    assert!(!g.edge_exists(2, 4));
    assert!(!g.edge_exists(4, 0));
    assert!(g.edge_exists(1, 3));
    assert_eq!(g.root(), 0);
    assert_eq!(g.remove_node(4), Err(GraphError::MissingNode(4)));
    let journal = g.take_journal();
    assert!(matches!(journal[0], SceneOp::RemoveNode { id: 4 }));
    assert!(journal.iter().any(|op| matches!(op, SceneOp::RemoveEdge { from: 1, to: 4 })));
    assert!(journal.iter().any(|op| matches!(op, SceneOp::RemoveEdge { from: 2, to: 4 })));
    assert!(!journal.iter().any(|op| matches!(op, SceneOp::RemoveEdge { from: 4, to: 0 })));
}

#[test]
fn removing_the_root_hands_it_to_the_smallest_id() {
    let mut g = Graph::new(labels(6), 0);
    assert_eq!(g.build_base(&tree()), Ok(()));
    assert_eq!(g.remove_node(0), Ok(()));
    assert_eq!(g.root(), 1);
    assert_eq!(g.remove_edges_of_node(2), ());
    assert!(!g.edge_exists(2, 5));
    assert!(!g.edge_exists(2, 2));
    assert!(g.edge_exists(1, 3));
}

#[test]
fn add_node_draws_it_and_roots_an_empty_graph() {
    let mut g = Graph::new(labels(3), 0);
    assert_eq!(g.add_node(2, NodeColor::Red, Placement::Random), Ok(()));
    assert_eq!(g.root(), 2);
    assert_eq!(g.add_node(2, NodeColor::Red, Placement::Random), Err(GraphError::DuplicateNode(2)));
    assert_eq!(g.add_node(3, NodeColor::Red, Placement::Random), Err(GraphError::MissingNode(3)));
    assert_eq!(g.add_node(1, NodeColor::Green, Placement::Beside { at: 2 }), Ok(()));
    assert_eq!(g.root(), 2);
    let v = g.node(1).unwrap().visual_node.as_ref().unwrap();
    assert_eq!(v.label(), "n1");
    assert_eq!(v.color(), NodeColor::Green);
}

#[test]
fn clean_graph_empties_and_clears() {
    let mut g = Graph::new(labels(6), 0);
    assert_eq!(g.build_base(&tree()), Ok(()));
    g.clean_graph();
    assert!(g.node_ids().is_empty());
    assert!(!g.edge_exists(0, 1));
    let journal = g.take_journal();
    assert!(matches!(journal[journal.len() - 1], SceneOp::Clear));
}

#[test]
fn springs_pair_every_node_with_its_other_neighbors() {
    let mut g = Graph::new(labels(6), 0);
    assert_eq!(g.build_base(&tree()), Ok(()));
    assert_eq!(
        g.springs(),
        vec![(0, 1), (0, 2), (1, 3), (1, 4), (1, 0), (2, 4), (2, 5), (4, 0)]
    );
}

#[test]
fn duplicate_is_equal_in_content() {
    let mut g = Graph::new(labels(6), 0);
    assert_eq!(g.build_base(&tree()), Ok(()));
    assert_eq!(g.bigbang_base(), Ok(()));
    let mut h = g.duplicate();
    assert_eq!(h.node_ids(), g.node_ids());
    assert_eq!(h.springs(), g.springs());
    assert_eq!(h.root(), g.root());
    assert_eq!(h.take_journal().len(), g.take_journal().len());
    assert_eq!(h.edge(0, 1).unwrap().weight(), "01");
}
