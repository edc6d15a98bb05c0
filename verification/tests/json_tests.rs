use graph_layout::json_deserialize::base_info_edge_former;
use graph_layout::json_deserialize::base_info_helper;
use graph_layout::json_deserialize::deserialize_json;
use graph_layout::json_deserialize::destructure_base;
use graph_layout::json_deserialize::diff_info_helper;
use graph_layout::json_deserialize::empty_base;
use graph_layout::json_deserialize::get;
use graph_layout::json_deserialize::node_info_helper;
use graph_layout::json_deserialize::parse_decimal;
use graph_layout::json_deserialize::Json;
use graph_layout::json_deserialize::Member;
use graph_layout::json_deserialize::Root;

fn num(n: u64) -> Json {
    Json::Number(Some(n))
}

fn text(t: &str) -> Json {
    Json::Text(t.to_string())
}

fn obj(members: Vec<(&str, Json)>) -> Json {
    let mut out = Vec::new();
    for (key, value) in members {
        out.push(Member { key: key.to_string(), value });
    }
    Json::Object(out)
}

fn edge_obj(from: u64, to: u64, key: &str, w: &str) -> Json {
    obj(vec![("from_id", num(from)), ("to_id", num(to)), (key, text(w))])
}

fn node_obj(id: u64, label: &str) -> Json {
    obj(vec![("id", num(id)), ("label", text(label))])
}

fn base_doc() -> Json {
    obj(vec![
        ("0", Json::Array(vec![obj(vec![("1", text("a")), ("2", text("b"))]), obj(vec![("1", text("c"))])])),
        ("root", num(0)),
        ("1", Json::Array(vec![])),
        ("note", text("first")),
        ("2", Json::Array(vec![obj(vec![("+0", text("back"))])])),
    ])
}

fn diff_doc() -> Json {
    Json::Array(vec![
        obj(vec![
            ("added_edges", Json::Array(vec![edge_obj(3, 10, "weight", "w")])),
            ("added_nodes", Json::Array(vec![obj(vec![("id", num(10))])])),
            ("weights_changed", Json::Array(vec![edge_obj(0, 1, "label", "a===b")])),
            ("labels_changed", Json::Array(vec![node_obj(1, "x===y")])),
            ("note", text("grow")),
            ("root_id", num(4294967297)),
        ]),
        obj(vec![("note", text("")), ("root_id", num(2))]),
    ])
}

fn document() -> Json {
    obj(vec![
        ("specifiers", obj(vec![("total_listeners", num(2))])),
        ("bases", obj(vec![("l1", obj(vec![("root", num(7))])), ("l0", base_doc())])),
        ("diffs", obj(vec![("d0", diff_doc())])),
        ("nodes", Json::Array(vec![node_obj(1, "one"), node_obj(0, "zero"), node_obj(1, "uno")])),
    ])
}

#[test]
fn decimal_numbers_are_read_as_the_standard_library_reads_them() {
    for t in ["0", "7", "+7", "007", "4294967295", "4294967296", "", "+", "-1", "1a", " 1", "٣", "255", "256"] {
        assert_eq!(parse_decimal(t, u32::MAX), t.parse::<u32>().ok(), "{:?}", t);
        assert_eq!(parse_decimal(t, 255), t.parse::<u8>().ok().map(|v| v as u32), "{:?}", t);
    }
}

#[test]
fn get_finds_the_first_member_of_a_name() {
    let doc = vec![
        Member { key: "a".to_string(), value: num(1) },
        Member { key: "b".to_string(), value: num(2) },
        Member { key: "a".to_string(), value: num(3) },
    ];
    assert!(matches!(get(&doc, "a"), Some(Json::Number(Some(1)))));
    assert!(matches!(get(&doc, "b"), Some(Json::Number(Some(2)))));
    assert!(get(&doc, "c").is_none());
}

#[test]
fn node_table_places_labels_by_id() {
    let table = node_info_helper(&Json::Array(vec![node_obj(2, "two"), node_obj(0, "zero"), node_obj(2, "deux")]));
    assert_eq!(table, Some(vec!["zero".to_string(), String::new(), "deux".to_string()]));
    assert_eq!(node_info_helper(&Json::Array(vec![])), Some(Vec::new()));
}

#[test]
fn node_table_refuses_bad_rows() {
    assert_eq!(node_info_helper(&Json::Array(vec![node_obj(1, "x")])), None);
    assert_eq!(node_info_helper(&Json::Array(vec![obj(vec![("id", num(0))])])), None);
    assert_eq!(node_info_helper(&Json::Array(vec![obj(vec![("id", text("0")), ("label", text("x"))])])), None);
    assert_eq!(node_info_helper(&Json::Array(vec![num(1)])), None);
    assert_eq!(node_info_helper(&Json::Null), None);
}

#[test]
fn edge_former_keeps_order_and_last_weight() {
    let links = base_info_edge_former(&Json::Array(vec![
        obj(vec![("5", text("a")), ("2", text("b"))]),
        obj(vec![("5", text("c")), ("9", text("d"))]),
    ]))
    .expect("links");
    let seen: Vec<(u32, String)> = links.iter().map(|l| (l.to_id, l.weight.clone())).collect();
    assert_eq!(seen, vec![(5, "c".to_string()), (2, "b".to_string()), (9, "d".to_string())]);
    assert!(base_info_edge_former(&Json::Array(vec![obj(vec![("x", text("a"))])])).is_none());
    assert!(base_info_edge_former(&Json::Array(vec![obj(vec![("1", num(1))])])).is_none());
    assert!(base_info_edge_former(&Json::Array(vec![text("1")])).is_none());
    assert!(base_info_edge_former(&obj(vec![])).is_none());
}

#[test]
fn base_is_read_from_its_object() {
    let base = base_info_helper(&base_doc()).expect("base");
    assert_eq!(base.root_id, 0);
    assert_eq!(base.note, "first");
    assert_eq!(base.edges.len(), 3);
    let zero: Vec<(u32, String)> = base.edges[&0].iter().map(|l| (l.to_id, l.weight.clone())).collect();
    assert_eq!(zero, vec![(1, "c".to_string()), (2, "b".to_string())]);
    assert!(base.edges[&1].is_empty());
    assert_eq!(base.edges[&2][0].to_id, 0);
    assert_eq!(base.edges[&2][0].weight, "back");
}

#[test]
fn base_refuses_unknown_keys_and_wrong_kinds() {
    assert!(base_info_helper(&obj(vec![("other", num(1))])).is_none());
    assert!(base_info_helper(&obj(vec![("root", text("0"))])).is_none());
    assert!(base_info_helper(&obj(vec![("note", num(0))])).is_none());
    assert!(base_info_helper(&obj(vec![("3", num(0))])).is_none());
    assert!(base_info_helper(&Json::Array(vec![])).is_none());
    let blank = base_info_helper(&obj(vec![])).expect("base");
    assert_eq!(blank.root_id, empty_base().root_id);
    assert!(blank.edges.is_empty());
}

#[test]
fn diffs_are_read_with_their_optional_lists() {
    let diffs = diff_info_helper(&diff_doc()).expect("diffs");
    assert_eq!(diffs.len(), 2);
    let d = &diffs[0];
    assert_eq!(d.added_edges.len(), 1);
    assert_eq!((d.added_edges[0].from_id, d.added_edges[0].to_id), (3, 10));
    assert_eq!(d.added_edges[0].weight, "w");
    assert_eq!(d.added_nodes.len(), 1);
    assert_eq!(d.added_nodes[0].id, 10);
    assert_eq!(d.added_nodes[0].label, "");
    assert_eq!(d.weights_changed[0].weight, "a===b");
    assert_eq!(d.labels_changed[0].label, "x===y");
    assert!(d.removed_edges.is_empty());
    assert!(d.removed_nodes.is_empty());
    assert_eq!(d.note, "grow");
    assert_eq!(d.root_id, 1);
    assert_eq!(diffs[1].root_id, 2);
    assert!(diffs[1].added_edges.is_empty());
}

#[test]
fn diffs_refuse_what_is_required_and_missing() {
    assert!(diff_info_helper(&Json::Array(vec![obj(vec![("root_id", num(1))])])).is_none());
    assert!(diff_info_helper(&Json::Array(vec![obj(vec![("note", text(""))])])).is_none());
    assert!(diff_info_helper(&Json::Array(vec![obj(vec![
        ("note", text("")),
        ("root_id", num(1)),
        ("labels_changed", Json::Array(vec![obj(vec![("id", num(1))])])),
    ])]))
    .is_none());
    assert!(diff_info_helper(&Json::Array(vec![obj(vec![
        ("note", text("")),
        ("root_id", num(1)),
        ("weights_changed", Json::Array(vec![edge_obj(0, 1, "weight", "a===b")])),
    ])]))
    .is_none());
    assert!(diff_info_helper(&Json::Array(vec![obj(vec![
        ("note", text("")),
        ("root_id", num(1)),
        ("added_edges", obj(vec![])),
    ])]))
    .is_none());
    assert!(diff_info_helper(&Json::Array(vec![obj(vec![
        ("note", text("")),
        ("root_id", Json::Number(None)),
    ])]))
    .is_none());
    assert!(diff_info_helper(&obj(vec![])).is_none());
}

#[test]
fn history_is_read_from_a_document() {
    let root = deserialize_json(&document()).expect("history");
    assert_eq!(root.total_listeners, 2);
    assert_eq!(root.bases.len(), 2);
    assert_eq!(root.diffs.len(), 2);
    assert_eq!(root.bases[0].note, "first");
    assert_eq!(root.bases[1].root_id, 7);
    assert_eq!(root.diffs[0].len(), 2);
    assert!(root.diffs[1].is_empty());
    assert_eq!(root.nodes, vec!["zero".to_string(), "uno".to_string(), String::new()]);
}

#[test]
fn history_refuses_listeners_beyond_the_count() {
    let doc = obj(vec![
        ("specifiers", obj(vec![("total_listeners", num(1))])),
        ("bases", obj(vec![("l1", obj(vec![]))])),
        ("diffs", obj(vec![])),
        ("nodes", Json::Array(vec![])),
    ]);
    assert!(deserialize_json(&doc).is_none());
    let no_count = obj(vec![("bases", obj(vec![])), ("diffs", obj(vec![])), ("nodes", Json::Array(vec![]))]);
    assert!(deserialize_json(&no_count).is_none());
    let bad_key = obj(vec![
        ("specifiers", obj(vec![("total_listeners", num(1))])),
        ("bases", obj(vec![("", obj(vec![]))])),
        ("diffs", obj(vec![])),
        ("nodes", Json::Array(vec![])),
    ]);
    assert!(deserialize_json(&bad_key).is_none());
}

#[test]
fn destructure_fills_a_given_history() {
    let start = Root {
        bases: vec![empty_base(), empty_base(), empty_base()],
        diffs: vec![Vec::new(), Vec::new(), Vec::new()],
        nodes: Vec::new(),
        total_listeners: 3,
    };
    let root = destructure_base(start, &document()).expect("history");
    assert_eq!(root.bases.len(), 3);
    assert_eq!(root.bases[1].root_id, 7);
    assert_eq!(root.bases[2].root_id, 0);
    assert_eq!(root.total_listeners, 3);
    assert_eq!(root.diffs[0].len(), 2);
}
