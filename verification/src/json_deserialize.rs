//! The history of a graph as its source supplies it: for every listener a
//! base snapshot and the list of edits that follow it.

use std::collections::HashMap;
use vstd::prelude::*;
use vstd::string::StrSliceExecFns;

verus! {

/// A directed edge with its weight text. In a list of changed weights the
/// text holds the old and the new weight, joined by `===`.
#[derive(Debug)]
pub struct Edge {
    pub from_id: u32,
    pub to_id: u32,
    pub weight: String,
}

/// A node with its label text. In a list of changed labels the text holds
/// the old and the new label, joined by `===`.
#[derive(Debug)]
pub struct Node {
    pub id: u32,
    pub label: String,
}

/// One entry of an adjacency list: the node an edge leads to, and the
/// weight text of that edge.
#[derive(Debug)]
pub struct Link {
    pub to_id: u32,
    pub weight: String,
}

/// A base snapshot: the root and, for every node, the edges that leave it.
#[derive(Debug)]
pub struct BaseInfo {
    pub edges: HashMap<u32, Vec<Link>>,
    pub root_id: u32,
    pub note: String,
}

/// One edit of the history.
#[derive(Debug)]
pub struct DiffInfo {
    pub added_edges: Vec<Edge>,
    pub removed_edges: Vec<Edge>,
    pub added_nodes: Vec<Node>,
    pub removed_nodes: Vec<Node>,
    pub weights_changed: Vec<Edge>,
    pub labels_changed: Vec<Node>,
    pub note: String,
    pub root_id: u32,
}

/// The whole history: `bases[i]` and `diffs[i]` belong to listener `i`, and
/// `nodes[id]` is the label of node `id`.
#[derive(Debug)]
pub struct Root {
    pub bases: Vec<BaseInfo>,
    pub diffs: Vec<Vec<DiffInfo>>,
    pub nodes: Vec<String>,
    pub total_listeners: u8,
}

/// The nodes that the edges of an adjacency list lead to, in order.
pub open spec fn targets(links: Seq<Link>) -> Seq<u32> {
    links.map_values(|l: Link| l.to_id)
}

impl BaseInfo {
    /// The adjacency of the snapshot: for every listed node the nodes its
    /// edges lead to, in the order of the list.
    pub open spec fn adjacency(&self) -> Map<u32, Seq<u32>> {
        Map::new(|k: u32| self.edges@.contains_key(k), |k: u32| targets(self.edges@[k]@))
    }
}


/// A document as the history comes in: a tree of values.
#[derive(Debug)]
pub enum Json {
    Null,
    Bool(bool),
    /// A number; its value where it is a whole number from zero up that
    /// fits 64 bits.
    Number(Option<u64>),
    Text(String),
    Array(Vec<Json>),
    /// An object: its members in the order in which they are read.
    Object(Vec<Member>),
}

/// One member of an object.
#[derive(Debug)]
pub struct Member {
    pub key: String,
    pub value: Json,
}

/// The value of the first member called `key`, if there is one.
pub open spec fn lookup(members: Seq<Member>, key: Seq<char>) -> Option<Json>
    decreases members.len(),
{
    if members.len() == 0 {
        None
    } else if members[0].key@ == key {
        Some(members[0].value)
    } else {
        lookup(members.subrange(1, members.len() as int), key)
    }
}

/// The value of the first member called `key`.
pub fn get<'a>(members: &'a Vec<Member>, key: &str) -> (r: Option<&'a Json>)
    ensures
        match r {
            Some(v) => lookup(members@, key@) == Some(*v),
            None => lookup(members@, key@) is None,
        },
{
    let wanted = key.to_owned();
    let mut i: usize = 0;
    assert(members@.subrange(0, members@.len() as int) =~= members@);
    while i < members.len()
        invariant
            i <= members@.len(),
            wanted@ == key@,
            lookup(members@, key@) == lookup(members@.subrange(i as int, members@.len() as int), key@),
        decreases members@.len() - i,
    {
        let ghost rest = members@.subrange(i as int, members@.len() as int);
        assert(rest[0] == members@[i as int]);
        assert(rest.subrange(1, rest.len() as int) =~= members@.subrange(i + 1, members@.len() as int));
        if members[i].key == wanted {
            return Some(&members[i].value);
        }
        i += 1;
    }
    None
}

/// A number cut down to 32 bits; nothing for what is no whole number.
pub open spec fn number_of(j: Json) -> Option<u32> {
    match j {
        Json::Number(Some(n)) => Some((n % 0x1_0000_0000) as u32),
        _ => None,
    }
}

/// The text of a text value.
pub open spec fn text_of(j: Json) -> Option<Seq<char>> {
    match j {
        Json::Text(t) => Some(t@),
        _ => None,
    }
}

/// The number under `key`, cut down to 32 bits.
pub open spec fn number_at(members: Seq<Member>, key: Seq<char>) -> Option<u32> {
    match lookup(members, key) {
        Some(j) => number_of(j),
        None => None,
    }
}

/// The text under `key`.
pub open spec fn text_at(members: Seq<Member>, key: Seq<char>) -> Option<Seq<char>> {
    match lookup(members, key) {
        Some(j) => text_of(j),
        None => None,
    }
}

fn as_number(j: &Json) -> (r: Option<u32>)
    ensures
        r == number_of(*j),
{
    match j {
        Json::Number(Some(n)) => Some((*n % 0x1_0000_0000) as u32),
        _ => None,
    }
}

fn number_under(members: &Vec<Member>, key: &str) -> (r: Option<u32>)
    ensures
        r == number_at(members@, key@),
{
    match get(members, key) {
        Some(j) => as_number(j),
        None => None,
    }
}

fn text_under(members: &Vec<Member>, key: &str) -> (r: Option<String>)
    ensures
        match r {
            Some(t) => text_at(members@, key@) == Some(t@),
            None => text_at(members@, key@) is None,
        },
{
    match get(members, key) {
        Some(Json::Text(t)) => Some(t.clone()),
        _ => None,
    }
}

/// The value of a decimal digit.
pub open spec fn digit(c: char) -> Option<nat> {
    if '0' <= c && c <= '9' {
        Some((c as u32 - '0' as u32) as nat)
    } else {
        None
    }
}

/// The number that a row of decimal digits writes; nothing where a
/// character is no digit. The empty row writes zero.
pub open spec fn digits(s: Seq<char>) -> Option<nat>
    decreases s.len(),
{
    if s.len() == 0 {
        Some(0)
    } else {
        match (digits(s.drop_last()), digit(s.last())) {
            (Some(v), Some(d)) => Some(v * 10 + d),
            _ => None,
        }
    }
}

/// The number up to `max` that `s` writes in decimal digits, with or
/// without a plus sign in front.
pub open spec fn decimal(s: Seq<char>, max: nat) -> Option<nat> {
    let body = if s.len() > 0 && s[0] == '+' {
        s.subrange(1, s.len() as int)
    } else {
        s
    };
    if body.len() == 0 {
        None
    } else {
        match digits(body) {
            Some(v) => if v <= max {
                Some(v)
            } else {
                None
            },
            None => None,
        }
    }
}

/// A row of digits writes no less than any start of it.
proof fn lemma_digits_grow(s: Seq<char>, i: int)
    requires
        0 <= i <= s.len(),
        digits(s) is Some,
    ensures
        digits(s.take(i)) is Some,
        digits(s.take(i))->Some_0 <= digits(s)->Some_0,
    decreases s.len() - i,
{
    if i < s.len() {
        lemma_digits_grow(s, i + 1);
        assert(s.take(i + 1).drop_last() =~= s.take(i));
    } else {
        assert(s.take(i) =~= s);
    }
}

/// A row with a character that is no digit writes no number.
proof fn lemma_digits_fail(s: Seq<char>, i: int)
    requires
        0 <= i <= s.len(),
        digits(s.take(i)) is None,
    ensures
        digits(s) is None,
    decreases s.len() - i,
{
    if i < s.len() {
        assert(s.take(i + 1).drop_last() =~= s.take(i));
        lemma_digits_fail(s, i + 1);
    } else {
        assert(s.take(i) =~= s);
    }
}

/// Reads the characters of `text` from position `start` on as a decimal
/// number up to `max`.
fn read_digits(text: &str, start: usize, max: u32) -> (r: Option<u32>)
    requires
        start <= text@.len(),
    ensures
        ({
            let body = text@.subrange(start as int, text@.len() as int);
            r == if body.len() == 0 {
                None
            } else {
                match digits(body) {
                    Some(v) => if v <= max {
                        Some(v as u32)
                    } else {
                        None
                    },
                    None => None,
                }
            }
        }),
{
    let len = text.unicode_len();
    if start == len {
        return None;
    }
    let ghost body = text@.subrange(start as int, len as int);
    let mut value: u64 = 0;
    let mut i: usize = start;
    assert(body.take(0) =~= Seq::<char>::empty());
    while i < len
        invariant
            start <= i <= len,
            len == text@.len(),
            body == text@.subrange(start as int, len as int),
            digits(body.take(i - start)) == Some(value as nat),
            value <= max,
        decreases len - i,
    {
        let c = text.get_char(i);
        proof {
            assert(body.take(i - start + 1).drop_last() =~= body.take(i - start));
            assert(body.take(i - start + 1).last() == c);
        }
        if c < '0' || c > '9' {
            proof {
                lemma_digits_fail(body, i - start + 1);
            }
            return None;
        }
        let d: u64 = (c as u32 - '0' as u32) as u64;
        value = value * 10 + d;
        if value > max as u64 {
            proof {
                if digits(body) is Some {
                    lemma_digits_grow(body, i - start + 1);
                }
            }
            return None;
        }
        i += 1;
    }
    assert(body.take(len - start) =~= body);
    Some(value as u32)
}

/// Reads `text` as a decimal number up to `max`.
pub fn parse_decimal(text: &str, max: u32) -> (r: Option<u32>)
    ensures
        match r {
            Some(v) => decimal(text@, max as nat) == Some(v as nat),
            None => decimal(text@, max as nat) is None,
        },
{
    let len = text.unicode_len();
    if len > 0 && text.get_char(0) == '+' {
        read_digits(text, 1, max)
    } else {
        assert(text@.subrange(0, len as int) =~= text@);
        read_digits(text, 0, max)
    }
}


/// The content of an [`Edge`].
pub open spec fn edge_view(e: Edge) -> (u32, u32, Seq<char>) {
    (e.from_id, e.to_id, e.weight@)
}

/// The content of a list of edges.
pub open spec fn edges_view(s: Seq<Edge>) -> Seq<(u32, u32, Seq<char>)> {
    s.map_values(|e: Edge| edge_view(e))
}

/// The content of a [`Node`].
pub open spec fn node_view(n: Node) -> (u32, Seq<char>) {
    (n.id, n.label@)
}

/// The content of a list of nodes.
pub open spec fn nodes_view(s: Seq<Node>) -> Seq<(u32, Seq<char>)> {
    s.map_values(|n: Node| node_view(n))
}

/// The content of a [`Link`].
pub open spec fn link_view(l: Link) -> (u32, Seq<char>) {
    (l.to_id, l.weight@)
}

/// The content of an adjacency list.
pub open spec fn links_view(s: Seq<Link>) -> Seq<(u32, Seq<char>)> {
    s.map_values(|l: Link| link_view(l))
}

/// The content of a [`DiffInfo`].
pub struct DiffView {
    pub added_edges: Seq<(u32, u32, Seq<char>)>,
    pub removed_edges: Seq<(u32, u32, Seq<char>)>,
    pub added_nodes: Seq<(u32, Seq<char>)>,
    pub removed_nodes: Seq<(u32, Seq<char>)>,
    pub weights_changed: Seq<(u32, u32, Seq<char>)>,
    pub labels_changed: Seq<(u32, Seq<char>)>,
    pub note: Seq<char>,
    pub root_id: u32,
}

impl View for DiffInfo {
    type V = DiffView;

    open spec fn view(&self) -> DiffView {
        DiffView {
            added_edges: edges_view(self.added_edges@),
            removed_edges: edges_view(self.removed_edges@),
            added_nodes: nodes_view(self.added_nodes@),
            removed_nodes: nodes_view(self.removed_nodes@),
            weights_changed: edges_view(self.weights_changed@),
            labels_changed: nodes_view(self.labels_changed@),
            note: self.note@,
            root_id: self.root_id,
        }
    }
}

/// The content of a list of edits.
pub open spec fn diffs_view(s: Seq<DiffInfo>) -> Seq<DiffView> {
    s.map_values(|d: DiffInfo| d@)
}

/// The edge that an object with `from_id`, `to_id` and a text under
/// `weight_key` stands for.
pub open spec fn edge_entry(j: Json, weight_key: Seq<char>) -> Option<(u32, u32, Seq<char>)> {
    match j {
        Json::Object(m) => match (
            number_at(m@, "from_id"@),
            number_at(m@, "to_id"@),
            text_at(m@, weight_key),
        ) {
            (Some(f), Some(t), Some(w)) => Some((f, t, w)),
            _ => None,
        },
        _ => None,
    }
}

/// The edges that a row of such objects stands for.
pub open spec fn edge_entries(items: Seq<Json>, weight_key: Seq<char>) -> Option<Seq<(u32, u32, Seq<char>)>>
    decreases items.len(),
{
    if items.len() == 0 {
        Some(Seq::empty())
    } else {
        match (edge_entries(items.drop_last(), weight_key), edge_entry(items.last(), weight_key)) {
            (Some(s), Some(e)) => Some(s.push(e)),
            _ => None,
        }
    }
}

/// The edges listed under `key`: none where the key is absent.
pub open spec fn edges_at(m: Seq<Member>, key: Seq<char>, weight_key: Seq<char>) -> Option<
    Seq<(u32, u32, Seq<char>)>,
> {
    match lookup(m, key) {
        None => Some(Seq::empty()),
        Some(Json::Array(items)) => edge_entries(items@, weight_key),
        Some(_) => None,
    }
}

/// The node that an object with `id` and `label` stands for. Where a label
/// is not required an object without one stands for a node with an empty
/// label.
pub open spec fn node_entry(j: Json, required: bool) -> Option<(u32, Seq<char>)> {
    match j {
        Json::Object(m) => match number_at(m@, "id"@) {
            Some(id) => match lookup(m@, "label"@) {
                Some(Json::Text(t)) => Some((id, t@)),
                Some(_) => None,
                None => if required {
                    None
                } else {
                    Some((id, Seq::empty()))
                },
            },
            None => None,
        },
        _ => None,
    }
}

/// The nodes that a row of such objects stands for.
pub open spec fn node_entries(items: Seq<Json>, required: bool) -> Option<Seq<(u32, Seq<char>)>>
    decreases items.len(),
{
    if items.len() == 0 {
        Some(Seq::empty())
    } else {
        match (node_entries(items.drop_last(), required), node_entry(items.last(), required)) {
            (Some(s), Some(e)) => Some(s.push(e)),
            _ => None,
        }
    }
}

/// The nodes listed under `key`: none where the key is absent.
pub open spec fn nodes_at(m: Seq<Member>, key: Seq<char>, required: bool) -> Option<Seq<(u32, Seq<char>)>> {
    match lookup(m, key) {
        None => Some(Seq::empty()),
        Some(Json::Array(items)) => node_entries(items@, required),
        Some(_) => None,
    }
}

/// The edit that an object stands for. The lists of added and removed edges
/// and nodes and of changed weights and labels may be absent; the note and
/// the root are required. A changed weight stands under `label`.
pub open spec fn diff_entry(j: Json) -> Option<DiffView> {
    match j {
        Json::Object(m) => match (
            edges_at(m@, "added_edges"@, "weight"@),
            edges_at(m@, "removed_edges"@, "weight"@),
            nodes_at(m@, "added_nodes"@, false),
            nodes_at(m@, "removed_nodes"@, false),
            edges_at(m@, "weights_changed"@, "label"@),
            nodes_at(m@, "labels_changed"@, true),
            text_at(m@, "note"@),
            number_at(m@, "root_id"@),
        ) {
            (Some(ae), Some(re), Some(an), Some(rn), Some(wc), Some(lc), Some(note), Some(root_id)) => Some(
                DiffView {
                    added_edges: ae,
                    removed_edges: re,
                    added_nodes: an,
                    removed_nodes: rn,
                    weights_changed: wc,
                    labels_changed: lc,
                    note,
                    root_id,
                },
            ),
            _ => None,
        },
        _ => None,
    }
}

/// The edits that a row of such objects stands for.
pub open spec fn diff_entries(items: Seq<Json>) -> Option<Seq<DiffView>>
    decreases items.len(),
{
    if items.len() == 0 {
        Some(Seq::empty())
    } else {
        match (diff_entries(items.drop_last()), diff_entry(items.last())) {
            (Some(s), Some(e)) => Some(s.push(e)),
            _ => None,
        }
    }
}

/// The edits that a document stands for, where it is a row of edits.
pub open spec fn diff_list(j: Json) -> Option<Seq<DiffView>> {
    match j {
        Json::Array(items) => diff_entries(items@),
        _ => None,
    }
}

/// One entry more is one edge more; a row with a bad entry stands for
/// nothing.
proof fn lemma_edge_entries(items: Seq<Json>, weight_key: Seq<char>, i: int)
    requires
        0 <= i < items.len(),
    ensures
        edge_entries(items.take(i + 1), weight_key) == match (
            edge_entries(items.take(i), weight_key),
            edge_entry(items[i], weight_key),
        ) {
            (Some(s), Some(e)) => Some(s.push(e)),
            _ => None,
        },
        edge_entries(items.take(i + 1), weight_key) is None ==> edge_entries(items, weight_key) is None,
{
    assert(items.take(i + 1).drop_last() =~= items.take(i));
    assert(items.take(i + 1).last() == items[i]);
    if edge_entries(items.take(i + 1), weight_key) is None {
        lemma_edge_entries_fail(items, weight_key, i + 1);
    }
}

proof fn lemma_edge_entries_fail(items: Seq<Json>, weight_key: Seq<char>, i: int)
    requires
        0 <= i <= items.len(),
        edge_entries(items.take(i), weight_key) is None,
    ensures
        edge_entries(items, weight_key) is None,
    decreases items.len() - i,
{
    if i < items.len() {
        assert(items.take(i + 1).drop_last() =~= items.take(i));
        lemma_edge_entries_fail(items, weight_key, i + 1);
    } else {
        assert(items.take(i) =~= items);
    }
}

proof fn lemma_node_entries(items: Seq<Json>, required: bool, i: int)
    requires
        0 <= i < items.len(),
    ensures
        node_entries(items.take(i + 1), required) == match (
            node_entries(items.take(i), required),
            node_entry(items[i], required),
        ) {
            (Some(s), Some(e)) => Some(s.push(e)),
            _ => None,
        },
        node_entries(items.take(i + 1), required) is None ==> node_entries(items, required) is None,
{
    assert(items.take(i + 1).drop_last() =~= items.take(i));
    assert(items.take(i + 1).last() == items[i]);
    if node_entries(items.take(i + 1), required) is None {
        lemma_node_entries_fail(items, required, i + 1);
    }
}

proof fn lemma_node_entries_fail(items: Seq<Json>, required: bool, i: int)
    requires
        0 <= i <= items.len(),
        node_entries(items.take(i), required) is None,
    ensures
        node_entries(items, required) is None,
    decreases items.len() - i,
{
    if i < items.len() {
        assert(items.take(i + 1).drop_last() =~= items.take(i));
        lemma_node_entries_fail(items, required, i + 1);
    } else {
        assert(items.take(i) =~= items);
    }
}

proof fn lemma_diff_entries(items: Seq<Json>, i: int)
    requires
        0 <= i < items.len(),
    ensures
        diff_entries(items.take(i + 1)) == match (diff_entries(items.take(i)), diff_entry(items[i])) {
            (Some(s), Some(e)) => Some(s.push(e)),
            _ => None,
        },
        diff_entries(items.take(i + 1)) is None ==> diff_entries(items) is None,
{
    assert(items.take(i + 1).drop_last() =~= items.take(i));
    assert(items.take(i + 1).last() == items[i]);
    if diff_entries(items.take(i + 1)) is None {
        lemma_diff_entries_fail(items, i + 1);
    }
}

proof fn lemma_diff_entries_fail(items: Seq<Json>, i: int)
    requires
        0 <= i <= items.len(),
        diff_entries(items.take(i)) is None,
    ensures
        diff_entries(items) is None,
    decreases items.len() - i,
{
    if i < items.len() {
        assert(items.take(i + 1).drop_last() =~= items.take(i));
        lemma_diff_entries_fail(items, i + 1);
    } else {
        assert(items.take(i) =~= items);
    }
}

/// Reads one edge.
fn read_edge(j: &Json, weight_key: &str) -> (r: Option<Edge>)
    ensures
        match r {
            Some(e) => edge_entry(*j, weight_key@) == Some(edge_view(e)),
            None => edge_entry(*j, weight_key@) is None,
        },
{
    match j {
        Json::Object(m) => {
            let from_id = match number_under(m, "from_id") {
                Some(n) => n,
                None => { return None; },
            };
            let to_id = match number_under(m, "to_id") {
                Some(n) => n,
                None => { return None; },
            };
            let weight = match text_under(m, weight_key) {
                Some(t) => t,
                None => { return None; },
            };
            Some(Edge { from_id, to_id, weight })
        },
        _ => None,
    }
}

/// Reads the edges listed under `key`.
fn read_edges(m: &Vec<Member>, key: &str, weight_key: &str) -> (r: Option<Vec<Edge>>)
    ensures
        match r {
            Some(v) => edges_at(m@, key@, weight_key@) == Some(edges_view(v@)),
            None => edges_at(m@, key@, weight_key@) is None,
        },
{
    let mut out: Vec<Edge> = Vec::new();
    match get(m, key) {
        None => {
            assert(edges_view(out@) =~= Seq::empty());
            Some(out)
        },
        Some(Json::Array(items)) => {
            let mut i: usize = 0;
            assert(items@.take(0) =~= Seq::<Json>::empty());
            assert(edges_view(out@) =~= Seq::empty());
            while i < items.len()
                invariant
                    i <= items@.len(),
                    edges_at(m@, key@, weight_key@) == edge_entries(items@, weight_key@),
                    edge_entries(items@.take(i as int), weight_key@) == Some(edges_view(out@)),
                decreases items@.len() - i,
            {
                proof {
                    lemma_edge_entries(items@, weight_key@, i as int);
                }
                let ghost before = out@;
                match read_edge(&items[i], weight_key) {
                    Some(e) => {
                        out.push(e);
                        assert(edges_view(out@) =~= edges_view(before).push(edge_view(e)));
                    },
                    None => { return None; },
                }
                i += 1;
            }
            assert(items@.take(items@.len() as int) =~= items@);
            Some(out)
        },
        Some(_) => None,
    }
}

/// Reads one node.
fn read_node(j: &Json, required: bool) -> (r: Option<Node>)
    ensures
        match r {
            Some(n) => node_entry(*j, required) == Some(node_view(n)),
            None => node_entry(*j, required) is None,
        },
{
    match j {
        Json::Object(m) => {
            let id = match number_under(m, "id") {
                Some(n) => n,
                None => { return None; },
            };
            match get(m, "label") {
                Some(Json::Text(t)) => Some(Node { id, label: t.clone() }),
                Some(_) => None,
                None => if required {
                    None
                } else {
                    Some(Node { id, label: String::new() })
                },
            }
        },
        _ => None,
    }
}

/// Reads the nodes listed under `key`.
fn read_nodes(m: &Vec<Member>, key: &str, required: bool) -> (r: Option<Vec<Node>>)
    ensures
        match r {
            Some(v) => nodes_at(m@, key@, required) == Some(nodes_view(v@)),
            None => nodes_at(m@, key@, required) is None,
        },
{
    let mut out: Vec<Node> = Vec::new();
    match get(m, key) {
        None => {
            assert(nodes_view(out@) =~= Seq::empty());
            Some(out)
        },
        Some(Json::Array(items)) => {
            let mut i: usize = 0;
            assert(items@.take(0) =~= Seq::<Json>::empty());
            assert(nodes_view(out@) =~= Seq::empty());
            while i < items.len()
                invariant
                    i <= items@.len(),
                    nodes_at(m@, key@, required) == node_entries(items@, required),
                    node_entries(items@.take(i as int), required) == Some(nodes_view(out@)),
                decreases items@.len() - i,
            {
                proof {
                    lemma_node_entries(items@, required, i as int);
                }
                let ghost before = out@;
                match read_node(&items[i], required) {
                    Some(n) => {
                        out.push(n);
                        assert(nodes_view(out@) =~= nodes_view(before).push(node_view(n)));
                    },
                    None => { return None; },
                }
                i += 1;
            }
            assert(items@.take(items@.len() as int) =~= items@);
            Some(out)
        },
        Some(_) => None,
    }
}

/// Reads one edit.
fn read_diff(j: &Json) -> (r: Option<DiffInfo>)
    ensures
        match r {
            Some(d) => diff_entry(*j) == Some(d@),
            None => diff_entry(*j) is None,
        },
{
    match j {
        Json::Object(m) => {
            let added_edges = match read_edges(m, "added_edges", "weight") {
                Some(v) => v,
                None => { return None; },
            };
            let removed_edges = match read_edges(m, "removed_edges", "weight") {
                Some(v) => v,
                None => { return None; },
            };
            let added_nodes = match read_nodes(m, "added_nodes", false) {
                Some(v) => v,
                None => { return None; },
            };
            let removed_nodes = match read_nodes(m, "removed_nodes", false) {
                Some(v) => v,
                None => { return None; },
            };
            let weights_changed = match read_edges(m, "weights_changed", "label") {
                Some(v) => v,
                None => { return None; },
            };
            let labels_changed = match read_nodes(m, "labels_changed", true) {
                Some(v) => v,
                None => { return None; },
            };
            let note = match text_under(m, "note") {
                Some(t) => t,
                None => { return None; },
            };
            let root_id = match number_under(m, "root_id") {
                Some(n) => n,
                None => { return None; },
            };
            Some(
                DiffInfo {
                    added_edges,
                    removed_edges,
                    added_nodes,
                    removed_nodes,
                    weights_changed,
                    labels_changed,
                    note,
                    root_id,
                },
            )
        },
        _ => None,
    }
}

/// Reads the edits of one listener from a row of objects. Nothing is read
/// from a document of another shape.
pub fn diff_info_helper(diff_value: &Json) -> (r: Option<Vec<DiffInfo>>)
    ensures
        match r {
            Some(v) => diff_list(*diff_value) == Some(diffs_view(v@)),
            None => diff_list(*diff_value) is None,
        },
{
    match diff_value {
        Json::Array(items) => {
            let mut out: Vec<DiffInfo> = Vec::new();
            let mut i: usize = 0;
            assert(items@.take(0) =~= Seq::<Json>::empty());
            assert(diffs_view(out@) =~= Seq::empty());
            while i < items.len()
                invariant
                    i <= items@.len(),
                    diff_list(*diff_value) == diff_entries(items@),
                    diff_entries(items@.take(i as int)) == Some(diffs_view(out@)),
                decreases items@.len() - i,
            {
                proof {
                    lemma_diff_entries(items@, i as int);
                }
                let ghost before = out@;
                match read_diff(&items[i]) {
                    Some(d) => {
                        out.push(d);
                        assert(diffs_view(out@) =~= diffs_view(before).push(d@));
                    },
                    None => { return None; },
                }
                i += 1;
            }
            assert(items@.take(items@.len() as int) =~= items@);
            Some(out)
        },
        _ => None,
    }
}


/// The texts of a list of strings.
pub open spec fn texts(v: Seq<String>) -> Seq<Seq<char>> {
    v.map_values(|t: String| t@)
}

/// The table of labels after the entry `j`: the label goes to the place of
/// its node.
pub open spec fn node_table_one(table: Seq<Seq<char>>, j: Json) -> Option<Seq<Seq<char>>> {
    match node_entry(j, true) {
        Some(n) => if n.0 < table.len() {
            Some(table.update(n.0 as int, n.1))
        } else {
            None
        },
        None => None,
    }
}

/// The table of labels after the entries of `items`, in turn.
pub open spec fn node_table(start: Seq<Seq<char>>, items: Seq<Json>) -> Option<Seq<Seq<char>>>
    decreases items.len(),
{
    if items.len() == 0 {
        Some(start)
    } else {
        match node_table(start, items.drop_last()) {
            Some(s) => node_table_one(s, items.last()),
            None => None,
        }
    }
}

/// The table of labels that a row of nodes stands for: as many labels as
/// the row has nodes, each at the place of its node, empty where no node
/// has the place.
pub open spec fn node_labels(j: Json) -> Option<Seq<Seq<char>>> {
    match j {
        Json::Array(items) => node_table(Seq::new(items@.len(), |i: int| Seq::<char>::empty()), items@),
        _ => None,
    }
}

proof fn lemma_node_table(start: Seq<Seq<char>>, items: Seq<Json>, i: int)
    requires
        0 <= i < items.len(),
    ensures
        node_table(start, items.take(i + 1)) == match node_table(start, items.take(i)) {
            Some(s) => node_table_one(s, items[i]),
            None => None,
        },
        node_table(start, items.take(i + 1)) is None ==> node_table(start, items) is None,
{
    assert(items.take(i + 1).drop_last() =~= items.take(i));
    assert(items.take(i + 1).last() == items[i]);
    if node_table(start, items.take(i + 1)) is None {
        lemma_node_table_fail(start, items, i + 1);
    }
}

proof fn lemma_node_table_fail(start: Seq<Seq<char>>, items: Seq<Json>, i: int)
    requires
        0 <= i <= items.len(),
        node_table(start, items.take(i)) is None,
    ensures
        node_table(start, items) is None,
    decreases items.len() - i,
{
    if i < items.len() {
        assert(items.take(i + 1).drop_last() =~= items.take(i));
        lemma_node_table_fail(start, items, i + 1);
    } else {
        assert(items.take(i) =~= items);
    }
}

/// Reads the table of labels from a row of nodes.
pub fn node_info_helper(node_value: &Json) -> (r: Option<Vec<String>>)
    ensures
        match r {
            Some(v) => node_labels(*node_value) == Some(texts(v@)),
            None => node_labels(*node_value) is None,
        },
{
    match node_value {
        Json::Array(items) => {
            let mut out: Vec<String> = Vec::new();
            let mut k: usize = 0;
            while k < items.len()
                invariant
                    k <= items@.len(),
                    out@.len() == k,
                    forall|j: int| 0 <= j < k ==> (#[trigger] out@[j])@ == Seq::<char>::empty(),
                decreases items@.len() - k,
            {
                out.push(String::new());
                k += 1;
            }
            let ghost start = Seq::new(items@.len(), |i: int| Seq::<char>::empty());
            assert(texts(out@) =~= start);
            let mut i: usize = 0;
            assert(items@.take(0) =~= Seq::<Json>::empty());
            while i < items.len()
                invariant
                    i <= items@.len(),
                    out@.len() == items@.len(),
                    node_labels(*node_value) == node_table(start, items@),
                    node_table(start, items@.take(i as int)) == Some(texts(out@)),
                decreases items@.len() - i,
            {
                proof {
                    lemma_node_table(start, items@, i as int);
                }
                let ghost before = out@;
                match read_node(&items[i], true) {
                    Some(n) => {
                        if n.id as usize >= out.len() {
                            return None;
                        }
                        out[n.id as usize] = n.label;
                        assert(texts(out@) =~= texts(before).update(n.id as int, n.label@));
                    },
                    None => { return None; },
                }
                i += 1;
            }
            assert(items@.take(items@.len() as int) =~= items@);
            Some(out)
        },
        _ => None,
    }
}

/// The nodes that the links of a list lead to.
pub open spec fn link_targets(list: Seq<(u32, Seq<char>)>) -> Seq<u32> {
    list.map_values(|l: (u32, Seq<char>)| l.0)
}

/// The list after the edge to `to` took the weight `w`: the first link to
/// `to` takes the weight, or a new link joins at the end.
pub open spec fn upsert(list: Seq<(u32, Seq<char>)>, to: u32, w: Seq<char>) -> Seq<(u32, Seq<char>)> {
    match link_targets(list).index_of_first(to) {
        Some(i) => list.update(i, (to, w)),
        None => list.push((to, w)),
    }
}

/// The list after one member of an object of links: the key is the node
/// that the edge leads to, the value its weight.
pub open spec fn link_members_one(list: Seq<(u32, Seq<char>)>, m: Member) -> Option<Seq<(u32, Seq<char>)>> {
    match (decimal(m.key@, u32::MAX as nat), text_of(m.value)) {
        (Some(to), Some(w)) => Some(upsert(list, to as u32, w)),
        _ => None,
    }
}

/// The list after the members of an object of links, in turn.
pub open spec fn link_members(start: Seq<(u32, Seq<char>)>, items: Seq<Member>) -> Option<Seq<(u32, Seq<char>)>>
    decreases items.len(),
{
    if items.len() == 0 {
        Some(start)
    } else {
        match link_members(start, items.drop_last()) {
            Some(s) => link_members_one(s, items.last()),
            None => None,
        }
    }
}

/// The list after one object of links.
pub open spec fn link_items_one(list: Seq<(u32, Seq<char>)>, j: Json) -> Option<Seq<(u32, Seq<char>)>> {
    match j {
        Json::Object(m) => link_members(list, m@),
        _ => None,
    }
}

/// The list after a row of objects of links, in turn.
pub open spec fn link_items(start: Seq<(u32, Seq<char>)>, items: Seq<Json>) -> Option<Seq<(u32, Seq<char>)>>
    decreases items.len(),
{
    if items.len() == 0 {
        Some(start)
    } else {
        match link_items(start, items.drop_last()) {
            Some(s) => link_items_one(s, items.last()),
            None => None,
        }
    }
}

/// The adjacency list that a row of objects of links stands for.
pub open spec fn link_list(j: Json) -> Option<Seq<(u32, Seq<char>)>> {
    match j {
        Json::Array(items) => link_items(Seq::empty(), items@),
        _ => None,
    }
}

proof fn lemma_link_members(start: Seq<(u32, Seq<char>)>, items: Seq<Member>, i: int)
    requires
        0 <= i < items.len(),
    ensures
        link_members(start, items.take(i + 1)) == match link_members(start, items.take(i)) {
            Some(s) => link_members_one(s, items[i]),
            None => None,
        },
        link_members(start, items.take(i + 1)) is None ==> link_members(start, items) is None,
{
    assert(items.take(i + 1).drop_last() =~= items.take(i));
    assert(items.take(i + 1).last() == items[i]);
    if link_members(start, items.take(i + 1)) is None {
        lemma_link_members_fail(start, items, i + 1);
    }
}

proof fn lemma_link_members_fail(start: Seq<(u32, Seq<char>)>, items: Seq<Member>, i: int)
    requires
        0 <= i <= items.len(),
        link_members(start, items.take(i)) is None,
    ensures
        link_members(start, items) is None,
    decreases items.len() - i,
{
    if i < items.len() {
        assert(items.take(i + 1).drop_last() =~= items.take(i));
        lemma_link_members_fail(start, items, i + 1);
    } else {
        assert(items.take(i) =~= items);
    }
}

proof fn lemma_link_items(start: Seq<(u32, Seq<char>)>, items: Seq<Json>, i: int)
    requires
        0 <= i < items.len(),
    ensures
        link_items(start, items.take(i + 1)) == match link_items(start, items.take(i)) {
            Some(s) => link_items_one(s, items[i]),
            None => None,
        },
        link_items(start, items.take(i + 1)) is None ==> link_items(start, items) is None,
{
    assert(items.take(i + 1).drop_last() =~= items.take(i));
    assert(items.take(i + 1).last() == items[i]);
    if link_items(start, items.take(i + 1)) is None {
        lemma_link_items_fail(start, items, i + 1);
    }
}

proof fn lemma_link_items_fail(start: Seq<(u32, Seq<char>)>, items: Seq<Json>, i: int)
    requires
        0 <= i <= items.len(),
        link_items(start, items.take(i)) is None,
    ensures
        link_items(start, items) is None,
    decreases items.len() - i,
{
    if i < items.len() {
        assert(items.take(i + 1).drop_last() =~= items.take(i));
        lemma_link_items_fail(start, items, i + 1);
    } else {
        assert(items.take(i) =~= items);
    }
}

/// Gives the edge to `to` the weight `weight`.
fn put_link(list: &mut Vec<Link>, to: u32, weight: String)
    ensures
        links_view(final(list)@) == upsert(links_view(old(list)@), to, weight@),
{
    let ghost targets = link_targets(links_view(list@));
    let mut i: usize = 0;
    while i < list.len()
        invariant
            i <= list@.len(),
            *list == *old(list),
            targets == link_targets(links_view(list@)),
            forall|j: int| 0 <= j < i ==> targets[j] != to,
        decreases list@.len() - i,
    {
        if list[i].to_id == to {
            proof {
                assert(targets[i as int] == to);
                targets.index_of_first_ensures(to);
                let first = targets.index_of_first(to).unwrap();
                assert(first == i) by {
                    if first < i {
                        assert(targets[first] != to);
                    }
                }
            }
            let ghost before = list@;
            list[i] = Link { to_id: to, weight };
            assert(links_view(list@) =~= links_view(before).update(i as int, (to, weight@)));
            return ;
        }
        i += 1;
    }
    proof {
        targets.index_of_first_ensures(to);
    }
    let ghost before = list@;
    list.push(Link { to_id: to, weight });
    assert(links_view(list@) =~= links_view(before).push((to, weight@)));
}

/// Reads the links of one object into `list`.
fn read_link_members(list: &mut Vec<Link>, members: &Vec<Member>) -> (r: bool)
    ensures
        match link_members(links_view(old(list)@), members@) {
            Some(l) => r && links_view(final(list)@) == l,
            None => !r,
        },
{
    let ghost start = links_view(list@);
    let mut i: usize = 0;
    assert(members@.take(0) =~= Seq::<Member>::empty());
    while i < members.len()
        invariant
            i <= members@.len(),
            start == links_view(old(list)@),
            link_members(start, members@.take(i as int)) == Some(links_view(list@)),
        decreases members@.len() - i,
    {
        proof {
            lemma_link_members(start, members@, i as int);
        }
        let to = match parse_decimal(members[i].key.as_str(), u32::MAX) {
            Some(n) => n,
            None => { return false; },
        };
        match &members[i].value {
            Json::Text(w) => {
                put_link(list, to, w.clone());
            },
            _ => { return false; },
        }
        i += 1;
    }
    assert(members@.take(members@.len() as int) =~= members@);
    true
}

/// Reads an adjacency list from a row of objects whose keys are the nodes
/// that the edges lead to and whose values are the weights.
pub fn base_info_edge_former(base_value: &Json) -> (r: Option<Vec<Link>>)
    ensures
        match r {
            Some(v) => link_list(*base_value) == Some(links_view(v@)),
            None => link_list(*base_value) is None,
        },
{
    match base_value {
        Json::Array(items) => {
            let mut out: Vec<Link> = Vec::new();
            let ghost start = Seq::<(u32, Seq<char>)>::empty();
            assert(links_view(out@) =~= start);
            let mut i: usize = 0;
            assert(items@.take(0) =~= Seq::<Json>::empty());
            while i < items.len()
                invariant
                    i <= items@.len(),
                    start == Seq::<(u32, Seq<char>)>::empty(),
                    link_list(*base_value) == link_items(start, items@),
                    link_items(start, items@.take(i as int)) == Some(links_view(out@)),
                decreases items@.len() - i,
            {
                proof {
                    lemma_link_items(start, items@, i as int);
                }
                match &items[i] {
                    Json::Object(m) => {
                        if !read_link_members(&mut out, m) {
                            return None;
                        }
                    },
                    _ => { return None; },
                }
                i += 1;
            }
            assert(items@.take(items@.len() as int) =~= items@);
            Some(out)
        },
        _ => None,
    }
}

/// The content of a [`BaseInfo`].
pub struct BaseView {
    pub edges: Map<u32, Seq<(u32, Seq<char>)>>,
    pub root_id: u32,
    pub note: Seq<char>,
}

impl View for BaseInfo {
    type V = BaseView;

    open spec fn view(&self) -> BaseView {
        BaseView {
            edges: Map::new(|k: u32| self.edges@.contains_key(k), |k: u32| links_view(self.edges@[k]@)),
            root_id: self.root_id,
            note: self.note@,
        }
    }
}

/// A snapshot without edges and without a note, rooted at node zero.
pub open spec fn blank_base() -> BaseView {
    BaseView { edges: Map::empty(), root_id: 0, note: Seq::empty() }
}

/// The snapshot after one member of its object: a key that is a number
/// names a node and brings the edges that leave it; `root` brings the root
/// and `note` the note.
pub open spec fn base_members_one(b: BaseView, m: Member) -> Option<BaseView> {
    match decimal(m.key@, u32::MAX as nat) {
        Some(from) => match link_list(m.value) {
            Some(l) => Some(BaseView { edges: b.edges.insert(from as u32, l), ..b }),
            None => None,
        },
        None => if m.key@ == "root"@ {
            match number_of(m.value) {
                Some(r) => Some(BaseView { root_id: r, ..b }),
                None => None,
            }
        } else if m.key@ == "note"@ {
            match text_of(m.value) {
                Some(t) => Some(BaseView { note: t, ..b }),
                None => None,
            }
        } else {
            None
        },
    }
}

/// The snapshot after the members of its object, in turn.
pub open spec fn base_members(start: BaseView, items: Seq<Member>) -> Option<BaseView>
    decreases items.len(),
{
    if items.len() == 0 {
        Some(start)
    } else {
        match base_members(start, items.drop_last()) {
            Some(s) => base_members_one(s, items.last()),
            None => None,
        }
    }
}

/// The snapshot that an object stands for.
pub open spec fn base_of(j: Json) -> Option<BaseView> {
    match j {
        Json::Object(m) => base_members(blank_base(), m@),
        _ => None,
    }
}

proof fn lemma_base_members(start: BaseView, items: Seq<Member>, i: int)
    requires
        0 <= i < items.len(),
    ensures
        base_members(start, items.take(i + 1)) == match base_members(start, items.take(i)) {
            Some(s) => base_members_one(s, items[i]),
            None => None,
        },
        base_members(start, items.take(i + 1)) is None ==> base_members(start, items) is None,
{
    assert(items.take(i + 1).drop_last() =~= items.take(i));
    assert(items.take(i + 1).last() == items[i]);
    if base_members(start, items.take(i + 1)) is None {
        lemma_base_members_fail(start, items, i + 1);
    }
}

proof fn lemma_base_members_fail(start: BaseView, items: Seq<Member>, i: int)
    requires
        0 <= i <= items.len(),
        base_members(start, items.take(i)) is None,
    ensures
        base_members(start, items) is None,
    decreases items.len() - i,
{
    if i < items.len() {
        assert(items.take(i + 1).drop_last() =~= items.take(i));
        lemma_base_members_fail(start, items, i + 1);
    } else {
        assert(items.take(i) =~= items);
    }
}

/// A snapshot without edges and without a note, rooted at node zero.
pub fn empty_base() -> (r: BaseInfo)
    ensures
        r@ == blank_base(),
{
    broadcast use vstd::std_specs::hash::group_hash_axioms;

    let b = BaseInfo { edges: HashMap::new(), root_id: 0, note: String::new() };
    assert(b@.edges =~= Map::<u32, Seq<(u32, Seq<char>)>>::empty());
    b
}

/// Reads a snapshot from its object.
pub fn base_info_helper(base_value: &Json) -> (r: Option<BaseInfo>)
    ensures
        match r {
            Some(b) => base_of(*base_value) == Some(b@),
            None => base_of(*base_value) is None,
        },
{
    broadcast use vstd::std_specs::hash::group_hash_axioms;

    match base_value {
        Json::Object(members) => {
            let mut out = empty_base();
            let root_key = "root".to_owned();
            let note_key = "note".to_owned();
            let mut i: usize = 0;
            assert(members@.take(0) =~= Seq::<Member>::empty());
            while i < members.len()
                invariant
                    i <= members@.len(),
                    root_key@ == "root"@,
                    note_key@ == "note"@,
                    base_of(*base_value) == base_members(blank_base(), members@),
                    base_members(blank_base(), members@.take(i as int)) == Some(out@),
                decreases members@.len() - i,
            {
                proof {
                    lemma_base_members(blank_base(), members@, i as int);
                }
                let ghost before = out@;
                let m = &members[i];
                match parse_decimal(m.key.as_str(), u32::MAX) {
                    Some(from) => {
                        match base_info_edge_former(&m.value) {
                            Some(links) => {
                                out.edges.insert(from, links);
                                assert(out@.edges =~= before.edges.insert(from, links_view(links@)));
                            },
                            None => { return None; },
                        }
                    },
                    None => {
                        if m.key == root_key {
                            match as_number(&m.value) {
                                Some(r) => {
                                    out.root_id = r;
                                    assert(out@.edges =~= before.edges);
                                },
                                None => { return None; },
                            }
                        } else if m.key == note_key {
                            match &m.value {
                                Json::Text(t) => {
                                    out.note = t.clone();
                                    assert(out@.edges =~= before.edges);
                                },
                                _ => { return None; },
                            }
                        } else {
                            return None;
                        }
                    },
                }
                i += 1;
            }
            assert(members@.take(members@.len() as int) =~= members@);
            Some(out)
        },
        _ => None,
    }
}


/// The content of a [`Root`].
pub struct RootView {
    pub bases: Seq<BaseView>,
    pub diffs: Seq<Seq<DiffView>>,
    pub nodes: Seq<Seq<char>>,
    pub total_listeners: u8,
}

/// The content of a list of snapshots.
pub open spec fn bases_view(s: Seq<BaseInfo>) -> Seq<BaseView> {
    s.map_values(|b: BaseInfo| b@)
}

/// The content of the lists of edits of all listeners.
pub open spec fn histories_view(s: Seq<Vec<DiffInfo>>) -> Seq<Seq<DiffView>> {
    s.map_values(|d: Vec<DiffInfo>| diffs_view(d@))
}

impl View for Root {
    type V = RootView;

    open spec fn view(&self) -> RootView {
        RootView {
            bases: bases_view(self.bases@),
            diffs: histories_view(self.diffs@),
            nodes: texts(self.nodes@),
            total_listeners: self.total_listeners,
        }
    }
}

/// The listener that a key names: the number up to 255 that follows its
/// first character.
pub open spec fn listener_of(key: Seq<char>) -> Option<nat> {
    if key.len() == 0 {
        None
    } else {
        decimal(key.subrange(1, key.len() as int), 255)
    }
}

/// The snapshots after one member: the snapshot goes to the place of its
/// listener.
pub open spec fn base_slots_one(bases: Seq<BaseView>, m: Member) -> Option<Seq<BaseView>> {
    match (listener_of(m.key@), base_of(m.value)) {
        (Some(l), Some(b)) => if l < bases.len() {
            Some(bases.update(l as int, b))
        } else {
            None
        },
        _ => None,
    }
}

/// The snapshots after the members of the object of snapshots, in turn.
pub open spec fn base_slots(start: Seq<BaseView>, items: Seq<Member>) -> Option<Seq<BaseView>>
    decreases items.len(),
{
    if items.len() == 0 {
        Some(start)
    } else {
        match base_slots(start, items.drop_last()) {
            Some(s) => base_slots_one(s, items.last()),
            None => None,
        }
    }
}

/// The lists of edits after one member: the list goes to the place of its
/// listener.
pub open spec fn diff_slots_one(diffs: Seq<Seq<DiffView>>, m: Member) -> Option<Seq<Seq<DiffView>>> {
    match (listener_of(m.key@), diff_list(m.value)) {
        (Some(l), Some(d)) => if l < diffs.len() {
            Some(diffs.update(l as int, d))
        } else {
            None
        },
        _ => None,
    }
}

/// The lists of edits after the members of the object of edits, in turn.
pub open spec fn diff_slots(start: Seq<Seq<DiffView>>, items: Seq<Member>) -> Option<Seq<Seq<DiffView>>>
    decreases items.len(),
{
    if items.len() == 0 {
        Some(start)
    } else {
        match diff_slots(start, items.drop_last()) {
            Some(s) => diff_slots_one(s, items.last()),
            None => None,
        }
    }
}

proof fn lemma_base_slots(start: Seq<BaseView>, items: Seq<Member>, i: int)
    requires
        0 <= i < items.len(),
    ensures
        base_slots(start, items.take(i + 1)) == match base_slots(start, items.take(i)) {
            Some(s) => base_slots_one(s, items[i]),
            None => None,
        },
        base_slots(start, items.take(i + 1)) is None ==> base_slots(start, items) is None,
{
    assert(items.take(i + 1).drop_last() =~= items.take(i));
    assert(items.take(i + 1).last() == items[i]);
    if base_slots(start, items.take(i + 1)) is None {
        lemma_base_slots_fail(start, items, i + 1);
    }
}

proof fn lemma_base_slots_fail(start: Seq<BaseView>, items: Seq<Member>, i: int)
    requires
        0 <= i <= items.len(),
        base_slots(start, items.take(i)) is None,
    ensures
        base_slots(start, items) is None,
    decreases items.len() - i,
{
    if i < items.len() {
        assert(items.take(i + 1).drop_last() =~= items.take(i));
        lemma_base_slots_fail(start, items, i + 1);
    } else {
        assert(items.take(i) =~= items);
    }
}

proof fn lemma_diff_slots(start: Seq<Seq<DiffView>>, items: Seq<Member>, i: int)
    requires
        0 <= i < items.len(),
    ensures
        diff_slots(start, items.take(i + 1)) == match diff_slots(start, items.take(i)) {
            Some(s) => diff_slots_one(s, items[i]),
            None => None,
        },
        diff_slots(start, items.take(i + 1)) is None ==> diff_slots(start, items) is None,
{
    assert(items.take(i + 1).drop_last() =~= items.take(i));
    assert(items.take(i + 1).last() == items[i]);
    if diff_slots(start, items.take(i + 1)) is None {
        lemma_diff_slots_fail(start, items, i + 1);
    }
}

proof fn lemma_diff_slots_fail(start: Seq<Seq<DiffView>>, items: Seq<Member>, i: int)
    requires
        0 <= i <= items.len(),
        diff_slots(start, items.take(i)) is None,
    ensures
        diff_slots(start, items) is None,
    decreases items.len() - i,
{
    if i < items.len() {
        assert(items.take(i + 1).drop_last() =~= items.take(i));
        lemma_diff_slots_fail(start, items, i + 1);
    } else {
        assert(items.take(i) =~= items);
    }
}

/// The history `root` after the snapshots under `bases`, the edits under
/// `diffs` and the labels under `nodes` of the document were read into it.
pub open spec fn destructured(root: RootView, doc: Json) -> Option<RootView> {
    match doc {
        Json::Object(m) => match (lookup(m@, "bases"@), lookup(m@, "diffs"@), lookup(m@, "nodes"@)) {
            (Some(Json::Object(bm)), Some(Json::Object(dm)), Some(nodes)) => match (
                base_slots(root.bases, bm@),
                diff_slots(root.diffs, dm@),
                node_labels(nodes),
            ) {
                (Some(bases), Some(diffs), Some(nodes)) => Some(RootView { bases, diffs, nodes, ..root }),
                _ => None,
            },
            _ => None,
        },
        _ => None,
    }
}

/// The number of listeners that the document gives under `specifiers`, cut
/// down to 8 bits.
pub open spec fn listeners_of(doc: Json) -> Option<u8> {
    match doc {
        Json::Object(m) => match lookup(m@, "specifiers"@) {
            Some(Json::Object(sm)) => match lookup(sm@, "total_listeners"@) {
                Some(Json::Number(Some(n))) => Some((n % 256) as u8),
                _ => None,
            },
            _ => None,
        },
        _ => None,
    }
}

/// The history that a document stands for.
pub open spec fn deserialized(doc: Json) -> Option<RootView> {
    match listeners_of(doc) {
        Some(total) => destructured(
            RootView {
                bases: Seq::new(total as nat, |i: int| blank_base()),
                diffs: Seq::new(total as nat, |i: int| Seq::<DiffView>::empty()),
                nodes: Seq::empty(),
                total_listeners: total,
            },
            doc,
        ),
        None => None,
    }
}

/// Reads the listener that a key names.
fn read_listener(key: &str) -> (r: Option<usize>)
    ensures
        match r {
            Some(l) => listener_of(key@) == Some(l as nat),
            None => listener_of(key@) is None,
        },
{
    let len = key.unicode_len();
    if len == 0 {
        return None;
    }
    match parse_decimal(key.substring_char(1, len), 255) {
        Some(n) => Some(n as usize),
        None => None,
    }
}

/// Reads the snapshots of an object into `bases`, each to the place of its
/// listener.
fn read_bases(bases: &mut Vec<BaseInfo>, members: &Vec<Member>) -> (r: bool)
    ensures
        match base_slots(bases_view(old(bases)@), members@) {
            Some(b) => r && bases_view(final(bases)@) == b,
            None => !r,
        },
{
    let ghost start = bases_view(bases@);
    let mut i: usize = 0;
    assert(members@.take(0) =~= Seq::<Member>::empty());
    while i < members.len()
        invariant
            i <= members@.len(),
            start == bases_view(old(bases)@),
            base_slots(start, members@.take(i as int)) == Some(bases_view(bases@)),
        decreases members@.len() - i,
    {
        proof {
            lemma_base_slots(start, members@, i as int);
        }
        let l = match read_listener(members[i].key.as_str()) {
            Some(l) => l,
            None => { return false; },
        };
        let b = match base_info_helper(&members[i].value) {
            Some(b) => b,
            None => { return false; },
        };
        if l >= bases.len() {
            return false;
        }
        let ghost before = bases@;
        bases[l] = b;
        assert(bases_view(bases@) =~= bases_view(before).update(l as int, b@));
        i += 1;
    }
    assert(members@.take(members@.len() as int) =~= members@);
    true
}

/// Reads the lists of edits of an object into `diffs`, each to the place of
/// its listener.
fn read_histories(diffs: &mut Vec<Vec<DiffInfo>>, members: &Vec<Member>) -> (r: bool)
    ensures
        match diff_slots(histories_view(old(diffs)@), members@) {
            Some(d) => r && histories_view(final(diffs)@) == d,
            None => !r,
        },
{
    let ghost start = histories_view(diffs@);
    let mut i: usize = 0;
    assert(members@.take(0) =~= Seq::<Member>::empty());
    while i < members.len()
        invariant
            i <= members@.len(),
            start == histories_view(old(diffs)@),
            diff_slots(start, members@.take(i as int)) == Some(histories_view(diffs@)),
        decreases members@.len() - i,
    {
        proof {
            lemma_diff_slots(start, members@, i as int);
        }
        let l = match read_listener(members[i].key.as_str()) {
            Some(l) => l,
            None => { return false; },
        };
        let d = match diff_info_helper(&members[i].value) {
            Some(d) => d,
            None => { return false; },
        };
        if l >= diffs.len() {
            return false;
        }
        let ghost before = diffs@;
        diffs[l] = d;
        assert(histories_view(diffs@) =~= histories_view(before).update(l as int, diffs_view(d@)));
        i += 1;
    }
    assert(members@.take(members@.len() as int) =~= members@);
    true
}

/// Reads the snapshots, the edits and the labels of a document into a
/// history. Nothing comes of a document of another shape.
pub fn destructure_base(root: Root, raw_json: &Json) -> (r: Option<Root>)
    ensures
        match r {
            Some(out) => destructured(root@, *raw_json) == Some(out@),
            None => destructured(root@, *raw_json) is None,
        },
{
    let m = match raw_json {
        Json::Object(m) => m,
        _ => { return None; },
    };
    let bm = match get(m, "bases") {
        Some(Json::Object(bm)) => bm,
        _ => { return None; },
    };
    let dm = match get(m, "diffs") {
        Some(Json::Object(dm)) => dm,
        _ => { return None; },
    };
    let nodes_value = match get(m, "nodes") {
        Some(v) => v,
        None => { return None; },
    };
    let mut out = root;
    if !read_bases(&mut out.bases, bm) {
        return None;
    }
    if !read_histories(&mut out.diffs, dm) {
        return None;
    }
    match node_info_helper(nodes_value) {
        Some(nodes) => {
            out.nodes = nodes;
            Some(out)
        },
        None => None,
    }
}

/// Reads a history from a document: as many listeners as `specifiers` says,
/// each with the snapshot and the edits that the document lists for it.
pub fn deserialize_json(document: &Json) -> (r: Option<Root>)
    ensures
        match r {
            Some(out) => deserialized(*document) == Some(out@),
            None => deserialized(*document) is None,
        },
{
    let m = match document {
        Json::Object(m) => m,
        _ => { return None; },
    };
    let total: u8 = match get(m, "specifiers") {
        Some(Json::Object(sm)) => match get(sm, "total_listeners") {
            Some(Json::Number(Some(n))) => (*n % 256) as u8,
            _ => { return None; },
        },
        _ => { return None; },
    };
    let mut bases: Vec<BaseInfo> = Vec::new();
    let mut diffs: Vec<Vec<DiffInfo>> = Vec::new();
    let mut i: u8 = 0;
    while i < total
        invariant
            i <= total,
            bases@.len() == i,
            diffs@.len() == i,
            forall|j: int| 0 <= j < i ==> (#[trigger] bases@[j])@ == blank_base(),
            forall|j: int| 0 <= j < i ==> (#[trigger] diffs@[j])@.len() == 0,
        decreases total - i,
    {
        bases.push(empty_base());
        diffs.push(Vec::new());
        i += 1;
    }
    let root = Root { bases, diffs, nodes: Vec::new(), total_listeners: total };
    proof {
        assert(root@.bases =~= Seq::new(total as nat, |i: int| blank_base()));
        assert forall|j: int| 0 <= j < total implies #[trigger] root@.diffs[j] == Seq::<DiffView>::empty() by {
            assert(diffs_view(root.diffs@[j]@) =~= Seq::<DiffView>::empty());
        }
        assert(root@.diffs =~= Seq::new(total as nat, |i: int| Seq::<DiffView>::empty()));
        assert(root@.nodes =~= Seq::<Seq<char>>::empty());
    }
    destructure_base(root, document)
}

} // verus!
