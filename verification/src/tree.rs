//! What a node and an edge show on screen, apart from where they are drawn.

use vstd::prelude::*;

verus! {

/// The colours a node can be drawn in.
#[derive(Debug, Clone, Copy, PartialEq, Eq, Structural)]
pub enum NodeColor {
    Red,
    Green,
    Blue,
    Yellow,
    Orange,
    Purple,
    Default,
}

/// How an edge is drawn.
#[derive(Debug, Clone, Copy, PartialEq, Eq, Structural)]
pub enum LineState {
    /// A line with an arrow head towards the end node.
    StartToEnd,
    /// A line without a direction.
    Nodirection,
    /// A placeholder: the edge is known but nothing is drawn yet.
    Novisual,
}

/// The mathematical content of a [`Node`].
pub struct NodeView {
    pub label: Seq<char>,
    pub color: NodeColor,
    pub weight: Option<Seq<char>>,
}

/// The drawn form of a node: its label, its colour and, for a node with an
/// edge to itself, the weight text of that edge.
#[derive(Debug, Clone)]
pub struct Node {
    label: String,
    color: NodeColor,
    weight: Option<String>,
}

impl View for Node {
    type V = NodeView;

    closed spec fn view(&self) -> NodeView {
        NodeView {
            label: self.label@,
            color: self.color,
            weight: match self.weight {
                Some(w) => Some(w@),
                None => None,
            },
        }
    }
}

impl Node {
    /// A node drawn with the given label and colour and no weight text.
    pub fn new(text: &str, color: NodeColor) -> (r: Self)
        ensures
            r@ == (NodeView { label: text@, color, weight: None }),
    {
        Node { label: text.to_owned(), color, weight: None }
    }

    pub fn color_node(&mut self, color: NodeColor)
        ensures
            final(self)@ == (NodeView { color, ..old(self)@ }),
    {
        self.color = color;
    }

    pub fn label_node(&mut self, new_text: &str)
        ensures
            final(self)@ == (NodeView { label: new_text@, ..old(self)@ }),
    {
        self.label = new_text.to_owned();
    }

    pub fn weight_node(&mut self, weight: &str)
        ensures
            final(self)@ == (NodeView { weight: Some(weight@), ..old(self)@ }),
    {
        self.weight = Some(weight.to_owned());
    }

    pub fn label(&self) -> (r: &String)
        ensures
            r@ == self@.label,
    {
        &self.label
    }

    /// A copy that shows the same.
    pub fn duplicate(&self) -> (r: Self)
        ensures
            r@ == self@,
    {
        Node {
            label: self.label.clone(),
            color: self.color,
            weight: match &self.weight {
                Some(w) => Some(w.clone()),
                None => None,
            },
        }
    }

    pub fn color(&self) -> (r: NodeColor)
        ensures
            r == self@.color,
    {
        self.color
    }

    pub fn weight(&self) -> (r: &Option<String>)
        ensures
            match *r {
                Some(w) => self@.weight == Some(w@),
                None => self@.weight is None,
            },
    {
        &self.weight
    }
}

/// The mathematical content of a [`Line`].
pub struct LineView {
    pub state: LineState,
    pub weight: Seq<char>,
}

/// The drawn form of an edge: how it is drawn and its weight text.
#[derive(Debug, Clone)]
pub struct Line {
    state: LineState,
    weight: String,
}

impl View for Line {
    type V = LineView;

    closed spec fn view(&self) -> LineView {
        LineView { state: self.state, weight: self.weight@ }
    }
}

impl Line {
    pub fn new(way: LineState, weight_str: &str) -> (r: Self)
        ensures
            r@ == (LineView { state: way, weight: weight_str@ }),
    {
        Line { state: way, weight: weight_str.to_owned() }
    }

    pub fn weight_line(&mut self, weight_str: &str)
        ensures
            final(self)@ == (LineView { weight: weight_str@, ..old(self)@ }),
    {
        self.weight = weight_str.to_owned();
    }

    /// Turns a placeholder into an arrow; a drawn line stays as it is.
    pub fn show(&mut self)
        ensures
            final(self)@ == (LineView {
                state: if old(self)@.state is Novisual {
                    LineState::StartToEnd
                } else {
                    old(self)@.state
                },
                ..old(self)@
            }),
    {
        match self.state {
            LineState::Novisual => { self.state = LineState::StartToEnd; },
            _ => {},
        }
    }

    /// A copy that shows the same.
    pub fn duplicate(&self) -> (r: Self)
        ensures
            r@ == self@,
    {
        Line { state: self.state, weight: self.weight.clone() }
    }

    pub fn state(&self) -> (r: LineState)
        ensures
            r == self@.state,
    {
        self.state
    }

    pub fn weight(&self) -> (r: &String)
        ensures
            r@ == self@.weight,
    {
        &self.weight
    }
}

} // verus!
