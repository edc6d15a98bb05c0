//! The commands by which the layout tells a renderer what to draw.
//!
//! The library holds no coordinates. Where a node is to be drawn is said by a
//! [`Placement`], which the renderer turns into a position.

use crate::tree::NodeColor;
use vstd::prelude::*;

verus! {

/// Where a node is to be drawn.
#[derive(Debug, Clone, Copy, PartialEq, Eq, Structural)]
pub enum Placement {
    /// At the initial position: the fixed anchor of the whole layout.
    Anchor,
    /// On the ring around the anchor, `slot` steps round from angle zero,
    /// where the full circle is cut into `slices` equal steps.
    Ring { slot: u32, slices: u32 },
    /// In the fan that `parent` spreads away from the anchor: the arc that
    /// `parent` was given is cut into `children` equal steps, and the node
    /// takes step `slot`, counted from the fan's first edge.
    Fan { parent: u32, slot: u32, children: u32 },
    /// At the position of node `at`, until the node is connected.
    Beside { at: u32 },
    /// Anywhere in the viewport.
    Random,
    /// At resting length from node `neighbor`, in any direction.
    Near { neighbor: u32 },
}

/// The turn from one place on the ring to the next, as a fraction of half a
/// turn: the full turn cut into `slices`, but three quarters of half a turn
/// where that would be more than half a turn.
pub open spec fn ring_turn(slices: u32) -> (u32, u32) {
    if slices >= 2 {
        (2, slices)
    } else {
        (3, 4)
    }
}

/// How far the place `slot` of a fan of `children` places lies from the
/// middle of the fan, in half steps, counted towards the first place.
pub open spec fn fan_lead(slot: u32, children: u32) -> int {
    children - 1 - 2 * slot
}

impl Placement {
    /// The turn from one place on the ring to the next, as the numerator and
    /// the denominator of a fraction of half a turn.
    pub fn ring_step(slices: u32) -> (r: (u32, u32))
        ensures
            r == ring_turn(slices),
    {
        if slices >= 2 {
            (2, slices)
        } else {
            (3, 4)
        }
    }

    /// How far the place `slot` of a fan of `children` places lies from the
    /// middle of the fan, in half steps. The first place lies furthest one
    /// way, the last furthest the other way.
    pub fn fan_offset(slot: u32, children: u32) -> (r: i64)
        ensures
            r == fan_lead(slot, children),
    {
        children as i64 - 1 - 2 * (slot as i64)
    }
}

/// The places of a fan balance about its middle: a place lies as far to one
/// side as its mirror place lies to the other, and all leads add up to
/// nothing.
pub proof fn lemma_fan_balanced(slot: u32, children: u32)
    requires
        slot < children,
    ensures
        fan_lead(slot, children) == -fan_lead((children - 1 - slot) as u32, children),
        -(children - 1) <= fan_lead(slot, children) <= children - 1,
{
}

/// The places on the ring stay within one turn: as many steps as there are
/// slices come to no more than a full turn.
pub proof fn lemma_ring_within_turn(slices: u32)
    ensures
        slices * ring_turn(slices).0 <= 2 * ring_turn(slices).1,
{
    if slices >= 2 {
        assert(slices * 2 <= 2 * slices) by (nonlinear_arith);
    }
}

/// One command to the renderer.
#[derive(Debug)]
pub enum SceneOp {
    CreateNode { id: u32, label: String, color: NodeColor, place: Placement },
    MoveNode { id: u32, place: Placement },
    ColorNode { id: u32, color: NodeColor },
    LabelNode { id: u32, label: String },
    WeightNode { id: u32, weight: String },
    RemoveNode { id: u32 },
    CreateEdge { from: u32, to: u32, weight: String },
    WeightEdge { from: u32, to: u32, weight: String },
    RemoveEdge { from: u32, to: u32 },
    /// Remove everything that was drawn.
    Clear,
}

/// The mathematical content of a [`SceneOp`].
pub enum SceneOpView {
    CreateNode { id: u32, label: Seq<char>, color: NodeColor, place: Placement },
    MoveNode { id: u32, place: Placement },
    ColorNode { id: u32, color: NodeColor },
    LabelNode { id: u32, label: Seq<char> },
    WeightNode { id: u32, weight: Seq<char> },
    RemoveNode { id: u32 },
    CreateEdge { from: u32, to: u32, weight: Seq<char> },
    WeightEdge { from: u32, to: u32, weight: Seq<char> },
    RemoveEdge { from: u32, to: u32 },
    Clear,
}

impl View for SceneOp {
    type V = SceneOpView;

    open spec fn view(&self) -> SceneOpView {
        match *self {
            SceneOp::CreateNode { id, label, color, place } => SceneOpView::CreateNode {
                id,
                label: label@,
                color,
                place,
            },
            SceneOp::MoveNode { id, place } => SceneOpView::MoveNode { id, place },
            SceneOp::ColorNode { id, color } => SceneOpView::ColorNode { id, color },
            SceneOp::LabelNode { id, label } => SceneOpView::LabelNode { id, label: label@ },
            SceneOp::WeightNode { id, weight } => SceneOpView::WeightNode { id, weight: weight@ },
            SceneOp::RemoveNode { id } => SceneOpView::RemoveNode { id },
            SceneOp::CreateEdge { from, to, weight } => SceneOpView::CreateEdge {
                from,
                to,
                weight: weight@,
            },
            SceneOp::WeightEdge { from, to, weight } => SceneOpView::WeightEdge {
                from,
                to,
                weight: weight@,
            },
            SceneOp::RemoveEdge { from, to } => SceneOpView::RemoveEdge { from, to },
            SceneOp::Clear => SceneOpView::Clear,
        }
    }
}

impl SceneOp {
    /// A copy that says the same.
    pub fn duplicate(&self) -> (r: Self)
        ensures
            r@ == self@,
    {
        match self {
            SceneOp::CreateNode { id, label, color, place } => SceneOp::CreateNode {
                id: *id,
                label: label.clone(),
                color: *color,
                place: *place,
            },
            SceneOp::MoveNode { id, place } => SceneOp::MoveNode { id: *id, place: *place },
            SceneOp::ColorNode { id, color } => SceneOp::ColorNode { id: *id, color: *color },
            SceneOp::LabelNode { id, label } => SceneOp::LabelNode { id: *id, label: label.clone() },
            SceneOp::WeightNode { id, weight } => SceneOp::WeightNode { id: *id, weight: weight.clone() },
            SceneOp::RemoveNode { id } => SceneOp::RemoveNode { id: *id },
            SceneOp::CreateEdge { from, to, weight } => SceneOp::CreateEdge {
                from: *from,
                to: *to,
                weight: weight.clone(),
            },
            SceneOp::WeightEdge { from, to, weight } => SceneOp::WeightEdge {
                from: *from,
                to: *to,
                weight: weight.clone(),
            },
            SceneOp::RemoveEdge { from, to } => SceneOp::RemoveEdge { from: *from, to: *to },
            SceneOp::Clear => SceneOp::Clear,
        }
    }
}

/// The contents of a list of commands.
pub open spec fn ops_view(ops: Seq<SceneOp>) -> Seq<SceneOpView> {
    ops.map_values(|op: SceneOp| op@)
}

} // verus!
