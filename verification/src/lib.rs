//! Layout and history replay for an evolving directed graph.
//!
//! The crate holds the discrete core of a graph visualiser:
//!
//! - `hashgrid`: a bounded spatial occupancy index;
//! - `json_deserialize`: the history as its source supplies it, and its
//!   reading from a document;
//! - `traversal`: breadth-first discovery, as a mathematical function;
//! - `dsas`: the live graph, its construction from a snapshot and its first
//!   placement;
//! - `replay`: applying one edit of the history, forwards or backwards;
//! - `graph_draw`: one graph per listener, and the cursor into the history;
//! - `tree` and `scene`: what nodes and edges show, and the commands that
//!   tell a renderer what to draw;
//! - `laws` and `reversal`: what holds of placing a built graph and of
//!   taking back an edit.
//!
//! Coordinates, forces and drawing belong to the caller; what the caller has
//! to draw is handed over as a journal of scene commands.

pub mod dsas;
pub mod graph_draw;
pub mod hashgrid;
pub mod json_deserialize;
pub mod laws;
pub mod replay;
pub mod reversal;
pub mod scene;
pub mod traversal;
pub mod tree;
