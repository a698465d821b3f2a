//! Renders a directed graph as a compact ASCII diagram on a square grid: the
//! diagonal carries the node labels, the other cells carry the rules and
//! corners that lead from each node to its direct successors.
//!
//! ```text
//! d-----+
//!     i-+---+
//!       +-a-|---+
//!           +-g-+
//!               +-v
//! ```
//!
//! A [`Graph`] is built from entries or edges over labels ([`Label`]) and
//! rendered with [`Graph::ascii`], in the order in which it met its nodes, or
//! with [`Graph::ascii_with_order`], in an order of the caller's choice.
//! Rendering fails with a [`RenderError`] on a node that succeeds itself and
//! on a label that is too wide for a column.
//!
//! The modules, from the grid upwards:
//!
//! - [`table`]: the successor table of a diagram and the questions asked of it;
//! - [`glyphs`]: the decision tables for the fragments of a cell, and the
//!   writer;
//! - [`normalize`]: from node numbers to positions in the order drawn;
//! - [`rendering`]: the checks before drawing, and the outcome of rendering;
//! - [`label`], [`meeting`], [`graph`]: labels, the order in which a graph
//!   meets its nodes, and graphs;
//! - [`ordering`]: orders in which to draw the nodes;
//! - [`dot`]: graphs from and to DOT texts;
//! - [`generators`]: graphs to try the renderer on;
//! - [`theorems`]: what holds of every diagram.

pub mod dot;
pub mod generators;
pub mod glyphs;
pub mod graph;
pub mod label;
pub mod meeting;
pub mod normalize;
pub mod ordering;
pub mod rendering;
pub mod table;
pub mod theorems;

pub use graph::Graph;
pub use label::Label;
pub use rendering::RenderError;
