//! Minimum-cost spanning networks over complete graphs of points.
//!
//! The pairwise distances of a list of points are gathered in a symmetric
//! matrix, and Prim's algorithm grows a spanning tree of least weight over
//! it. Distances are unsigned integers: a caller whose metric is real-valued
//! hands them over in an encoding that keeps their order.

pub mod matrix;
pub mod metric;
pub mod optimal;
pub mod prim;
pub mod solver;
pub mod transport;
pub mod vertex_set;
