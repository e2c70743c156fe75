//! Exact computation of all pairwise intersection points of a set of line
//! segments, by brute force or by a top-to-bottom sweep line.

pub mod brute_force;
pub mod geometry;
pub mod strategy;
pub mod sweep_line;
