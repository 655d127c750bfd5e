//! RRT* path planning in the plane, in fixed point.
//!
//! A planner grows a tree of sampled points from a start position and keeps
//! the cheapest known route to a goal. Coordinates and lengths are whole
//! numbers of sub-units, sixteen binary places below the unit. A length is
//! the Euclidean length rounded down to a whole sub-unit. A step is rounded
//! down likewise; from two thousand sub-units on it keeps its length and its
//! bearing to a thousandth.

pub mod geometry;
pub mod planner;
pub mod sampler;
pub mod tree;
