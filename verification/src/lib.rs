//! A verified exact solver for the minimum hitting set problem: given a
//! collection of nonempty sets of elements, find a smallest set of elements
//! that intersects every set in the collection.

pub mod elem_set;
pub mod solver;
pub mod laws;
