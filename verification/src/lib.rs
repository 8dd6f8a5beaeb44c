//! Decision core of a Sun/Moon grid puzzle: board cells, adjacency
//! constraints, enumeration of balanced arrangements, rule checking and an
//! exhaustive solver.

pub mod arrange;
pub mod board;
pub mod checker;
pub mod edges;
pub mod permute;
pub mod solver;
pub mod symbol;
