//! Procedural maze toolkit: a stochastic carver that frees cells of a grid,
//! an encoder that turns the carved grid into per-cell wall flags, and a
//! depth-first solver that searches the encoded grid for the exit.
//!
//! A second, independent backtracking exercise (a closed knight's tour on a
//! fixed board) lives in its own module and shares nothing with the maze.

pub mod chess;
pub mod direction;
pub mod frame;
pub mod generate;
pub mod grid;
pub mod maze;
pub mod rng;
pub mod solve;
