//! Steppable, reversible maze generation on a rectangular grid.
//!
//! The library models a maze as a grid of cells with symmetric directional
//! links, offers five generation algorithms as replayable step machines
//! (advance one micro-step, undo one, jump to a step, run to completion),
//! and computes flood-fill distances and longest/shortest paths over a
//! finished maze.

pub mod binary_tree;
pub mod dijkstra;
pub mod generator;
pub mod grid;
pub mod maze;
pub mod rng;
pub mod sidewinder;
