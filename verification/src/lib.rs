//! Shortest knight paths on a rectangular chess board.
//!
//! The `knight` module is the mathematical model: what a knight move is,
//! what a path is, and what it means for a distance to be shortest.
//! The `graph` module holds the board itself and a breadth-first search
//! that is proved to return a shortest path exactly when one exists.

pub mod graph;
pub mod knight;
