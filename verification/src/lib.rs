//! An autonomous controller for a grid-based snake game.
//!
//! The controller first constructs a Hamiltonian cycle over an even-by-even
//! grid by growing a random spanning tree on a half-resolution maze grid and
//! tracing its corridors, and then, once per tick, picks a provably safe move
//! that follows the cycle or shortcuts along it toward the food.

pub mod maze;

pub mod tour;

pub mod cycle;

pub mod snake;

pub mod bot;

mod rng;
