//! A small wave-function-collapse tile solver: a fixed square grid is filled
//! one cell at a time with tiles whose per-side adjacency rules agree with the
//! tiles already placed around them.

pub mod tile;
pub mod canvas;
pub mod candidates;
pub mod rules;
pub mod laws;
mod random;
