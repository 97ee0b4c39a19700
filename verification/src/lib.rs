//! Splitting a closed tour into boundary-anchored subtours.
//!
//! A tour is a cyclic sequence of node identifiers, stored linearly. Given a
//! set of "cut" nodes, [`cutter::cut`] splits the tour immediately after each
//! occurrence of a cut node, handles the wraparound at the end of the
//! sequence by emitting the tail in two pieces, and re-orients every piece so
//! that it starts at a boundary node whenever it contains one.
//!
//! The module [`model`] states the whole transform as a mathematical function
//! on sequences; [`cutter`] implements it on vectors and proves the
//! implementation equal to the model; [`laws`] proves the structural
//! properties of the model: the pieces reassemble into the tour, every piece
//! is anchored at a boundary node when it can be, and how many pieces come
//! out.

pub mod cutter;
pub mod laws;
pub mod model;
