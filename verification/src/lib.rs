//! A static two-dimensional tree over named geographic points, with
//! nearest-neighbour search and a compact binary encoding.
//!
//! - [`tree`] holds the tree: how it is built from a list of points, how
//!   it is searched, and how it is written to bytes and read back.
//! - [`distance`] holds the distances between two locations that need no
//!   more than integers.
//! - [`write`] and [`read`] hold the sinks and sources of bytes and the
//!   three encodings of integer sequences; [`format`] the fields they are
//!   made of, and [`codec`] what holds of a sequence written and read.
//! - [`words`] and [`dictionary`] hold how names are cut into words and
//!   how the words are listed.
//! - [`ingest`] files the named points of a map extract by kind.
//! - [`order`] says what is asked of coordinates and distances.

pub mod codec;
pub mod dictionary;
pub mod distance;
pub mod error;
pub mod format;
pub mod ingest;
pub mod order;
pub mod read;
pub mod tree;
pub mod words;
pub mod write;

pub use distance::{distance_squared, orthogonal_distance};
pub use tree::{NamesTree, Tree2D};
