//! A spatial index over sparse two-dimensional integer points, and a small game that is
//! played on it.
//!
//! The index is a tree of nested bounding boxes. [`geometry`] holds the points, lines and
//! tiles that it is made of, with the containment order between them, over the axis values
//! of [`coordinate`]. [`rtree`] holds the tree itself. What the tree computes is stated over
//! the mathematical trees of [`node_view`]; that a search finds what was inserted, and that
//! insertions keep the invariant of the tree, is proved in [`descent_laws`], [`split_laws`]
//! and [`insert_laws`] and summed up in [`index_laws`].
//!
//! [`parser`] reads the description of a game from the lines of a text, and [`game`] moves
//! a rover over a grid on which dust lies.
pub mod coordinate;
pub mod descent_laws;
pub mod game;
pub mod geometry;
pub mod geometry_laws;
pub mod index_laws;
pub mod insert_laws;
pub mod node_view;
pub mod parser;
pub mod rtree;
pub mod sorting;
pub mod split_laws;
