//! Contour (isoline) extraction from a rectangular grid of integer samples.
//!
//! The pipeline: a grid ([`util::Image`]) is indexed once by a min/max
//! quad tree ([`quad_tree::TreeNode`]); for each threshold the index yields the
//! cells that may be crossed, each such cell is classified by marching squares
//! into oriented edge fragments, and the fragments are stitched into polylines
//! ([`marching_squares::MarchingSquares`]).
//!
//! Crossing positions are kept as exact rationals ([`util::Fraction`]), so two
//! independently interpolated crossings of the same edge compare equal exactly.

pub mod marching_squares;
pub mod quad_tree;
pub mod util;
