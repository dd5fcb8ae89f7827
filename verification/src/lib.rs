//! Verified index, topology and priority-queue logic of an N-dimensional
//! cubic bezier curve fitter.
//!
//! The fitter reduces a polygon to a chain (or ring) of knots.  Everything that
//! decides *which* knots are linked, how cyclic index ranges are walked, and in
//! which order candidates are taken from the priority queue lives here and is
//! proved; the floating point geometry lives in the application crate.

pub mod span;
pub mod min_heap;
pub mod knots;
pub mod refine;
pub mod api;
