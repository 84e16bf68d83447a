//! Symmetric difference of two already-sorted sequences.
//!
//! A single two-cursor merge classifies every item as present only on the
//! left, only on the right, or on both sides (in which case the pair cancels
//! and nothing is emitted).  The merge is delivered three ways: a pull-style
//! iterator ([`SymDiffIter`]), an eager push traversal that hands every
//! differing item to one tagged callback, and an eager push traversal that
//! dispatches each item, untagged, to one callback per side.  All three are
//! verified against the same mathematical model, [`model::sym_diff`], and
//! [`laws`] proves what that model guarantees.

pub mod laws;
pub mod model;

mod api;
mod iter;
mod merge;
mod tag;

pub use api::SymmetricDifference;
pub use iter::SymDiffIter;
pub use tag::Tag;
