//! Two small puzzle solvers with machine-checked contracts.
//!
//! * [`frequency`] reads a list of signed frequency changes, totals them and
//!   finds the first running total that is reached twice when the list is
//!   replayed in a cycle.
//! * [`inventory`] reads a list of box identifiers, computes their checksum
//!   and finds the two identifiers that differ in exactly one position.
//! * [`text`] holds what both read their input with: trimming and line
//!   splitting.
//! * [`sums`] holds the 32-bit sums with wraparound that both compute.
pub mod frequency;
pub mod inventory;
pub mod sums;
pub mod text;
