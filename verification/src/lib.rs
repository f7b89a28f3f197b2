//! An ordered collection of text elements with two interchangeable storage
//! strategies: elements borrowed from caller-owned text, or elements held as
//! independent copies.  Both share the same sequence operations — iteration,
//! filtering, stable sorting, lookup, swap-deletion — and an optional custom
//! comparator that overrides the default byte-lexicographic order for both
//! sorting and lookup.  A string-splitting routine populates a collection
//! from a delimited source.
//!
//! A small colour-name parser lives alongside the collection as an
//! independent utility; the collection never calls it.

pub mod color;
pub mod order;
pub mod sorting;
pub mod string_list;
