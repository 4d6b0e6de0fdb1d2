//! Iterators over sorted runs of SSTs.
pub mod concat_iterator;
