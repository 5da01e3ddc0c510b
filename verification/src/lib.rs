//! Cache-friendly search layouts over sorted arrays of 32-bit keys.
//!
//! A sorted sequence can be rearranged once into a memory layout that makes
//! repeated bound queries cheaper than classical binary search: the Eytzinger
//! (implicit binary heap) layout, and the "S-tree" layout, a flat 17-ary tree
//! of 16-key blocks. Both layouts answer lower-bound (`>= target`) and
//! upper-bound (`> target`) queries with the same outcome as a scalar binary
//! search over the original sorted sequence.
//!
//! Layouts are built once from an immutable sorted input and are read-only
//! afterwards, so concurrent searches over the same layout are safe.

pub mod basics;
pub mod bounds;
pub mod eytzinger;
pub mod stree;
