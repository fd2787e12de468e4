//! A pool-allocated tree container.
//!
//! The tree's nodes live in a growable slot arena indexed by `u32`; freed
//! slots are recycled through an intrusive free list. Handles into the tree
//! come in three capability tiers: a read-only view, a value-mutable view,
//! and a structurally unique view that may add and remove children.

pub mod child_list;
pub mod laws;
pub mod reference;
pub mod model;
pub mod shape;
pub mod tree;
