//! An ordered map that keeps its entries in a height-balanced binary search
//! tree, with traversals in the order of the keys from both ends.
//!
//! `map` holds the map itself, `tree` the nodes and their rebalancing, `iter`
//! the traversals. `order` says what is asked of the keys, `entries` what the
//! map is, as a sorted sequence of entries, and `laws` what follows for its
//! users. `ranks` holds the argument that keeps the stack of a traversal
//! short.

pub mod entries;
pub mod iter;
pub mod laws;
pub mod map;
pub mod order;
pub mod ranks;
pub mod tree;
