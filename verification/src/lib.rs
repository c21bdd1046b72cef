//! A max-ordering priority queue backed by one contiguous array, organised as
//! an implicit tree whose branching factor doubles with every layer: a node at
//! depth `d` owns `2^(d+1)` contiguous children, so layer sizes grow
//! doubly-exponentially and the tree's depth grows like the square root of the
//! logarithm of the element count.
//!
//! The structure is single-threaded: concurrent mutation requires external
//! synchronisation by the caller.

pub mod geometry;
pub mod heap;
mod hole;
pub mod tracker;

pub use geometry::base_layer;
pub use geometry::base_layer_lookup;
pub use geometry::cumulative_base;
pub use geometry::parent_index;
pub use heap::SqrHeap;
pub use tracker::LastPointer;
