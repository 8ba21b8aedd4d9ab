//! A forest stored as one contiguous, append-only sequence of records, each
//! holding a value and the size of the subtree that ends at it.
//!
//! The records of a tree lie next to each other, the subtrees of the
//! children first, from left to right, and the root last. The width of a
//! record says how many records its subtree has, so the subtree of the record
//! at position `i` is the range `[i - width + 1, i]`: no pointer to a child or
//! to a parent is stored. [`GroveBuf`] owns the records. [`Grove`] and
//! [`Tree`] are views of runs of them for reading, [`GroveMut`] and
//! [`TreeMut`] for writing values; no view can change a width or the number
//! of records.
//!
//! `layout` states the width invariant over sequences of records, `model`
//! says which forest such a sequence stands for, and `laws` holds what
//! follows for every forest.

pub mod equality;
pub mod grove;
pub mod grove_buf;
pub mod internal;
pub mod laws;
pub mod layout;
pub mod model;
pub mod node;
pub mod traversal;
pub mod tree;

pub use grove::Grove;
pub use grove::GroveMut;
pub use grove_buf::GroveBuf;
pub use grove_buf::GroveBufBuilder;
pub use node::Node;
pub use traversal::Preorder;
pub use traversal::ReversePostorder;
pub use traversal::TraversalOrder;
pub use traversal::TreesMut;
pub use tree::Tree;
pub use tree::TreeMut;
