//! An adaptive radix tree: an ordered map from byte-string keys to values,
//! whose inner nodes pick one of four layouts by the number of children
//! they hold.
//!
//! The nodes live in a [`NodeHeap`], and are known by their addresses. A
//! pointer to a node is its address, which is a multiple of eight, with the
//! class of the node in the three low bits ([`OpaqueNodePtr`]), or with the
//! class in its type ([`NodePtr`]). An inner node keeps the key bytes that
//! all the keys under it share behind the place where it stands as its
//! prefix, of which its [`Header`] stores the first eight bytes at most; a
//! leaf keeps its whole key.
//!
//! The tree itself is a root pointer in the hands of the caller. The
//! operations on it are methods of the heap that take the root: `search`,
//! `insert`, `delete`, `traverse`, `range` and `deallocate_tree`. What they
//! ask of the heap and the root is `holds_tree`: the heap holds a sound tree
//! under the root, and nothing else. What they promise is said of the map
//! that the heap stands for, its `view`: the keys of the leaves that live in
//! the heap, each with the value of its leaf.

pub mod heap;
pub mod nodes;
pub mod tests_common;
pub mod tree;

pub use heap::{NodeHeap, Slot};
pub use tree::delete::DeleteResult;
pub use tree::insert::{InsertPrefixError, InsertResult};
pub use tree::traverse::{KeyCollector, Visitor};

pub use nodes::{
    try_write_child, Header, InnerNode, InnerNode16, InnerNode256, InnerNode4, InnerNode48,
    InnerNode48Iter, InnerNodePtr, LeafNode, Node, NodePtr, NodeType, OpaqueNodePtr,
    RestrictedNodeIndex, TryFromByteError, NUM_PREFIX_BYTES,
};
