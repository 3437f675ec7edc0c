//! Trie node representation and manipulation

pub mod header;
pub mod index;
pub mod inner;
pub mod inner16;
pub mod inner256;
pub mod inner4;
pub mod inner48;
pub mod keyed;
pub mod leaf;
pub mod node_type;
pub mod pointer;
pub mod prefix_buffer;

pub use header::Header;
pub use inner::{try_write_child, InnerNode};
pub use inner16::InnerNode16;
pub use inner256::InnerNode256;
pub use inner48::{InnerNode48, InnerNode48Iter};
pub use inner4::InnerNode4;
pub use index::{RestrictedNodeIndex, TryFromByteError};
pub use leaf::LeafNode;
pub use node_type::NodeType;
pub use pointer::{InnerNodePtr, Node, NodePtr, OpaqueNodePtr};
pub use prefix_buffer::NUM_PREFIX_BYTES;
