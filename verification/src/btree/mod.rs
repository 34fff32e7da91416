pub mod encoding;
pub mod key;
pub mod node;
pub mod ops;
pub mod shape;
pub mod store;
pub mod tree;

pub use key::Key;
pub use node::{BTreeNode, InternalEntry, InternalNode, LeafEntry, LeafNode};
pub use tree::BTreeError;
