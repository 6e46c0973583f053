pub mod cache;
pub mod laws;
pub mod model;
pub mod node;

pub use cache::{LruError, LRU};
pub use node::{create_node, InternalNode, Node};
