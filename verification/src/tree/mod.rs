//! The arena substrate: addresses, linked nodes, the symbol table and the tree.

pub mod addr;
pub mod builder;
pub mod node;
pub mod reading;
pub mod recycle;
pub mod traits;
pub mod tree;

pub use addr::{Addr, IndexedMutRef, IndexedRef};
pub use node::{LinkingNode, Node};
pub use traits::{Mapping, NodeAllocator};
pub use tree::{NodeValue, Tree};
