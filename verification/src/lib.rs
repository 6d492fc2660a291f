//! A tree whose nodes live in one growable arena and are named by copyable ids.
//!
//! Every node ever created keeps its slot: detaching a node unlinks it from its
//! parent and siblings, and the node stays addressable and may be linked in
//! again. Parent, previous and next sibling, first and last child are all one
//! step away from any node.
//!
//! The mathematical picture of a tree is a [`TreeView`]: the values in creation
//! order, the parent of each node, and the ordered children of each node. All
//! contracts are stated over it.

pub mod display;
pub mod iter;
pub mod model;
pub mod node_mut;
pub mod node_ref;
pub mod shape;
pub mod tree;
pub mod walk;

pub use display::Indentation;
pub use model::TreeView;
pub use node_mut::NodeMut;
pub use node_ref::NodeRef;
pub use shape::Shape;
pub use tree::{NodeId, Tree};
