//! Bookkeeping core of a reactive component system: component identities,
//! the parent relation between components, change (dirty) tracking and the
//! order in which changed components and their ancestors are rebuilt.

pub mod model;
pub mod table;
mod order;
pub mod tree;

pub use table::ComponentTable;
pub use tree::{ComponentCtx, ComponentTree};
