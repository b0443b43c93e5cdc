//! A verified task-tree engine: a hierarchical todo list with cascading
//! completion and deletion, sibling ordering, and a flat key/value
//! settings store.

pub mod laws;
pub mod order;
pub mod store;
pub mod tree;
pub mod types;

pub use types::Setting;
pub use types::Todo;
pub use types::TodoError;
pub use types::TodoUpdate;
