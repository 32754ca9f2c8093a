//! Keyed element trees: a reconciler that computes the edits turning one
//! snapshot of a tree into another, and mutators that edit a live tree while
//! keeping each parent's key index in step with its children.

pub mod change;
pub mod diff;
pub mod element;
pub mod key;
pub mod laws;
pub mod mutate;

pub use change::{Change, Delta, DiffTree, Edit};
pub use element::{Element, Node};
pub use key::Key;
pub use mutate::ElementOpError;
