//! A hierarchical todo list: tasks with optional parents form a tree,
//! maintained in memory and persisted as a plain text document.
//!
//! The store keeps the tasks sorted by id under a monotone id counter
//! (`store`), draws them as an indented tree (`render`), and writes and
//! reads them through a round-tripping text codec (`codec`). The general
//! laws of the store are stated and proved in `laws`.

pub mod chars;
pub mod codec;
pub mod item;
pub mod laws;
pub mod num;
pub mod render;
pub mod store;
