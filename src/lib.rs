//! A sandboxed view of a tree of markdown notes kept under a `Notes`
//! directory: path containment, item resolution and ordered listings.
pub mod item;
pub mod notebook;
pub mod order;
pub mod path;

pub use item::Item;
pub use notebook::{get_notebook, EntryKind, Notebook, Probe};
