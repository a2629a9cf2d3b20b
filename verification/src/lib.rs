//! A persistent singly linked list whose tail is computed on demand and kept.
//!
//! A list is a chain of lazy cells. A cell that has not been asked for yet
//! holds the source of its element and of everything behind it; the first
//! time it is forced it takes one element from the source, becomes a node,
//! and stays that node for good. Nodes are never changed, so any number of
//! lists may share a tail.
//!
//! The cells live in an [`Arena`], and a list is named by an [`RcList`], the
//! handle of its first cell. Forcing needs the arena by `&mut`; a handle is a
//! plain value that can be copied and kept anywhere.
//!
//! - [`source`]: where elements come from, one at a time.
//! - [`thunk`]: the lazy cell and its one step from unforced to forced.
//! - [`list`]: nodes and handles.
//! - [`arena`]: the cells of a family of lists; forcing and traversal.
//! - [`methods`]: making lists, `push`, `pop` and `len`.
//! - [`model`]: the arena as a sequence of cells, and what forcing does to it.
//! - [`laws`]: what holds of every list, proved over the model.
//! - [`lemmas`]: the facts that the proofs rest on.

pub mod arena;
pub mod laws;
pub mod lemmas;
pub mod list;
pub mod methods;
pub mod model;
pub mod source;
pub mod thunk;

pub use arena::Arena;
pub use list::{List, RcList};
pub use methods::RcListMethods;
pub use source::{Source, Unfold, VecSource};
pub use thunk::Thunk;
