//! A prefix tree over sequences of atoms, offered as a map and as a set.
//!
//! A key is read as the sequence of atoms it spells, and its value stands in the tree at
//! the end of the path that these atoms lead along. So the values of all keys that begin
//! alike stand in one subtree, and a walk from a prefix visits that subtree alone.

pub mod atoms;
pub mod iter;
mod keys;
pub mod laws;
mod lend;
pub mod map;
mod node;
pub mod order;
pub mod set;

pub use crate::atoms::Atoms;
pub use crate::atoms::Key;
pub use crate::iter::Iter;
pub use crate::iter::IterMut;
pub use crate::map::TrieMap;
pub use crate::set::TrieSet;
