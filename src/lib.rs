//! Fuzzy resolution of catalog entries: a typed fragment is scored against
//! every entry's name and aliases by local and global sequence alignment,
//! the best candidates are ranked, and a small key-driven state machine
//! settles on one of them or on none.

use vstd::prelude::*;

pub mod config;
pub mod entry;
pub mod text;
pub mod align;
pub mod rank;
pub mod select;
pub mod syrtime;
pub mod animation;
pub mod error;

verus! {

} // verus!
