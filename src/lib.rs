//! Reversible circular doubly-linked lists, the building block of the
//! "dancing links" technique for exact-cover search.
//!
//! Two forms are offered: a storage-agnostic list over any arena of links
//! (`list`), and an array-backed ring of items with a sentinel at index 0
//! (`items`).

pub mod items;
pub mod list;
pub mod ring_laws;
