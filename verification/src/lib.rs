//! A layered data-structure library over a byte-oriented, single-key-atomic
//! persistent key-value store: growable lists, fixed-arity tuple lists,
//! separate-chaining hash tables, and a hierarchical path resolver that
//! addresses nested combinations of them through generated indirection
//! identifiers persisted in the store itself.
pub mod bytes;
pub mod conversion;
pub mod digits;
pub mod store;
pub mod list;
pub mod tuple_list;
pub mod hashtable;
pub mod archive;
