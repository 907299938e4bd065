//! An embeddable in-process table engine: a paged data store addressed by
//! compact links, ordered key-to-link indexes, a per-field lock protocol,
//! and a paged persistence format for the indexes.

pub mod link;
pub mod page;
pub mod pages;
pub mod row;
pub mod lock;
pub mod index;
pub mod table;
pub mod persist;
