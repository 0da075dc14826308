//! Indexes over the items of a document.

pub mod btree;
