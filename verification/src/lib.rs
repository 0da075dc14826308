//! A verified core of a CRDT document engine: the integration of concurrent inserts,
//! logical clocks and ids, change bookkeeping, order-statistic trees, index mapping and a
//! binary codec.

#![allow(unused_imports)]

pub mod id;
pub mod sorted;
pub mod change_btree;
pub mod btree;
pub mod index;
pub mod index_map;
pub mod change_sorter;
pub mod dag;
pub mod mark;
pub mod change;
pub mod frontier;
pub mod delete;
pub mod id_store;
pub mod queue_store;
pub mod change_store;
pub mod bytes;
pub mod encoder;
pub mod decoder;
pub mod codec_v1;
pub mod roundtrip;
pub mod codec;
pub mod bimapid;
pub mod names_codec;
pub mod doc;
pub mod text;
pub mod client;
pub mod any;
pub mod crdt;
pub mod item;
pub mod order;
