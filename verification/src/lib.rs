//! A persistent array-mapped trie over a content-addressed block store,
//! together with the bounds-checked guest memory it is exchanged through.

pub mod amt;
pub mod bitmap;
pub mod cbor;
pub mod codec;
pub mod content_id;
pub mod encoding;
pub mod error;
pub mod index;
pub mod laws;
pub mod memory;
pub mod network;
pub mod node;
pub mod reading;
pub mod root;
pub mod shared;
pub mod store;
pub mod system_actor;
pub mod walk;
