//! An in-memory key-value store, the values it holds, and the byte protocol
//! that carries requests and responses about it.

pub mod api;
pub mod client;
pub mod collections;
pub mod error;
pub mod item;
pub mod protocol;
pub mod server;
pub mod store;
pub mod text;
