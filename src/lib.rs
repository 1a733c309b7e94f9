//! A small key-value store served over datagrams.
//!
//! The library holds the logic of the server: the wire codec that turns a
//! datagram into a request and an outcome into a reply, the store that the
//! requests read and change, and the length-prefixed snapshot format that the
//! store is saved in. Sockets, tasks, locks and files live around it.

pub mod errors;
pub mod receiver;
pub mod store;
pub mod types;
