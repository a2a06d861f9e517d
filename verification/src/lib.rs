//! Path-addressed data primitives for an application server: a bounded
//! time-aware LRU cache, a path tree, a hierarchical message queue and a
//! history-tracking data store.

pub mod config;
pub mod database;
pub mod datastore;
pub mod helpers;
pub mod message_queue;
