//! A simple key/value store.
//!
//! The heart of the crate is a log-structured store with two levels,
//! [`lsm_tree::LSMTree`]: an append-only log of operations in front of a
//! sorted index with a parallel offset index, merged by compaction. It
//! works on the bytes of its three segments; reading and writing files is
//! left to the caller. Around it stand the capability set of a storage
//! ([`storage::KvStorage`]) with two storages in memory, a store and a
//! server over any storage, and the envelopes of their protocol.
//!
//! A second, simpler store keeps fixed-width keys and values in memory and
//! writes a redo log ([`store::Store`]); the handlers, the client and the
//! command lines of its remote-procedure service come with it.
//!
//! Every function carries a contract that states what it returns and
//! changes, and the lemmas beside them state what follows: that reads find
//! the last value written whenever compactions run, that compaction is
//! idempotent, that bisection finds every key of a consistent index, and
//! that a store is rebuilt from its redo log.
pub mod bytes;
pub mod client;
pub mod command;
pub mod common;
pub mod compaction;
pub mod error;
pub mod index;
pub mod kv_server;
pub mod kvstore;
pub mod log_entry;
pub mod lsm_tree;
pub mod mem_store;
pub mod minikv;
pub mod minikv_grpc;
pub mod order;
pub mod ordered_mem_store;
pub mod redo_log;
pub mod server;
pub mod sorted_map;
pub mod storage;
pub mod store;
pub mod wire;

pub use kvstore::KvStore;
pub use server::KvServer;
