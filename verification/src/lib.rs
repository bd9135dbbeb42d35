//! Redis-style lists kept as byte-packed records in a key-value store.
//!
//! A list is a chain of bounded, flat element buffers (`ZipList`), each
//! described by a fixed-size `QuickListNode` record and all of them by one
//! `QuickList` head record. Every record is a value of the store, found
//! under the list's own key or under a `MetaKey` minted from it.
//!
//! - `types`: integers in little-endian bytes, and the minted keys.
//! - `zip_list`: the packed list of one node.
//! - `quick_list_node`, `quick_list`: the node and the head record, and
//!   the work on a list through its head record.
//! - `wrap_db`: the store as the commands see it, and a store in memory.
//! - `chain`, `removal`, `frame`: what it means that a store holds a list,
//!   and what the commands make of one.
//! - `list`, `list_impl`, `redis_rocksdb`: the commands.
//! - `laws`: what holds of the commands together.
pub mod chain;
pub mod error;
pub mod frame;
pub mod laws;
pub mod list;
pub mod list_impl;
pub mod quick_list;
pub mod quick_list_node;
pub mod redis_rocksdb;
pub mod removal;
pub mod types;
pub mod wrap_db;
pub mod zip_list;

pub use error::RrError;
pub use list::RedisList;
pub use quick_list::QuickList;
pub use quick_list_node::QuickListNode;
pub use redis_rocksdb::RedisRocksdb;
pub use types::{
    read_int, read_len_type, to_little_endian_array, write_int, write_len_type, BytesType,
    Direction, EndianScalar, LenType, MetaKey, BYTES_LEN_TYPE,
};
pub use wrap_db::{MemDb, WrapDb};
pub use zip_list::ZipList;
