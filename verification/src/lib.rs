//! An in-memory key-value database with columns, big-endian storage keys and
//! the contract-state range operations that a virtual machine runs on it.

pub mod bytes;
pub mod column;
pub mod error;
pub mod codec;
pub mod keyspace;
pub mod store;
pub mod database;
pub mod tables;
pub mod transaction;
pub mod multikey;
pub mod vm_database;
