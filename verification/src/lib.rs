//! A Bitcoin header chain kept in a key-value store, and the verification that a
//! transaction is included in a block and carries a tagged checkpoint payload.
//!
//! The chain is held in four records: the base header, the tip, and every
//! known header and its height by block hash. `light_client` holds the
//! operations on them, each with a contract that gives the records after the
//! call and the error, if any, as functions of the records before it and the
//! arguments; `laws` and `chain` hold what follows for the chain across
//! calls. `checkpoint` holds the inclusion check and the reading of the
//! payload.
//!
//! Hashing, the decoding of headers and transactions, 256-bit arithmetic and
//! the storage itself are the work of other crates. The functions that call
//! them are marked `external_body`: their contracts are believed, not proved.

pub mod bytes;
pub mod wire;
pub mod error;
pub mod block;
pub mod transaction;
pub mod merkle;
pub mod op_return;
pub mod checkpoint;
pub mod header_info;
pub mod storage;
pub mod light_client;
pub mod laws;
pub mod chain;
pub mod epoch;
