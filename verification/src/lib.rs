//! A Bitcoin consensus-validation core with a differential-testing harness.
//!
//! The library is organised leaves first: byte-level primitives, hashing,
//! transaction and block serialization, the UTXO set, the script interpreter,
//! the transaction validator, the block connector, mempool policy, the
//! chunked block-stream reader, and the checkpoint/dispatch scheduler that
//! drives parallel differential validation.

pub mod bytes;
pub mod hashes;
pub mod hexstr;
pub mod errors;
pub mod types;
pub mod codec;
pub mod utxo;
pub mod script;
pub mod txcheck;
pub mod connect;
pub mod mempool;
pub mod chunks;
pub mod harness;
