//! An address-to-transaction index for a Bitcoin-like chain: a row schema over an
//! ordered key-value store, the header chain, a mempool shadow index, a byte-bounded
//! block-txid cache, and the queries that assemble an address's history, unspent
//! outputs and oldest transaction.
pub mod cache;
pub mod errors;
pub mod hashes;
pub mod headers;
pub mod index;
pub mod lex;
pub mod mempool;
pub mod query;
pub mod rpc;
pub mod store;
pub mod util;
