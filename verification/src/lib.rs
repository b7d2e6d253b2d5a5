//! Streaming traversal of an on-disk Bitcoin block chain, with a visitor
//! that clusters addresses by the common-input heuristic.
//!
//! The block files of a full node hold the blocks in the order in which the
//! node learned of them. [`BlockChain::walk`] frames the blocks, puts
//! them into chain order and hands every block, transaction, input and
//! output to a [`BlockChainVisitor`]. The visitor
//! [`visitors::clusterizer::Clusterizer`] unions the addresses whose
//! outputs one transaction spends.
//!
//! A visitor keeps a log of the calls that it receives, and the walks
//! state which calls they make and what the table of outputs holds
//! afterwards in terms of that log.
//!
//! The functions of the library carry contracts that Verus proves. What
//! is taken on trust are six calls into other crates: the three
//! little-endian readers of `byteorder`, SHA-256 of `sha2`, the Base58
//! encoder of `base58` and the witness addresses of `bitcoin_bech32`.

pub mod address;
pub mod block;
pub mod blockchain;
pub mod buffer_operations;
pub mod chain;
pub mod error;
pub mod hash;
pub mod hash_table;
pub mod header;
pub mod output_items;
pub mod script;
pub mod transactions;
pub mod visitors;

pub use crate::block::Block;
pub use crate::blockchain::BlockChain;
pub use crate::error::{EofError, ParseError};
pub use crate::header::BlockHeader;
pub use crate::visitors::BlockChainVisitor;
