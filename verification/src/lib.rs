//! Core of a distributed-ledger node.
//!
//! The ledger side: transactions and blocks that carry an identifier
//! derived from their own encoding, a chain that links each block to the one
//! before it, a pool of pending transactions that hands them out in the byte
//! order of their indexes, and the node that proposes and finalizes blocks.
//!
//! The voting side: Snowball, which settles on one value from repeated
//! rounds of votes.
//!
//! Every function states what it returns over a mathematical view of its
//! arguments, and is proved to meet that statement. Two things are taken on
//! trust and marked so where they stand: that `sha3` computes a digest that
//! depends on the input bytes alone, and that `rand` shuffles a vector
//! without losing or adding a byte.

pub mod block;
pub mod chain;
pub mod codec;
pub mod digest;
pub mod error;
pub mod mempool;
pub mod node;
pub mod order;
pub mod snowball;
pub mod transaction;
