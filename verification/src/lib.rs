//! Obfuscation of EVM-style bytecode.
//!
//! A byte stream is cut into basic blocks at control-flow instructions
//! ([`evm`]). A pass over the blocks ([`obfuscator`]) may reorder the
//! movable instructions of a block ([`reorder`]) and rewrites every block
//! instruction by instruction ([`rewrite`]). Every choice is drawn from one
//! seeded generator ([`stream`]), so the same seed gives the same bytes. The
//! seed also fixes, through a digest, where the sequence starts that sets how
//! hard blocks are shuffled ([`digest`]).

pub mod digest;
pub mod evm;
pub mod obfuscator;
pub mod reorder;
pub mod rewrite;
pub mod stream;
