//! Prefix-free binary codes for a set of named instructions.
//!
//! Every instruction declares the greatest code length it would like to
//! have. From that length a weight is derived, the weights drive a Huffman
//! merge, and the finished tree is walked to give each instruction its
//! codeword.
//!
//! - [`weight`]: exact weights `1 / 2^n`.
//! - [`tree`]: code trees, as a mathematical model and as owned nodes.
//! - [`forest`]: the Huffman merge on sequences of trees.
//! - [`queue`]: the binary heap that hands out the lightest node.
//! - [`builder`]: from instructions to leaves, from leaves to one tree.
//! - [`table`]: the code table.
//! - [`codes`]: the walk that writes the codewords down.
//! - [`mapping`]: the whole way from instructions to their table.
//! - [`optimal`], [`lengths`], [`kraft`]: why no other prefix-free code
//!   costs less.
//! - [`error`]: why a list of instructions is refused.

pub mod builder;
pub mod codes;
pub mod error;
pub mod forest;
pub mod kraft;
pub mod lengths;
pub mod mapping;
pub mod optimal;
pub mod queue;
pub mod table;
pub mod tree;
pub mod weight;
