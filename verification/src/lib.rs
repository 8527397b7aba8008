//! Byte-pair-encoding tokenizer: training of merges, encoding of text, and
//! the pure parts of pretokenization, with their contracts proved by Verus.

pub mod byte_order;
pub mod encode_decode;
pub mod key_order;
pub mod laws;
pub mod merge;
pub mod pair_model;
pub mod pair_index;
pub mod pair_tree;
pub mod pretokenizing;
pub mod train;
pub mod trainer;
