//! A second encoder, merging vocabulary words into pretokens, whose
//! operations are declared but not implemented: each gives its empty answer.

use vstd::prelude::*;
use std::collections::HashMap;

verus! {

/// A vocabulary word, with its merge rank and the pretokens it occurs in.
pub struct VocabDetail {
    pub vocab_num: u64,
    pub word: Vec<u8>,
    pub in_pretoken: Vec<usize>,
}

/// Reading a vocabulary from a file is not implemented: always `None`.
pub fn read_in_vocab(file_path: &str) -> (r: Option<Vec<Vec<u8>>>)
    ensures
        r is None,
{
    None
}

/// Building a vocabulary map from a word list is not implemented: always
/// `None`.
pub fn make_vocab_hash(vocab: Vec<Vec<u8>>) -> (r: Option<HashMap<Vec<u8>, u64>>)
    ensures
        r is None,
{
    None
}

/// Looking a subword up is not implemented: always `None`, and the list is
/// left as it is.
pub fn lookup_and_insert_sorted(
    subword: &[u8],
    vocab_hash: &HashMap<Vec<u8>, u64>,
    vocab_in_subword: &mut Vec<VocabDetail>,
) -> (r: Option<Vec<VocabDetail>>)
    ensures
        r is None,
        final(vocab_in_subword)@ == old(vocab_in_subword)@,
{
    None
}

/// Merging is not implemented: the pretoken is left as it is.
pub fn merge_if_valid(pretoken: &mut Vec<u8>, vocab_in_subword: &Vec<VocabDetail>)
    ensures
        final(pretoken)@ == old(pretoken)@,
{
}

} // verus!
