use std::collections::HashMap;

use bpe_tokenizer::merge::{
    lookup_and_insert_sorted, make_vocab_hash, merge_if_valid, read_in_vocab, VocabDetail,
};

#[test]
fn merge_stubs_give_empty_answers() {
    assert!(read_in_vocab("vocab.txt").is_none());
    assert!(make_vocab_hash(vec![vec![1u8]]).is_none());
    let vocab: HashMap<Vec<u8>, u64> = HashMap::new();
    let mut found = vec![VocabDetail { vocab_num: 3, word: vec![1, 2], in_pretoken: vec![0] }];
    assert!(lookup_and_insert_sorted(b"ab", &vocab, &mut found).is_none());
    assert_eq!(found.len(), 1);
    assert_eq!(found[0].vocab_num, 3);
    let mut pretoken = vec![1u8, 2, 3];
    merge_if_valid(&mut pretoken, &found);
    assert_eq!(pretoken, vec![1, 2, 3]);
}
