use std::collections::HashMap;

use bpe_tokenizer::encode_decode::{
    apply_merges, compare_details, do_merges, encode, lookup_and_insert_sorted, make_vocab_hash,
    read_in_vocab, valid_merge, EncodedPair, VocabDetail, INITAL_ALPHABET_SIZE,
};
use bpe_tokenizer::byte_order::Order;

fn tokens(v: &[(u32, usize)]) -> Vec<EncodedPair> {
    v.iter().map(|&(id, len)| EncodedPair { vocab_id: id, length: len }).collect()
}

fn token_view(v: &[EncodedPair]) -> Vec<(u32, usize)> {
    v.iter().map(|e| (e.vocab_id, e.length)).collect()
}

fn detail_view(v: &[VocabDetail]) -> Vec<(u32, Vec<u8>, usize)> {
    v.iter().map(|d| (d.vocab_num, d.word.clone(), d.loc)).collect()
}

#[test]
fn test_valid_merge() {
    // going to test on c at s
    let mut encoded: Vec<EncodedPair> = Vec::new();
    encoded.push(EncodedPair { vocab_id: 0, length: 1 });
    encoded.push(EncodedPair { vocab_id: 1, length: 2 });
    encoded.push(EncodedPair { vocab_id: 2, length: 1 });

    assert_eq!(valid_merge(0, 1, &encoded), Some((0, 1)));
    assert_eq!(valid_merge(0, 3, &encoded), Some((0, 2)));
    assert_eq!(valid_merge(0, 4, &encoded), Some((0, 3)));
    assert_eq!(valid_merge(0, 2, &encoded), None);
    assert_eq!(valid_merge(1, 1, &encoded), None);
    assert_eq!(valid_merge(2, 2, &encoded), None);
}

#[test]
fn test_encode() {
    let mut vocab: HashMap<Vec<u8>, u32> = HashMap::new();
    vocab.insert(vec![32], 0); // ' '
    vocab.insert(vec![97], 1); // 'a'
    vocab.insert(vec![99], 2); // 'c'
    vocab.insert(vec![101], 3); // 'e'
    vocab.insert(vec![104], 4); // 'h'
    vocab.insert(vec![116], 5); // 't'
    vocab.insert(vec![116, 104], 6); // 'th'
    vocab.insert(vec![32, 99], 7); // ' c'
    vocab.insert(vec![32, 97], 8); // ' a'
    vocab.insert(vec![116, 104, 101], 9); // 'the'
    vocab.insert(vec![32, 97, 116], 10); // ' at'

    // the
    let the = String::from("the");
    let the_answer = encode(the, &vocab);
    assert_ne!(the_answer, None);
    let the_answer = match the_answer {
        None => return,
        Some(x) => x,
    };
    let the_key: Vec<u32> = vec![9];
    assert_eq!(the_answer, the_key);

    // cat
    let cat = String::from(" cat");
    let cat_answer = encode(cat, &vocab);
    assert_ne!(cat_answer, None);
    let cat_answer = match cat_answer {
        None => return,
        Some(x) => x,
    };
    let cat_key: Vec<u32> = vec![7, 1, 5];
    assert_eq!(cat_answer, cat_key);

    // ate
    let ate = String::from(" ate");
    let ate_answer = encode(ate, &vocab);
    assert_ne!(ate_answer, None);
    let ate_answer = match ate_answer {
        None => return,
        Some(x) => x,
    };
    let ate_key: Vec<u32> = vec![10, 3];
    assert_eq!(ate_answer, ate_key);
}

#[test]
fn valid_merge_past_the_end_is_none() {
    let encoded = tokens(&[(0, 1), (1, 2)]);
    assert_eq!(valid_merge(1, 2, &encoded), Some((1, 1)));
    assert_eq!(valid_merge(1, 5, &encoded), None);
    assert_eq!(valid_merge(3, 1, &encoded), None);
    assert_eq!(valid_merge(0, 1, &Vec::new()), None);
}

#[test]
fn do_merges_replaces_the_covered_run() {
    let encoded = tokens(&[(0, 1), (1, 2), (2, 1)]);
    let vd = VocabDetail { vocab_num: 9, word: vec![1, 2, 3], loc: 0 };
    let merged = do_merges(encoded, &vd);
    assert_eq!(token_view(&merged), vec![(9, 3), (2, 1)]);
}

#[test]
fn do_merges_single_token_takes_new_id() {
    let encoded = tokens(&[(0, 1), (1, 2), (2, 1)]);
    let vd = VocabDetail { vocab_num: 7, word: vec![5, 6], loc: 1 };
    let merged = do_merges(encoded, &vd);
    assert_eq!(token_view(&merged), vec![(0, 1), (7, 2), (2, 1)]);
}

#[test]
fn do_merges_leaves_tokens_when_word_splits_a_token() {
    let encoded = tokens(&[(0, 1), (1, 2), (2, 1)]);
    let vd = VocabDetail { vocab_num: 7, word: vec![5, 6], loc: 0 };
    let merged = do_merges(encoded, &vd);
    assert_eq!(token_view(&merged), vec![(0, 1), (1, 2), (2, 1)]);
}

#[test]
fn lookup_and_insert_sorted_keeps_order_and_no_duplicates() {
    let mut vocab: HashMap<Vec<u8>, u32> = HashMap::new();
    vocab.insert(vec![97], 4);
    vocab.insert(vec![98], 2);
    let mut found: Vec<VocabDetail> = Vec::new();
    lookup_and_insert_sorted(b"a", 3, &vocab, &mut found);
    lookup_and_insert_sorted(b"a", 1, &vocab, &mut found);
    lookup_and_insert_sorted(b"b", 5, &vocab, &mut found);
    lookup_and_insert_sorted(b"a", 3, &vocab, &mut found);
    lookup_and_insert_sorted(b"zz", 0, &vocab, &mut found);
    assert_eq!(
        detail_view(&found),
        vec![(2, vec![98], 5), (4, vec![97], 1), (4, vec![97], 3)]
    );
}

#[test]
fn compare_details_orders_by_id_then_word_then_start() {
    let a = VocabDetail { vocab_num: 1, word: vec![5], loc: 9 };
    let b = VocabDetail { vocab_num: 2, word: vec![1], loc: 0 };
    let c = VocabDetail { vocab_num: 1, word: vec![5, 0], loc: 0 };
    let d = VocabDetail { vocab_num: 1, word: vec![5], loc: 2 };
    assert_eq!(compare_details(&a, &b), Order::Less);
    assert_eq!(compare_details(&b, &a), Order::Greater);
    assert_eq!(compare_details(&a, &c), Order::Less);
    assert_eq!(compare_details(&d, &a), Order::Less);
    assert_eq!(compare_details(&a, &a), Order::Equal);
}

#[test]
fn apply_merges_in_list_order() {
    let text = b"abc";
    let found = vec![
        VocabDetail { vocab_num: 300, word: vec![97, 98], loc: 0 },
        VocabDetail { vocab_num: 301, word: vec![98, 99], loc: 1 },
        VocabDetail { vocab_num: 302, word: vec![97, 98, 99], loc: 0 },
    ];
    assert_eq!(apply_merges(text, &found), vec![302]);
    let found = vec![
        VocabDetail { vocab_num: 301, word: vec![98, 99], loc: 1 },
        VocabDetail { vocab_num: 300, word: vec![97, 98], loc: 0 },
    ];
    assert_eq!(apply_merges(text, &found), vec![97, 301]);
}

#[test]
fn encode_without_vocabulary_gives_bytes() {
    let vocab: HashMap<Vec<u8>, u32> = HashMap::new();
    assert_eq!(encode(String::from("hé"), &vocab), Some(vec![104, 0xc3, 0xa9]));
    assert_eq!(encode(String::new(), &vocab), Some(vec![]));
}

#[test]
fn encode_merges_lower_ids_first() {
    let mut vocab: HashMap<Vec<u8>, u32> = HashMap::new();
    vocab.insert(b"ab".to_vec(), 256);
    vocab.insert(b"bc".to_vec(), 257);
    // "ab" has the lower id, so it is merged first and "bc" no longer fits.
    assert_eq!(encode(String::from("abc"), &vocab), Some(vec![256, 99]));
    vocab.insert(b"abc".to_vec(), 258);
    assert_eq!(encode(String::from("abc"), &vocab), Some(vec![258]));
}

#[test]
fn vocabulary_files_are_not_read() {
    assert!(read_in_vocab("vocab.txt").is_none());
    assert!(make_vocab_hash(vec![vec![1u8], vec![2u8, 3u8]]).is_none());
    assert_eq!(INITAL_ALPHABET_SIZE, 257);
}

#[test]
fn decoding_the_encoding_gives_the_text() {
    let mut vocab: HashMap<Vec<u8>, u32> = HashMap::new();
    for (w, id) in [
        (vec![32], 0),
        (vec![97], 1),
        (vec![99], 2),
        (vec![101], 3),
        (vec![104], 4),
        (vec![116], 5),
        (vec![116, 104], 6),
        (vec![32, 99], 7),
        (vec![32, 97], 8),
        (vec![116, 104, 101], 9),
        (vec![32, 97, 116], 10),
    ] {
        vocab.insert(w, id);
    }
    let inv: HashMap<u32, Vec<u8>> = vocab.iter().map(|(w, id)| (*id, w.clone())).collect();
    for text in ["the cat ate", " cat", "tea", ""] {
        let ids = encode(String::from(text), &vocab).unwrap();
        assert!(ids.len() <= text.len());
        let decoded: Vec<u8> = ids.iter().flat_map(|i| inv[i].clone()).collect();
        assert_eq!(decoded, text.as_bytes().to_vec());
    }
}

#[test]
fn lookup_twice_changes_nothing() {
    let mut vocab: HashMap<Vec<u8>, u32> = HashMap::new();
    vocab.insert(vec![97], 4);
    let mut found: Vec<VocabDetail> = Vec::new();
    lookup_and_insert_sorted(b"a", 3, &vocab, &mut found);
    assert_eq!(found.len(), 1);
    lookup_and_insert_sorted(b"a", 3, &vocab, &mut found);
    assert_eq!(found.len(), 1);
}
