use std::collections::HashMap;

use bpe_tokenizer::pair_index::{AlphabetPair, PairIndex};
use bpe_tokenizer::pair_tree::{AlphabetPairKey, PairTree};
use bpe_tokenizer::train::{
    count_initial_pairs, flatten_pair, make_alphabet_pair_tree, new_alphabet_list,
    update_ap_structures, update_pairs_to_change, Pretoken,
};
use bpe_tokenizer::trainer::{get_pretoken_list, pretokens_trainable, train};

fn pretoken(count: usize, word: &[u8]) -> Pretoken {
    Pretoken { count, alphabet_list: word.iter().map(|b| vec![*b]).collect() }
}

fn pair_of(a: &[u8], b: &[u8]) -> AlphabetPair {
    AlphabetPair { pair: (a.to_vec(), b.to_vec()) }
}

fn pair_view(m: &[AlphabetPair]) -> Vec<(Vec<u8>, Vec<u8>)> {
    m.iter().map(|p| (p.pair.0.clone(), p.pair.1.clone())).collect()
}

#[test]
fn alphabet_pair_key_order_check() {
    let x: Vec<u8> = vec![1, 12, 13];
    let y: Vec<u8> = vec![1, 12];
    let z: Vec<u8> = vec![3, 1];

    let ap1 = AlphabetPairKey { count: 12, pair: AlphabetPair { pair: (x.clone(), y.clone()) } };
    let ap2 = AlphabetPairKey { count: 8, pair: AlphabetPair { pair: (x.clone(), y.clone()) } };
    let ap3 = AlphabetPairKey { count: 8, pair: AlphabetPair { pair: (z.clone(), y.clone()) } };
    let ap4 = AlphabetPairKey { count: 12, pair: AlphabetPair { pair: (z.clone(), y.clone()) } };

    let comp11 = ap1 == ap1;
    let comp12 = ap1 > ap2;
    let comp13 = ap1 > ap3;
    let comp14 = ap1 < ap4;
    let comp23 = ap2 < ap3;
    let comp24 = ap2 < ap4;
    let comp34 = ap4 > ap3;

    assert!(comp11);
    assert!(comp12);
    assert!(comp13);
    assert!(comp14);
    assert!(comp23);
    assert!(comp24);
    assert!(comp34);
}

#[test]
fn flatten_pair_test() {
    let p1: (Vec<u8>, Vec<u8>) = (vec![0, 12, 23], vec![1, 2, 3]);
    let ans1: Vec<u8> = vec![0, 12, 23, 1, 2, 3];
    let p2: (Vec<u8>, Vec<u8>) = (vec![0, 12, 23], vec![]);
    let ans2: Vec<u8> = vec![0, 12, 23];
    let p3: (Vec<u8>, Vec<u8>) = (vec![], vec![]);
    let ans3: Vec<u8> = vec![];
    let p4: (Vec<u8>, Vec<u8>) = (vec![], vec![0, 12, 23]);
    let ans4: Vec<u8> = vec![0, 12, 23];
    assert_eq!(flatten_pair(&p1), ans1);
    assert_eq!(flatten_pair(&p2), ans2);
    assert_eq!(flatten_pair(&p3), ans3);
    assert_eq!(flatten_pair(&p4), ans4);
}

#[test]
fn key_order_equal_and_not_equal() {
    let a = AlphabetPairKey::new(3, pair_of(b"ab", b"c"));
    let b = AlphabetPairKey::new(3, pair_of(b"ab", b"c"));
    let c = AlphabetPairKey::new(3, pair_of(b"ab", b"d"));
    assert!(a == b);
    assert!(a != c);
    assert!(a < c);
    assert!(a <= b && a >= b);
    assert_eq!(a.partial_cmp(&c), Some(std::cmp::Ordering::Less));
}

#[test]
fn new_alphabet_list_merges_left_to_right() {
    let p = pretoken(1, b"ababc");
    assert_eq!(
        new_alphabet_list(&p, &pair_of(b"a", b"b")),
        vec![b"ab".to_vec(), b"ab".to_vec(), b"c".to_vec()]
    );
    let p = pretoken(1, b"aaa");
    assert_eq!(new_alphabet_list(&p, &pair_of(b"a", b"a")), vec![b"aa".to_vec(), b"a".to_vec()]);
    let p = pretoken(1, b"xyz");
    assert_eq!(
        new_alphabet_list(&p, &pair_of(b"a", b"b")),
        vec![b"x".to_vec(), b"y".to_vec(), b"z".to_vec()]
    );
}

#[test]
fn count_initial_pairs_weights_by_count() {
    let list = vec![pretoken(5, b"low"), pretoken(2, b"lower"), pretoken(3, b"aaa")];
    let index = count_initial_pairs(&list);
    let lo = index.get(b"l", b"o").unwrap();
    assert_eq!(lo.count, 7);
    assert_eq!(lo.pretoken_ids, vec![0, 1]);
    let er = index.get(b"e", b"r").unwrap();
    assert_eq!(er.count, 2);
    assert_eq!(er.pretoken_ids, vec![1]);
    let aa = index.get(b"a", b"a").unwrap();
    assert_eq!(aa.count, 6);
    assert_eq!(aa.pretoken_ids, vec![2]);
    assert!(index.get(b"o", b"l").is_none());
    assert_eq!(index.len(), 5);
}

#[test]
fn pair_tree_last_is_greatest_key() {
    let list = vec![pretoken(5, b"low"), pretoken(2, b"lower")];
    let index = count_initial_pairs(&list);
    let tree = make_alphabet_pair_tree(&index);
    let best = tree.last().unwrap();
    // (l, o) and (o, w) both occur 7 times; (o, w) is the greater pair.
    assert_eq!(best.count, 7);
    assert_eq!(best.pair.pair, (b"o".to_vec(), b"w".to_vec()));
    assert!(PairTree::new().last().is_none());
}

#[test]
fn pair_tree_insert_and_remove() {
    let mut tree = PairTree::new();
    assert!(tree.insert(AlphabetPairKey::new(2, pair_of(b"a", b"b"))));
    assert!(!tree.insert(AlphabetPairKey::new(2, pair_of(b"a", b"b"))));
    assert!(tree.insert(AlphabetPairKey::new(9, pair_of(b"a", b"a"))));
    assert_eq!(tree.last().unwrap().count, 9);
    assert!(tree.remove(&AlphabetPairKey::new(9, pair_of(b"a", b"a"))));
    assert!(!tree.remove(&AlphabetPairKey::new(9, pair_of(b"a", b"a"))));
    assert_eq!(tree.last().unwrap().count, 2);
}

#[test]
fn pair_index_insert_get_remove() {
    let mut index = PairIndex::new();
    assert_eq!(index.len(), 0);
    let info = bpe_tokenizer::pair_index::AlphabetPairInfo { count: 4, pretoken_ids: vec![1] };
    assert!(index.insert(pair_of(b"a", b"b"), info).is_none());
    let info = bpe_tokenizer::pair_index::AlphabetPairInfo { count: 6, pretoken_ids: vec![2] };
    let former = index.insert(pair_of(b"a", b"b"), info).unwrap();
    assert_eq!(former.count, 4);
    assert_eq!(index.get(b"a", b"b").unwrap().count, 6);
    assert_eq!(index.remove(b"a", b"b").unwrap().count, 6);
    assert!(index.get(b"a", b"b").is_none());
    assert!(index.remove(b"a", b"b").is_none());
}

#[test]
fn one_merge_step_updates_counts() {
    // One training step by hand: merge (o, w) in "low" x5 and "lower" x2.
    let mut list = vec![pretoken(5, b"low"), pretoken(2, b"lower")];
    let mut ap_hash = count_initial_pairs(&list);
    let mut ap_tree = make_alphabet_pair_tree(&ap_hash);
    let best = ap_tree.last().unwrap().pair.duplicate();
    let ids = ap_hash.get(b"o", b"w").unwrap().pretoken_ids.clone();
    let mut pairs_to_change = PairIndex::new();
    for pid in ids {
        let merged = new_alphabet_list(&list[pid], &best);
        update_pairs_to_change(&mut pairs_to_change, &ap_hash, &merged, &list[pid], pid);
        list[pid].alphabet_list = merged;
    }
    update_ap_structures(&mut ap_hash, &mut ap_tree, pairs_to_change);
    assert!(ap_hash.get(b"o", b"w").is_none());
    assert!(ap_hash.get(b"w", b"e").is_none());
    assert_eq!(ap_hash.get(b"l", b"ow").unwrap().count, 7);
    assert_eq!(ap_hash.get(b"ow", b"e").unwrap().count, 2);
    assert_eq!(ap_hash.get(b"e", b"r").unwrap().count, 2);
    let best = ap_tree.last().unwrap();
    assert_eq!(best.count, 7);
    assert_eq!(best.pair.pair, (b"l".to_vec(), b"ow".to_vec()));
}

#[test]
fn train_on_small_corpus() {
    let list = vec![
        pretoken(5, b"low"),
        pretoken(2, b"lower"),
        pretoken(3, b"widest"),
        pretoken(6, b"newest"),
    ];
    assert!(pretokens_trainable(&list));
    let (vocab, merges) = train(list, 263, Some(b"<|endoftext|>".to_vec())).unwrap();
    assert_eq!(
        pair_view(&merges),
        vec![
            (b"s".to_vec(), b"t".to_vec()),
            (b"e".to_vec(), b"st".to_vec()),
            (b"o".to_vec(), b"w".to_vec()),
            (b"l".to_vec(), b"ow".to_vec()),
            (b"w".to_vec(), b"est".to_vec()),
            (b"n".to_vec(), b"e".to_vec()),
        ]
    );
    assert_eq!(vocab.len(), 263);
    for i in 0..256usize {
        assert_eq!(vocab[&i], vec![i as u8]);
    }
    assert_eq!(vocab[&256], b"<|endoftext|>".to_vec());
    assert_eq!(
        (257..263usize).map(|i| vocab[&i].clone()).collect::<Vec<Vec<u8>>>(),
        vec![
            b"st".to_vec(),
            b"est".to_vec(),
            b"ow".to_vec(),
            b"low".to_vec(),
            b"west".to_vec(),
            b"ne".to_vec()
        ]
    );
}

#[test]
fn train_stops_when_no_pair_is_left() {
    let (vocab, merges) = train(vec![pretoken(2, b"aaa")], 300, None).unwrap();
    assert_eq!(
        pair_view(&merges),
        vec![(b"a".to_vec(), b"a".to_vec()), (b"aa".to_vec(), b"a".to_vec())]
    );
    assert_eq!(vocab.len(), 258);
    assert_eq!(vocab[&256], b"aa".to_vec());
    assert_eq!(vocab[&257], b"aaa".to_vec());
    assert!(vocab.get(&258).is_none());
}

#[test]
fn train_with_small_vocab_size_makes_no_merge() {
    let (vocab, merges) = train(vec![pretoken(2, b"ab")], 100, Some(b"<s>".to_vec())).unwrap();
    assert!(merges.is_empty());
    assert_eq!(vocab.len(), 257);
    let (vocab, merges) = train(Vec::new(), 1000, None).unwrap();
    assert!(merges.is_empty());
    assert_eq!(vocab.len(), 256);
}

#[test]
fn get_pretoken_list_splits_words_into_bytes() {
    let mut counts: HashMap<Vec<u8>, usize> = HashMap::new();
    counts.insert(b"ab".to_vec(), 3);
    counts.insert(b" c".to_vec(), 1);
    let list = get_pretoken_list(counts);
    let mut seen: Vec<(usize, Vec<Vec<u8>>)> =
        list.iter().map(|p| (p.count, p.alphabet_list.clone())).collect();
    seen.sort();
    assert_eq!(
        seen,
        vec![(1, vec![vec![32], vec![99]]), (3, vec![vec![97], vec![98]])]
    );
}

#[test]
fn pretokens_trainable_rejects_bad_pretokens() {
    assert!(pretokens_trainable(&vec![pretoken(1, b"ab")]));
    assert!(!pretokens_trainable(&vec![pretoken(0, b"ab")]));
    let bad = Pretoken { count: 1, alphabet_list: vec![vec![97], vec![]] };
    assert!(!pretokens_trainable(&vec![bad]));
    let heavy = vec![pretoken(usize::MAX, b"ab")];
    assert!(!pretokens_trainable(&heavy));
    assert!(pretokens_trainable(&Vec::new()));
}

#[test]
fn merging_keeps_bytes_and_removes_the_pair() {
    let p = pretoken(3, b"aaaaab");
    let pair = pair_of(b"a", b"a");
    let merged = new_alphabet_list(&p, &pair);
    assert_eq!(merged.concat(), b"aaaaab".to_vec());
    assert_eq!(merged, vec![b"aa".to_vec(), b"aa".to_vec(), b"a".to_vec(), b"b".to_vec()]);
    for i in 1..merged.len() {
        assert!(!(merged[i - 1] == b"a".to_vec() && merged[i] == b"a".to_vec()));
    }
    assert!(merged.iter().all(|t| !t.is_empty()));
}

#[test]
fn training_leaves_no_pair_when_it_stops_early() {
    let list = vec![pretoken(1, b"abcd"), pretoken(4, b"cd")];
    let (vocab, merges) = train(list, 1000, None).unwrap();
    // Four bytes merge into one token in at most three steps.
    assert!(merges.len() <= 3);
    assert_eq!(vocab.len(), 256 + merges.len());
    assert_eq!(vocab[&(255 + merges.len())], b"abcd".to_vec());
}

#[test]
fn count_initial_pairs_ids_are_exact() {
    let list = vec![
        Pretoken { count: 2, alphabet_list: vec![vec![97], vec![98], vec![97], vec![98]] },
        Pretoken { count: 3, alphabet_list: vec![vec![98], vec![97]] },
    ];
    let index = count_initial_pairs(&list);
    assert_eq!(index.len(), 2);
    let ab = index.get(&[97], &[98]).unwrap();
    assert_eq!(ab.count, 4);
    assert_eq!(ab.pretoken_ids, vec![0]);
    let ba = index.get(&[98], &[97]).unwrap();
    assert_eq!(ba.count, 5);
    assert_eq!(ba.pretoken_ids, vec![0, 1]);
}

#[test]
fn update_pairs_to_change_with_unchanged_list_records_nothing() {
    let ap_hash = PairIndex::new();
    let p = pretoken(1, b"ab");
    let mut pairs_to_change = PairIndex::new();
    let same = p.alphabet_list.clone();
    update_pairs_to_change(&mut pairs_to_change, &ap_hash, &same, &p, 0);
    assert_eq!(pairs_to_change.len(), 0);
}

#[test]
fn update_pairs_to_change_adds_before_it_subtracts() {
    // No count for (a, a) yet; the pretoken goes from one occurrence to two.
    let ap_hash = PairIndex::new();
    let p = pretoken(1, b"aa");
    let mut pairs_to_change = PairIndex::new();
    let longer = vec![b"a".to_vec(), b"a".to_vec(), b"a".to_vec()];
    update_pairs_to_change(&mut pairs_to_change, &ap_hash, &longer, &p, 7);
    let aa = pairs_to_change.get(b"a", b"a").unwrap();
    assert_eq!(aa.count, 1);
    assert_eq!(aa.pretoken_ids, vec![7]);
    assert_eq!(pairs_to_change.len(), 1);
}
