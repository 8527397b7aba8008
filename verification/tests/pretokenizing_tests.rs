use std::collections::HashMap;

use bpe_tokenizer::pretokenizing::{
    add_to_hash, count_section_pretokens, initial_chunk_boundaries, merge_counts, pretoken_pattern,
    remove_duplicate_boundaries, scan_window, BoundaryScan, Pretokenizer, MINI_CHUNK_SIZE,
};

fn pretokenizer() -> Pretokenizer {
    Pretokenizer::new(pretoken_pattern()).expect("the pretokenizing pattern compiles")
}

fn sorted(m: &HashMap<Vec<u8>, usize>) -> Vec<(Vec<u8>, usize)> {
    let mut v: Vec<(Vec<u8>, usize)> = m.iter().map(|(k, c)| (k.clone(), *c)).collect();
    v.sort();
    v
}

#[test]
fn initial_chunk_boundaries_are_even() {
    assert_eq!(initial_chunk_boundaries(100, 4), vec![0, 25, 50, 75, 100, 100]);
    assert_eq!(initial_chunk_boundaries(10, 3), vec![0, 3, 6, 9, 10]);
    assert_eq!(initial_chunk_boundaries(0, 2), vec![0, 0, 0, 0]);
}

#[test]
fn duplicate_boundaries_are_removed() {
    assert_eq!(remove_duplicate_boundaries(vec![0, 25, 25, 100, 100]), vec![0, 25, 100]);
    assert_eq!(remove_duplicate_boundaries(vec![0, 0, 0, 0]), vec![0]);
    assert_eq!(remove_duplicate_boundaries(vec![3, 1, 3]), vec![3, 1, 3]);
    assert_eq!(remove_duplicate_boundaries(Vec::new()), Vec::<u64>::new());
}

#[test]
fn scan_window_finds_the_first_token() {
    let st = b"<|e|>";
    assert_eq!(scan_window(1000, b"abc<|e|>d<|e|>", st), BoundaryScan::Found(1003));
    assert_eq!(scan_window(7, b"<|e|>", st), BoundaryScan::Found(7));
    assert_eq!(scan_window(1000, b"abc<|e", st), BoundaryScan::EndOfFile);
    let full = vec![b'x'; MINI_CHUNK_SIZE];
    assert_eq!(scan_window(1000, &full, st), BoundaryScan::NextWindow(1000 + 4096));
}

#[test]
fn pretokenizer_rejects_a_bad_pattern() {
    assert!(Pretokenizer::new("(").is_none());
    assert!(Pretokenizer::new(pretoken_pattern()).is_some());
}

#[test]
fn count_section_without_special_token() {
    let pt = pretokenizer();
    let counts = count_section_pretokens(b"hello world hello", None, &pt).unwrap();
    assert_eq!(
        sorted(&counts),
        vec![(b" hello".to_vec(), 1), (b" world".to_vec(), 1), (b"hello".to_vec(), 1)]
    );
}

#[test]
fn count_section_splits_documents_at_special_token() {
    let pt = pretokenizer();
    let st: &[u8] = b"<|endoftext|>";
    let counts =
        count_section_pretokens(b"a b<|endoftext|>a c<|endoftext|>zz", Some(st), &pt).unwrap();
    // The bytes after the last special token belong to no document.
    assert_eq!(
        sorted(&counts),
        vec![(b" b".to_vec(), 1), (b" c".to_vec(), 1), (b"a".to_vec(), 2)]
    );
}

#[test]
fn count_section_without_occurrence_counts_everything() {
    let pt = pretokenizer();
    let st: &[u8] = b"<|endoftext|>";
    let counts = count_section_pretokens(b"it's 42!", Some(st), &pt).unwrap();
    assert_eq!(
        sorted(&counts),
        vec![(b" 42".to_vec(), 1), (b"!".to_vec(), 1), (b"'s".to_vec(), 1), (b"it".to_vec(), 1)]
    );
}

#[test]
fn count_section_token_at_start_is_passed_over() {
    let pt = pretokenizer();
    let st: &[u8] = b"<|e|>";
    let counts = count_section_pretokens(b"<|e|>ab", Some(st), &pt).unwrap();
    assert!(counts.is_empty());
    let counts = count_section_pretokens(b"<|e|>ab<|e|>", Some(st), &pt).unwrap();
    // The document runs from the start of the section to the second token.
    assert_eq!(
        sorted(&counts),
        vec![(b"<|".to_vec(), 1), (b"ab".to_vec(), 1), (b"e".to_vec(), 1), (b"|>".to_vec(), 1)]
    );
}

#[test]
fn add_to_hash_counts_matches() {
    let pt = pretokenizer();
    let mut counts: HashMap<Vec<u8>, usize> = HashMap::new();
    assert_eq!(add_to_hash(&mut counts, b"hi hi hi", &pt, 0), Some(3));
    assert_eq!(sorted(&counts), vec![(b" hi".to_vec(), 2), (b"hi".to_vec(), 1)]);
    assert_eq!(add_to_hash(&mut counts, b" hi", &pt, 3), Some(4));
    assert_eq!(counts.get(b" hi".as_slice()), Some(&3));
    assert_eq!(add_to_hash(&mut counts, b"x y", &pt, usize::MAX - 1), None);
    assert_eq!(counts.get(b"x".as_slice()), None);
}

#[test]
fn merge_counts_adds_counts() {
    let mut total: HashMap<Vec<u8>, usize> = HashMap::new();
    total.insert(b"a".to_vec(), 1);
    let mut received: HashMap<Vec<u8>, usize> = HashMap::new();
    received.insert(b"a".to_vec(), 2);
    received.insert(b"b".to_vec(), 3);
    merge_counts(&mut total, received);
    assert_eq!(sorted(&total), vec![(b"a".to_vec(), 3), (b"b".to_vec(), 3)]);
}

#[test]
fn pretoken_pattern_is_the_gpt2_pattern() {
    assert_eq!(
        pretoken_pattern(),
        r"'(?:[sdmt]|ll|ve|re)| ?\p{L}+| ?\p{N}+| ?[^\s\p{L}\p{N}]+|\s+$|\s+"
    );
}

#[test]
fn absent_special_token_counts_like_no_token() {
    let pt = pretokenizer();
    let st: &[u8] = b"<|endoftext|>";
    let text = b"one two, three 3 two";
    let with = count_section_pretokens(text, Some(st), &pt).unwrap();
    let without = count_section_pretokens(text, None, &pt).unwrap();
    assert_eq!(sorted(&with), sorted(&without));
    assert_eq!(remove_duplicate_boundaries(vec![0, 21, 21, 21]), vec![0, 21]);
}
