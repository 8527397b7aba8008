//! The pure parts of pretokenization: where a file is cut into chunks at a
//! special token, how a chunk is split into documents at that token, and
//! how the pretokens that the pretokenizing regex finds are counted.
//! Reading the file and running the threads stays with the caller.

use vstd::prelude::*;
use vstd::arithmetic::div_mod::lemma_fundamental_div_mod;
use vstd::arithmetic::mul::lemma_mul_inequality;
use std::collections::HashMap;

verus! {

/// `needle` occurs in `hay` at byte `i`.
pub open spec fn occurs_at(hay: Seq<u8>, needle: Seq<u8>, i: int) -> bool {
    0 <= i && i + needle.len() <= hay.len() && hay.subrange(i, i + needle.len()) == needle
}

/// `i` is the first byte at or after `pos` where `needle` occurs in `hay`.
pub open spec fn is_first_occurrence_from(hay: Seq<u8>, needle: Seq<u8>, pos: int, i: int) -> bool {
    &&& pos <= i
    &&& occurs_at(hay, needle, i)
    &&& forall|j: int| pos <= j < i ==> !#[trigger] occurs_at(hay, needle, j)
}

/// The occurrences of `needle` in `hay` that a left-to-right search from
/// `pos` reports: the first one, then, from just after it (one byte after
/// it for an empty needle), the rest.
pub open spec fn occurrences_from(hay: Seq<u8>, needle: Seq<u8>, pos: nat) -> Seq<usize>
    decreases hay.len() + 1 - pos,
{
    if pos <= hay.len() && exists|i: int| is_first_occurrence_from(hay, needle, pos as int, i) {
        let i = choose|i: int| is_first_occurrence_from(hay, needle, pos as int, i);
        let next = if needle.len() > 0 { i + needle.len() } else { i + 1 };
        seq![i as usize] + occurrences_from(hay, needle, next as nat)
    } else {
        seq![]
    }
}

/// `memchr::memmem::find`: the first occurrence of `needle` in `haystack`.
/// The contract claims what memchr documents: the index of the first
/// occurrence, and `None` when the needle does not occur.
#[verifier::external_body]
fn find_first(haystack: &[u8], needle: &[u8]) -> (r: Option<usize>)
    ensures
        match r {
            Some(i) => is_first_occurrence_from(haystack@, needle@, 0, i as int),
            None => forall|i: int| !#[trigger] occurs_at(haystack@, needle@, i),
        },
{
    memchr::memmem::find(haystack, needle)
}

/// `memchr::memmem::find_iter`, collected: the occurrences of `needle`
/// that a search from the start reports, each search starting after the
/// previous occurrence (one byte after it for an empty needle), as the
/// crate's `FindIter::next` does.
#[verifier::external_body]
fn find_all(haystack: &[u8], needle: &[u8]) -> (r: Vec<usize>)
    ensures
        r@ == occurrences_from(haystack@, needle@, 0),
{
    memchr::memmem::find_iter(haystack, needle).collect()
}

/// The evenly spaced chunk boundaries of a file of `file_size` bytes:
/// `i * (file_size / desired_num_chunks)` for `i` up to
/// `desired_num_chunks`, then `file_size`.
pub open spec fn even_boundaries(file_size: u64, desired_num_chunks: u64) -> Seq<u64> {
    Seq::new(
        (desired_num_chunks + 1) as nat,
        |i: int| (i * (file_size / desired_num_chunks) as int) as u64,
    ).push(file_size)
}

/// The chunk boundaries before they are moved to a special token.
pub fn initial_chunk_boundaries(file_size: u64, desired_num_chunks: u64) -> (r: Vec<u64>)
    requires
        0 < desired_num_chunks < u64::MAX,
    ensures
        r@ == even_boundaries(file_size, desired_num_chunks),
{
    let chunk_size = file_size / desired_num_chunks;
    let mut chunk_boundaries: Vec<u64> = Vec::new();
    let mut i: u64 = 0;
    while i < desired_num_chunks + 1
        invariant
            0 < desired_num_chunks < u64::MAX,
            chunk_size == file_size / desired_num_chunks,
            i <= desired_num_chunks + 1,
            chunk_boundaries@ == Seq::new(i as nat, |j: int| (j * chunk_size as int) as u64),
        decreases desired_num_chunks + 1 - i,
    {
        proof {
            lemma_fundamental_div_mod(file_size as int, desired_num_chunks as int);
            lemma_mul_inequality(i as int, desired_num_chunks as int, chunk_size as int);
            assert(i * chunk_size <= desired_num_chunks * chunk_size) by (nonlinear_arith)
                requires i <= desired_num_chunks;
            assert(desired_num_chunks * chunk_size <= file_size) by (nonlinear_arith)
                requires
                    file_size == desired_num_chunks * (file_size / desired_num_chunks) + file_size % desired_num_chunks,
                    chunk_size == file_size / desired_num_chunks,
                    file_size % desired_num_chunks >= 0;
        }
        chunk_boundaries.push(i * chunk_size);
        i = i + 1;
        proof {
            assert(chunk_boundaries@ =~= Seq::new(i as nat, |j: int| (j * chunk_size as int) as u64));
        }
    }
    chunk_boundaries.push(file_size);
    proof {
        assert(chunk_boundaries@ =~= even_boundaries(file_size, desired_num_chunks));
    }
    chunk_boundaries
}

/// Bytes read from the file per search for the special token.
pub const MINI_CHUNK_SIZE: usize = 4096;

/// What a search for the special token in one window of the file found.
#[derive(PartialEq, Eq, Structural, Clone, Copy, Debug)]
pub enum BoundaryScan {
    /// The token occurs; the boundary moves to this file offset.
    Found(u64),
    /// The token does not occur in this full window; search on from this
    /// file offset.
    NextWindow(u64),
    /// The token does not occur and the file ended; the boundary moves to
    /// the end of the file.
    EndOfFile,
}

/// One step of moving a chunk boundary to the next special token: searches
/// `window`, the bytes read from file offset `position` (a full window
/// holds `MINI_CHUNK_SIZE` bytes, a shorter one ends the file).
pub fn scan_window(position: u64, window: &[u8], split_special_token: &[u8]) -> (r: BoundaryScan)
    requires
        window.len() <= MINI_CHUNK_SIZE,
        position + MINI_CHUNK_SIZE <= u64::MAX,
    ensures
        match r {
            BoundaryScan::Found(b) => is_first_occurrence_from(
                window@,
                split_special_token@,
                0,
                b - position,
            ),
            BoundaryScan::NextWindow(p) => p == position + MINI_CHUNK_SIZE && window.len()
                == MINI_CHUNK_SIZE && forall|i: int| !#[trigger] occurs_at(window@, split_special_token@, i),
            BoundaryScan::EndOfFile => window.len() < MINI_CHUNK_SIZE && forall|i: int|
                !#[trigger] occurs_at(window@, split_special_token@, i),
        },
{
    match find_first(window, split_special_token) {
        Some(loc) => BoundaryScan::Found(position + loc as u64),
        None => {
            if window.len() < MINI_CHUNK_SIZE {
                BoundaryScan::EndOfFile
            } else {
                BoundaryScan::NextWindow(position + MINI_CHUNK_SIZE as u64)
            }
        },
    }
}

/// `s` with each run of equal neighbours kept once.
pub open spec fn dedup_adjacent(s: Seq<u64>) -> Seq<u64>
    decreases s.len(),
{
    if s.len() < 2 {
        s
    } else if s[0] == s[1] {
        dedup_adjacent(s.drop_first())
    } else {
        seq![s[0]] + dedup_adjacent(s.drop_first())
    }
}

/// Removes each boundary equal to the one before it.
pub fn remove_duplicate_boundaries(chunk_boundaries: Vec<u64>) -> (r: Vec<u64>)
    ensures
        r@ == dedup_adjacent(chunk_boundaries@),
{
    let ghost orig = chunk_boundaries@;
    let mut chunk_boundaries = chunk_boundaries;
    let mut i: usize = 1;
    proof {
        assert(chunk_boundaries@.take(0) + chunk_boundaries@.skip(0) =~= orig);
        assert(chunk_boundaries@.skip(0) =~= orig);
    }
    while i < chunk_boundaries.len()
        invariant
            1 <= i <= chunk_boundaries.len() + 1,
            dedup_adjacent(orig) == chunk_boundaries@.take(i - 1) + dedup_adjacent(chunk_boundaries@.skip(i - 1)),
        decreases chunk_boundaries.len() + 1 - i,
    {
        let ghost v = chunk_boundaries@;
        let ghost t = v.skip(i - 1);
        assert(t[0] == v[i - 1] && t[1] == v[i as int]);
        if chunk_boundaries[i - 1] == chunk_boundaries[i] {
            chunk_boundaries.remove(i);
            proof {
                let v2 = chunk_boundaries@;
                assert(t.drop_first() =~= v2.skip(i - 1));
                assert(v2.take(i - 1) =~= v.take(i - 1));
            }
        } else {
            proof {
                assert(t.drop_first() =~= v.skip(i as int));
                assert(v.take(i as int) =~= v.take(i - 1) + seq![t[0]]);
                assert(v.take(i - 1) + (seq![t[0]] + dedup_adjacent(v.skip(i as int))) =~= v.take(i as int)
                    + dedup_adjacent(v.skip(i as int)));
            }
            i = i + 1;
        }
    }
    proof {
        let v = chunk_boundaries@;
        assert(v.skip(i - 1).len() < 2);
        assert(v.take(i - 1) + v.skip(i - 1) =~= v);
    }
    chunk_boundaries
}

} // verus!

verus! {

/// A pretoken count map, keyed by the bytes of each pretoken.
pub uninterp spec fn pretoken_count_entries(m: HashMap<Vec<u8>, usize>) -> Map<Seq<u8>, usize>;

/// The count of `w` in a count map, zero when absent.
pub open spec fn count_of(m: Map<Seq<u8>, usize>, w: Seq<u8>) -> nat {
    if m.contains_key(w) {
        m[w] as nat
    } else {
        0
    }
}

/// `HashMap::new` for pretoken counts: an empty map.
#[verifier::external_body]
fn counts_new() -> (r: HashMap<Vec<u8>, usize>)
    ensures
        pretoken_count_entries(r).is_empty(),
{
    HashMap::new()
}

/// `HashMap::get` on pretoken counts, by the bytes of a pretoken: the count
/// stored under a key equal to `word`, and `None` when there is none.
#[verifier::external_body]
fn counts_get(m: &HashMap<Vec<u8>, usize>, word: &[u8]) -> (r: Option<usize>)
    ensures
        match r {
            Some(c) => pretoken_count_entries(*m).contains_key(word@) && pretoken_count_entries(*m)[word@]
                == c,
            None => !pretoken_count_entries(*m).contains_key(word@),
        },
{
    m.get(word).copied()
}

/// `HashMap::insert` on pretoken counts: afterwards `word` maps to
/// `count` and every other key is as before.
#[verifier::external_body]
fn counts_insert(m: &mut HashMap<Vec<u8>, usize>, word: Vec<u8>, count: usize)
    ensures
        pretoken_count_entries(*final(m)) == pretoken_count_entries(*old(m)).insert(word@, count),
{
    m.insert(word, count);
}

/// `HashMap::into_iter` on pretoken counts, collected: every entry once, in
/// the map's own order, which nothing here fixes.
#[verifier::external_body]
pub(crate) fn counts_into_entries(m: HashMap<Vec<u8>, usize>) -> (r: Vec<(Vec<u8>, usize)>)
    ensures
        forall|i: int, j: int| 0 <= i < j < r.len() ==> #[trigger] r@[i].0@ != #[trigger] r@[j].0@,
        forall|i: int|
            #![trigger r@[i]]
            0 <= i < r.len() ==> pretoken_count_entries(m).contains_key(r@[i].0@)
                && pretoken_count_entries(m)[r@[i].0@] == r@[i].1,
        forall|w: Seq<u8>|
            #[trigger] pretoken_count_entries(m).contains_key(w) ==> exists|i: int|
                0 <= i < r.len() && #[trigger] r@[i].0@ == w,
{
    m.into_iter().collect()
}

/// Adds the counts of `received` to those of `final_map`.
pub fn merge_counts(final_map: &mut HashMap<Vec<u8>, usize>, received: HashMap<Vec<u8>, usize>)
    requires
        forall|w: Seq<u8>|
            #[trigger] count_of(pretoken_count_entries(*old(final_map)), w) + count_of(
                pretoken_count_entries(received),
                w,
            ) <= usize::MAX,
    ensures
        forall|w: Seq<u8>|
            #[trigger] count_of(pretoken_count_entries(*final(final_map)), w) == count_of(
                pretoken_count_entries(*old(final_map)),
                w,
            ) + count_of(pretoken_count_entries(received), w),
        forall|w: Seq<u8>|
            #[trigger] pretoken_count_entries(*final(final_map)).contains_key(w) == (pretoken_count_entries(
                *old(final_map),
            ).contains_key(w) || pretoken_count_entries(received).contains_key(w)),
{
    let ghost before = pretoken_count_entries(*final_map);
    let ghost rec = pretoken_count_entries(received);
    let entries = counts_into_entries(received);
    let mut i: usize = 0;
    while i < entries.len()
        invariant
            i <= entries.len(),
            forall|a: int, b: int| 0 <= a < b < entries.len() ==> #[trigger] entries@[a].0@ != #[trigger] entries@[b].0@,
            forall|a: int|
                0 <= a < entries.len() ==> #[trigger] rec.contains_key(entries@[a].0@) && rec[entries@[a].0@]
                    == entries@[a].1,
            forall|w: Seq<u8>| #[trigger] rec.contains_key(w) ==> exists|a: int| 0 <= a < entries.len() && #[trigger] entries@[a].0@ == w,
            forall|w: Seq<u8>| #[trigger] count_of(before, w) + count_of(rec, w) <= usize::MAX,
            forall|w: Seq<u8>|
                #[trigger] count_of(pretoken_count_entries(*final_map), w) == count_of(before, w) + (if exists|a: int|
                    0 <= a < i && #[trigger] entries@[a].0@ == w {
                    count_of(rec, w)
                } else {
                    0
                }),
            forall|w: Seq<u8>|
                #[trigger] pretoken_count_entries(*final_map).contains_key(w) == (before.contains_key(w) || exists|a: int|
                    0 <= a < i && #[trigger] entries@[a].0@ == w),
        decreases entries.len() - i,
    {
        let ghost mid = pretoken_count_entries(*final_map);
        let word = &entries[i].0;
        let v = entries[i].1;
        let ghost wv = word@;
        proof {
            assert(!exists|a: int| 0 <= a < i && #[trigger] entries@[a].0@ == wv) by {
                if exists|a: int| 0 <= a < i && #[trigger] entries@[a].0@ == wv {
                    let a = choose|a: int| 0 <= a < i && #[trigger] entries@[a].0@ == wv;
                    assert(entries@[a].0@ != entries@[i as int].0@);
                }
            }
            assert(count_of(mid, wv) == count_of(before, wv));
            assert(rec.contains_key(wv) && rec[wv] == v);
            assert(count_of(before, wv) + count_of(rec, wv) <= usize::MAX);
        }
        let c = match counts_get(final_map, word.as_slice()) {
            Some(c) => c,
            None => 0,
        };
        counts_insert(final_map, crate::pair_index::copy_bytes(word.as_slice()), c + v);
        proof {
            let now = pretoken_count_entries(*final_map);
            assert forall|w: Seq<u8>| #[trigger] count_of(now, w) == count_of(before, w) + (if exists|a: int|
                0 <= a < i + 1 && #[trigger] entries@[a].0@ == w {
                count_of(rec, w)
            } else {
                0
            }) by {
                if w == wv {
                    assert(entries@[i as int].0@ == w);
                } else {
                    assert(count_of(now, w) == count_of(mid, w));
                    if exists|a: int| 0 <= a < i + 1 && #[trigger] entries@[a].0@ == w {
                        let a = choose|a: int| 0 <= a < i + 1 && #[trigger] entries@[a].0@ == w;
                        assert(a < i);
                    }
                }
            }
            assert forall|w: Seq<u8>| #[trigger] now.contains_key(w) == (before.contains_key(w) || exists|a: int|
                0 <= a < i + 1 && #[trigger] entries@[a].0@ == w) by {
                if w == wv {
                    assert(entries@[i as int].0@ == w);
                } else {
                    if exists|a: int| 0 <= a < i + 1 && #[trigger] entries@[a].0@ == w {
                        let a = choose|a: int| 0 <= a < i + 1 && #[trigger] entries@[a].0@ == w;
                        assert(a < i);
                    }
                }
            }
        }
        i = i + 1;
    }
    proof {
        assert forall|w: Seq<u8>| #[trigger] rec.contains_key(w) == exists|a: int| 0 <= a < i && #[trigger] entries@[a].0@ == w by {
            if exists|a: int| 0 <= a < i && #[trigger] entries@[a].0@ == w {
                let a = choose|a: int| 0 <= a < i && #[trigger] entries@[a].0@ == w;
            }
        }
    }
}

} // verus!

verus! {

#[verifier::external_type_specification]
#[verifier::external_body]
pub struct ExRegex(regex::bytes::Regex);

/// The pattern that splits text into pretokens: contractions, runs of
/// letters or of digits or of other symbols (each with an optional leading
/// space), and runs of white space.
pub fn pretoken_pattern() -> (r: &'static str)
    ensures
        r@ == "'(?:[sdmt]|ll|ve|re)| ?\\p{L}+| ?\\p{N}+| ?[^\\s\\p{L}\\p{N}]+|\\s+$|\\s+"@,
{
    "'(?:[sdmt]|ll|ve|re)| ?\\p{L}+| ?\\p{N}+| ?[^\\s\\p{L}\\p{N}]+|\\s+$|\\s+"
}

/// Whether `regex::bytes::Regex::new` accepts a pattern.
pub uninterp spec fn regex_compiles(pattern: Seq<char>) -> bool;

/// The `(start, end)` byte ranges of the matches that
/// `regex::bytes::Regex::find_iter` reports for a pattern in a haystack.
pub uninterp spec fn regex_match_spans(pattern: Seq<char>, haystack: Seq<u8>) -> Seq<(usize, usize)>;

/// A compiled pretokenizing regex, with the pattern it was compiled from.
pub struct Pretokenizer {
    pattern: String,
    re: regex::bytes::Regex,
}

/// `regex::bytes::Regex::new`: compiles a pattern. The contract claims that
/// the outcome depends on the pattern alone.
#[verifier::external_body]
fn compile_regex(pattern: &str) -> (r: Option<regex::bytes::Regex>)
    ensures
        r is Some == regex_compiles(pattern@),
{
    regex::bytes::Regex::new(pattern).ok()
}

/// `regex::bytes::Regex::find_iter` with the compiled pattern, each match
/// taken as its `(start, end)`. The contract claims what the crate
/// documents: the spans are the pattern's matches in the haystack, each
/// with `start <= end <= haystack.len()`, one after the other without
/// overlap. That they are the matches of `self.pattern` rests on `re` being
/// compiled from `pattern`, which `Pretokenizer::new` alone does.
#[verifier::external_body]
fn find_spans(pretokenizer: &Pretokenizer, haystack: &[u8]) -> (r: Vec<(usize, usize)>)
    ensures
        r@ == regex_match_spans(pretokenizer.pattern@, haystack@),
        forall|i: int| 0 <= i < r.len() ==> #[trigger] r@[i].0 <= r@[i].1 && r@[i].1 <= haystack.len(),
        forall|i: int, j: int| 0 <= i < j < r.len() ==> #[trigger] r@[i].1 <= #[trigger] r@[j].0,
{
    pretokenizer.re.find_iter(haystack).map(|m| (m.start(), m.end())).collect()
}

impl Pretokenizer {
    /// The pattern this pretokenizer was compiled from.
    pub closed spec fn pattern(&self) -> Seq<char> {
        self.pattern@
    }

    /// Compiles `pattern`; `None` when the regex crate refuses it.
    pub fn new(pattern: &str) -> (r: Option<Pretokenizer>)
        ensures
            r is Some == regex_compiles(pattern@),
            r matches Some(p) ==> p.pattern() == pattern@,
    {
        match compile_regex(pattern) {
            Some(re) => Some(Pretokenizer { pattern: pattern.to_owned(), re }),
            None => None,
        }
    }
}

/// The pretokens the pattern finds in a document, in order.
pub open spec fn doc_pretokens(pattern: Seq<char>, doc: Seq<u8>) -> Seq<Seq<u8>> {
    let spans = regex_match_spans(pattern, doc);
    Seq::new(spans.len(), |i: int| doc.subrange(spans[i].0 as int, spans[i].1 as int))
}

/// How often `w` is in `words`.
pub open spec fn word_count(words: Seq<Seq<u8>>, w: Seq<u8>) -> nat
    decreases words.len(),
{
    if words.len() == 0 {
        0
    } else {
        word_count(words.drop_last(), w) + (if words.last() == w { 1nat } else { 0nat })
    }
}

/// Counting a word in two lists one after the other adds the counts.
pub proof fn lemma_word_count_concat(a: Seq<Seq<u8>>, b: Seq<Seq<u8>>, w: Seq<u8>)
    ensures
        word_count(a + b, w) == word_count(a, w) + word_count(b, w),
    decreases b.len(),
{
    if b.len() == 0 {
        assert(a + b =~= a);
    } else {
        assert((a + b).drop_last() =~= a + b.drop_last());
        lemma_word_count_concat(a, b.drop_last(), w);
    }
}

/// Counts the pretokens that `pretokenizer` finds in `doc`. Every count is
/// at most `counted` before and the returned number after; when the counts
/// could pass `usize::MAX` nothing is counted and the result is `None`.
pub fn add_to_hash(
    pretoken_counts: &mut HashMap<Vec<u8>, usize>,
    doc: &[u8],
    pretokenizer: &Pretokenizer,
    counted: usize,
) -> (r: Option<usize>)
    requires
        forall|w: Seq<u8>| #[trigger] count_of(pretoken_count_entries(*old(pretoken_counts)), w) <= counted,
    ensures
        match r {
            None => counted + doc_pretokens(pretokenizer.pattern(), doc@).len() > usize::MAX
                && pretoken_count_entries(*final(pretoken_counts)) == pretoken_count_entries(*old(pretoken_counts)),
            Some(n) => n == counted + doc_pretokens(pretokenizer.pattern(), doc@).len() && (forall|w: Seq<u8>|
                #[trigger] count_of(pretoken_count_entries(*final(pretoken_counts)), w) == count_of(
                    pretoken_count_entries(*old(pretoken_counts)),
                    w,
                ) + word_count(doc_pretokens(pretokenizer.pattern(), doc@), w)) && (forall|w: Seq<u8>|
                #[trigger] pretoken_count_entries(*final(pretoken_counts)).contains_key(w) == (
                pretoken_count_entries(*old(pretoken_counts)).contains_key(w) || word_count(
                    doc_pretokens(pretokenizer.pattern(), doc@),
                    w,
                ) > 0)),
        },
{
    let ghost before = pretoken_count_entries(*pretoken_counts);
    let spans = find_spans(pretokenizer, doc);
    let ghost words = doc_pretokens(pretokenizer.pattern(), doc@);
    assert(words.len() == spans.len());
    if spans.len() > usize::MAX - counted {
        return None;
    }
    let mut i: usize = 0;
    while i < spans.len()
        invariant
            i <= spans.len(),
            counted + spans.len() <= usize::MAX,
            words == doc_pretokens(pretokenizer.pattern(), doc@),
            spans@ == regex_match_spans(pretokenizer.pattern(), doc@),
            forall|j: int| 0 <= j < spans.len() ==> #[trigger] spans@[j].0 <= spans@[j].1 && spans@[j].1 <= doc.len(),
            forall|w: Seq<u8>| #[trigger] count_of(before, w) <= counted,
            forall|w: Seq<u8>|
                #[trigger] count_of(pretoken_count_entries(*pretoken_counts), w) == count_of(before, w) + word_count(
                    words.take(i as int),
                    w,
                ),
            forall|w: Seq<u8>|
                #[trigger] pretoken_count_entries(*pretoken_counts).contains_key(w) == (before.contains_key(w)
                    || word_count(words.take(i as int), w) > 0),
        decreases spans.len() - i,
    {
        let (s, e) = spans[i];
        let pretoken = &doc[s..e];
        let ghost pv = pretoken@;
        let ghost mid = pretoken_count_entries(*pretoken_counts);
        proof {
            assert(pv == words[i as int]);
            assert(words.take(i + 1).drop_last() =~= words.take(i as int));
            assert(words.take(i + 1).last() == pv);
            assert(word_count(words.take(i as int), pv) <= i) by {
                lemma_word_count_le_len(words.take(i as int), pv);
            }
            assert(count_of(mid, pv) + 1 <= usize::MAX);
        }
        let c = match counts_get(pretoken_counts, pretoken) {
            Some(c) => c,
            None => 0,
        };
        counts_insert(pretoken_counts, crate::pair_index::copy_bytes(pretoken), c + 1);
        proof {
            let now = pretoken_count_entries(*pretoken_counts);
            assert forall|w: Seq<u8>| #[trigger] count_of(now, w) == count_of(before, w) + word_count(
                words.take(i + 1),
                w,
            ) by {
                if w != pv {
                    assert(count_of(now, w) == count_of(mid, w));
                }
            }
            assert forall|w: Seq<u8>| #[trigger] now.contains_key(w) == (before.contains_key(w) || word_count(
                words.take(i + 1),
                w,
            ) > 0) by {}
        }
        i = i + 1;
    }
    proof {
        assert(words.take(i as int) =~= words);
    }
    Some(counted + spans.len())
}

/// A word occurs at most as often as the list has words.
pub proof fn lemma_word_count_le_len(words: Seq<Seq<u8>>, w: Seq<u8>)
    ensures
        word_count(words, w) <= words.len(),
    decreases words.len(),
{
    if words.len() > 0 {
        lemma_word_count_le_len(words.drop_last(), w);
    }
}

} // verus!

verus! {

/// The reported occurrences are real occurrences, in strictly increasing
/// order, none starting inside the one before it.
pub proof fn lemma_occurrences_props(hay: Seq<u8>, needle: Seq<u8>, pos: nat)
    requires
        hay.len() <= usize::MAX,
    ensures
        forall|k: int|
            0 <= k < occurrences_from(hay, needle, pos).len() ==> pos <= #[trigger] occurrences_from(hay, needle, pos)[k]
                && occurs_at(hay, needle, occurrences_from(hay, needle, pos)[k] as int),
        forall|k: int|
            0 <= k && k + 1 < occurrences_from(hay, needle, pos).len() ==> #[trigger] occurrences_from(hay, needle, pos)[k
                + 1] >= occurrences_from(hay, needle, pos)[k] + needle.len() && occurrences_from(hay, needle, pos)[k + 1]
                > occurrences_from(hay, needle, pos)[k],
    decreases hay.len() + 1 - pos,
{
    let occ = occurrences_from(hay, needle, pos);
    if pos <= hay.len() && exists|i: int| is_first_occurrence_from(hay, needle, pos as int, i) {
        let i = choose|i: int| is_first_occurrence_from(hay, needle, pos as int, i);
        let next = if needle.len() > 0 { i + needle.len() } else { i + 1 };
        lemma_occurrences_props(hay, needle, next as nat);
        let rest = occurrences_from(hay, needle, next as nat);
        assert(occ == seq![i as usize] + rest);
        assert forall|k: int| 0 <= k < occ.len() implies pos <= #[trigger] occ[k] && occurs_at(hay, needle, occ[k] as int) by {
            if k > 0 {
                assert(occ[k] == rest[k - 1]);
            }
        }
        assert forall|k: int| 0 <= k && k + 1 < occ.len() implies #[trigger] occ[k + 1] >= occ[k] + needle.len()
            && occ[k + 1] > occ[k] by {
            assert(occ[k + 1] == rest[k]);
            if k > 0 {
                assert(occ[k] == rest[k - 1]);
                assert(rest[(k - 1) + 1] >= rest[k - 1] + needle.len());
            } else {
                assert(next <= rest[0]);
                assert(occ[0] == i);
            }
        }
    }
}

/// The documents of a section between the occurrences `locs` of a special
/// token of `token_len` bytes, as byte ranges, from `start` on: an
/// occurrence right at `start` is passed over (and `start` stays), any other
/// ends a document there, and the next one starts after the token. The bytes
/// after the last occurrence belong to no document.
pub open spec fn documents_between(locs: Seq<usize>, token_len: nat, start: nat) -> Seq<(nat, nat)>
    decreases locs.len(),
{
    if locs.len() == 0 {
        seq![]
    } else if locs[0] == start {
        documents_between(locs.drop_first(), token_len, start)
    } else {
        seq![(start, locs[0] as nat)] + documents_between(locs.drop_first(), token_len, (locs[0] + token_len) as nat)
    }
}

/// The documents of a section: the whole section when there is no special
/// token or it does not occur, else the documents between its occurrences.
pub open spec fn section_documents(section: Seq<u8>, special: Option<Seq<u8>>) -> Seq<(nat, nat)> {
    match special {
        None => seq![(0nat, section.len())],
        Some(st) => {
            let locs = occurrences_from(section, st, 0);
            if locs.len() == 0 {
                seq![(0nat, section.len())]
            } else {
                documents_between(locs, st.len(), 0)
            }
        },
    }
}

/// The pretokens of a list of documents, one document after the other.
pub open spec fn docs_pretokens(pattern: Seq<char>, section: Seq<u8>, docs: Seq<(nat, nat)>) -> Seq<Seq<u8>>
    decreases docs.len(),
{
    if docs.len() == 0 {
        seq![]
    } else {
        doc_pretokens(pattern, section.subrange(docs[0].0 as int, docs[0].1 as int)) + docs_pretokens(
            pattern,
            section,
            docs.drop_first(),
        )
    }
}

/// The pretokens of a section, document by document.
pub open spec fn section_pretokens(pattern: Seq<char>, section: Seq<u8>, special: Option<Seq<u8>>) -> Seq<Seq<u8>> {
    docs_pretokens(pattern, section, section_documents(section, special))
}

/// The bytes of an optional special token.
pub open spec fn token_model(t: Option<&[u8]>) -> Option<Seq<u8>> {
    match t {
        Some(s) => Some(s@),
        None => None,
    }
}

/// Counts the pretokens of one section of the corpus: split at the special
/// token into documents, each document split into pretokens by the
/// pretokenizer. `None` when a count could pass `usize::MAX`.
pub fn count_section_pretokens(
    section: &[u8],
    split_special_token: Option<&[u8]>,
    pretokenizer: &Pretokenizer,
) -> (r: Option<HashMap<Vec<u8>, usize>>)
    ensures
        r is None == (section_pretokens(pretokenizer.pattern(), section@, token_model(split_special_token)).len()
            > usize::MAX),
        r matches Some(m) ==> (forall|w: Seq<u8>|
            #[trigger] count_of(pretoken_count_entries(m), w) == word_count(
                section_pretokens(pretokenizer.pattern(), section@, token_model(split_special_token)),
                w,
            )) && (forall|w: Seq<u8>|
            #[trigger] pretoken_count_entries(m).contains_key(w) == (word_count(
                section_pretokens(pretokenizer.pattern(), section@, token_model(split_special_token)),
                w,
            ) > 0)),
{
    let ghost pattern = pretokenizer.pattern();
    let ghost all = section_pretokens(pattern, section@, token_model(split_special_token));
    let mut pretoken_counts = counts_new();
    proof {
        assert forall|w: Seq<u8>| #[trigger] count_of(pretoken_count_entries(pretoken_counts), w) == 0 by {
            assert(!pretoken_count_entries(pretoken_counts).contains_key(w));
        }
    }
    let st = match split_special_token {
        None => {
            let ghost whole = seq![(0nat, section@.len())];
            proof {
                assert(section_documents(section@, token_model(split_special_token)) == whole);
                assert(section@.subrange(0, section@.len() as int) =~= section@);
                assert(whole.drop_first() =~= Seq::<(nat, nat)>::empty());
                assert(docs_pretokens(pattern, section@, Seq::<(nat, nat)>::empty()) == Seq::<Seq<u8>>::empty());
                assert(all =~= doc_pretokens(pattern, section@) + Seq::<Seq<u8>>::empty());
            }
            return match add_to_hash(&mut pretoken_counts, section, pretokenizer, 0) {
                None => None,
                Some(_) => {
                    proof {
                        assert(all =~= doc_pretokens(pattern, section@));
                    }
                    Some(pretoken_counts)
                },
            };
        },
        Some(st) => st,
    };
    let locs = find_all(section, st);
    if locs.len() == 0 {
        proof {
            let whole = seq![(0nat, section@.len())];
            assert(section_documents(section@, token_model(split_special_token)) == whole);
            assert(section@.subrange(0, section@.len() as int) =~= section@);
            assert(whole.drop_first() =~= Seq::<(nat, nat)>::empty());
            assert(docs_pretokens(pattern, section@, Seq::<(nat, nat)>::empty()) == Seq::<Seq<u8>>::empty());
            assert(all =~= doc_pretokens(pattern, section@) + Seq::<Seq<u8>>::empty());
            assert(all =~= doc_pretokens(pattern, section@));
        }
        return match add_to_hash(&mut pretoken_counts, section, pretokenizer, 0) {
            None => None,
            Some(_) => Some(pretoken_counts),
        };
    }
    proof {
        assert(section@.len() == section.len());
        lemma_occurrences_props(section@, st@, 0);
        assert(locs@.skip(0) =~= locs@);
        assert(Seq::<Seq<u8>>::empty() + all =~= all);
    }
    let ghost mut processed: Seq<Seq<u8>> = Seq::empty();
    let mut start: usize = 0;
    let mut counted: usize = 0;
    let mut k: usize = 0;
    while k < locs.len()
        invariant
            pattern == pretokenizer.pattern(),
            all == section_pretokens(pattern, section@, token_model(split_special_token)),
            locs@ == occurrences_from(section@, st@, 0),
            forall|j: int| 0 <= j < locs.len() ==> #[trigger] occurs_at(section@, st@, locs@[j] as int),
            forall|j: int|
                0 <= j && j + 1 < locs.len() ==> #[trigger] locs@[j + 1] >= locs@[j] + st@.len() && locs@[j + 1]
                    > locs@[j],
            k <= locs.len(),
            start <= section.len(),
            k < locs.len() ==> start <= locs@[k as int],
            all == processed + docs_pretokens(pattern, section@, documents_between(locs@.skip(k as int), st@.len(), start as nat)),
            counted == processed.len(),
            forall|w: Seq<u8>| #[trigger] count_of(pretoken_count_entries(pretoken_counts), w) == word_count(processed, w),
            forall|w: Seq<u8>| #[trigger] pretoken_count_entries(pretoken_counts).contains_key(w) == (word_count(processed, w) > 0),
        decreases locs.len() - k,
    {
        let end = locs[k];
        let ghost rest = locs@.skip(k as int);
        proof {
            assert(rest[0] == end);
            assert(rest.drop_first() =~= locs@.skip(k + 1));
            assert(occurs_at(section@, st@, locs@[k as int] as int));
        }
        if end != start {
            let doc = &section[start..end];
            let ghost dw = doc_pretokens(pattern, doc@);
            proof {
                assert forall|w: Seq<u8>| #[trigger] count_of(pretoken_count_entries(pretoken_counts), w) <= counted by {
                    lemma_word_count_le_len(processed, w);
                }
                let d = (start as nat, end as nat);
                assert(documents_between(rest, st@.len(), start as nat) == seq![d] + documents_between(
                    locs@.skip(k + 1),
                    st@.len(),
                    (end + st@.len()) as nat,
                ));
                let tail = documents_between(locs@.skip(k + 1), st@.len(), (end + st@.len()) as nat);
                assert((seq![d] + tail)[0] == d);
                assert((seq![d] + tail).drop_first() =~= tail);
                assert(section@.subrange(start as int, end as int) == doc@);
                assert(all == processed + (dw + docs_pretokens(pattern, section@, tail)));
                assert(processed + (dw + docs_pretokens(pattern, section@, tail)) =~= (processed + dw)
                    + docs_pretokens(pattern, section@, tail));
            }
            match add_to_hash(&mut pretoken_counts, doc, pretokenizer, counted) {
                None => {
                    proof {
                        let tail = documents_between(locs@.skip(k + 1), st@.len(), (end + st@.len()) as nat);
                        assert(all.len() >= processed.len() + dw.len());
                        assert(counted + dw.len() > usize::MAX);
                        assert(all.len() > usize::MAX);
                    }
                    return None;
                },
                Some(c) => {
                    counted = c;
                },
            }
            proof {
                assert forall|w: Seq<u8>| true implies #[trigger] word_count(processed + dw, w) == word_count(processed, w)
                    + word_count(dw, w) by {
                    lemma_word_count_concat(processed, dw, w);
                }
                processed = processed + dw;
            }
            start = end + st.len();
        } else {
            proof {
                assert(documents_between(rest, st@.len(), start as nat) == documents_between(
                    locs@.skip(k + 1),
                    st@.len(),
                    start as nat,
                ));
            }
        }
        k = k + 1;
    }
    proof {
        assert(locs@.skip(k as int) =~= Seq::<usize>::empty());
        assert(processed + Seq::<Seq<u8>>::empty() =~= processed);
    }
    Some(pretoken_counts)
}

} // verus!
