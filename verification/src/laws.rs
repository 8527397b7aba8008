//! Properties of training and encoding that hold across calls and across
//! the whole run: what a merge keeps and removes, when training stops, and
//! what merging found words keeps of the text, and how a corpus without the
//! special token is cut.

use vstd::prelude::*;
use crate::byte_order::{bytes_lt, key_lt, lemma_key_lt_total, lemma_key_lt_transitive, pair_lt};
use crate::pair_model::{
    best_pair, bpe_merges, has_pair, is_best_pair, lemma_merge_nonempty, lemma_merge_removes_pair,
    lemma_occurrence_position, lemma_total_positive_witness, merge_all, merge_tokens,
    pair_occurrences, pair_total, pretokens_wf, PairModel, PretokenModel,
};
use crate::pretokenizing::{
    dedup_adjacent, is_first_occurrence_from, occurrences_from, occurs_at, section_pretokens,
};
use crate::encode_decode::{
    covered_len, fold_merges, has_text_bytes, initial_tokens, is_found_word, lemma_covered_concat,
    lemma_covered_take_le, lemma_covered_take_lt, lemma_merge_keeps_cover, lemma_merge_span_direct,
    lemma_scan_positive, merge_fits, merge_span, merge_token_model, spans_whole_tokens, token_ids,
    vocab_injective, word_of, decode_ids, detail_lt, details_sorted, DetailModel, TokenModel,
};

verus! {

/// The bytes of a token sequence, joined in order.
pub open spec fn joined(s: Seq<Seq<u8>>) -> Seq<u8>
    decreases s.len(),
{
    if s.len() == 0 {
        Seq::empty()
    } else {
        s[0] + joined(s.drop_first())
    }
}

/// Applies the merges `ms`, in order, to the pretokens.
pub open spec fn merge_sequence(pts: Seq<PretokenModel>, ms: Seq<PairModel>) -> Seq<PretokenModel>
    decreases ms.len(),
{
    if ms.len() == 0 {
        pts
    } else {
        merge_sequence(merge_all(pts, ms[0]), ms.drop_first())
    }
}

proof fn lemma_joined_cons(x: Seq<u8>, t: Seq<Seq<u8>>)
    ensures
        joined(seq![x] + t) == x + joined(t),
{
    assert((seq![x] + t).drop_first() =~= t);
    assert((seq![x] + t)[0] == x);
}

/// Merging a pair never changes the bytes of a token sequence: the tokens
/// are only regrouped.
pub proof fn law_merge_keeps_bytes(s: Seq<Seq<u8>>, p: PairModel)
    ensures
        joined(merge_tokens(s, p)) == joined(s),
    decreases s.len(),
{
    if s.len() >= 2 {
        if s[0] == p.0 && s[1] == p.1 {
            law_merge_keeps_bytes(s.skip(2), p);
            lemma_joined_cons(p.0 + p.1, merge_tokens(s.skip(2), p));
            assert(s.drop_first().drop_first() =~= s.skip(2));
            assert(joined(s.drop_first()) == s[1] + joined(s.skip(2)));
            assert((p.0 + p.1) + joined(s.skip(2)) =~= p.0 + (p.1 + joined(s.skip(2))));
        } else {
            law_merge_keeps_bytes(s.drop_first(), p);
            lemma_joined_cons(s[0], merge_tokens(s.drop_first(), p));
        }
    }
}

/// Once a pair of non-empty tokens is merged in every pretoken, it occurs
/// in none of them.
pub proof fn law_merged_pair_vanishes(pts: Seq<PretokenModel>, p: PairModel)
    requires
        p.0.len() > 0,
        p.1.len() > 0,
    ensures
        pair_total(merge_all(pts, p), p) == 0,
    decreases pts.len(),
{
    if pts.len() > 0 {
        let m = merge_all(pts, p);
        assert(m.drop_last() =~= merge_all(pts.drop_last(), p));
        law_merged_pair_vanishes(pts.drop_last(), p);
        lemma_merge_removes_pair(pts.last().tokens, p);
        assert(m.last().tokens == merge_tokens(pts.last().tokens, p));
        assert(pair_occurrences(m.last().tokens, p) == 0);
        assert(m.last().count * 0 == 0) by (nonlinear_arith);
    }
}

/// The best pair, once merged, occurs nowhere any more: training never
/// picks the same pair twice in a row.
pub proof fn law_best_pair_vanishes(pts: Seq<PretokenModel>, p: PairModel)
    requires
        pretokens_wf(pts),
        is_best_pair(pts, p),
    ensures
        pair_total(merge_all(pts, p), p) == 0,
{
    lemma_total_positive_witness(pts, p);
    let k = choose|k: int| 0 <= k < pts.len() && #[trigger] pair_occurrences(pts[k].tokens, p) > 0;
    lemma_occurrence_position(pts[k].tokens, p);
    let j = choose|j: int| 0 <= j && j + 1 < pts[k].tokens.len() && #[trigger] pts[k].tokens[j] == p.0 && pts[k].tokens[j + 1] == p.1;
    assert(pts[k].count > 0);
    assert(pts[k].tokens[j].len() > 0);
    assert(pts[k].tokens[j + 1].len() > 0);
    law_merged_pair_vanishes(pts, p);
}

/// Merging keeps the pretokens well formed: counts stay positive and
/// tokens non-empty.
pub proof fn law_merge_keeps_wf(pts: Seq<PretokenModel>, p: PairModel)
    requires
        pretokens_wf(pts),
    ensures
        pretokens_wf(merge_all(pts, p)),
{
    let m = merge_all(pts, p);
    assert forall|k: int| 0 <= k < m.len() implies #[trigger] m[k].count > 0 && forall|j: int|
        0 <= j < m[k].tokens.len() ==> m[k].tokens[j].len() > 0 by {
        assert(pts[k].count > 0);
        lemma_merge_nonempty(pts[k].tokens, p);
    }
}

/// Training makes at most as many merges as it is allowed.
pub proof fn law_merge_count_bounded(pts: Seq<PretokenModel>, n: nat)
    ensures
        bpe_merges(pts, n).len() <= n,
    decreases n,
{
    if n > 0 && has_pair(pts) {
        let p = crate::pair_model::best_pair(pts);
        law_merge_count_bounded(merge_all(pts, p), (n - 1) as nat);
    }
}

/// Training stops short of the allowed number of merges only when, after
/// its merges, no pair of adjacent tokens is left.
pub proof fn law_stops_only_without_pairs(pts: Seq<PretokenModel>, n: nat)
    ensures
        bpe_merges(pts, n).len() < n ==> !has_pair(merge_sequence(pts, bpe_merges(pts, n))),
    decreases n,
{
    let ms = bpe_merges(pts, n);
    if n > 0 {
        if !has_pair(pts) {
            assert(ms.len() == 0);
        } else {
            let p = crate::pair_model::best_pair(pts);
            let rest = bpe_merges(merge_all(pts, p), (n - 1) as nat);
            law_stops_only_without_pairs(merge_all(pts, p), (n - 1) as nat);
            assert(ms == seq![p] + rest);
            assert(ms.drop_first() =~= rest);
            assert(ms[0] == p);
        }
    }
}

/// The pairs of adjacent tokens of a token sequence, in order.
pub open spec fn adjacent_pairs(s: Seq<Seq<u8>>) -> Seq<PairModel> {
    Seq::new(if s.len() >= 1 { (s.len() - 1) as nat } else { 0 }, |j: int| (s[j], s[j + 1]))
}

/// The pairs of adjacent tokens of all pretokens, pretoken by pretoken.
pub open spec fn all_pairs(pts: Seq<PretokenModel>) -> Seq<PairModel>
    decreases pts.len(),
{
    if pts.len() == 0 {
        Seq::empty()
    } else {
        all_pairs(pts.drop_last()) + adjacent_pairs(pts.last().tokens)
    }
}

proof fn lemma_all_pairs_contains(pts: Seq<PretokenModel>, k: int, q: PairModel)
    requires
        0 <= k < pts.len(),
        pair_occurrences(pts[k].tokens, q) > 0,
    ensures
        all_pairs(pts).contains(q),
    decreases pts.len(),
{
    let last = pts.len() - 1;
    if k == last {
        lemma_occurrence_position(pts[k].tokens, q);
        let j = choose|j: int| 0 <= j && j + 1 < pts[k].tokens.len() && #[trigger] pts[k].tokens[j] == q.0 && pts[k].tokens[j + 1] == q.1;
        let a = adjacent_pairs(pts.last().tokens);
        assert(a[j] == q);
        let all = all_pairs(pts);
        let before = all_pairs(pts.drop_last());
        assert(all[before.len() + j] == q);
    } else {
        assert(pts.drop_last()[k] == pts[k]);
        lemma_all_pairs_contains(pts.drop_last(), k, q);
        let before = all_pairs(pts.drop_last());
        let i = choose|i: int| 0 <= i < before.len() && before[i] == q;
        assert(all_pairs(pts)[i] == q);
    }
}

/// A pair of `s` whose key `(total, pair)` is the greatest among the pairs of `s`.
proof fn lemma_max_key(pts: Seq<PretokenModel>, s: Seq<PairModel>) -> (m: PairModel)
    requires
        s.len() > 0,
    ensures
        s.contains(m),
        forall|q: PairModel| #[trigger] s.contains(q) && q != m ==> key_lt(pair_total(pts, q), q, pair_total(pts, m), m),
    decreases s.len(),
{
    let x = s.last();
    if s.len() == 1 {
        assert(s[0] == x);
        assert forall|q: PairModel| #[trigger] s.contains(q) && q != x implies key_lt(pair_total(pts, q), q, pair_total(pts, x), x) by {
            let i = choose|i: int| 0 <= i < s.len() && s[i] == q;
        }
        x
    } else {
        let r = s.drop_last();
        let m0 = lemma_max_key(pts, r);
        let i0 = choose|i: int| 0 <= i < r.len() && r[i] == m0;
        assert(s[i0] == m0);
        assert(s[s.len() - 1] == x);
        let m = if m0 == x || key_lt(pair_total(pts, m0), m0, pair_total(pts, x), x) { x } else { m0 };
        if m0 != x {
            lemma_key_lt_total(pair_total(pts, m0), m0, pair_total(pts, x), x);
        }
        assert forall|q: PairModel| #[trigger] s.contains(q) && q != m implies key_lt(pair_total(pts, q), q, pair_total(pts, m), m) by {
            let i = choose|i: int| 0 <= i < s.len() && s[i] == q;
            if i < r.len() {
                assert(r[i] == q);
                assert(r.contains(q));
                if q != m0 && m != m0 {
                    lemma_key_lt_transitive(pair_total(pts, q), q, pair_total(pts, m0), m0, pair_total(pts, x), x);
                }
            }
        }
        m
    }
}

/// Whenever some pair occurs, a best pair exists, so the pair training
/// picks next has the greatest total (ties to the greatest pair), and that
/// total is positive.
pub proof fn law_best_pair_exists(pts: Seq<PretokenModel>)
    requires
        has_pair(pts),
    ensures
        is_best_pair(pts, best_pair(pts)),
{
    let q0 = choose|q: PairModel| #[trigger] pair_total(pts, q) > 0;
    lemma_total_positive_witness(pts, q0);
    let k0 = choose|k: int| 0 <= k < pts.len() && #[trigger] pair_occurrences(pts[k].tokens, q0) > 0;
    lemma_all_pairs_contains(pts, k0, q0);
    let s = all_pairs(pts);
    let m = lemma_max_key(pts, s);
    assert(pair_total(pts, m) > 0) by {
        if q0 != m {
            assert(s.contains(q0));
        }
    }
    assert forall|q: PairModel| #![trigger pair_total(pts, q)] pair_total(pts, q) > 0 && q != m implies key_lt(
        pair_total(pts, q),
        q,
        pair_total(pts, m),
        m,
    ) by {
        lemma_total_positive_witness(pts, q);
        let k = choose|k: int| 0 <= k < pts.len() && #[trigger] pair_occurrences(pts[k].tokens, q) > 0;
        lemma_all_pairs_contains(pts, k, q);
    }
    assert(is_best_pair(pts, m));
}

/// Each merge that training makes is the best pair of the pretokens as the
/// merges before it left them: the greatest total, ties to the greatest
/// pair, and a positive total.
pub proof fn law_each_merge_is_best(pts: Seq<PretokenModel>, n: nat, k: int)
    requires
        0 <= k < bpe_merges(pts, n).len(),
    ensures
        is_best_pair(merge_sequence(pts, bpe_merges(pts, n).take(k)), bpe_merges(pts, n)[k]),
    decreases k,
{
    let ms = bpe_merges(pts, n);
    assert(n > 0 && has_pair(pts));
    let p = best_pair(pts);
    let rest = bpe_merges(merge_all(pts, p), (n - 1) as nat);
    assert(ms == seq![p] + rest);
    if k == 0 {
        assert(ms.take(0) =~= Seq::<PairModel>::empty());
        law_best_pair_exists(pts);
    } else {
        law_each_merge_is_best(merge_all(pts, p), (n - 1) as nat, k - 1);
        let t = ms.take(k);
        assert(t[0] == p);
        assert(t.drop_first() =~= rest.take(k - 1));
        assert(ms[k] == rest[k - 1]);
    }
}

/// Merging found words of positive length into the byte tokens of a text
/// keeps the tokens covering exactly the text, and never makes more tokens
/// than the text has bytes.
pub proof fn law_merges_cover_text(text: Seq<u8>, ds: Seq<DetailModel>)
    requires
        forall|i: int| 0 <= i < ds.len() ==> #[trigger] ds[i].1.len() > 0,
        text.len() <= usize::MAX,
    ensures
        covered_len(fold_merges(initial_tokens(text), ds)) == text.len(),
        fold_merges(initial_tokens(text), ds).len() <= text.len(),
{
    let toks = initial_tokens(text);
    lemma_initial_cover(text, text.len() as int);
    assert(toks.take(text.len() as int) =~= toks);
    lemma_fold_cover(toks, ds);
}

proof fn lemma_initial_cover(text: Seq<u8>, i: int)
    requires
        0 <= i <= text.len(),
    ensures
        covered_len(initial_tokens(text).take(i)) == i,
    decreases i,
{
    if i > 0 {
        lemma_initial_cover(text, i - 1);
        assert(initial_tokens(text).take(i).drop_last() =~= initial_tokens(text).take(i - 1));
    }
}

proof fn lemma_fold_cover(toks: Seq<TokenModel>, ds: Seq<DetailModel>)
    requires
        forall|i: int| 0 <= i < ds.len() ==> #[trigger] ds[i].1.len() > 0,
        forall|j: int| 0 <= j < toks.len() ==> #[trigger] toks[j].1 > 0,
        covered_len(toks) <= usize::MAX,
    ensures
        covered_len(fold_merges(toks, ds)) == covered_len(toks),
        fold_merges(toks, ds).len() <= toks.len(),
    decreases ds.len(),
{
    if ds.len() > 0 {
        let d = ds[0];
        assert(d.1.len() > 0);
        lemma_word_fits(toks, d);
        if d.1.len() <= usize::MAX {
            lemma_merge_keeps_cover(toks, d);
            lemma_merge_not_longer(toks, d);
        }
        let rest = ds.drop_first();
        assert forall|i: int| 0 <= i < rest.len() implies #[trigger] rest[i].1.len() > 0 by {
            assert(rest[i] == ds[i + 1]);
        }
        lemma_fold_cover(merge_token_model(toks, d), rest);
    }
}

/// A word longer than the text cannot be merged; so only words that fit in
/// `usize` matter.
proof fn lemma_word_fits(toks: Seq<TokenModel>, d: DetailModel)
    requires
        d.1.len() > 0,
        forall|j: int| 0 <= j < toks.len() ==> #[trigger] toks[j].1 > 0,
        covered_len(toks) <= usize::MAX,
    ensures
        d.1.len() > usize::MAX ==> merge_token_model(toks, d) == toks,
{
    if d.1.len() > usize::MAX {
        assert(toks.take(0) =~= Seq::<TokenModel>::empty());
        lemma_scan_positive(toks, 0, 0, 0, 0, d.2 as int, d.2 + d.1.len());
        match merge_span(toks, d.2 as int, d.1.len() as int) {
            Some((a, c)) => {
                lemma_covered_take_le(toks, a + c);
            },
            None => {},
        }
    }
}

proof fn lemma_merge_not_longer(toks: Seq<TokenModel>, d: DetailModel)
    requires
        merge_fits(toks, d),
    ensures
        merge_token_model(toks, d).len() <= toks.len(),
{
}

} // verus!

verus! {

/// Where the special token does not occur in a section, the whole section
/// is one document: its pretokens are those found with no special token.
pub proof fn law_absent_token_one_document(pattern: Seq<char>, section: Seq<u8>, st: Seq<u8>)
    requires
        forall|i: int| !#[trigger] occurs_at(section, st, i),
    ensures
        section_pretokens(pattern, section, Some(st)) == section_pretokens(pattern, section, None),
{
    assert(!exists|i: int| is_first_occurrence_from(section, st, 0, i));
    assert(occurrences_from(section, st, 0).len() == 0);
}

proof fn lemma_dedup_constant(fs: u64, n: nat)
    requires
        n >= 1,
    ensures
        dedup_adjacent(Seq::new(n, |i: int| fs)) == seq![fs],
    decreases n,
{
    let s = Seq::new(n, |i: int| fs);
    if n > 1 {
        lemma_dedup_constant(fs, (n - 1) as nat);
        assert(s.drop_first() =~= Seq::new((n - 1) as nat, |i: int| fs));
    } else {
        assert(s =~= seq![fs]);
    }
}

/// When no chunk boundary found the special token, every inner boundary
/// moved to the end of the file, and removing duplicates leaves the single
/// chunk from the start of the file to its end.
pub proof fn law_boundaries_collapse_without_token(file_size: u64, n: nat)
    requires
        file_size > 0,
        n >= 1,
    ensures
        dedup_adjacent(seq![0u64] + Seq::new(n, |i: int| file_size)) == seq![0u64, file_size],
{
    let s = seq![0u64] + Seq::new(n, |i: int| file_size);
    lemma_dedup_constant(file_size, n);
    assert(s[0] == 0u64);
    assert(s[1] == file_size);
    assert(s.drop_first() =~= Seq::new(n, |i: int| file_size));
    assert(seq![0u64] + seq![file_size] =~= seq![0u64, file_size]);
}

} // verus!

verus! {

/// The bytes that token `k` covers.
pub open spec fn token_word(text: Seq<u8>, toks: Seq<TokenModel>, k: int) -> Seq<u8> {
    text.subrange(covered_len(toks.take(k)) as int, covered_len(toks.take(k)) + toks[k].1)
}

/// The one-byte find at byte `o` of the text.
pub open spec fn single_find(text: Seq<u8>, vocab: Map<Seq<u8>, u32>, o: nat) -> DetailModel {
    (vocab[seq![text[o as int]]], seq![text[o as int]], o as usize)
}

/// Token `k` is a vocabulary word with its id, or a single byte whose
/// one-byte find is still to be merged.
pub open spec fn token_ok(
    text: Seq<u8>,
    vocab: Map<Seq<u8>, u32>,
    toks: Seq<TokenModel>,
    k: int,
    ds: Seq<DetailModel>,
) -> bool {
    ||| vocab.contains_key(token_word(text, toks, k)) && toks[k].0 == vocab[token_word(text, toks, k)]
    ||| toks[k].1 == 1 && ds.contains(single_find(text, vocab, covered_len(toks.take(k))))
}

/// The state of encoding while the finds `ds` are still to be merged.
pub open spec fn decode_inv(
    text: Seq<u8>,
    vocab: Map<Seq<u8>, u32>,
    toks: Seq<TokenModel>,
    ds: Seq<DetailModel>,
) -> bool {
    &&& text.len() <= usize::MAX
    &&& forall|j: int| 0 <= j < toks.len() ==> #[trigger] toks[j].1 > 0
    &&& covered_len(toks) == text.len()
    &&& forall|k: int| 0 <= k < toks.len() ==> #[trigger] token_ok(text, vocab, toks, k, ds)
    &&& forall|i: int| 0 <= i < ds.len() ==> #[trigger] is_found_word(text, vocab, ds[i])
}

proof fn lemma_single_find_contained(ds: Seq<DetailModel>, x: DetailModel)
    requires
        ds.len() > 0,
        ds.contains(x),
        x != ds[0],
    ensures
        ds.drop_first().contains(x),
{
    let j = choose|j: int| 0 <= j < ds.len() && ds[j] == x;
    assert(ds.drop_first()[j - 1] == x);
}

proof fn lemma_decode_step(text: Seq<u8>, vocab: Map<Seq<u8>, u32>, toks: Seq<TokenModel>, ds: Seq<DetailModel>)
    requires
        decode_inv(text, vocab, toks, ds),
        ds.len() > 0,
    ensures
        decode_inv(text, vocab, merge_token_model(toks, ds[0]), ds.drop_first()),
{
    let d = ds[0];
    let rest = ds.drop_first();
    assert(is_found_word(text, vocab, d));
    let b = d.2 as int;
    let len = d.1.len() as int;
    lemma_covered_take_le(toks, toks.len() as int);
    assert(toks.take(toks.len() as int) =~= toks);
    lemma_merge_keeps_cover(toks, d);
    lemma_merge_span_direct(toks, b, len);
    let m = merge_token_model(toks, d);
    assert forall|i: int| 0 <= i < rest.len() implies #[trigger] is_found_word(text, vocab, rest[i]) by {
        assert(rest[i] == ds[i + 1]);
    }
    match merge_span(toks, b, len) {
        None => {
            assert(m == toks);
            assert forall|k: int| 0 <= k < m.len() implies #[trigger] token_ok(text, vocab, m, k, rest) by {
                assert(token_ok(text, vocab, toks, k, ds));
                let o = covered_len(toks.take(k));
                let x = single_find(text, vocab, o);
                if !(vocab.contains_key(token_word(text, toks, k)) && toks[k].0 == vocab[token_word(text, toks, k)]) {
                    if x == d {
                        assert(toks.take(k + 1).drop_last() =~= toks.take(k));
                        assert(toks.take(k + 1).last() == toks[k]);
                        lemma_covered_take_le(toks, k);
                        assert(covered_len(toks.take(k + 1)) == o + 1);
                        assert(b == o && len == 1);
                        assert(spans_whole_tokens(toks, k, 1, b, b + len));
                    }
                    lemma_single_find_contained(ds, x);
                }
            }
        },
        Some((a, c)) => {
            assert(spans_whole_tokens(toks, a, c, b, b + len));
            let w = seq![(d.0, d.1.len() as usize)];
            assert(m == toks.take(a) + w + toks.skip(a + c));
            assert forall|k: int| 0 <= k < m.len() implies #[trigger] token_ok(text, vocab, m, k, rest) by {
                if k < a {
                    assert(m[k] == toks[k]);
                    assert(m.take(k) =~= toks.take(k));
                    assert(token_word(text, m, k) == token_word(text, toks, k));
                    assert(token_ok(text, vocab, toks, k, ds));
                    let x = single_find(text, vocab, covered_len(toks.take(k)));
                    lemma_covered_take_lt(toks, k, a);
                    assert(x != d);
                    if ds.contains(x) {
                        lemma_single_find_contained(ds, x);
                    }
                } else if k == a {
                    assert(m.take(a) =~= toks.take(a));
                    assert(m[a] == (d.0, d.1.len() as usize));
                    assert(token_word(text, m, a) == d.1);
                } else {
                    let kk = k + c - 1;
                    assert(m[k] == toks[kk]);
                    assert(m.take(k) =~= toks.take(a) + w + toks.subrange(a + c, kk));
                    assert(toks.take(kk) =~= toks.take(a + c) + toks.subrange(a + c, kk));
                    lemma_covered_concat(toks.take(a) + w, toks.subrange(a + c, kk));
                    lemma_covered_concat(toks.take(a), w);
                    lemma_covered_concat(toks.take(a + c), toks.subrange(a + c, kk));
                    assert(covered_len(w) == len) by {
                        assert(w.drop_last() =~= Seq::<TokenModel>::empty());
                        assert(covered_len(Seq::<TokenModel>::empty()) == 0);
                        assert(w.last() == (d.0, d.1.len() as usize));
                        assert(d.1.len() <= usize::MAX);
                        assert(covered_len(w) == covered_len(w.drop_last()) + w.last().1);
                    }
                    assert(covered_len(m.take(k)) == covered_len(toks.take(kk)));
                    assert(token_ok(text, vocab, toks, kk, ds));
                    let x = single_find(text, vocab, covered_len(toks.take(kk)));
                    lemma_covered_take_lt(toks, a, kk);
                    lemma_covered_take_le(toks, kk);
                    assert(x != d);
                    if ds.contains(x) {
                        lemma_single_find_contained(ds, x);
                    }
                    assert(token_word(text, m, k) == token_word(text, toks, kk));
                }
            }
        },
    }
}

proof fn lemma_decode_fold(text: Seq<u8>, vocab: Map<Seq<u8>, u32>, toks: Seq<TokenModel>, ds: Seq<DetailModel>)
    requires
        decode_inv(text, vocab, toks, ds),
    ensures
        decode_inv(text, vocab, fold_merges(toks, ds), Seq::empty()),
    decreases ds.len(),
{
    if ds.len() == 0 {
        assert(ds =~= Seq::<DetailModel>::empty());
    } else {
        lemma_decode_step(text, vocab, toks, ds);
        lemma_decode_fold(text, vocab, merge_token_model(toks, ds[0]), ds.drop_first());
    }
}

proof fn lemma_joined_push(s: Seq<Seq<u8>>, x: Seq<u8>)
    ensures
        joined(s.push(x)) == joined(s) + x,
    decreases s.len(),
{
    if s.len() == 0 {
        assert(s.push(x) =~= seq![x]);
        assert(seq![x].drop_first() =~= Seq::<Seq<u8>>::empty());
        assert(joined(Seq::<Seq<u8>>::empty()) == Seq::<u8>::empty());
        assert(joined(seq![x]) == seq![x][0] + joined(seq![x].drop_first()));
        assert(Seq::<u8>::empty() + x =~= x);
        assert(x + Seq::<u8>::empty() =~= x);
    } else {
        lemma_joined_push(s.drop_first(), x);
        assert(s.push(x).drop_first() =~= s.drop_first().push(x));
        assert(s.push(x)[0] == s[0]);
        assert(joined(s.push(x)) == s[0] + joined(s.drop_first().push(x)));
        assert(s[0] + (joined(s.drop_first()) + x) =~= (s[0] + joined(s.drop_first())) + x);
    }
}

proof fn lemma_joined_words(text: Seq<u8>, toks: Seq<TokenModel>, words: Seq<Seq<u8>>, m: int)
    requires
        words.len() == toks.len(),
        forall|k: int| 0 <= k < toks.len() ==> #[trigger] words[k] == token_word(text, toks, k),
        covered_len(toks) <= text.len(),
        0 <= m <= toks.len(),
    ensures
        joined(words.take(m)) == text.subrange(0, covered_len(toks.take(m)) as int),
    decreases m,
{
    if m == 0 {
        assert(words.take(0) =~= Seq::<Seq<u8>>::empty());
        assert(toks.take(0) =~= Seq::<TokenModel>::empty());
        assert(text.subrange(0, 0) =~= Seq::<u8>::empty());
    } else {
        lemma_joined_words(text, toks, words, m - 1);
        assert(words.take(m) =~= words.take(m - 1).push(words[m - 1]));
        lemma_joined_push(words.take(m - 1), words[m - 1]);
        assert(toks.take(m).drop_last() =~= toks.take(m - 1));
        lemma_covered_take_le(toks, m);
        let o = covered_len(toks.take(m - 1)) as int;
        let e = covered_len(toks.take(m)) as int;
        assert(text.subrange(0, e) =~= text.subrange(0, o) + text.subrange(o, e));
    }
}

/// With a vocabulary in which no two words share an id and which holds
/// every byte of the text as a one-byte word, decoding the ids of the
/// encoding, each id replaced by its word, gives the text back.
pub proof fn law_encode_decode_round_trip(text: Seq<u8>, vocab: Map<Seq<u8>, u32>, ds: Seq<DetailModel>)
    requires
        text.len() <= usize::MAX,
        vocab_injective(vocab),
        has_text_bytes(text, vocab),
        forall|x: DetailModel| #[trigger] ds.contains(x) == is_found_word(text, vocab, x),
    ensures
        decode_ids(token_ids(fold_merges(initial_tokens(text), ds)), vocab) == text,
{
    let toks = initial_tokens(text);
    lemma_initial_cover(text, text.len() as int);
    assert(toks.take(text.len() as int) =~= toks);
    assert forall|i: int| 0 <= i < ds.len() implies #[trigger] is_found_word(text, vocab, ds[i]) by {
        assert(ds.contains(ds[i]));
    }
    assert forall|k: int| 0 <= k < toks.len() implies #[trigger] token_ok(text, vocab, toks, k, ds) by {
        lemma_initial_cover(text, k);
        let x = single_find(text, vocab, k as nat);
        assert(vocab.contains_key(seq![text[k]]));
        assert(text.subrange(k, k + 1) =~= seq![text[k]]);
        assert(is_found_word(text, vocab, x));
    }
    lemma_decode_fold(text, vocab, toks, ds);
    let r = fold_merges(toks, ds);
    let ids = token_ids(r);
    let words = Seq::new(ids.len(), |i: int| word_of(vocab, ids[i]));
    assert forall|k: int| 0 <= k < r.len() implies #[trigger] words[k] == token_word(text, r, k) by {
        assert(token_ok(text, vocab, r, k, Seq::empty()));
        let w = token_word(text, r, k);
        assert(vocab.contains_key(w) && vocab[w] == ids[k]);
        let v = word_of(vocab, ids[k]);
        assert(vocab.contains_key(v) && vocab[v] == ids[k]);
    }
    lemma_joined_words(text, r, words, r.len() as int);
    assert(words.take(r.len() as int) =~= words);
    assert(r.take(r.len() as int) =~= r);
    assert(text.subrange(0, text.len() as int) =~= text);
}

} // verus!

verus! {

/// Byte order is lexicographic: `a` sorts before `b` when it is a proper
/// prefix of `b`, or when at the first position where they differ `a` has
/// the smaller byte. This is the order of `<` on `Vec<u8>`.
pub proof fn law_byte_order_is_lexicographic(a: Seq<u8>, b: Seq<u8>)
    ensures
        bytes_lt(a, b) <==> ((a.len() < b.len() && a == b.take(a.len() as int)) || exists|i: int|
            0 <= i < a.len() && i < b.len() && a.take(i) == b.take(i) && #[trigger] a[i] < b[i]),
    decreases a.len(),
{
    let prefix = a.len() < b.len() && a == b.take(a.len() as int);
    let differs = exists|i: int| 0 <= i < a.len() && i < b.len() && a.take(i) == b.take(i) && #[trigger] a[i] < b[i];
    if a.len() == 0 {
        assert(b.take(0) =~= a);
        assert(!differs);
    } else if b.len() == 0 {
        assert(!differs);
    } else {
        let a1 = a.drop_first();
        let b1 = b.drop_first();
        law_byte_order_is_lexicographic(a1, b1);
        if a[0] < b[0] {
            assert(a.take(0) =~= b.take(0));
            assert(differs);
        } else if a[0] > b[0] {
            if prefix {
                assert(a[0] == b.take(a.len() as int)[0]);
            }
            if differs {
                let i = choose|i: int| 0 <= i < a.len() && i < b.len() && a.take(i) == b.take(i) && #[trigger] a[i] < b[i];
                if i > 0 {
                    assert(a.take(i)[0] == b.take(i)[0]);
                }
            }
        } else {
            // Same first byte: both sides reduce to the rest.
            if bytes_lt(a1, b1) {
                if a1.len() < b1.len() && a1 == b1.take(a1.len() as int) {
                    assert forall|k: int| 0 <= k < a.len() implies a[k] == b.take(a.len() as int)[k] by {
                        if k > 0 {
                            assert(a[k] == a1[k - 1]);
                            assert(a1[k - 1] == b1.take(a1.len() as int)[k - 1]);
                        }
                    }
                    assert(a =~= b.take(a.len() as int));
                } else {
                    let i = choose|i: int| 0 <= i < a1.len() && i < b1.len() && a1.take(i) == b1.take(i) && #[trigger] a1[i] < b1[i];
                    assert(a.take(i + 1) =~= seq![a[0]] + a1.take(i));
                    assert(b.take(i + 1) =~= seq![b[0]] + b1.take(i));
                    assert(a[i + 1] < b[i + 1]);
                }
            } else {
                if prefix {
                    assert(a1 =~= b1.take(a1.len() as int));
                }
                if differs {
                    let i = choose|i: int| 0 <= i < a.len() && i < b.len() && a.take(i) == b.take(i) && #[trigger] a[i] < b[i];
                    assert(i > 0);
                    assert(a1.take(i - 1) =~= a.take(i).drop_first());
                    assert(b1.take(i - 1) =~= b.take(i).drop_first());
                    assert(a1[i - 1] < b1[i - 1]);
                }
            }
        }
    }
}

/// Pairs are ordered as the tuple `(left bytes, right bytes)`: by the left
/// bytes, then, when those are equal, by the right bytes.
pub proof fn law_pair_order_is_tuple_order(p: PairModel, q: PairModel)
    ensures
        pair_lt(p, q) <==> (bytes_lt(p.0, q.0) || (p.0 == q.0 && bytes_lt(p.1, q.1))),
{
}

/// Training keys are ordered by count, then as the tuple `(left bytes,
/// right bytes)` of the pair.
pub proof fn law_key_order_is_count_then_pair(c1: nat, p: PairModel, c2: nat, q: PairModel)
    ensures
        key_lt(c1, p, c2, q) <==> (c1 < c2 || (c1 == c2 && (bytes_lt(p.0, q.0) || (p.0 == q.0 && bytes_lt(
            p.1,
            q.1,
        ))))),
{
}

/// The best pair has the greatest total; among pairs of equal total it is
/// the greatest by left bytes, then by right bytes.
pub proof fn law_best_pair_wins_ties(pts: Seq<PretokenModel>, p: PairModel, q: PairModel)
    requires
        is_best_pair(pts, p),
        pair_total(pts, q) > 0,
        q != p,
    ensures
        pair_total(pts, q) < pair_total(pts, p) || (pair_total(pts, q) == pair_total(pts, p) && (bytes_lt(
            q.0,
            p.0,
        ) || (q.0 == p.0 && bytes_lt(q.1, p.1)))),
{
    assert(key_lt(pair_total(pts, q), q, pair_total(pts, p), p));
}

/// Found words are ordered by id, then by their bytes, then by where they
/// start.
pub proof fn law_found_word_order(a: DetailModel, b: DetailModel)
    ensures
        detail_lt(a, b) <==> (a.0 < b.0 || (a.0 == b.0 && (bytes_lt(a.1, b.1) || (a.1 == b.1 && a.2 < b.2)))),
{
}

/// In a sorted list of found words, and so in the order in which encoding
/// merges them, ids never decrease; words of one id come by their bytes,
/// then by where they start.
pub proof fn law_finds_merge_in_id_order(ds: Seq<DetailModel>, i: int, j: int)
    requires
        details_sorted(ds),
        0 <= i < j < ds.len(),
    ensures
        ds[i].0 <= ds[j].0,
        ds[i].0 == ds[j].0 ==> bytes_lt(ds[i].1, ds[j].1) || (ds[i].1 == ds[j].1 && ds[i].2 < ds[j].2),
{
    assert(detail_lt(ds[i], ds[j]));
}

/// Where a run of whole tokens `a .. a + c` covers exactly the bytes of the
/// found word `d`, merging `d` replaces that run by the single token with
/// the word's id and length, and leaves every other token as it is.
pub proof fn law_merge_replaces_covering_run(toks: Seq<TokenModel>, d: DetailModel, a: int, c: int)
    requires
        forall|j: int| 0 <= j < toks.len() ==> #[trigger] toks[j].1 > 0,
        d.1.len() > 0,
        d.1.len() <= usize::MAX,
        spans_whole_tokens(toks, a, c, d.2 as int, d.2 + d.1.len()),
    ensures
        merge_token_model(toks, d) == toks.take(a) + seq![(d.0, d.1.len() as usize)] + toks.skip(a + c),
{
    let b = d.2 as int;
    let e = d.2 + d.1.len();
    lemma_merge_span_direct(toks, b, d.1.len() as int);
    match merge_span(toks, b, d.1.len() as int) {
        Some((a2, c2)) => {
            if a2 < a {
                lemma_covered_take_lt(toks, a2, a);
            }
            if a < a2 {
                lemma_covered_take_lt(toks, a, a2);
            }
            if a2 + c2 < a + c {
                lemma_covered_take_lt(toks, a2 + c2, a + c);
            }
            if a + c < a2 + c2 {
                lemma_covered_take_lt(toks, a + c, a2 + c2);
            }
            assert(a2 == a && c2 == c);
        },
        None => {
            assert(!spans_whole_tokens(toks, a, c, b, e));
        },
    }
}

/// Where no run of whole tokens covers exactly the bytes of the found word
/// `d`, merging `d` leaves the tokens as they are.
pub proof fn law_merge_without_covering_run(toks: Seq<TokenModel>, d: DetailModel)
    requires
        forall|j: int| 0 <= j < toks.len() ==> #[trigger] toks[j].1 > 0,
        d.1.len() > 0,
        forall|a: int, c: int| !#[trigger] spans_whole_tokens(toks, a, c, d.2 as int, d.2 + d.1.len()),
    ensures
        merge_token_model(toks, d) == toks,
{
    lemma_merge_span_direct(toks, d.2 as int, d.1.len() as int);
    match merge_span(toks, d.2 as int, d.1.len() as int) {
        Some((a, c)) => {
            assert(spans_whole_tokens(toks, a, c, d.2 as int, d.2 + d.1.len()));
        },
        None => {},
    }
}

} // verus!
