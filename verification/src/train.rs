//! Byte-pair-encoding training: counting the pairs of adjacent tokens,
//! picking the most frequent pair, merging it in every pretoken that holds
//! it, and updating the counts incrementally.

use vstd::prelude::*;
use vstd::arithmetic::mul::{lemma_mul_inequality, lemma_mul_strictly_positive};
use crate::pair_tree::{AlphabetPairKey, PairTree};
use crate::byte_order::{compare_bytes, Order};
use crate::pair_index::{copy_bytes, AlphabetPair, AlphabetPairInfo, PairIndex};
use crate::pair_model::{
    lemma_merge_len, lemma_merge_nonempty, lemma_occurrences_le_len, lemma_occurrences_take,
    lemma_occurrences_take_le, lemma_total_le_weight, lemma_total_take_le, lemma_total_take_step,
    pair_total, pretokens_wf, token_weight,
    merge_tokens, pair_occurrences, PairModel, PretokenModel,
};

verus! {

/// A distinct pretoken of the corpus: how often it occurs, and its current
/// split into tokens.
pub struct Pretoken {
    pub count: usize,
    pub alphabet_list: Vec<Vec<u8>>,
}

/// The byte strings of a list of tokens.
pub open spec fn tokens_model(v: Seq<Vec<u8>>) -> Seq<Seq<u8>> {
    Seq::new(v.len(), |i: int| v[i]@)
}

impl View for Pretoken {
    type V = PretokenModel;

    open spec fn view(&self) -> PretokenModel {
        PretokenModel { count: self.count as nat, tokens: tokens_model(self.alphabet_list@) }
    }
}

/// The models of a list of pretokens.
pub open spec fn pretokens_model(v: Seq<Pretoken>) -> Seq<PretokenModel> {
    Seq::new(v.len(), |i: int| v[i]@)
}

/// The two halves of a pair, joined into one byte string.
pub fn flatten_pair(pair: &(Vec<u8>, Vec<u8>)) -> (r: Vec<u8>)
    ensures
        r@ == pair.0@ + pair.1@,
{
    let mut flattened = copy_bytes(pair.0.as_slice());
    let mut rest = copy_bytes(pair.1.as_slice());
    flattened.append(&mut rest);
    flattened
}

/// A copy of a list of tokens.
pub fn copy_tokens(v: &Vec<Vec<u8>>) -> (r: Vec<Vec<u8>>)
    ensures
        tokens_model(r@) == tokens_model(v@),
{
    let mut r: Vec<Vec<u8>> = Vec::new();
    let mut i: usize = 0;
    while i < v.len()
        invariant
            i <= v.len(),
            r@.len() == i,
            tokens_model(r@) == tokens_model(v@).take(i as int),
        decreases v.len() - i,
    {
        let ghost before = r@;
        let c = copy_bytes(v[i].as_slice());
        r.push(c);
        proof {
            assert forall|j: int| 0 <= j < i implies #[trigger] r@[j]@ == v@[j]@ by {
                assert(r@[j] == before[j]);
                assert(tokens_model(before)[j] == before[j]@);
                assert(tokens_model(v@).take(i as int)[j] == v@[j]@);
            }
        }
        i = i + 1;
        proof { assert(tokens_model(r@) =~= tokens_model(v@).take(i as int)); }
    }
    proof { assert(tokens_model(v@).take(i as int) =~= tokens_model(v@)); }
    r
}

/// The tokens of `pretoken` after merging `pair` in them from left to right.
pub fn new_alphabet_list(pretoken: &Pretoken, pair: &AlphabetPair) -> (r: Vec<Vec<u8>>)
    ensures
        tokens_model(r@) == merge_tokens(pretoken@.tokens, pair@),
{
    let ghost orig = pretoken@.tokens;
    let ghost p = pair@;
    let mut list = copy_tokens(&pretoken.alphabet_list);
    let mut i: usize = 1;
    proof {
        assert(tokens_model(list@).take(0) + tokens_model(list@).skip(0) =~= orig);
        assert(tokens_model(list@).skip(0) =~= orig);
    }
    while i < list.len()
        invariant
            1 <= i <= list.len() + 1,
            p == pair@,
            merge_tokens(orig, p) == tokens_model(list@).take(i - 1) + merge_tokens(
                tokens_model(list@).skip(i - 1),
                p,
            ),
        decreases list.len() + 1 - i,
    {
        let ghost s = tokens_model(list@);
        let ghost t = s.skip(i - 1);
        assert(t[0] == s[i - 1] && t[1] == s[i as int]);
        if compare_bytes(list[i - 1].as_slice(), pair.pair.0.as_slice()) == Order::Equal
            && compare_bytes(list[i].as_slice(), pair.pair.1.as_slice()) == Order::Equal {
            let merged = flatten_pair(&pair.pair);
            list.set(i - 1, merged);
            list.remove(i);
            proof {
                let s2 = tokens_model(list@);
                assert(t.skip(2) =~= s.skip(i + 1));
                assert(s2.take(i as int) =~= s.take(i - 1) + seq![p.0 + p.1]);
                assert(s2.skip(i as int) =~= s.skip(i + 1));
                assert(merge_tokens(t, p) == seq![p.0 + p.1] + merge_tokens(t.skip(2), p));
                assert(s.take(i - 1) + (seq![p.0 + p.1] + merge_tokens(s.skip(i + 1), p)) =~= s2.take(
                    i as int,
                ) + merge_tokens(s2.skip(i as int), p));
            }
        } else {
            proof {
                assert(t.drop_first() =~= s.skip(i as int));
                assert(merge_tokens(t, p) == seq![t[0]] + merge_tokens(t.drop_first(), p));
                assert(s.take(i as int) =~= s.take(i - 1) + seq![t[0]]);
                assert(s.take(i - 1) + (seq![t[0]] + merge_tokens(s.skip(i as int), p)) =~= s.take(
                    i as int,
                ) + merge_tokens(s.skip(i as int), p));
            }
        }
        i = i + 1;
    }
    proof {
        let s = tokens_model(list@);
        assert(s.skip(i - 1).len() < 2);
        assert(s.take(i - 1) + s.skip(i - 1) =~= s);
    }
    list
}

} // verus!

verus! {

/// Count of `p` in a map of pair info, zero when absent.
pub open spec fn count_in(m: Map<PairModel, (usize, Seq<usize>)>, p: PairModel) -> nat {
    if m.contains_key(p) {
        m[p].0 as nat
    } else {
        0
    }
}

/// Pretoken ids of `p` in a map of pair info, none when absent.
pub open spec fn ids_in(m: Map<PairModel, (usize, Seq<usize>)>, p: PairModel) -> Seq<usize> {
    if m.contains_key(p) {
        m[p].1
    } else {
        Seq::empty()
    }
}

/// The id list of a pair after a pretoken `pid` was counted: `pid` is
/// appended when the pair occurs in that pretoken and is not already the
/// last id.
pub open spec fn ids_after(ids: Seq<usize>, occurs: bool, pid: usize) -> Seq<usize> {
    if occurs && !(ids.len() > 0 && ids.last() == pid) {
        ids.push(pid)
    } else {
        ids
    }
}

/// The pairs of adjacent tokens in `tokens`, each with its number of
/// occurrences (and no pretoken ids).
pub fn count_pairs(tokens: &Vec<Vec<u8>>) -> (r: PairIndex)
    ensures
        r.wf(),
        forall|p: PairModel|
            #[trigger] r@.contains_key(p) == (pair_occurrences(tokens_model(tokens@), p) > 0),
        forall|p: PairModel|
            r@.contains_key(p) ==> #[trigger] r@[p].0 == pair_occurrences(tokens_model(tokens@), p),
{
    let ghost s = tokens_model(tokens@);
    let mut counts = PairIndex::new();
    let mut i: usize = 0;
    while i < tokens.len()
        invariant
            counts.wf(),
            i <= tokens.len(),
            s == tokens_model(tokens@),
            forall|p: PairModel|
                #[trigger] counts@.contains_key(p) == (pair_occurrences(s.take(i as int), p) > 0),
            forall|p: PairModel|
                counts@.contains_key(p) ==> #[trigger] counts@[p].0 == pair_occurrences(
                    s.take(i as int),
                    p,
                ),
        decreases tokens.len() - i,
    {
        let ghost k = i as int;
        if i >= 1 {
            let left = tokens[i - 1].as_slice();
            let right = tokens[i].as_slice();
            let ghost q = (left@, right@);
            let ghost mid = counts@;
            assert(s[i - 1] == left@ && s[i as int] == right@);
            let n: usize = match counts.remove(left, right) {
                Some(info) => {
                    proof {
                        assert(info.count == mid[q].0);
                        lemma_occurrences_le_len(s.take(i as int), q);
                    }
                    info.count + 1
                },
                None => 1,
            };
            counts.insert(AlphabetPair::new(left, right), AlphabetPairInfo { count: n, pretoken_ids: Vec::new() });
        }
        i = i + 1;
        proof {
            assert forall|p: PairModel| true implies #[trigger] pair_occurrences(s.take(i as int), p)
                == pair_occurrences(s.take(k), p) + (if k >= 1 && s[k - 1] == p.0 && s[k] == p.1 {
                1nat
            } else {
                0nat
            }) by {
                lemma_occurrences_take(s, k, p);
            }
        }
    }
    proof {
        assert(s.take(i as int) =~= s);
    }
    counts
}

/// Adds the pairs of one pretoken to `index`: each occurrence adds the
/// pretoken's count, and each pair that occurs gets the pretoken's id
/// (unless it is already the last id of that pair).
pub fn add_pretoken_pairs(index: &mut PairIndex, pretoken: &Pretoken, pid: usize)
    requires
        old(index).wf(),
        forall|p: PairModel|
            #[trigger] count_in(old(index)@, p) + pretoken.count * pair_occurrences(pretoken@.tokens, p)
                <= usize::MAX,
    ensures
        final(index).wf(),
        forall|p: PairModel|
            #[trigger] final(index)@.contains_key(p) == (old(index)@.contains_key(p) || pair_occurrences(
                pretoken@.tokens,
                p,
            ) > 0),
        forall|p: PairModel|
            #[trigger] count_in(final(index)@, p) == count_in(old(index)@, p) + pretoken.count
                * pair_occurrences(pretoken@.tokens, p),
        forall|p: PairModel, x: usize|
            #[trigger] ids_in(final(index)@, p).contains(x) ==> x == pid || ids_in(old(index)@, p).contains(x),
        forall|p: PairModel, x: usize|
            #[trigger] ids_in(old(index)@, p).contains(x) ==> ids_in(final(index)@, p).contains(x),
        forall|p: PairModel|
            pair_occurrences(pretoken@.tokens, p) > 0 ==> #[trigger] ids_in(final(index)@, p).contains(pid),
        forall|p: PairModel|
            #[trigger] ids_in(final(index)@, p) == ids_after(
                ids_in(old(index)@, p),
                pair_occurrences(pretoken@.tokens, p) > 0,
                pid,
            ),
{
    let ghost s = pretoken@.tokens;
    let ghost before = index@;
    let c = pretoken.count;
    let tokens = &pretoken.alphabet_list;
    let mut i: usize = 0;
    proof {
        assert forall|p: PairModel| true implies #[trigger] pair_occurrences(s.take(0), p) == 0 by {}
    }
    while i < tokens.len()
        invariant
            index.wf(),
            i <= tokens.len(),
            s == tokens_model(tokens@),
            s == pretoken@.tokens,
            c == pretoken.count,
            forall|p: PairModel|
                #[trigger] count_in(before, p) + c * pair_occurrences(s, p) <= usize::MAX,
            forall|p: PairModel|
                #[trigger] index@.contains_key(p) == (before.contains_key(p) || pair_occurrences(
                    s.take(i as int),
                    p,
                ) > 0),
            forall|p: PairModel|
                #[trigger] count_in(index@, p) == count_in(before, p) + c * pair_occurrences(
                    s.take(i as int),
                    p,
                ),
            forall|p: PairModel, x: usize|
                #[trigger] ids_in(index@, p).contains(x) ==> x == pid || ids_in(before, p).contains(x),
            forall|p: PairModel, x: usize|
                #[trigger] ids_in(before, p).contains(x) ==> ids_in(index@, p).contains(x),
            forall|p: PairModel|
                pair_occurrences(s.take(i as int), p) > 0 ==> #[trigger] ids_in(index@, p).contains(pid),
            forall|p: PairModel|
                #[trigger] ids_in(index@, p) == ids_after(
                    ids_in(before, p),
                    pair_occurrences(s.take(i as int), p) > 0,
                    pid,
                ),
        decreases tokens.len() - i,
    {
        let ghost k = i as int;
        proof {
            assert forall|p: PairModel| true implies #[trigger] pair_occurrences(s.take(k + 1), p)
                == pair_occurrences(s.take(k), p) + (if k >= 1 && s[k - 1] == p.0 && s[k] == p.1 {
                1nat
            } else {
                0nat
            }) by {
                lemma_occurrences_take(s, k, p);
            }
        }
        if i >= 1 {
            let left = tokens[i - 1].as_slice();
            let right = tokens[i].as_slice();
            let ghost q = (left@, right@);
            let ghost mid = index@;
            assert(s[i - 1] == left@ && s[i as int] == right@);
            proof {
                lemma_occurrences_take_le(s, k + 1, q);
                lemma_mul_inequality(
                    pair_occurrences(s.take(k + 1), q) as int,
                    pair_occurrences(s, q) as int,
                    c as int,
                );
                assert(c * pair_occurrences(s.take(k + 1), q) == c * pair_occurrences(s.take(k), q) + c)
                    by (nonlinear_arith)
                    requires pair_occurrences(s.take(k + 1), q) == pair_occurrences(s.take(k), q) + 1;
            }
            let info = match index.remove(left, right) {
                Some(mut info) => {
                    proof {
                        assert(info.count == count_in(mid, q));
                        assert(info.pretoken_ids@ == ids_in(mid, q));
                    }
                    let n = info.pretoken_ids.len();
                    if !(n > 0 && info.pretoken_ids[n - 1] == pid) {
                        info.pretoken_ids.push(pid);
                    } else {
                        proof { assert(info.pretoken_ids@[n - 1] == pid); }
                    }
                    info.count = info.count + c;
                    info
                },
                None => {
                    let mut ids: Vec<usize> = Vec::new();
                    ids.push(pid);
                    proof { assert(ids@[0] == pid); }
                    AlphabetPairInfo { count: c, pretoken_ids: ids }
                },
            };
            index.insert(AlphabetPair::new(left, right), info);
            proof {
                assert forall|p: PairModel, x: usize| #[trigger] ids_in(index@, p).contains(x) implies x == pid
                    || ids_in(before, p).contains(x) by {
                    if p == q {
                        if x != pid {
                            if mid.contains_key(q) {
                                let j = choose|j: int| 0 <= j < ids_in(index@, p).len() && ids_in(index@, p)[j] == x;
                                assert(ids_in(mid, p)[j] == x);
                                assert(ids_in(mid, p).contains(x));
                            }
                        }
                    } else {
                        assert(ids_in(index@, p) == ids_in(mid, p));
                        assert(ids_in(mid, p).contains(x));
                    }
                }
                assert forall|p: PairModel| true implies #[trigger] count_in(index@, p) == count_in(before, p)
                    + c * pair_occurrences(s.take(k + 1), p) by {
                    if p != q {
                        assert(count_in(index@, p) == count_in(mid, p));
                    } else {
                        assert(count_in(mid, q) == count_in(before, q) + c * pair_occurrences(s.take(k), q));
                        assert(pair_occurrences(s.take(k + 1), q) == pair_occurrences(s.take(k), q) + 1);
                    }
                }
                assert forall|p: PairModel, x: usize| #[trigger] ids_in(before, p).contains(x) implies ids_in(
                    index@,
                    p,
                ).contains(x) by {
                    if p == q {
                        assert(ids_in(mid, p).contains(x));
                        let j = choose|j: int| 0 <= j < ids_in(mid, p).len() && ids_in(mid, p)[j] == x;
                        assert(ids_in(index@, p)[j] == x);
                    }
                }
                assert forall|p: PairModel| true implies #[trigger] ids_in(index@, p) == ids_after(
                    ids_in(before, p),
                    pair_occurrences(s.take(k + 1), p) > 0,
                    pid,
                ) by {
                    if p != q {
                        assert(ids_in(index@, p) == ids_in(mid, p));
                    }
                }
                assert forall|p: PairModel| pair_occurrences(s.take(k + 1), p) > 0 implies #[trigger] ids_in(
                    index@,
                    p,
                ).contains(pid) by {
                    if p == q {
                        let ids = ids_in(index@, p);
                        if ids.len() > 0 && ids.last() == pid {
                            assert(ids[ids.len() - 1] == pid);
                        }
                    } else {
                        assert(ids_in(mid, p).contains(pid));
                    }
                }
            }
        }
        i = i + 1;
    }
    proof {
        assert(s.take(i as int) =~= s);
    }
}

} // verus!

verus! {

/// The info map agrees with the pretokens: it holds exactly the pairs of
/// positive total, each with that total, and each pair's ids name every
/// pretoken it occurs in, and only pretokens that exist.
pub open spec fn index_matches(m: Map<PairModel, (usize, Seq<usize>)>, pts: Seq<PretokenModel>) -> bool {
    &&& forall|p: PairModel| #[trigger] m.contains_key(p) == (pair_total(pts, p) > 0)
    &&& forall|p: PairModel| #[trigger] count_in(m, p) == pair_total(pts, p)
    &&& forall|p: PairModel, k: int|
        #![trigger ids_in(m, p).contains(k as usize)]
        #![trigger pair_occurrences(pts[k].tokens, p)]
        0 <= k < pts.len() && pair_occurrences(pts[k].tokens, p) > 0 ==> ids_in(m, p).contains(k as usize)
    &&& forall|p: PairModel, x: usize| #[trigger] ids_in(m, p).contains(x) ==> x < pts.len()
}

/// Each pair's ids are exactly the pretokens it occurs in, in increasing
/// order, each once.
pub open spec fn ids_exact(m: Map<PairModel, (usize, Seq<usize>)>, pts: Seq<PretokenModel>) -> bool {
    &&& forall|p: PairModel, i: int, j: int|
        0 <= i < j < ids_in(m, p).len() ==> #[trigger] ids_in(m, p)[i] < #[trigger] ids_in(m, p)[j]
    &&& forall|p: PairModel, x: usize|
        #[trigger] ids_in(m, p).contains(x) == (x < pts.len() && pair_occurrences(pts[x as int].tokens, p) > 0)
}

/// The keys `(count, pair)` of a map of pair info.
pub open spec fn keys_of(m: Map<PairModel, (usize, Seq<usize>)>) -> Set<(usize, PairModel)> {
    Set::new(|x: (usize, PairModel)| m.contains_key(x.1) && m[x.1].0 == x.0)
}

/// The pairs of adjacent tokens over all pretokens, each with its total
/// (occurrences weighted by pretoken count) and the ids of the pretokens it
/// occurs in.
pub fn count_initial_pairs(pretoken_list: &Vec<Pretoken>) -> (r: PairIndex)
    requires
        pretokens_wf(pretokens_model(pretoken_list@)),
        token_weight(pretokens_model(pretoken_list@)) <= usize::MAX,
    ensures
        r.wf(),
        index_matches(r@, pretokens_model(pretoken_list@)),
        ids_exact(r@, pretokens_model(pretoken_list@)),
{
    let ghost pts = pretokens_model(pretoken_list@);
    let mut alphabet_pair_hash = PairIndex::new();
    let mut pid: usize = 0;
    proof {
        assert forall|p: PairModel| true implies #[trigger] pair_total(pts.take(0), p) == 0 by {}
    }
    while pid < pretoken_list.len()
        invariant
            alphabet_pair_hash.wf(),
            pid <= pretoken_list.len(),
            pts == pretokens_model(pretoken_list@),
            pretokens_wf(pts),
            token_weight(pts) <= usize::MAX,
            index_matches(alphabet_pair_hash@, pts.take(pid as int)),
            ids_exact(alphabet_pair_hash@, pts.take(pid as int)),
        decreases pretoken_list.len() - pid,
    {
        let ghost before = alphabet_pair_hash@;
        let ghost k = pid as int;
        assert(pts[k] == pretoken_list[k]@);
        proof {
            assert forall|p: PairModel| true implies #[trigger] count_in(before, p) + pretoken_list[k].count
                * pair_occurrences(pretoken_list[k]@.tokens, p) <= usize::MAX by {
                lemma_total_take_step(pts, k, p);
                lemma_total_take_le(pts, k + 1, p);
                lemma_total_le_weight(pts, p);
            }
        }
        add_pretoken_pairs(&mut alphabet_pair_hash, &pretoken_list[pid], pid);
        proof {
            let t = pts.take(k + 1);
            let m = alphabet_pair_hash@;
            assert forall|p: PairModel| true implies #[trigger] pair_total(t, p) == pair_total(pts.take(k), p)
                + pts[k].count * pair_occurrences(pts[k].tokens, p) by {
                lemma_total_take_step(pts, k, p);
            }
            assert forall|p: PairModel| #[trigger] m.contains_key(p) == (pair_total(t, p) > 0) by {
                lemma_mul_strictly_positive(pts[k].count as int, pair_occurrences(pts[k].tokens, p) as int);
                assert(pts[k].count > 0);
                assert(before.contains_key(p) == (pair_total(pts.take(k), p) > 0));
                assert(pair_total(t, p) == pair_total(pts.take(k), p) + pts[k].count * pair_occurrences(pts[k].tokens, p));
                if pair_occurrences(pts[k].tokens, p) == 0 {
                    assert(pts[k].count * pair_occurrences(pts[k].tokens, p) == 0);
                }
            }
            assert forall|p: PairModel| true implies #[trigger] count_in(m, p) == pair_total(t, p) by {
                assert(pair_total(t, p) == pair_total(pts.take(k), p) + pts[k].count * pair_occurrences(pts[k].tokens, p));
            }
            assert forall|p: PairModel, j: int|
                0 <= j < t.len() && pair_occurrences(t[j].tokens, p) > 0 implies #[trigger] ids_in(m, p).contains(
                j as usize) by {
                assert(t[j] == pts[j]);
                if j < k {
                    assert(pts.take(k)[j] == pts[j]);
                    assert(ids_in(before, p).contains(j as usize));
                }
            }
            assert forall|p: PairModel, x: usize| #[trigger] ids_in(m, p).contains(x) implies x < t.len() by {
                if x != pid {
                    assert(ids_in(before, p).contains(x));
                }
            }
            assert forall|p: PairModel| true implies ids_in(m, p) == (if pair_occurrences(pts[k].tokens, p) > 0 {
                ids_in(before, p).push(pid)
            } else {
                ids_in(before, p)
            }) by {
                let old_ids = ids_in(before, p);
                assert(ids_in(m, p) == ids_after(old_ids, pair_occurrences(pts[k].tokens, p) > 0, pid));
                if old_ids.len() > 0 {
                    assert(old_ids.contains(old_ids.last()));
                    assert(old_ids.last() < pid);
                }
            }
            assert forall|p: PairModel, i: int, j: int|
                0 <= i < j < ids_in(m, p).len() implies #[trigger] ids_in(m, p)[i] < #[trigger] ids_in(m, p)[j] by {
                let old_ids = ids_in(before, p);
                if j >= old_ids.len() {
                    assert(old_ids.contains(old_ids[i]));
                } else {
                    assert(ids_in(m, p)[i] == old_ids[i] && ids_in(m, p)[j] == old_ids[j]);
                }
            }
            assert forall|p: PairModel, x: usize| #[trigger] ids_in(m, p).contains(x) == (x < t.len()
                && pair_occurrences(t[x as int].tokens, p) > 0) by {
                let old_ids = ids_in(before, p);
                if x < k {
                    assert(t[x as int] == pts.take(k)[x as int]);
                }
                if ids_in(m, p).contains(x) {
                    let j = choose|j: int| 0 <= j < ids_in(m, p).len() && ids_in(m, p)[j] == x;
                    if j < old_ids.len() {
                        assert(old_ids[j] == x);
                        assert(old_ids.contains(x));
                    }
                } else {
                    if old_ids.contains(x) {
                        let j = choose|j: int| 0 <= j < old_ids.len() && old_ids[j] == x;
                        assert(ids_in(m, p)[j] == x);
                    }
                    if x == pid && pair_occurrences(pts[k].tokens, p) > 0 {
                        assert(ids_in(m, p)[old_ids.len() as int] == x);
                    }
                }
            }
        }
        pid = pid + 1;
    }
    proof {
        assert(pts.take(pid as int) =~= pts);
    }
    alphabet_pair_hash
}

/// The keys `(count, pair)` of all pairs, as an ordered set.
pub fn make_alphabet_pair_tree(initial_counts: &PairIndex) -> (r: PairTree)
    requires
        initial_counts.wf(),
    ensures
        r.wf(),
        r@ == keys_of(initial_counts@),
{
    let mut ap_tree = PairTree::new();
    let n = initial_counts.len();
    let mut i: usize = 0;
    proof { initial_counts.lemma_entries(); }
    while i < n
        invariant
            initial_counts.wf(),
            ap_tree.wf(),
            n == initial_counts.size(),
            i <= n,
            ap_tree@ == Set::new(
                |x: (usize, PairModel)|
                    exists|j: int|
                        0 <= j < i && #[trigger] initial_counts.key_at(j) == x.1 && initial_counts@[x.1].0
                            == x.0,
            ),
        decreases n - i,
    {
        let (k, v) = initial_counts.entry_at(i);
        let ghost pre = ap_tree@;
        ap_tree.insert(AlphabetPairKey::new(v.count, k.duplicate()));
        proof {
            let target = Set::new(
                |x: (usize, PairModel)|
                    exists|j: int|
                        0 <= j < i + 1 && #[trigger] initial_counts.key_at(j) == x.1 && initial_counts@[x.1].0
                            == x.0,
            );
            assert forall|x: (usize, PairModel)| #[trigger] ap_tree@.contains(x) == target.contains(x) by {
                if target.contains(x) {
                    let j = choose|j: int|
                        0 <= j < i + 1 && #[trigger] initial_counts.key_at(j) == x.1 && initial_counts@[x.1].0
                            == x.0;
                    if j < i {
                        assert(pre.contains(x));
                    }
                }
                if pre.contains(x) {
                    let j = choose|j: int|
                        0 <= j < i && #[trigger] initial_counts.key_at(j) == x.1 && initial_counts@[x.1].0
                            == x.0;
                    assert(target.contains(x));
                }
                if x == (v.count, k@) {
                    assert(initial_counts.key_at(i as int) == x.1);
                    assert(target.contains(x));
                }
            }
            assert(ap_tree@ =~= target);
        }
        i = i + 1;
    }
    proof {
        assert forall|x: (usize, PairModel)| #[trigger] ap_tree@.contains(x) == keys_of(initial_counts@).contains(x) by {
            if keys_of(initial_counts@).contains(x) {
                assert(initial_counts@.contains_key(x.1));
                let j = choose|j: int| 0 <= j < initial_counts.size() && #[trigger] initial_counts.key_at(j) == x.1;
            }
        }
        assert(ap_tree@ =~= keys_of(initial_counts@));
    }
    ap_tree
}

} // verus!

verus! {

/// `p` is the pair of one of the first `i` entries of `idx`.
pub open spec fn among_first(idx: PairIndex, i: int, p: PairModel) -> bool {
    exists|j: int| 0 <= j < i && #[trigger] idx.key_at(j) == p
}

/// The info map after writing the changed entries over it: a changed pair
/// takes its new info, or leaves the map when its count is zero.
pub open spec fn applied(
    hash: Map<PairModel, (usize, Seq<usize>)>,
    changes: Map<PairModel, (usize, Seq<usize>)>,
) -> Map<PairModel, (usize, Seq<usize>)> {
    Map::new(
        |p: PairModel|
            if changes.contains_key(p) {
                changes[p].0 > 0
            } else {
                hash.contains_key(p)
            },
        |p: PairModel|
            if changes.contains_key(p) {
                changes[p]
            } else {
                hash[p]
            },
    )
}

/// Writes the changed entries into the info map and the ordered key set:
/// each changed pair loses its former key, and, while its count is
/// positive, gets its new info and key.
pub fn update_ap_structures(ap_hash: &mut PairIndex, ap_tree: &mut PairTree, pairs_to_change: PairIndex)
    requires
        old(ap_hash).wf(),
        old(ap_tree).wf(),
        pairs_to_change.wf(),
        old(ap_tree)@ == keys_of(old(ap_hash)@),
    ensures
        final(ap_hash).wf(),
        final(ap_tree).wf(),
        final(ap_hash)@ == applied(old(ap_hash)@, pairs_to_change@),
        final(ap_tree)@ == keys_of(final(ap_hash)@),
{
    let ghost hash0 = ap_hash@;
    let n = pairs_to_change.len();
    let mut i: usize = 0;
    proof { pairs_to_change.lemma_entries(); }
    while i < n
        invariant
            pairs_to_change.wf(),
            ap_hash.wf(),
            ap_tree.wf(),
            n == pairs_to_change.size(),
            i <= n,
            forall|a: int, b: int|
                0 <= a < b < pairs_to_change.size() ==> #[trigger] pairs_to_change.key_at(a)
                    != #[trigger] pairs_to_change.key_at(b),
            forall|a: int| 0 <= a < pairs_to_change.size() ==> #[trigger] pairs_to_change@.contains_key(pairs_to_change.key_at(a)),
            forall|p: PairModel|
                #[trigger] ap_hash@.contains_key(p) == (if among_first(pairs_to_change, i as int, p) {
                    pairs_to_change@[p].0 > 0
                } else {
                    hash0.contains_key(p)
                }),
            forall|p: PairModel|
                #[trigger] ap_hash@.contains_key(p) ==> ap_hash@[p] == (if among_first(pairs_to_change, i as int, p) {
                    pairs_to_change@[p]
                } else {
                    hash0[p]
                }),
            ap_tree@ == keys_of(ap_hash@),
        decreases n - i,
    {
        let (pair, info) = pairs_to_change.entry_at(i);
        let ghost p = pair@;
        let ghost h1 = ap_hash@;
        let ghost t1 = ap_tree@;
        let left = pair.pair.0.as_slice();
        let right = pair.pair.1.as_slice();
        let former = if info.count > 0 {
            ap_hash.insert(pair.duplicate(), info.duplicate())
        } else {
            ap_hash.remove(left, right)
        };
        match former {
            Some(f) => {
                ap_tree.remove(&AlphabetPairKey::new(f.count, pair.duplicate()));
            },
            None => {},
        }
        if info.count > 0 {
            ap_tree.insert(AlphabetPairKey::new(info.count, pair.duplicate()));
        }
        proof {
            assert forall|q: PairModel| #[trigger] among_first(pairs_to_change, i + 1, q)
                == (among_first(pairs_to_change, i as int, q) || q == p) by {
                if q == p {
                    assert(pairs_to_change.key_at(i as int) == q);
                }
                if among_first(pairs_to_change, i + 1, q) {
                    let j = choose|j: int| 0 <= j < i + 1 && #[trigger] pairs_to_change.key_at(j) == q;
                    if j < i {
                        assert(pairs_to_change.key_at(j) == q);
                    }
                }
            }
            assert(!among_first(pairs_to_change, i as int, p)) by {
                if among_first(pairs_to_change, i as int, p) {
                    let j = choose|j: int| 0 <= j < i && #[trigger] pairs_to_change.key_at(j) == p;
                    assert(pairs_to_change.key_at(j) != pairs_to_change.key_at(i as int));
                }
            }
            assert forall|x: (usize, PairModel)| #[trigger] ap_tree@.contains(x) == keys_of(ap_hash@).contains(x) by {
                if x.1 != p {
                    assert(keys_of(h1).contains(x) == keys_of(ap_hash@).contains(x));
                } else {
                    if t1.contains(x) {
                        assert(h1.contains_key(p) && h1[p].0 == x.0);
                    }
                }
            }
            assert(ap_tree@ =~= keys_of(ap_hash@));
        }
        i = i + 1;
    }
    proof {
        assert forall|p: PairModel| #[trigger] among_first(pairs_to_change, i as int, p)
            == pairs_to_change@.contains_key(p) by {
            if pairs_to_change@.contains_key(p) {
                let j = choose|j: int| 0 <= j < pairs_to_change.size() && #[trigger] pairs_to_change.key_at(j) == p;
            }
        }
        assert(ap_hash@ =~= applied(hash0, pairs_to_change@));
    }
}

} // verus!

verus! {

/// The count of `p` as the pending changes and the info map give it
/// together: a pending entry hides the map's.
pub open spec fn eff_count(
    hash: Map<PairModel, (usize, Seq<usize>)>,
    changes: Map<PairModel, (usize, Seq<usize>)>,
    p: PairModel,
) -> nat {
    if changes.contains_key(p) {
        changes[p].0 as nat
    } else {
        count_in(hash, p)
    }
}

/// The pretoken ids of `p` as the pending changes and the info map give
/// them together.
pub open spec fn eff_ids(
    hash: Map<PairModel, (usize, Seq<usize>)>,
    changes: Map<PairModel, (usize, Seq<usize>)>,
    p: PairModel,
) -> Seq<usize> {
    if changes.contains_key(p) {
        changes[p].1
    } else {
        ids_in(hash, p)
    }
}

/// The pending entry of `p` after a pretoken of count `count` went from
/// `removed` occurrences of `p` to `added`.
pub open spec fn changed_entry(
    hash: Map<PairModel, (usize, Seq<usize>)>,
    changes: Map<PairModel, (usize, Seq<usize>)>,
    p: PairModel,
    count: nat,
    removed: nat,
    added: nat,
    pid: usize,
) -> (usize, Seq<usize>) {
    ((eff_count(hash, changes, p) - count * removed + count * added) as usize, eff_ids(hash, changes, p).push(pid))
}

/// Records that pretoken `pid`, of count `count`, went from `removed`
/// occurrences of `pair` to `added`: unless that changes nothing, the
/// pending entry of `pair` gets the new count and the pretoken's id.
pub fn apply_pair_change(
    pairs_to_change: &mut PairIndex,
    ap_hash: &PairIndex,
    pair: &AlphabetPair,
    added: usize,
    removed: usize,
    count: usize,
    pid: usize,
)
    requires
        old(pairs_to_change).wf(),
        ap_hash.wf(),
        count * removed <= eff_count(ap_hash@, old(pairs_to_change)@, pair@) + count * added,
        eff_count(ap_hash@, old(pairs_to_change)@, pair@) - count * removed + count * added <= usize::MAX,
    ensures
        final(pairs_to_change).wf(),
        final(pairs_to_change)@ == if count > 0 && added != removed {
            old(pairs_to_change)@.insert(
                pair@,
                changed_entry(ap_hash@, old(pairs_to_change)@, pair@, count as nat, removed as nat, added as nat, pid),
            )
        } else {
            old(pairs_to_change)@
        },
{
    if count == 0 || added == removed {
        return;
    }
    let ghost before = pairs_to_change@;
    let left = pair.pair.0.as_slice();
    let right = pair.pair.1.as_slice();
    let mut entry = match pairs_to_change.remove(left, right) {
        Some(e) => e,
        None => match ap_hash.get(left, right) {
            Some(e) => e.duplicate(),
            None => AlphabetPairInfo { count: 0, pretoken_ids: Vec::new() },
        },
    };
    assert(entry.count == eff_count(ap_hash@, before, pair@));
    assert(entry.pretoken_ids@ == eff_ids(ap_hash@, before, pair@));
    entry.pretoken_ids.push(pid);
    proof {
        lemma_mul_inequality(0, added as int, count as int);
        lemma_mul_inequality(0, removed as int, count as int);
    }
    if added >= removed {
        let diff = added - removed;
        assert(count * diff == count * added - count * removed) by (nonlinear_arith)
            requires
                diff == added - removed,
        ;
        let up = count * diff;
        entry.count = entry.count + up;
    } else {
        let diff = removed - added;
        assert(count * diff == count * removed - count * added) by (nonlinear_arith)
            requires
                diff == removed - added,
        ;
        let down = count * diff;
        entry.count = entry.count - down;
    }
    pairs_to_change.insert(pair.duplicate(), entry);
    proof {
        assert(pairs_to_change@ =~= before.insert(
            pair@,
            changed_entry(ap_hash@, before, pair@, count as nat, removed as nat, added as nat, pid),
        ));
    }
}

/// Pretoken `pid` goes from its current tokens to `new_alphabet_list`:
/// every pair whose number of occurrences in it changes gets a pending
/// entry with the count moved by the change times the pretoken's count, and
/// with the pretoken's id; every other pending entry stays. Each pair's
/// count after the change need only lie between zero and `usize::MAX`: the
/// new occurrences are added before the old ones are taken away.
pub fn update_pairs_to_change(
    pairs_to_change: &mut PairIndex,
    ap_hash: &PairIndex,
    new_alphabet_list: &Vec<Vec<u8>>,
    pretoken: &Pretoken,
    pid: usize,
)
    requires
        old(pairs_to_change).wf(),
        ap_hash.wf(),
        forall|p: PairModel|
            #[trigger] eff_count(ap_hash@, old(pairs_to_change)@, p) + pretoken.count * pair_occurrences(
                tokens_model(new_alphabet_list@),
                p,
            ) >= pretoken.count * pair_occurrences(pretoken@.tokens, p),
        forall|p: PairModel|
            #[trigger] eff_count(ap_hash@, old(pairs_to_change)@, p) - pretoken.count * pair_occurrences(
                pretoken@.tokens,
                p,
            ) + pretoken.count * pair_occurrences(tokens_model(new_alphabet_list@), p) <= usize::MAX,
    ensures
        final(pairs_to_change).wf(),
        forall|p: PairModel|
            #[trigger] final(pairs_to_change)@.contains_key(p) == (old(pairs_to_change)@.contains_key(p) || (
            pretoken.count > 0 && pair_occurrences(tokens_model(new_alphabet_list@), p) != pair_occurrences(
                pretoken@.tokens,
                p,
            ))),
        forall|p: PairModel|
            #[trigger] final(pairs_to_change)@.contains_key(p) ==> final(pairs_to_change)@[p] == if pretoken.count
                > 0 && pair_occurrences(tokens_model(new_alphabet_list@), p) != pair_occurrences(
                pretoken@.tokens,
                p,
            ) {
                changed_entry(
                    ap_hash@,
                    old(pairs_to_change)@,
                    p,
                    pretoken.count as nat,
                    pair_occurrences(pretoken@.tokens, p),
                    pair_occurrences(tokens_model(new_alphabet_list@), p),
                    pid,
                )
            } else {
                old(pairs_to_change)@[p]
            },
{
    let ghost changes0 = pairs_to_change@;
    let ghost old_t = pretoken@.tokens;
    let ghost new_t = tokens_model(new_alphabet_list@);
    let c = pretoken.count;
    let added = count_pairs(new_alphabet_list);
    let removed = count_pairs(&pretoken.alphabet_list);
    proof {
        added.lemma_entries();
        removed.lemma_entries();
    }
    let n_added = added.len();
    let mut i: usize = 0;
    while i < n_added
        invariant
            pairs_to_change.wf(),
            ap_hash.wf(),
            added.wf(),
            removed.wf(),
            n_added == added.size(),
            i <= n_added,
            c == pretoken.count,
            old_t == pretoken@.tokens,
            new_t == tokens_model(new_alphabet_list@),
            forall|p: PairModel| #[trigger] added@.contains_key(p) == (pair_occurrences(new_t, p) > 0),
            forall|p: PairModel| added@.contains_key(p) ==> #[trigger] added@[p].0 == pair_occurrences(new_t, p),
            forall|p: PairModel| #[trigger] removed@.contains_key(p) == (pair_occurrences(old_t, p) > 0),
            forall|p: PairModel| removed@.contains_key(p) ==> #[trigger] removed@[p].0 == pair_occurrences(old_t, p),
            forall|a: int, b: int|
                0 <= a < b < added.size() ==> #[trigger] added.key_at(a) != #[trigger] added.key_at(b),
            forall|a: int| 0 <= a < added.size() ==> #[trigger] added@.contains_key(added.key_at(a)),
            forall|p: PairModel|
                #[trigger] eff_count(ap_hash@, changes0, p) + c * pair_occurrences(new_t, p) >= c
                    * pair_occurrences(old_t, p),
            forall|p: PairModel|
                #[trigger] eff_count(ap_hash@, changes0, p) - c * pair_occurrences(old_t, p) + c
                    * pair_occurrences(new_t, p) <= usize::MAX,
            forall|p: PairModel|
                #[trigger] pairs_to_change@.contains_key(p) == (changes0.contains_key(p) || (among_first(
                    added,
                    i as int,
                    p,
                ) && c > 0 && pair_occurrences(new_t, p) != pair_occurrences(old_t, p))),
            forall|p: PairModel|
                #[trigger] pairs_to_change@.contains_key(p) ==> pairs_to_change@[p] == if among_first(
                    added,
                    i as int,
                    p,
                ) && c > 0 && pair_occurrences(new_t, p) != pair_occurrences(old_t, p) {
                    changed_entry(ap_hash@, changes0, p, c as nat, pair_occurrences(old_t, p), pair_occurrences(new_t, p), pid)
                } else {
                    changes0[p]
                },
        decreases n_added - i,
    {
        let (pair, info) = added.entry_at(i);
        let ghost p = pair@;
        let ghost mid = pairs_to_change@;
        let a = info.count;
        let r = match removed.get(pair.pair.0.as_slice(), pair.pair.1.as_slice()) {
            Some(x) => {
                proof { assert(removed@[p].0 == x.count); }
                x.count
            },
            None => 0,
        };
        proof { assert(added@[p].0 == a); }
        proof {
            assert(!among_first(added, i as int, p)) by {
                if among_first(added, i as int, p) {
                    let j = choose|j: int| 0 <= j < i && #[trigger] added.key_at(j) == p;
                    assert(added.key_at(j) != added.key_at(i as int));
                }
            }
            assert(eff_count(ap_hash@, mid, p) == eff_count(ap_hash@, changes0, p));
            assert(eff_ids(ap_hash@, mid, p) == eff_ids(ap_hash@, changes0, p));
            assert(a == pair_occurrences(new_t, p));
            assert(r == pair_occurrences(old_t, p));
        }
        apply_pair_change(pairs_to_change, ap_hash, pair, a, r, c, pid);
        proof {
            assert forall|q: PairModel| #[trigger] among_first(added, i + 1, q)
                == (among_first(added, i as int, q) || q == p) by {
                if q == p {
                    assert(added.key_at(i as int) == q);
                }
                if among_first(added, i + 1, q) {
                    let j = choose|j: int| 0 <= j < i + 1 && #[trigger] added.key_at(j) == q;
                    if j < i {
                        assert(added.key_at(j) == q);
                    }
                }
            }
        }
        i = i + 1;
    }
    let ghost changes1 = pairs_to_change@;
    proof {
        assert forall|p: PairModel| #[trigger] among_first(added, i as int, p) == added@.contains_key(p) by {
            if added@.contains_key(p) {
                let j = choose|j: int| 0 <= j < added.size() && #[trigger] added.key_at(j) == p;
            }
        }
    }
    let n_removed = removed.len();
    let mut i: usize = 0;
    while i < n_removed
        invariant
            pairs_to_change.wf(),
            ap_hash.wf(),
            added.wf(),
            removed.wf(),
            n_removed == removed.size(),
            i <= n_removed,
            c == pretoken.count,
            old_t == pretoken@.tokens,
            new_t == tokens_model(new_alphabet_list@),
            forall|p: PairModel| #[trigger] added@.contains_key(p) == (pair_occurrences(new_t, p) > 0),
            forall|p: PairModel| #[trigger] removed@.contains_key(p) == (pair_occurrences(old_t, p) > 0),
            forall|p: PairModel| removed@.contains_key(p) ==> #[trigger] removed@[p].0 == pair_occurrences(old_t, p),
            forall|a: int, b: int|
                0 <= a < b < removed.size() ==> #[trigger] removed.key_at(a) != #[trigger] removed.key_at(b),
            forall|a: int| 0 <= a < removed.size() ==> #[trigger] removed@.contains_key(removed.key_at(a)),
            forall|p: PairModel|
                #[trigger] eff_count(ap_hash@, changes0, p) + c * pair_occurrences(new_t, p) >= c
                    * pair_occurrences(old_t, p),
            forall|p: PairModel|
                #[trigger] eff_count(ap_hash@, changes0, p) - c * pair_occurrences(old_t, p) + c
                    * pair_occurrences(new_t, p) <= usize::MAX,
            forall|p: PairModel|
                #[trigger] pairs_to_change@.contains_key(p) == (changes0.contains_key(p) || ((
                added@.contains_key(p) || among_first(removed, i as int, p)) && c > 0 && pair_occurrences(new_t, p)
                    != pair_occurrences(old_t, p))),
            forall|p: PairModel|
                #[trigger] pairs_to_change@.contains_key(p) ==> pairs_to_change@[p] == if (added@.contains_key(p)
                    || among_first(removed, i as int, p)) && c > 0 && pair_occurrences(new_t, p)
                    != pair_occurrences(old_t, p) {
                    changed_entry(ap_hash@, changes0, p, c as nat, pair_occurrences(old_t, p), pair_occurrences(new_t, p), pid)
                } else {
                    changes0[p]
                },
        decreases n_removed - i,
    {
        let (pair, info) = removed.entry_at(i);
        let ghost p = pair@;
        let ghost mid = pairs_to_change@;
        proof {
            assert(!among_first(removed, i as int, p)) by {
                if among_first(removed, i as int, p) {
                    let j = choose|j: int| 0 <= j < i && #[trigger] removed.key_at(j) == p;
                    assert(removed.key_at(j) != removed.key_at(i as int));
                }
            }
            assert forall|q: PairModel| #[trigger] among_first(removed, i + 1, q)
                == (among_first(removed, i as int, q) || q == p) by {
                if q == p {
                    assert(removed.key_at(i as int) == q);
                }
                if among_first(removed, i + 1, q) {
                    let j = choose|j: int| 0 <= j < i + 1 && #[trigger] removed.key_at(j) == q;
                    if j < i {
                        assert(removed.key_at(j) == q);
                    }
                }
            }
        }
        if added.get(pair.pair.0.as_slice(), pair.pair.1.as_slice()).is_none() {
            proof {
                assert(eff_count(ap_hash@, mid, p) == eff_count(ap_hash@, changes0, p));
                assert(eff_ids(ap_hash@, mid, p) == eff_ids(ap_hash@, changes0, p));
                assert(removed@[p].0 == info.count);
                assert(info.count == pair_occurrences(old_t, p));
                assert(pair_occurrences(new_t, p) == 0);
            }
            apply_pair_change(pairs_to_change, ap_hash, pair, 0, info.count, c, pid);
        }
        i = i + 1;
    }
    proof {
        assert forall|p: PairModel| #[trigger] pairs_to_change@.contains_key(p) == (changes0.contains_key(p) || (c > 0
            && pair_occurrences(new_t, p) != pair_occurrences(old_t, p))) by {
            if c > 0 && pair_occurrences(new_t, p) != pair_occurrences(old_t, p) && !added@.contains_key(p) {
                assert(removed@.contains_key(p));
                let j = choose|j: int| 0 <= j < removed.size() && #[trigger] removed.key_at(j) == p;
                assert(among_first(removed, i as int, p));
            }
        }
        assert forall|p: PairModel| #[trigger] pairs_to_change@.contains_key(p) implies pairs_to_change@[p] == if c > 0
            && pair_occurrences(new_t, p) != pair_occurrences(old_t, p) {
            changed_entry(ap_hash@, changes0, p, c as nat, pair_occurrences(old_t, p), pair_occurrences(new_t, p), pid)
        } else {
            changes0[p]
        } by {
            if c > 0 && pair_occurrences(new_t, p) != pair_occurrences(old_t, p) && !added@.contains_key(p) {
                assert(removed@.contains_key(p));
                let j = choose|j: int| 0 <= j < removed.size() && #[trigger] removed.key_at(j) == p;
                assert(among_first(removed, i as int, p));
            }
        }
    }
}

} // verus!
