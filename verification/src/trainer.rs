//! The training loop: merges the best pair until the vocabulary is full or
//! no pair occurs any more, keeping the pair counts up to date
//! incrementally.

use vstd::prelude::*;
use vstd::arithmetic::mul::lemma_mul_inequality;
use std::collections::HashMap;
use crate::pretokenizing::{counts_into_entries, pretoken_count_entries};
use crate::laws::{law_each_merge_is_best, law_merged_pair_vanishes, merge_sequence};
use crate::pair_index::{copy_ids, AlphabetPair, PairIndex};
use crate::pair_tree::{key_less, AlphabetPairKey, PairTree};
use crate::pair_model::{
    best_pair, bpe_merges, flatten_model, has_pair, is_best_pair, lemma_best_pair_unique,
    lemma_merge_idempotent, lemma_merge_len, lemma_merge_nonempty, lemma_merge_without_pair,
    lemma_occurrence_position, lemma_occurs_total_positive, lemma_term_le_total,
    lemma_total_le_weight, lemma_total_positive_witness, lemma_total_update, lemma_weight_update,
    merge_all, merge_tokens, pair_occurrences, pair_total, pretokens_wf, token_weight, PairModel,
    PretokenModel,
};
use crate::train::{
    applied, changed_entry, count_in, count_initial_pairs, eff_count, eff_ids, flatten_pair,
    ids_in, index_matches, keys_of, make_alphabet_pair_tree, new_alphabet_list, pretokens_model,
    tokens_model, update_ap_structures, update_pairs_to_change, Pretoken,
};

verus! {

/// The byte string of an optional special token.
pub open spec fn special_model(s: Option<Vec<u8>>) -> Option<Seq<u8>> {
    match s {
        Some(v) => Some(v@),
        None => None,
    }
}

/// The vocabulary before any merge: the 256 single bytes, in order, then
/// the special token if there is one.
pub open spec fn base_vocab(special: Option<Seq<u8>>) -> Seq<Seq<u8>> {
    Seq::new(256, |i: int| seq![i as u8]) + match special {
        Some(st) => seq![st],
        None => Seq::empty(),
    }
}

/// The pairs of a list of merges.
pub open spec fn merges_model(m: Seq<AlphabetPair>) -> Seq<PairModel> {
    Seq::new(m.len(), |i: int| m[i]@)
}

/// How many more tokens a vocabulary of `vocab_len` tokens may take.
pub open spec fn remaining_merges(vocab_size: usize, vocab_len: nat) -> nat {
    if vocab_size > vocab_len {
        (vocab_size - vocab_len) as nat
    } else {
        0
    }
}

/// The pending changes, written over the info map, agree with the
/// pretokens: each pair has its total, and its ids name every pretoken it
/// occurs in, and only pretokens that exist.
pub open spec fn pending_matches(
    hash: Map<PairModel, (usize, Seq<usize>)>,
    changes: Map<PairModel, (usize, Seq<usize>)>,
    pts: Seq<PretokenModel>,
) -> bool {
    &&& forall|p: PairModel| #[trigger] eff_count(hash, changes, p) == pair_total(pts, p)
    &&& forall|p: PairModel, k: int|
        #![trigger eff_ids(hash, changes, p).contains(k as usize)]
        #![trigger pair_occurrences(pts[k].tokens, p)]
        0 <= k < pts.len() && pair_occurrences(pts[k].tokens, p) > 0 ==> eff_ids(hash, changes, p).contains(
            k as usize,
        )
    &&& forall|p: PairModel, x: usize| #[trigger] eff_ids(hash, changes, p).contains(x) ==> x < pts.len()
}

/// Before any change is recorded, the pending view of an index that matches
/// the pretokens matches them as well.
pub proof fn lemma_pending_start(hash: Map<PairModel, (usize, Seq<usize>)>, pts: Seq<PretokenModel>)
    requires
        index_matches(hash, pts),
    ensures
        pending_matches(hash, Map::empty(), pts),
{
    let e = Map::<PairModel, (usize, Seq<usize>)>::empty();
    assert forall|p: PairModel| #[trigger] eff_count(hash, e, p) == pair_total(pts, p) by {
        assert(count_in(hash, p) == pair_total(pts, p));
    }
    assert forall|p: PairModel, k: int|
        0 <= k < pts.len() && pair_occurrences(pts[k].tokens, p) > 0 implies #[trigger] eff_ids(hash, e, p).contains(
        k as usize) by {
        assert(ids_in(hash, p).contains(k as usize));
    }
    assert forall|p: PairModel, x: usize| #[trigger] eff_ids(hash, e, p).contains(x) implies x < pts.len() by {
        assert(ids_in(hash, p).contains(x));
    }
}

/// Recording the change of one pretoken, as `update_pairs_to_change`
/// records it, keeps the pending view matching the pretokens with that
/// pretoken's tokens replaced.
pub proof fn lemma_pending_step(
    hash: Map<PairModel, (usize, Seq<usize>)>,
    changes: Map<PairModel, (usize, Seq<usize>)>,
    changes2: Map<PairModel, (usize, Seq<usize>)>,
    now: Seq<PretokenModel>,
    pid: int,
    t: Seq<Seq<u8>>,
)
    requires
        pending_matches(hash, changes, now),
        0 <= pid < now.len(),
        now[pid].count > 0,
        forall|p: PairModel|
            #[trigger] changes2.contains_key(p) == (changes.contains_key(p) || pair_occurrences(t, p)
                != pair_occurrences(now[pid].tokens, p)),
        forall|p: PairModel|
            #[trigger] changes2.contains_key(p) ==> changes2[p] == if pair_occurrences(t, p) != pair_occurrences(
                now[pid].tokens,
                p,
            ) {
                changed_entry(
                    hash,
                    changes,
                    p,
                    now[pid].count,
                    pair_occurrences(now[pid].tokens, p),
                    pair_occurrences(t, p),
                    pid as usize,
                )
            } else {
                changes[p]
            },
        forall|p: PairModel|
            #[trigger] eff_count(hash, changes, p) - now[pid].count * pair_occurrences(now[pid].tokens, p)
                + now[pid].count * pair_occurrences(t, p) <= usize::MAX,
    ensures
        pending_matches(hash, changes2, now.update(pid, PretokenModel { count: now[pid].count, tokens: t })),
{
    let next = now.update(pid, PretokenModel { count: now[pid].count, tokens: t });
    let c = now[pid].count;
    assert forall|p: PairModel| #[trigger] eff_count(hash, changes2, p) == pair_total(next, p) by {
        lemma_total_update(now, pid, t, p);
        lemma_term_le_total(now, pid, p);
        assert(eff_count(hash, changes, p) == pair_total(now, p));
    }
    assert forall|p: PairModel, k: int|
        0 <= k < next.len() && pair_occurrences(next[k].tokens, p) > 0 implies #[trigger] eff_ids(
        hash,
        changes2,
        p,
    ).contains(k as usize) by {
        let changed = pair_occurrences(t, p) != pair_occurrences(now[pid].tokens, p);
        if k != pid {
            assert(next[k] == now[k]);
            assert(eff_ids(hash, changes, p).contains(k as usize));
            if changed {
                let ids = eff_ids(hash, changes, p);
                let j = choose|j: int| 0 <= j < ids.len() && ids[j] == k as usize;
                assert(eff_ids(hash, changes2, p)[j] == k as usize);
            }
        } else {
            if changed {
                let ids = eff_ids(hash, changes, p);
                assert(eff_ids(hash, changes2, p)[ids.len() as int] == pid as usize);
            } else {
                assert(pair_occurrences(now[pid].tokens, p) > 0);
                assert(eff_ids(hash, changes, p).contains(k as usize));
            }
        }
    }
    assert forall|p: PairModel, x: usize| #[trigger] eff_ids(hash, changes2, p).contains(x) implies x < next.len() by {
        let changed = pair_occurrences(t, p) != pair_occurrences(now[pid].tokens, p);
        if changed {
            let ids = eff_ids(hash, changes, p);
            let j = choose|j: int| 0 <= j < ids.len() + 1 && eff_ids(hash, changes2, p)[j] == x;
            if j < ids.len() {
                assert(ids[j] == x);
                assert(ids.contains(x));
            }
        } else {
            assert(eff_ids(hash, changes, p).contains(x));
        }
    }
}

/// Merging in pretoken `k` does not raise the token weight, and the pending
/// counts stay within `usize` after the change is recorded.
proof fn lemma_change_bounds(
    hash: Map<PairModel, (usize, Seq<usize>)>,
    changes: Map<PairModel, (usize, Seq<usize>)>,
    now: Seq<PretokenModel>,
    k: int,
    t: Seq<Seq<u8>>,
    bound: nat,
)
    requires
        pending_matches(hash, changes, now),
        0 <= k < now.len(),
        t.len() <= now[k].tokens.len(),
        token_weight(now) <= bound,
        bound <= usize::MAX,
    ensures
        token_weight(now.update(k, PretokenModel { count: now[k].count, tokens: t })) <= token_weight(now),
        forall|p: PairModel|
            #[trigger] eff_count(hash, changes, p) >= now[k].count * pair_occurrences(now[k].tokens, p)
                && eff_count(hash, changes, p) - now[k].count * pair_occurrences(now[k].tokens, p)
                + now[k].count * pair_occurrences(t, p) <= usize::MAX,
{
    lemma_weight_update(now, k, t);
    lemma_mul_inequality(t.len() as int, now[k].tokens.len() as int, now[k].count as int);
    let next = now.update(k, PretokenModel { count: now[k].count, tokens: t });
    assert forall|p: PairModel| true implies #[trigger] eff_count(hash, changes, p) >= now[k].count
        * pair_occurrences(now[k].tokens, p) && eff_count(hash, changes, p) - now[k].count * pair_occurrences(
        now[k].tokens,
        p,
    ) + now[k].count * pair_occurrences(t, p) <= usize::MAX by {
        assert(eff_count(hash, changes, p) == pair_total(now, p));
        lemma_term_le_total(now, k, p);
        lemma_total_update(now, k, t, p);
        lemma_total_le_weight(next, p);
    }
}

/// Writing the pending changes into the index, as `update_ap_structures`
/// writes them, gives an index that matches the current pretokens: the
/// incremental update gives the same counts, pairs and ids as counting the
/// pairs afresh.
pub proof fn law_incremental_update_is_recount(
    hash: Map<PairModel, (usize, Seq<usize>)>,
    changes: Map<PairModel, (usize, Seq<usize>)>,
    pts: Seq<PretokenModel>,
)
    requires
        forall|p: PairModel| #[trigger] hash.contains_key(p) ==> hash[p].0 > 0,
        pending_matches(hash, changes, pts),
        pretokens_wf(pts),
    ensures
        index_matches(applied(hash, changes), pts),
{
    let h = applied(hash, changes);
    assert forall|p: PairModel| #[trigger] h.contains_key(p) == (pair_total(pts, p) > 0) by {
        assert(eff_count(hash, changes, p) == pair_total(pts, p));
    }
    assert forall|p: PairModel| #[trigger] count_in(h, p) == pair_total(pts, p) by {
        assert(eff_count(hash, changes, p) == pair_total(pts, p));
    }
    assert forall|p: PairModel, k: int|
        0 <= k < pts.len() && pair_occurrences(pts[k].tokens, p) > 0 implies #[trigger] ids_in(h, p).contains(
        k as usize) by {
        assert(eff_ids(hash, changes, p).contains(k as usize));
        lemma_occurs_total_positive(pts, k, p);
        assert(eff_count(hash, changes, p) == pair_total(pts, p));
    }
    assert forall|p: PairModel, x: usize| #[trigger] ids_in(h, p).contains(x) implies x < pts.len() by {
        assert(eff_ids(hash, changes, p).contains(x));
    }
}

proof fn lemma_best_from_keys(
    hash: Map<PairModel, (usize, Seq<usize>)>,
    tree: Set<(usize, PairModel)>,
    pts: Seq<PretokenModel>,
    key: (usize, PairModel),
)
    requires
        index_matches(hash, pts),
        tree == keys_of(hash),
        tree.contains(key),
        forall|x: (usize, PairModel)| #[trigger] tree.contains(x) && x != key ==> key_less(x, key),
    ensures
        is_best_pair(pts, key.1),
        pair_total(pts, key.1) == key.0,
{
    assert(hash.contains_key(key.1) && hash[key.1].0 == key.0);
    assert(count_in(hash, key.1) == pair_total(pts, key.1));
    assert forall|q: PairModel|
        #![trigger pair_total(pts, q)]
        pair_total(pts, q) > 0 && q != key.1 implies crate::byte_order::key_lt(
        pair_total(pts, q),
        q,
        pair_total(pts, key.1),
        key.1,
    ) by {
        assert(hash.contains_key(q));
        assert(count_in(hash, q) == pair_total(pts, q));
        let x = (hash[q].0, q);
        assert(tree.contains(x));
    }
}

proof fn lemma_no_pair_from_empty_keys(
    hash: Map<PairModel, (usize, Seq<usize>)>,
    tree: Set<(usize, PairModel)>,
    pts: Seq<PretokenModel>,
)
    requires
        index_matches(hash, pts),
        tree == keys_of(hash),
        tree == Set::<(usize, PairModel)>::empty(),
    ensures
        !has_pair(pts),
{
    if has_pair(pts) {
        let q = choose|q: PairModel| #[trigger] pair_total(pts, q) > 0;
        assert(hash.contains_key(q));
        assert(tree.contains((hash[q].0, q)));
    }
}

} // verus!

verus! {

/// `vocab` holds the tokens of `tokens`, each keyed by its position: the
/// vocabulary by id.
pub open spec fn vocab_matches(vocab: Map<usize, Vec<u8>>, tokens: Seq<Seq<u8>>) -> bool {
    &&& forall|i: usize| #[trigger] vocab.contains_key(i) == (i < tokens.len())
    &&& forall|i: usize| #[trigger] vocab.contains_key(i) ==> vocab[i]@ == tokens[i as int]
}

/// Keys each token of `vocab` by its position.
fn vocab_by_id(vocab: Vec<Vec<u8>>) -> (r: HashMap<usize, Vec<u8>>)
    ensures
        vocab_matches(r@, tokens_model(vocab@)),
{
    let ghost all = tokens_model(vocab@);
    let mut rest = vocab;
    let mut by_id: HashMap<usize, Vec<u8>> = HashMap::new();
    while rest.len() > 0
        invariant
            rest.len() <= all.len(),
            tokens_model(rest@) == all.take(rest.len() as int),
            forall|i: usize| #[trigger] by_id@.contains_key(i) == (rest.len() <= i < all.len()),
            forall|i: usize| #[trigger] by_id@.contains_key(i) ==> by_id@[i]@ == all[i as int],
        decreases rest.len(),
    {
        let ghost before = rest@;
        let token = rest.pop().unwrap();
        let id = rest.len();
        proof {
            assert(tokens_model(before)[id as int] == token@);
            assert(tokens_model(rest@) =~= all.take(id as int));
        }
        by_id.insert(id, token);
    }
    by_id
}

/// Trains byte-pair merges on a list of pretokens. The vocabulary starts
/// with the 256 single bytes and the special token, if any; then, while it
/// has fewer than `vocab_size` tokens and some pair of adjacent tokens
/// occurs, the best pair (greatest total, ties to the greatest pair) is
/// merged in every pretoken, and its joined bytes become the next token.
/// Returns the vocabulary, keyed by id, and the merges, in order; always
/// `Some`.
pub fn train(
    pretoken_list: Vec<Pretoken>,
    vocab_size: usize,
    special_token: Option<Vec<u8>>,
) -> (r: Option<(HashMap<usize, Vec<u8>>, Vec<AlphabetPair>)>)
    requires
        pretokens_wf(pretokens_model(pretoken_list@)),
        token_weight(pretokens_model(pretoken_list@)) <= usize::MAX,
    ensures
        r is Some,
        r matches Some((vocab, merges)) ==> {
            &&& merges_model(merges@) == bpe_merges(
                pretokens_model(pretoken_list@),
                remaining_merges(vocab_size, base_vocab(special_model(special_token)).len()),
            )
            &&& vocab_matches(
                vocab@,
                base_vocab(special_model(special_token)) + merges_model(merges@).map_values(
                    |p: PairModel| flatten_model(p),
                ),
            )
            &&& forall|k: int|
                0 <= k < merges@.len() ==> is_best_pair(
                    merge_sequence(pretokens_model(pretoken_list@), merges_model(merges@).take(k)),
                    #[trigger] merges_model(merges@)[k],
                )
        },
{
    let ghost init = pretokens_model(pretoken_list@);
    let ghost base = base_vocab(special_model(special_token));
    let ghost target = bpe_merges(init, remaining_merges(vocab_size, base.len()));
    let mut pretoken_list = pretoken_list;
    let mut vocab: Vec<Vec<u8>> = Vec::new();
    let mut merges: Vec<AlphabetPair> = Vec::new();
    let mut b: usize = 0;
    while b < 256
        invariant
            b <= 256,
            vocab.len() == b,
            tokens_model(vocab@) == Seq::new(b as nat, |i: int| seq![i as u8]),
        decreases 256 - b,
    {
        let mut single: Vec<u8> = Vec::new();
        single.push(b as u8);
        assert(single@ =~= seq![b as u8]);
        let ghost before = vocab@;
        vocab.push(single);
        proof {
            assert forall|i: int| 0 <= i < b implies #[trigger] vocab@[i]@ == seq![i as u8] by {
                assert(vocab@[i] == before[i]);
                assert(tokens_model(before)[i] == before[i]@);
            }
        }
        b = b + 1;
        proof {
            assert(tokens_model(vocab@) =~= Seq::new(b as nat, |i: int| seq![i as u8]));
        }
    }
    match special_token {
        None => {},
        Some(st) => {
            vocab.push(st);
        },
    }
    proof {
        assert(tokens_model(vocab@) =~= base);
        assert(merges_model(merges@) =~= Seq::<PairModel>::empty());
        assert(merges_model(merges@).map_values(|p: PairModel| flatten_model(p)) =~= Seq::<Seq<u8>>::empty());
        assert(base + Seq::<Seq<u8>>::empty() =~= base);
        assert(Seq::<PairModel>::empty() + target =~= target);
    }
    let mut ap_hash = count_initial_pairs(&pretoken_list);
    let mut ap_tree = make_alphabet_pair_tree(&ap_hash);
    while vocab.len() < vocab_size
        invariant
            ap_hash.wf(),
            ap_tree.wf(),
            ap_tree@ == keys_of(ap_hash@),
            index_matches(ap_hash@, pretokens_model(pretoken_list@)),
            pretokens_wf(pretokens_model(pretoken_list@)),
            pretoken_list.len() == init.len(),
            token_weight(pretokens_model(pretoken_list@)) <= usize::MAX,
            vocab.len() == base.len() + merges.len(),
            merges_model(merges@) + bpe_merges(
                pretokens_model(pretoken_list@),
                remaining_merges(vocab_size, vocab.len() as nat),
            ) == target,
            tokens_model(vocab@) == base + merges_model(merges@).map_values(|p: PairModel| flatten_model(p)),
        ensures
            merges_model(merges@) == target,
            tokens_model(vocab@) == base + merges_model(merges@).map_values(|p: PairModel| flatten_model(p)),
        decreases vocab_size - vocab.len(),
    {
        let ghost cur = pretokens_model(pretoken_list@);
        let ghost m = remaining_merges(vocab_size, vocab.len() as nat);
        let max_ap = match ap_tree.last() {
            None => {
                proof {
                    lemma_no_pair_from_empty_keys(ap_hash@, ap_tree@, cur);
                    assert(bpe_merges(cur, m) == Seq::<PairModel>::empty());
                    assert(merges_model(merges@) + Seq::<PairModel>::empty() =~= merges_model(merges@));
                }
                break;
            },
            Some(k) => k,
        };
        let pair = max_ap.pair.duplicate();
        let ghost pm = pair@;
        let ghost best_key = max_ap@;
        proof {
            lemma_best_from_keys(ap_hash@, ap_tree@, cur, max_ap@);
            lemma_best_pair_unique(cur, pm);
            assert(has_pair(cur));
            assert(bpe_merges(cur, m) == seq![pm] + bpe_merges(merge_all(cur, pm), (m - 1) as nat));
            lemma_total_positive_witness(cur, pm);
            let k0 = choose|k: int| 0 <= k < cur.len() && #[trigger] pair_occurrences(cur[k].tokens, pm) > 0;
            lemma_occurrence_position(cur[k0].tokens, pm);
            let j0 = choose|j: int| 0 <= j && j + 1 < cur[k0].tokens.len() && #[trigger] cur[k0].tokens[j] == pm.0
                && cur[k0].tokens[j + 1] == pm.1;
            assert(cur[k0].count > 0);
            assert(cur[k0].tokens[j0].len() > 0);
            assert(cur[k0].tokens[j0 + 1].len() > 0);
        }
        let ids = match ap_hash.get(pair.pair.0.as_slice(), pair.pair.1.as_slice()) {
            Some(info) => copy_ids(&info.pretoken_ids),
            None => {
                proof {
                    assert(ap_hash@.contains_key(pm));
                }
                return None;
            },
        };
        assert(ids@ == ids_in(ap_hash@, pm));
        let mut pairs_to_change = PairIndex::new();
        proof { lemma_pending_start(ap_hash@, cur); }
        let mut j: usize = 0;
        while j < ids.len()
            invariant
                ap_hash.wf(),
                pairs_to_change.wf(),
                index_matches(ap_hash@, cur),
                pm == pair@,
                pm.0.len() > 0,
                pm.1.len() > 0,
                j <= ids.len(),
                ids@ == ids_in(ap_hash@, pm),
                pretoken_list.len() == cur.len(),
                pretokens_wf(pretokens_model(pretoken_list@)),
                token_weight(pretokens_model(pretoken_list@)) <= token_weight(cur),
                token_weight(cur) <= usize::MAX,
                forall|k: int|
                    0 <= k < cur.len() ==> #[trigger] pretoken_list@[k].count == cur[k].count && (
                    pretoken_list@[k]@.tokens == cur[k].tokens || pretoken_list@[k]@.tokens == merge_tokens(
                        cur[k].tokens,
                        pm,
                    )),
                forall|jj: int|
                    0 <= jj < j && ids@[jj] < cur.len() ==> #[trigger] pretoken_list@[ids@[jj] as int]@.tokens
                        == merge_tokens(cur[ids@[jj] as int].tokens, pm),
                pending_matches(ap_hash@, pairs_to_change@, pretokens_model(pretoken_list@)),
            decreases ids.len() - j,
        {
            let pid = ids[j];
            if pid < pretoken_list.len() {
                let ghost now = pretokens_model(pretoken_list@);
                let ghost k = pid as int;
                let ghost before_changes = pairs_to_change@;
                let new_list = new_alphabet_list(&pretoken_list[pid], &pair);
                let ghost t = tokens_model(new_list@);
                proof {
                    assert(now[k] == pretoken_list@[k]@);
                    assert(t == merge_tokens(now[k].tokens, pm));
                    lemma_merge_len(now[k].tokens, pm);
                    lemma_change_bounds(ap_hash@, pairs_to_change@, now, k, t, token_weight(cur));
                }
                update_pairs_to_change(&mut pairs_to_change, &ap_hash, &new_list, &pretoken_list[pid], pid);
                let cnt = pretoken_list[pid].count;
                proof {
                    lemma_pending_step(ap_hash@, before_changes, pairs_to_change@, now, k, t);
                    lemma_merge_nonempty(now[k].tokens, pm);
                    if now[k].tokens != cur[k].tokens {
                        lemma_merge_idempotent(cur[k].tokens, pm);
                    }
                }
                pretoken_list.set(pid, Pretoken { count: cnt, alphabet_list: new_list });
                proof {
                    let next = pretokens_model(pretoken_list@);
                    assert(next =~= now.update(k, PretokenModel { count: now[k].count, tokens: t }));
                    assert forall|kk: int| 0 <= kk < next.len() implies #[trigger] next[kk].count > 0 && forall|jj: int|
                        0 <= jj < next[kk].tokens.len() ==> next[kk].tokens[jj].len() > 0 by {
                        if kk != k {
                            assert(next[kk] == now[kk]);
                        }
                    }
                    assert(pretokens_wf(next));
                    assert forall|kk: int| 0 <= kk < cur.len() implies #[trigger] pretoken_list@[kk].count
                        == cur[kk].count && (pretoken_list@[kk]@.tokens == cur[kk].tokens || pretoken_list@[kk]@.tokens
                        == merge_tokens(cur[kk].tokens, pm)) by {
                        if kk != k {
                            assert(next[kk] == now[kk]);
                        }
                    }
                }
            }
            j = j + 1;
        }
        let ghost after = pretokens_model(pretoken_list@);
        proof {
            assert forall|k: int| 0 <= k < cur.len() implies #[trigger] after[k] == merge_all(cur, pm)[k] by {
                assert(after[k] == pretoken_list@[k]@);
                if pair_occurrences(cur[k].tokens, pm) > 0 {
                    assert(ids_in(ap_hash@, pm).contains(k as usize));
                    let jj = choose|jj: int| 0 <= jj < ids@.len() && ids@[jj] == k as usize;
                    assert(pretoken_list@[ids@[jj] as int]@.tokens == merge_tokens(cur[ids@[jj] as int].tokens, pm));
                } else {
                    lemma_merge_without_pair(cur[k].tokens, pm);
                }
            }
            assert(after =~= merge_all(cur, pm));
            assert forall|p: PairModel| #[trigger] ap_hash@.contains_key(p) implies ap_hash@[p].0 > 0 by {
                assert(count_in(ap_hash@, p) == pair_total(cur, p));
            }
            law_incremental_update_is_recount(ap_hash@, pairs_to_change@, after);
        }
        update_ap_structures(&mut ap_hash, &mut ap_tree, pairs_to_change);
        proof {
            // The merged pair is gone from both structures.
            law_merged_pair_vanishes(cur, pm);
            assert(!ap_hash@.contains_key(pm));
            assert(!ap_tree@.contains(best_key));
        }
        let ghost before_merges = merges_model(merges@);
        let ghost before_vocab = vocab@;
        let flat = flatten_pair(&pair.pair);
        vocab.push(flat);
        proof {
            assert forall|i: int| 0 <= i < before_vocab.len() implies #[trigger] tokens_model(vocab@)[i]
                == tokens_model(before_vocab)[i] by {
                assert(vocab@[i] == before_vocab[i]);
            }
            assert(tokens_model(vocab@) =~= tokens_model(before_vocab).push(flatten_model(pm)));
        }
        merges.push(pair);
        proof {
            assert(merges_model(merges@) =~= before_merges.push(pm));
            assert(remaining_merges(vocab_size, vocab.len() as nat) == (m - 1) as nat);
            assert(merges_model(merges@) + bpe_merges(after, (m - 1) as nat) =~= before_merges + (seq![pm]
                + bpe_merges(merge_all(cur, pm), (m - 1) as nat)));
            assert(merges_model(merges@).map_values(|p: PairModel| flatten_model(p)) =~= before_merges.map_values(
                |p: PairModel| flatten_model(p),
            ).push(flatten_model(pm)));
            assert(tokens_model(vocab@) =~= base + merges_model(merges@).map_values(|p: PairModel| flatten_model(p)));
        }
    }
    proof {
        if vocab.len() >= vocab_size {
            let m = remaining_merges(vocab_size, vocab.len() as nat);
            assert(m == 0);
            assert(bpe_merges(pretokens_model(pretoken_list@), 0) == Seq::<PairModel>::empty());
            assert(merges_model(merges@) + Seq::<PairModel>::empty() =~= merges_model(merges@));
        }
        assert forall|k: int| 0 <= k < merges@.len() implies is_best_pair(
            merge_sequence(init, merges_model(merges@).take(k)),
            #[trigger] merges_model(merges@)[k],
        ) by {
            law_each_merge_is_best(init, remaining_merges(vocab_size, base.len()), k);
        }
    }
    Some((vocab_by_id(vocab), merges))
}

} // verus!

verus! {

/// One token per byte of `w`.
pub open spec fn single_byte_tokens(w: Seq<u8>) -> Seq<Seq<u8>> {
    Seq::new(w.len(), |i: int| seq![w[i]])
}

/// `p` is a word of the count map `m`, split into single bytes, with the
/// word's count.
pub open spec fn counted_word(p: PretokenModel, m: Map<Seq<u8>, usize>) -> bool {
    exists|w: Seq<u8>| #[trigger] m.contains_key(w) && p.count == m[w] && p.tokens == single_byte_tokens(w)
}

/// The pretokens of a count map, each split into single bytes, in the
/// map's own order.
pub fn get_pretoken_list(pretoken_counts: HashMap<Vec<u8>, usize>) -> (r: Vec<Pretoken>)
    ensures
        forall|k: int|
            0 <= k < r.len() ==> counted_word(#[trigger] r@[k]@, pretoken_count_entries(pretoken_counts)),
        forall|w: Seq<u8>|
            #[trigger] pretoken_count_entries(pretoken_counts).contains_key(w) ==> exists|k: int|
                0 <= k < r.len() && #[trigger] r@[k]@.tokens == single_byte_tokens(w),
        forall|i: int, j: int| 0 <= i < j < r.len() ==> #[trigger] r@[i]@.tokens != #[trigger] r@[j]@.tokens,
{
    let ghost m = pretoken_count_entries(pretoken_counts);
    let entries = counts_into_entries(pretoken_counts);
    let mut pretoken_list: Vec<Pretoken> = Vec::new();
    let mut i: usize = 0;
    while i < entries.len()
        invariant
            i <= entries.len(),
            pretoken_list.len() == i,
            forall|a: int, b: int| 0 <= a < b < entries.len() ==> #[trigger] entries@[a].0@ != #[trigger] entries@[b].0@,
            forall|a: int|
                0 <= a < entries.len() ==> #[trigger] m.contains_key(entries@[a].0@) && m[entries@[a].0@] == entries@[a].1,
            forall|w: Seq<u8>| #[trigger] m.contains_key(w) ==> exists|a: int| 0 <= a < entries.len() && #[trigger] entries@[a].0@ == w,
            forall|k: int|
                0 <= k < i ==> #[trigger] pretoken_list@[k].count == entries@[k].1 && pretoken_list@[k]@.tokens
                    == single_byte_tokens(entries@[k].0@),
        decreases entries.len() - i,
    {
        let word = &entries[i].0;
        let mut al: Vec<Vec<u8>> = Vec::new();
        let mut b: usize = 0;
        assert(tokens_model(al@) =~= single_byte_tokens(word@).take(0));
        while b < word.len()
            invariant
                b <= word.len(),
                al.len() == b,
                tokens_model(al@) == single_byte_tokens(word@).take(b as int),
            decreases word.len() - b,
        {
            let mut single: Vec<u8> = Vec::new();
            single.push(word[b]);
            let ghost before = al@;
            al.push(single);
            proof {
                assert forall|j: int| 0 <= j < b implies #[trigger] al@[j]@ == before[j]@ by {
                    assert(al@[j] == before[j]);
                }
                assert forall|j: int| 0 <= j < b implies before[j]@ == single_byte_tokens(word@)[j] by {
                    assert(tokens_model(before)[j] == before[j]@);
                }
                assert(tokens_model(al@) =~= single_byte_tokens(word@).take(b + 1));
            }
            b = b + 1;
        }
        proof {
            assert(single_byte_tokens(word@).take(b as int) =~= single_byte_tokens(word@));
        }
        let ghost before = pretoken_list@;
        pretoken_list.push(Pretoken { count: entries[i].1, alphabet_list: al });
        proof {
            assert forall|k: int| 0 <= k < i + 1 implies #[trigger] pretoken_list@[k].count == entries@[k].1
                && pretoken_list@[k]@.tokens == single_byte_tokens(entries@[k].0@) by {
                if k < i {
                    assert(pretoken_list@[k] == before[k]);
                }
            }
        }
        i = i + 1;
    }
    proof {
        assert forall|k: int| 0 <= k < pretoken_list.len() implies counted_word(#[trigger] pretoken_list@[k]@, m) by {
            let w = entries@[k].0@;
            assert(m.contains_key(w));
            assert(pretoken_list@[k].count == entries@[k].1);
            assert(pretoken_list@[k].count == m[w] && pretoken_list@[k]@.tokens == single_byte_tokens(w));
        }
        assert forall|w: Seq<u8>| #[trigger] m.contains_key(w) implies exists|k: int|
            0 <= k < pretoken_list.len() && #[trigger] pretoken_list@[k]@.tokens == single_byte_tokens(w) by {
            let a = choose|a: int| 0 <= a < entries.len() && #[trigger] entries@[a].0@ == w;
            assert(pretoken_list@[a]@.tokens == single_byte_tokens(w));
        }
        assert forall|x: int, y: int| 0 <= x < y < pretoken_list.len() implies #[trigger] pretoken_list@[x]@.tokens
            != #[trigger] pretoken_list@[y]@.tokens by {
            assert(entries@[x].0@ != entries@[y].0@);
            if pretoken_list@[x]@.tokens == pretoken_list@[y]@.tokens {
                lemma_single_byte_tokens_injective(entries@[x].0@, entries@[y].0@);
            }
        }
    }
    pretoken_list
}

/// Different byte strings split into different token lists.
pub proof fn lemma_single_byte_tokens_injective(a: Seq<u8>, b: Seq<u8>)
    requires
        single_byte_tokens(a) == single_byte_tokens(b),
    ensures
        a == b,
{
    assert(a.len() == single_byte_tokens(a).len());
    assert(b.len() == single_byte_tokens(b).len());
    assert forall|j: int| 0 <= j < a.len() implies a[j] == b[j] by {
        assert(single_byte_tokens(a)[j] == seq![a[j]]);
        assert(single_byte_tokens(b)[j] == seq![b[j]]);
        assert(seq![a[j]][0] == a[j]);
        assert(seq![b[j]][0] == b[j]);
    }
    assert(a =~= b);
}

/// Whether `train` may be called on these pretokens: every count is
/// positive, every token non-empty, and the token weight fits in `usize`.
pub fn pretokens_trainable(pretoken_list: &Vec<Pretoken>) -> (r: bool)
    ensures
        r == (pretokens_wf(pretokens_model(pretoken_list@)) && token_weight(pretokens_model(pretoken_list@))
            <= usize::MAX),
{
    let ghost pts = pretokens_model(pretoken_list@);
    let mut weight: usize = 0;
    let mut k: usize = 0;
    proof {
        assert(pts.take(0) =~= Seq::<PretokenModel>::empty());
    }
    while k < pretoken_list.len()
        invariant
            k <= pretoken_list.len(),
            pts == pretokens_model(pretoken_list@),
            pretokens_wf(pts.take(k as int)),
            weight == token_weight(pts.take(k as int)),
        decreases pretoken_list.len() - k,
    {
        let p = &pretoken_list[k];
        assert(pts[k as int] == p@);
        if p.count == 0 {
            proof {
                assert(pts[k as int].count == 0);
                assert(!pretokens_wf(pts)) by {
                    if pretokens_wf(pts) {
                        assert(pts[k as int].count > 0);
                    }
                }
            }
            return false;
        }
        let mut j: usize = 0;
        while j < p.alphabet_list.len()
            invariant
                j <= p.alphabet_list.len(),
                k < pts.len(),
                pts[k as int] == p@,
                pts == pretokens_model(pretoken_list@),
                forall|jj: int| 0 <= jj < j ==> #[trigger] p@.tokens[jj].len() > 0,
            decreases p.alphabet_list.len() - j,
        {
            if p.alphabet_list[j].len() == 0 {
                proof {
                    assert(p@.tokens[j as int].len() == 0);
                    assert(!pretokens_wf(pts)) by {
                        if pretokens_wf(pts) {
                            assert(pts[k as int].count > 0);
                        }
                    }
                }
                return false;
            }
            j = j + 1;
        }
        proof {
            assert(pts.take(k + 1).drop_last() =~= pts.take(k as int));
            assert(pts.take(k + 1).last() == pts[k as int]);
            assert forall|kk: int| 0 <= kk < k + 1 implies #[trigger] pts.take(k + 1)[kk].count > 0 && forall|jj: int|
                0 <= jj < pts.take(k + 1)[kk].tokens.len() ==> #[trigger] pts.take(k + 1)[kk].tokens[jj].len() > 0 by {
                if kk < k {
                    assert(pts.take(k + 1)[kk] == pts.take(k as int)[kk]);
                }
            }
        }
        let term = match p.count.checked_mul(p.alphabet_list.len()) {
            Some(t) => t,
            None => {
                proof { lemma_weight_prefix_le(pts, k + 1); }
                return false;
            },
        };
        weight = match weight.checked_add(term) {
            Some(w) => w,
            None => {
                proof { lemma_weight_prefix_le(pts, k + 1); }
                return false;
            },
        };
        k = k + 1;
    }
    proof {
        assert(pts.take(k as int) =~= pts);
    }
    true
}

/// The weight of a prefix of the pretokens is at most the whole weight.
pub proof fn lemma_weight_prefix_le(pts: Seq<PretokenModel>, k: int)
    requires
        0 <= k <= pts.len(),
    ensures
        token_weight(pts.take(k)) <= token_weight(pts),
    decreases pts.len() - k,
{
    if k == pts.len() {
        assert(pts.take(k) =~= pts);
    } else {
        assert(pts.take(k + 1).drop_last() =~= pts.take(k));
        lemma_weight_prefix_le(pts, k + 1);
    }
}

} // verus!
