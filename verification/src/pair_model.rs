//! The mathematical model of byte-pair-encoding training: pretokens as
//! weighted token sequences, how often a pair of adjacent tokens occurs, what
//! merging a pair does to a token sequence, which pair training picks next,
//! and the whole sequence of merges that training produces.

use vstd::prelude::*;
use vstd::arithmetic::mul::{lemma_mul_inequality, lemma_mul_strictly_positive};
use crate::byte_order::{key_lt, lemma_key_lt_irreflexive, lemma_key_lt_transitive};

verus! {

/// A pair of adjacent tokens, as byte strings.
pub type PairModel = (Seq<u8>, Seq<u8>);

/// A pretoken: how often it occurs in the corpus, and its current split
/// into tokens.
pub struct PretokenModel {
    pub count: nat,
    pub tokens: Seq<Seq<u8>>,
}

/// Number of positions `j` with `s[j] == p.0` and `s[j + 1] == p.1`.
pub open spec fn pair_occurrences(s: Seq<Seq<u8>>, p: PairModel) -> nat
    decreases s.len(),
{
    if s.len() < 2 {
        0
    } else {
        (if s[0] == p.0 && s[1] == p.1 { 1nat } else { 0nat }) + pair_occurrences(s.drop_first(), p)
    }
}

/// Occurrences of `p` in all pretokens, each weighted by its count.
pub open spec fn pair_total(pts: Seq<PretokenModel>, p: PairModel) -> nat
    decreases pts.len(),
{
    if pts.len() == 0 {
        0
    } else {
        pair_total(pts.drop_last(), p) + pts.last().count * pair_occurrences(pts.last().tokens, p)
    }
}

/// Number of tokens in all pretokens, each weighted by its count: a bound on
/// every pair total.
pub open spec fn token_weight(pts: Seq<PretokenModel>) -> nat
    decreases pts.len(),
{
    if pts.len() == 0 {
        0
    } else {
        token_weight(pts.drop_last()) + pts.last().count * pts.last().tokens.len()
    }
}

/// Every pretoken occurs at least once and every token is non-empty.
pub open spec fn pretokens_wf(pts: Seq<PretokenModel>) -> bool {
    forall|k: int|
        0 <= k < pts.len() ==> {
            &&& #[trigger] pts[k].count > 0
            &&& forall|j: int| 0 <= j < pts[k].tokens.len() ==> pts[k].tokens[j].len() > 0
        }
}

/// Merges the occurrences of `p` in `s` from left to right: where `s[j]`,
/// `s[j + 1]` is `p`, the two tokens become the single token `p.0 + p.1`,
/// and the scan goes on after them.
pub open spec fn merge_tokens(s: Seq<Seq<u8>>, p: PairModel) -> Seq<Seq<u8>>
    decreases s.len(),
{
    if s.len() < 2 {
        s
    } else if s[0] == p.0 && s[1] == p.1 {
        seq![p.0 + p.1] + merge_tokens(s.skip(2), p)
    } else {
        seq![s[0]] + merge_tokens(s.drop_first(), p)
    }
}

/// Merges `p` in every pretoken.
pub open spec fn merge_all(pts: Seq<PretokenModel>, p: PairModel) -> Seq<PretokenModel> {
    Seq::new(
        pts.len(),
        |k: int| PretokenModel { count: pts[k].count, tokens: merge_tokens(pts[k].tokens, p) },
    )
}

/// `p` occurs, and no other occurring pair has a greater key
/// `(pair_total, pair)`.
pub open spec fn is_best_pair(pts: Seq<PretokenModel>, p: PairModel) -> bool {
    &&& pair_total(pts, p) > 0
    &&& forall|q: PairModel|
        #![trigger pair_total(pts, q)]
        pair_total(pts, q) > 0 && q != p ==> key_lt(pair_total(pts, q), q, pair_total(pts, p), p)
}

/// Some pair of adjacent tokens occurs in a pretoken of positive count.
pub open spec fn has_pair(pts: Seq<PretokenModel>) -> bool {
    exists|q: PairModel| #[trigger] pair_total(pts, q) > 0
}

/// The pair that training merges next.
pub open spec fn best_pair(pts: Seq<PretokenModel>) -> PairModel {
    choose|p: PairModel| is_best_pair(pts, p)
}

/// The merges that training makes, at most `n` of them: each time the best
/// pair, after which that pair is merged in every pretoken.
pub open spec fn bpe_merges(pts: Seq<PretokenModel>, n: nat) -> Seq<PairModel>
    decreases n,
{
    if n == 0 || !has_pair(pts) {
        seq![]
    } else {
        let p = best_pair(pts);
        seq![p] + bpe_merges(merge_all(pts, p), (n - 1) as nat)
    }
}

/// The byte string of the token that merging `p` creates.
pub open spec fn flatten_model(p: PairModel) -> Seq<u8> {
    p.0 + p.1
}

/// There is at most one best pair.
pub proof fn lemma_best_pair_unique(pts: Seq<PretokenModel>, p: PairModel)
    requires
        is_best_pair(pts, p),
    ensures
        best_pair(pts) == p,
{
    let q = best_pair(pts);
    assert(is_best_pair(pts, q));
    if q != p {
        assert(key_lt(pair_total(pts, q), q, pair_total(pts, p), p));
        assert(key_lt(pair_total(pts, p), p, pair_total(pts, q), q));
        lemma_key_lt_transitive(pair_total(pts, q), q, pair_total(pts, p), p, pair_total(pts, q), q);
        lemma_key_lt_irreflexive(pair_total(pts, q), q);
    }
}

/// A pair occurs at most as many times as the sequence has tokens.
pub proof fn lemma_occurrences_le_len(s: Seq<Seq<u8>>, p: PairModel)
    ensures
        pair_occurrences(s, p) <= s.len(),
    decreases s.len(),
{
    if s.len() >= 2 {
        lemma_occurrences_le_len(s.drop_first(), p);
    }
}

/// Appending a token adds one occurrence exactly when the former last token
/// and the new one form the pair.
pub proof fn lemma_occurrences_push(s: Seq<Seq<u8>>, x: Seq<u8>, p: PairModel)
    ensures
        pair_occurrences(s.push(x), p) == pair_occurrences(s, p) + (if s.len() >= 1 && s.last()
            == p.0 && x == p.1 {
            1nat
        } else {
            0nat
        }),
    decreases s.len(),
{
    if s.len() >= 2 {
        assert(s.push(x).drop_first() =~= s.drop_first().push(x));
        assert(s.drop_first().last() == s.last());
        lemma_occurrences_push(s.drop_first(), x, p);
    } else if s.len() == 1 {
        assert(s.push(x).drop_first() =~= seq![x]);
        assert(pair_occurrences(seq![x], p) == 0);
    }
}

/// Occurrences among the first `i + 1` tokens, from those among the first `i`.
pub proof fn lemma_occurrences_take(s: Seq<Seq<u8>>, i: int, p: PairModel)
    requires
        0 <= i < s.len(),
    ensures
        pair_occurrences(s.take(i + 1), p) == pair_occurrences(s.take(i), p) + (if i >= 1 && s[i
            - 1] == p.0 && s[i] == p.1 {
            1nat
        } else {
            0nat
        }),
{
    assert(s.take(i + 1) =~= s.take(i).push(s[i]));
    lemma_occurrences_push(s.take(i), s[i], p);
}

/// A prefix has no more occurrences than the whole sequence.
pub proof fn lemma_occurrences_take_le(s: Seq<Seq<u8>>, i: int, p: PairModel)
    requires
        0 <= i <= s.len(),
    ensures
        pair_occurrences(s.take(i), p) <= pair_occurrences(s, p),
    decreases s.len() - i,
{
    if i == s.len() {
        assert(s.take(i) =~= s);
    } else {
        lemma_occurrences_take(s, i, p);
        lemma_occurrences_take_le(s, i + 1, p);
    }
}

/// A pair's total is at most the token weight of the pretokens.
pub proof fn lemma_total_le_weight(pts: Seq<PretokenModel>, p: PairModel)
    ensures
        pair_total(pts, p) <= token_weight(pts),
    decreases pts.len(),
{
    if pts.len() > 0 {
        lemma_total_le_weight(pts.drop_last(), p);
        lemma_occurrences_le_len(pts.last().tokens, p);
        lemma_mul_inequality(
            pair_occurrences(pts.last().tokens, p) as int,
            pts.last().tokens.len() as int,
            pts.last().count as int,
        );
    }
}

/// The total over the first `k + 1` pretokens, from the total over the first `k`.
pub proof fn lemma_total_take_step(pts: Seq<PretokenModel>, k: int, p: PairModel)
    requires
        0 <= k < pts.len(),
    ensures
        pair_total(pts.take(k + 1), p) == pair_total(pts.take(k), p) + pts[k].count * pair_occurrences(
            pts[k].tokens,
            p,
        ),
{
    assert(pts.take(k + 1).drop_last() =~= pts.take(k));
}

/// The total over a prefix of the pretokens is at most the whole total.
pub proof fn lemma_total_take_le(pts: Seq<PretokenModel>, k: int, p: PairModel)
    requires
        0 <= k <= pts.len(),
    ensures
        pair_total(pts.take(k), p) <= pair_total(pts, p),
    decreases pts.len() - k,
{
    if k == pts.len() {
        assert(pts.take(k) =~= pts);
    } else {
        lemma_total_take_step(pts, k, p);
        lemma_total_take_le(pts, k + 1, p);
    }
}

/// One pretoken's share of a pair total is at most the total.
pub proof fn lemma_term_le_total(pts: Seq<PretokenModel>, k: int, p: PairModel)
    requires
        0 <= k < pts.len(),
    ensures
        pts[k].count * pair_occurrences(pts[k].tokens, p) <= pair_total(pts, p),
    decreases pts.len(),
{
    if k < pts.len() - 1 {
        lemma_term_le_total(pts.drop_last(), k, p);
    }
}

/// A pair that occurs in a pretoken of positive count has a positive total.
pub proof fn lemma_occurs_total_positive(pts: Seq<PretokenModel>, k: int, p: PairModel)
    requires
        0 <= k < pts.len(),
        pts[k].count > 0,
        pair_occurrences(pts[k].tokens, p) > 0,
    ensures
        pair_total(pts, p) > 0,
{
    lemma_term_le_total(pts, k, p);
    lemma_mul_strictly_positive(pts[k].count as int, pair_occurrences(pts[k].tokens, p) as int);
}

/// Replacing the tokens of pretoken `k` moves a pair total by that
/// pretoken's change in occurrences, times its count.
pub proof fn lemma_total_update(pts: Seq<PretokenModel>, k: int, t: Seq<Seq<u8>>, p: PairModel)
    requires
        0 <= k < pts.len(),
    ensures
        pair_total(pts.update(k, PretokenModel { count: pts[k].count, tokens: t }), p) == pair_total(
            pts,
            p,
        ) - pts[k].count * pair_occurrences(pts[k].tokens, p) + pts[k].count * pair_occurrences(
            t,
            p,
        ),
    decreases pts.len(),
{
    let u = pts.update(k, PretokenModel { count: pts[k].count, tokens: t });
    if k < pts.len() - 1 {
        assert(u.drop_last() =~= pts.drop_last().update(
            k,
            PretokenModel { count: pts[k].count, tokens: t },
        ));
        lemma_total_update(pts.drop_last(), k, t, p);
    } else {
        assert(u.drop_last() =~= pts.drop_last());
    }
}

/// Replacing the tokens of pretoken `k` moves the weight by that pretoken's
/// change in length, times its count.
pub proof fn lemma_weight_update(pts: Seq<PretokenModel>, k: int, t: Seq<Seq<u8>>)
    requires
        0 <= k < pts.len(),
    ensures
        token_weight(pts.update(k, PretokenModel { count: pts[k].count, tokens: t }))
            == token_weight(pts) - pts[k].count * pts[k].tokens.len() + pts[k].count * t.len(),
    decreases pts.len(),
{
    let u = pts.update(k, PretokenModel { count: pts[k].count, tokens: t });
    if k < pts.len() - 1 {
        assert(u.drop_last() =~= pts.drop_last().update(
            k,
            PretokenModel { count: pts[k].count, tokens: t },
        ));
        lemma_weight_update(pts.drop_last(), k, t);
    } else {
        assert(u.drop_last() =~= pts.drop_last());
    }
}

/// Merging never lengthens a token sequence.
pub proof fn lemma_merge_len(s: Seq<Seq<u8>>, p: PairModel)
    ensures
        merge_tokens(s, p).len() <= s.len(),
    decreases s.len(),
{
    if s.len() >= 2 {
        if s[0] == p.0 && s[1] == p.1 {
            lemma_merge_len(s.skip(2), p);
        } else {
            lemma_merge_len(s.drop_first(), p);
        }
    }
}

/// The first token after merging is the first token before, or the merged
/// token.
pub proof fn lemma_merge_first(s: Seq<Seq<u8>>, p: PairModel)
    requires
        s.len() > 0,
    ensures
        merge_tokens(s, p).len() > 0,
        merge_tokens(s, p)[0] == s[0] || merge_tokens(s, p)[0] == p.0 + p.1,
    decreases s.len(),
{
}

/// Merging keeps every token non-empty.
pub proof fn lemma_merge_nonempty(s: Seq<Seq<u8>>, p: PairModel)
    requires
        forall|j: int| 0 <= j < s.len() ==> s[j].len() > 0,
    ensures
        forall|j: int| 0 <= j < merge_tokens(s, p).len() ==> merge_tokens(s, p)[j].len() > 0,
    decreases s.len(),
{
    if s.len() >= 2 {
        if s[0] == p.0 && s[1] == p.1 {
            lemma_merge_nonempty(s.skip(2), p);
            let m = merge_tokens(s.skip(2), p);
            assert forall|j: int| 0 <= j < merge_tokens(s, p).len() implies merge_tokens(s, p)[j].len()
                > 0 by {
                if j > 0 {
                    assert(merge_tokens(s, p)[j] == m[j - 1]);
                }
            }
        } else {
            lemma_merge_nonempty(s.drop_first(), p);
            let m = merge_tokens(s.drop_first(), p);
            assert forall|j: int| 0 <= j < merge_tokens(s, p).len() implies merge_tokens(s, p)[j].len()
                > 0 by {
                if j > 0 {
                    assert(merge_tokens(s, p)[j] == m[j - 1]);
                }
            }
        }
    }
}

/// After merging a pair of non-empty tokens, the pair occurs no more.
pub proof fn lemma_merge_removes_pair(s: Seq<Seq<u8>>, p: PairModel)
    requires
        p.0.len() > 0,
        p.1.len() > 0,
    ensures
        pair_occurrences(merge_tokens(s, p), p) == 0,
    decreases s.len(),
{
    if s.len() >= 2 {
        let x = if s[0] == p.0 && s[1] == p.1 { p.0 + p.1 } else { s[0] };
        let rest = if s[0] == p.0 && s[1] == p.1 { s.skip(2) } else { s.drop_first() };
        lemma_merge_removes_pair(rest, p);
        let m = merge_tokens(rest, p);
        assert(merge_tokens(s, p) == seq![x] + m);
        assert((seq![x] + m).drop_first() =~= m);
        if m.len() > 0 {
            lemma_merge_first(rest, p);
            if x == p.0 && m[0] == p.1 {
                assert((p.0 + p.1).len() > p.0.len());
                assert((p.0 + p.1).len() > p.1.len());
            }
        }
    }
}

/// A sequence in which the pair does not occur is left as it is.
pub proof fn lemma_merge_without_pair(s: Seq<Seq<u8>>, p: PairModel)
    requires
        pair_occurrences(s, p) == 0,
    ensures
        merge_tokens(s, p) == s,
    decreases s.len(),
{
    if s.len() >= 2 {
        lemma_merge_without_pair(s.drop_first(), p);
        assert(s =~= seq![s[0]] + s.drop_first());
    }
}

} // verus!

verus! {

/// A positive total has a pretoken in which the pair occurs.
pub proof fn lemma_total_positive_witness(pts: Seq<PretokenModel>, p: PairModel)
    requires
        pair_total(pts, p) > 0,
    ensures
        exists|k: int| 0 <= k < pts.len() && #[trigger] pair_occurrences(pts[k].tokens, p) > 0,
    decreases pts.len(),
{
    let last = pts.len() - 1;
    if pair_occurrences(pts[last].tokens, p) > 0 {
        assert(pair_occurrences(pts[last].tokens, p) > 0);
    } else {
        assert(pts.last() == pts[last]);
        assert(pair_occurrences(pts.last().tokens, p) == 0);
        assert(pts.last().count * pair_occurrences(pts.last().tokens, p) == 0) by (nonlinear_arith)
            requires pair_occurrences(pts.last().tokens, p) == 0;
        lemma_total_positive_witness(pts.drop_last(), p);
        let k = choose|k: int| 0 <= k < pts.drop_last().len() && #[trigger] pair_occurrences(pts.drop_last()[k].tokens, p) > 0;
        assert(pts.drop_last()[k] == pts[k]);
    }
}

/// An occurring pair is made of two adjacent tokens of the sequence.
pub proof fn lemma_occurrence_position(s: Seq<Seq<u8>>, p: PairModel)
    requires
        pair_occurrences(s, p) > 0,
    ensures
        exists|j: int| 0 <= j && j + 1 < s.len() && #[trigger] s[j] == p.0 && s[j + 1] == p.1,
    decreases s.len(),
{
    if !(s[0] == p.0 && s[1] == p.1) {
        lemma_occurrence_position(s.drop_first(), p);
        let j = choose|j: int| 0 <= j && j + 1 < s.drop_first().len() && #[trigger] s.drop_first()[j] == p.0 && s.drop_first()[j + 1] == p.1;
        assert(s[j + 1] == p.0);
    } else {
        assert(s[0] == p.0);
    }
}

/// Merging twice is merging once.
pub proof fn lemma_merge_idempotent(s: Seq<Seq<u8>>, p: PairModel)
    requires
        p.0.len() > 0,
        p.1.len() > 0,
    ensures
        merge_tokens(merge_tokens(s, p), p) == merge_tokens(s, p),
{
    lemma_merge_removes_pair(s, p);
    lemma_merge_without_pair(merge_tokens(s, p), p);
}

} // verus!
