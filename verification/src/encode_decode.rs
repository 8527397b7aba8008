//! Encoding text with a trained vocabulary: every substring of the text
//! that is a vocabulary word is merged, in increasing `(id, word, position)`
//! order, into a single token wherever it covers whole tokens.

use vstd::prelude::*;
use std::collections::HashMap;
use vstd::utf8::encode_utf8;
use crate::byte_order::{
    bytes_lt, compare_bytes, lemma_bytes_lt_irreflexive, lemma_bytes_lt_total,
    lemma_bytes_lt_transitive, Order,
};

verus! {

/// A vocabulary word found in the text: its id, its bytes and where it
/// starts.
pub struct VocabDetail {
    pub vocab_num: u32,
    pub word: Vec<u8>,
    pub loc: usize,
}

/// A token of the text being encoded: its id and how many bytes it covers.
pub struct EncodedPair {
    pub vocab_id: u32,
    pub length: usize,
}

/// A found word: `(id, bytes, start)`.
pub type DetailModel = (u32, Seq<u8>, usize);

/// A token: `(id, length in bytes)`.
pub type TokenModel = (u32, usize);

impl View for VocabDetail {
    type V = DetailModel;

    open spec fn view(&self) -> DetailModel {
        (self.vocab_num, self.word@, self.loc)
    }
}

impl View for EncodedPair {
    type V = TokenModel;

    open spec fn view(&self) -> TokenModel {
        (self.vocab_id, self.length)
    }
}

/// The models of a list of tokens.
pub open spec fn encoded_model(v: Seq<EncodedPair>) -> Seq<TokenModel> {
    Seq::new(v.len(), |i: int| v[i]@)
}

/// Number of bytes the tokens cover.
pub open spec fn covered_len(toks: Seq<TokenModel>) -> nat
    decreases toks.len(),
{
    if toks.len() == 0 {
        0
    } else {
        covered_len(toks.drop_last()) + toks.last().1 as nat
    }
}

/// The scan of `valid_merge` from token `i`, which starts at byte `start`,
/// with `token_num` and `count` as found so far. A token that `byte_loc` or
/// `end` falls strictly inside ends the scan with `None`; the token that
/// starts at `byte_loc` sets `token_num` and counting starts there; the
/// token that ends at `end` ends the scan with `(token_num, count)`.
pub open spec fn merge_scan(
    toks: Seq<TokenModel>,
    i: nat,
    start: int,
    token_num: int,
    count: int,
    byte_loc: int,
    end: int,
) -> Option<(int, int)>
    decreases toks.len() - i,
{
    if i >= toks.len() {
        None
    } else {
        let token_end = start + toks[i as int].1;
        if start < byte_loc && byte_loc < token_end {
            None
        } else if start < end && end < token_end {
            None
        } else {
            let tn = if start == byte_loc { i as int } else { token_num };
            let c = if start == byte_loc || count > 0 { count + 1 } else { count };
            if end == token_end {
                Some((tn, c))
            } else {
                merge_scan(toks, i + 1, token_end, tn, c, byte_loc, end)
            }
        }
    }
}

/// Where a word of `len` bytes at `byte_loc` can be merged: the first token
/// of the run it covers and the number of tokens in it. Where every token
/// and the word have positive length, this is the run of whole tokens that
/// covers exactly the word's bytes, if there is one
/// (`lemma_merge_span_direct`); the scan also fixes the answer for
/// zero-length tokens and words, where no such run need exist.
pub open spec fn merge_span(toks: Seq<TokenModel>, byte_loc: int, len: int) -> Option<(int, int)> {
    merge_scan(toks, 0, 0, 0, 0, byte_loc, byte_loc + len)
}

/// Where the first token of the text starting at byte `byte_loc` and
/// covering `vocab_len` bytes is, and how many tokens the span covers; `None`
/// when a span boundary falls inside a token or past the text.
pub fn valid_merge(byte_loc: usize, vocab_len: usize, encoded: &Vec<EncodedPair>) -> (r: Option<(usize, usize)>)
    requires
        covered_len(encoded_model(encoded@)) <= usize::MAX,
        byte_loc + vocab_len <= usize::MAX,
    ensures
        match merge_span(encoded_model(encoded@), byte_loc as int, vocab_len as int) {
            Some((a, c)) => 0 <= a < encoded.len() && 0 <= c <= encoded.len() && r == Some((a as usize, c as usize)),
            None => r is None,
        },
        vocab_len > 0 && (forall|j: int| 0 <= j < encoded.len() ==> #[trigger] encoded@[j].length > 0) ==> match r {
            Some((a, c)) => spans_whole_tokens(
                encoded_model(encoded@),
                a as int,
                c as int,
                byte_loc as int,
                byte_loc + vocab_len,
            ),
            None => forall|a: int, c: int|
                !#[trigger] spans_whole_tokens(encoded_model(encoded@), a, c, byte_loc as int, byte_loc + vocab_len),
        },
{
    proof {
        if vocab_len > 0 && (forall|j: int| 0 <= j < encoded.len() ==> #[trigger] encoded@[j].length > 0) {
            let toks = encoded_model(encoded@);
            assert forall|j: int| 0 <= j < toks.len() implies #[trigger] toks[j].1 > 0 by {
                assert(toks[j] == encoded@[j]@);
            }
            lemma_merge_span_direct(toks, byte_loc as int, vocab_len as int);
        }
        lemma_scan_bounds(encoded_model(encoded@), 0, 0, 0, 0, byte_loc as int, byte_loc + vocab_len);
    }
    let ghost toks = encoded_model(encoded@);
    let ghost b = byte_loc as int;
    let ghost e = (byte_loc + vocab_len) as int;
    let end = byte_loc + vocab_len;
    let mut token_start: usize = 0;
    let mut token_num: usize = 0;
    let mut count: usize = 0;
    let mut i: usize = 0;
    while i < encoded.len()
        invariant
            toks == encoded_model(encoded@),
            covered_len(toks) <= usize::MAX,
            end == e,
            e == byte_loc + vocab_len,
            b == byte_loc,
            i <= encoded.len(),
            token_start == covered_len(toks.take(i as int)),
            token_num <= i,
            count <= i,
            merge_span(toks, byte_loc as int, vocab_len as int) == merge_scan(toks, i as nat, token_start as int, token_num as int, count as int, b, e),
            vocab_len > 0 && (forall|j: int| 0 <= j < encoded.len() ==> #[trigger] encoded@[j].length > 0) ==> match merge_span(
                toks,
                b,
                vocab_len as int,
            ) {
                Some((a, c)) => spans_whole_tokens(toks, a, c, b, e),
                None => forall|a: int, c: int| !#[trigger] spans_whole_tokens(toks, a, c, b, e),
            },
        decreases encoded.len() - i,
    {
        proof {
            assert(toks.take(i + 1).drop_last() =~= toks.take(i as int));
            assert(toks[i as int] == encoded@[i as int]@);
            lemma_covered_take_le(toks, i + 1);
        }
        let token_end = token_start + encoded[i].length;
        let ghost here = merge_scan(toks, i as nat, token_start as int, token_num as int, count as int, b, e);
        assert(token_end == token_start + toks[i as int].1);
        if token_start < byte_loc && byte_loc < token_end {
            assert(here is None);
            return None;
        } else if token_start < end && end < token_end {
            assert(here is None);
            return None;
        }
        if token_start == byte_loc {
            token_num = i;
            count = count + 1;
        } else if count > 0 {
            count = count + 1;
        }
        if end == token_end {
            return Some((token_num, count));
        }
        token_start = token_end;
        i = i + 1;
    }
    None
}

/// The scan's result is a token index and a count within the tokens.
pub proof fn lemma_scan_bounds(
    toks: Seq<TokenModel>,
    i: nat,
    start: int,
    token_num: int,
    count: int,
    byte_loc: int,
    end: int,
)
    requires
        0 <= token_num <= i,
        0 <= count <= i,
    ensures
        match merge_scan(toks, i, start, token_num, count, byte_loc, end) {
            Some((a, c)) => 0 <= a < toks.len() && 0 <= c <= toks.len(),
            None => true,
        },
    decreases toks.len() - i,
{
    if i < toks.len() {
        let token_end = start + toks[i as int].1;
        let tn = if start == byte_loc { i as int } else { token_num };
        let c = if start == byte_loc || count > 0 { count + 1 } else { count };
        if end != token_end {
            lemma_scan_bounds(toks, i + 1, token_end, tn, c, byte_loc, end);
        }
    }
}

/// The covered length of a prefix is at most the whole covered length.
pub proof fn lemma_covered_take_le(toks: Seq<TokenModel>, i: int)
    requires
        0 <= i <= toks.len(),
    ensures
        covered_len(toks.take(i)) <= covered_len(toks),
    decreases toks.len() - i,
{
    if i == toks.len() {
        assert(toks.take(i) =~= toks);
    } else {
        assert(toks.take(i + 1).drop_last() =~= toks.take(i));
        lemma_covered_take_le(toks, i + 1);
    }
}

} // verus!

verus! {

/// The tokens after merging the found word `d` into them: the run of tokens
/// it covers (at least one) becomes the single token `(id, word length)`;
/// without such a run the tokens stay.
pub open spec fn merge_token_model(toks: Seq<TokenModel>, d: DetailModel) -> Seq<TokenModel> {
    match merge_span(toks, d.2 as int, d.1.len() as int) {
        None => toks,
        Some((pos, num)) => toks.take(pos) + seq![(d.0, d.1.len() as usize)] + toks.skip(
            pos + if num > 1 {
                num
            } else {
                1
            },
        ),
    }
}

/// The run that `d` would replace lies within the tokens.
pub open spec fn merge_fits(toks: Seq<TokenModel>, d: DetailModel) -> bool {
    match merge_span(toks, d.2 as int, d.1.len() as int) {
        None => true,
        Some((pos, num)) => 0 <= pos && pos + (if num > 1 {
            num
        } else {
            1
        }) <= toks.len(),
    }
}

/// Merges the word `vd` into the tokens where it covers a run of whole
/// tokens: the run becomes one token with the word's id and length.
pub fn do_merges(encoded_pairs: Vec<EncodedPair>, vd: &VocabDetail) -> (r: Vec<EncodedPair>)
    requires
        covered_len(encoded_model(encoded_pairs@)) <= usize::MAX,
        vd.loc + vd.word.len() <= usize::MAX,
        merge_fits(encoded_model(encoded_pairs@), vd@),
    ensures
        encoded_model(r@) == merge_token_model(encoded_model(encoded_pairs@), vd@),
{
    let ghost orig = encoded_model(encoded_pairs@);
    let (pos, mut num) = match valid_merge(vd.loc, vd.word.len(), &encoded_pairs) {
        None => return encoded_pairs,
        Some((p, n)) => (p, n),
    };
    let ghost n0 = num as int;
    proof {
        let span = merge_span(orig, vd.loc as int, vd.word.len() as int);
        assert(span is Some);
        let (a, c) = span.unwrap();
        assert(orig.len() == encoded_pairs.len());
        assert(pos as int == a);
        assert(n0 == c);
    }
    let mut encoded_pairs = encoded_pairs;
    let mut k: usize = 0;
    proof {
        assert(orig.skip(pos as int + 0) =~= orig.skip(pos as int));
        assert(encoded_model(encoded_pairs@) =~= orig.take(pos as int) + orig.skip(pos as int));
    }
    while num > 1
        invariant
            pos + (if n0 > 1 { n0 } else { 1 }) <= orig.len(),
            n0 <= usize::MAX,
            k + num == n0,
            num >= 1 || (num == 0 && k == 0),
            encoded_model(encoded_pairs@) == orig.take(pos as int) + orig.skip(pos + k),
        decreases num,
    {
        let ghost before = encoded_model(encoded_pairs@);
        encoded_pairs.remove(pos);
        proof {
            assert(encoded_model(encoded_pairs@) =~= before.remove(pos as int));
            assert(before.remove(pos as int) =~= orig.take(pos as int) + orig.skip(pos + k + 1));
        }
        num = num - 1;
        k = k + 1;
    }
    let ghost before = encoded_model(encoded_pairs@);
    assert(k + 1 == (if n0 > 1 { n0 } else { 1 }));
    encoded_pairs.set(pos, EncodedPair { vocab_id: vd.vocab_num, length: vd.word.len() });
    proof {
        assert(encoded_model(encoded_pairs@) =~= before.update(pos as int, (vd.vocab_num, vd.word.len())));
        assert(orig.skip(pos + k).drop_first() =~= orig.skip(pos + k + 1));
        assert(before.update(pos as int, (vd.vocab_num, vd.word.len())) =~= orig.take(pos as int) + seq![(
            vd.vocab_num,
            vd.word.len() as usize,
        )] + orig.skip(pos + k + 1));
    }
    encoded_pairs
}

/// The covered length of two token lists one after the other.
pub proof fn lemma_covered_concat(x: Seq<TokenModel>, y: Seq<TokenModel>)
    ensures
        covered_len(x + y) == covered_len(x) + covered_len(y),
    decreases y.len(),
{
    if y.len() == 0 {
        assert(x + y =~= x);
    } else {
        assert((x + y).drop_last() =~= x + y.drop_last());
        lemma_covered_concat(x, y.drop_last());
    }
}

/// With tokens of positive length, a longer prefix covers more bytes.
pub proof fn lemma_covered_take_lt(toks: Seq<TokenModel>, a: int, b: int)
    requires
        forall|j: int| 0 <= j < toks.len() ==> #[trigger] toks[j].1 > 0,
        0 <= a < b <= toks.len(),
    ensures
        covered_len(toks.take(a)) < covered_len(toks.take(b)),
    decreases b - a,
{
    assert(toks.take(b).drop_last() =~= toks.take(b - 1));
    assert(toks.take(b).last() == toks[b - 1]);
    if a < b - 1 {
        lemma_covered_take_lt(toks, a, b - 1);
    }
}

/// With tokens of positive length and a word of positive length, the scan
/// only ever finds a run of at least one whole token, starting at the
/// word's start and ending at its end.
pub proof fn lemma_scan_positive(
    toks: Seq<TokenModel>,
    i: nat,
    start: int,
    token_num: int,
    count: int,
    byte_loc: int,
    end: int,
)
    requires
        forall|j: int| 0 <= j < toks.len() ==> #[trigger] toks[j].1 > 0,
        i <= toks.len(),
        start == covered_len(toks.take(i as int)),
        0 <= byte_loc < end,
        count >= 0,
        count == 0 ==> token_num == 0 && byte_loc >= start,
        count > 0 ==> 0 <= token_num && token_num + count == i && covered_len(toks.take(token_num)) == byte_loc
            && end > start,
    ensures
        match merge_scan(toks, i, start, token_num, count, byte_loc, end) {
            Some((a, c)) => c >= 1 && 0 <= a && a + c <= toks.len() && covered_len(toks.take(a)) == byte_loc
                && covered_len(toks.take(a + c)) == end,
            None => true,
        },
    decreases toks.len() - i,
{
    if i < toks.len() {
        let token_end = start + toks[i as int].1;
        assert(toks.take(i as int + 1).drop_last() =~= toks.take(i as int));
        assert(covered_len(toks.take(i as int + 1)) == token_end);
        assert(toks[i as int].1 > 0);
        if count > 0 && token_num < i {
            lemma_covered_take_lt(toks, token_num, i as int);
        }
        if !(start < byte_loc && byte_loc < token_end) && !(start < end && end < token_end) {
            let tn = if start == byte_loc { i as int } else { token_num };
            let c = if start == byte_loc || count > 0 { count + 1 } else { count };
            if end != token_end {
                lemma_scan_positive(toks, i + 1, token_end, tn, c, byte_loc, end);
            }
        }
    }
}

/// Tokens `a .. a + c` (at least one) exactly cover the bytes `b .. e`.
pub open spec fn spans_whole_tokens(toks: Seq<TokenModel>, a: int, c: int, b: int, e: int) -> bool {
    &&& 0 <= a
    &&& c >= 1
    &&& a + c <= toks.len()
    &&& covered_len(toks.take(a)) == b
    &&& covered_len(toks.take(a + c)) == e
}

/// Where a run of whole tokens covers the span, the scan from before it
/// finds that run.
proof fn lemma_scan_finds(
    toks: Seq<TokenModel>,
    i: nat,
    start: int,
    token_num: int,
    count: int,
    byte_loc: int,
    end: int,
    a: int,
    c: int,
)
    requires
        forall|j: int| 0 <= j < toks.len() ==> #[trigger] toks[j].1 > 0,
        spans_whole_tokens(toks, a, c, byte_loc, end),
        i < a + c,
        start == covered_len(toks.take(i as int)),
        i <= a ==> count == 0,
        a < i ==> count == i - a && token_num == a,
    ensures
        merge_scan(toks, i, start, token_num, count, byte_loc, end) == Some((a, c)),
    decreases toks.len() - i,
{
    let ii = i as int;
    let token_end = start + toks[ii].1;
    assert(toks.take(ii + 1).drop_last() =~= toks.take(ii));
    assert(covered_len(toks.take(ii + 1)) == token_end);
    if ii < a {
        lemma_covered_take_lt(toks, ii, a);
        if ii + 1 < a {
            lemma_covered_take_lt(toks, ii + 1, a);
        }
    }
    if a < ii {
        lemma_covered_take_lt(toks, a, ii);
    }
    if ii + 1 < a + c {
        lemma_covered_take_lt(toks, ii + 1, a + c);
    }
    if ii + 1 < a + c {
        let tn = if start == byte_loc { ii } else { token_num };
        let cn = if start == byte_loc || count > 0 { count + 1 } else { count };
        lemma_scan_finds(toks, i + 1, token_end, tn, cn, byte_loc, end, a, c);
    }
}

/// With tokens of positive length and a word of positive length, the scan
/// finds a run exactly when whole tokens cover the word's span, and then it
/// finds that run.
pub proof fn lemma_merge_span_direct(toks: Seq<TokenModel>, byte_loc: int, len: int)
    requires
        forall|j: int| 0 <= j < toks.len() ==> #[trigger] toks[j].1 > 0,
        0 <= byte_loc,
        len > 0,
    ensures
        match merge_span(toks, byte_loc, len) {
            Some((a, c)) => spans_whole_tokens(toks, a, c, byte_loc, byte_loc + len),
            None => forall|a: int, c: int| !#[trigger] spans_whole_tokens(toks, a, c, byte_loc, byte_loc + len),
        },
{
    assert(toks.take(0) =~= Seq::<TokenModel>::empty());
    lemma_scan_positive(toks, 0, 0, 0, 0, byte_loc, byte_loc + len);
    match merge_span(toks, byte_loc, len) {
        Some((a, c)) => {},
        None => {
            assert forall|a: int, c: int| !#[trigger] spans_whole_tokens(toks, a, c, byte_loc, byte_loc + len) by {
                if spans_whole_tokens(toks, a, c, byte_loc, byte_loc + len) {
                    lemma_scan_finds(toks, 0, 0, 0, 0, byte_loc, byte_loc + len, a, c);
                }
            }
        },
    }
}

/// Where the tokens have positive lengths, merging a word of positive length
/// fits and keeps every length positive and the covered length.
pub proof fn lemma_merge_keeps_cover(toks: Seq<TokenModel>, d: DetailModel)
    requires
        forall|j: int| 0 <= j < toks.len() ==> #[trigger] toks[j].1 > 0,
        d.1.len() > 0,
        d.1.len() <= usize::MAX,
    ensures
        merge_fits(toks, d),
        forall|j: int|
            0 <= j < merge_token_model(toks, d).len() ==> #[trigger] merge_token_model(toks, d)[j].1 > 0,
        covered_len(merge_token_model(toks, d)) == covered_len(toks),
{
    assert(toks.take(0) =~= Seq::<TokenModel>::empty());
    lemma_scan_positive(toks, 0, 0, 0, 0, d.2 as int, d.2 + d.1.len());
    match merge_span(toks, d.2 as int, d.1.len() as int) {
        None => {},
        Some((a, c)) => {
            let w = seq![(d.0, d.1.len() as usize)];
            let m = toks.take(a) + w + toks.skip(a + c);
            assert(c >= 1);
            assert(m == merge_token_model(toks, d));
            assert forall|j: int| 0 <= j < m.len() implies #[trigger] m[j].1 > 0 by {
                if j >= a + 1 {
                    assert(m[j] == toks[j - 1 + c]);
                } else if j < a {
                    assert(m[j] == toks[j]);
                }
            }
            assert(toks =~= toks.take(a + c) + toks.skip(a + c));
            lemma_covered_concat(toks.take(a + c), toks.skip(a + c));
            lemma_covered_concat(toks.take(a) + w, toks.skip(a + c));
            lemma_covered_concat(toks.take(a), w);
            assert(w.drop_last() =~= Seq::<TokenModel>::empty());
            assert(covered_len(Seq::<TokenModel>::empty()) == 0);
            assert(covered_len(w) == d.1.len());
            assert(covered_len(toks.take(a)) == d.2);
            assert(covered_len(toks.take(a + c)) == d.2 + d.1.len());
        },
    }
}

} // verus!

verus! {

/// Order on found words, by id, then bytes, then start: the derived order
/// of `VocabDetail`.
pub open spec fn detail_lt(a: DetailModel, b: DetailModel) -> bool {
    a.0 < b.0 || (a.0 == b.0 && (bytes_lt(a.1, b.1) || (a.1 == b.1 && a.2 < b.2)))
}

/// No found word sorts before itself.
pub proof fn lemma_detail_lt_irreflexive(a: DetailModel)
    ensures
        !detail_lt(a, a),
{
    lemma_bytes_lt_irreflexive(a.1);
}

/// The order of found words is transitive.
pub proof fn lemma_detail_lt_transitive(a: DetailModel, b: DetailModel, c: DetailModel)
    requires
        detail_lt(a, b),
        detail_lt(b, c),
    ensures
        detail_lt(a, c),
{
    if a.0 == b.0 && b.0 == c.0 {
        if bytes_lt(a.1, b.1) && bytes_lt(b.1, c.1) {
            lemma_bytes_lt_transitive(a.1, b.1, c.1);
        }
    }
}

/// Of two different found words, one sorts before the other.
pub proof fn lemma_detail_lt_total(a: DetailModel, b: DetailModel)
    requires
        a != b,
    ensures
        detail_lt(a, b) || detail_lt(b, a),
{
    if a.0 == b.0 && a.1 != b.1 {
        lemma_bytes_lt_total(a.1, b.1);
    }
}

/// Strictly increasing in the order of found words.
pub open spec fn details_sorted(ds: Seq<DetailModel>) -> bool {
    forall|i: int, j: int| 0 <= i < j < ds.len() ==> detail_lt(#[trigger] ds[i], #[trigger] ds[j])
}

/// The models of a list of found words.
pub open spec fn details_model(v: Seq<VocabDetail>) -> Seq<DetailModel> {
    Seq::new(v.len(), |i: int| v[i]@)
}

/// Three-way comparison of found words.
pub fn compare_details(a: &VocabDetail, b: &VocabDetail) -> (o: Order)
    ensures
        (o == Order::Less) == detail_lt(a@, b@),
        (o == Order::Equal) == (a@ == b@),
        (o == Order::Greater) == detail_lt(b@, a@),
{
    proof {
        lemma_bytes_lt_irreflexive(a.word@);
        lemma_bytes_lt_irreflexive(b.word@);
    }
    if a.vocab_num < b.vocab_num {
        Order::Less
    } else if a.vocab_num > b.vocab_num {
        Order::Greater
    } else {
        match compare_bytes(a.word.as_slice(), b.word.as_slice()) {
            Order::Equal => if a.loc < b.loc {
                Order::Less
            } else if a.loc > b.loc {
                Order::Greater
            } else {
                Order::Equal
            },
            o => {
                proof {
                    if bytes_lt(a.word@, b.word@) && bytes_lt(b.word@, a.word@) {
                        lemma_bytes_lt_transitive(a.word@, b.word@, a.word@);
                    }
                }
                o
            },
        }
    }
}

/// Two strictly increasing lists with the same elements are equal.
pub proof fn lemma_sorted_details_unique(a: Seq<DetailModel>, b: Seq<DetailModel>)
    requires
        details_sorted(a),
        details_sorted(b),
        forall|x: DetailModel| #[trigger] a.contains(x) == b.contains(x),
    ensures
        a == b,
    decreases a.len(),
{
    if a.len() == 0 {
        if b.len() > 0 {
            assert(b.contains(b[0]));
            assert(a.contains(b[0]));
        }
        assert(a =~= b);
    } else {
        assert(a.contains(a[0]));
        assert(b.len() > 0);
        assert(b.contains(b[0]));
        assert(b.contains(a[0]));
        assert(a.contains(b[0]));
        let j = choose|j: int| 0 <= j < b.len() && b[j] == a[0];
        let k = choose|k: int| 0 <= k < a.len() && a[k] == b[0];
        if a[0] != b[0] {
            assert(j > 0 && k > 0);
            assert(detail_lt(b[0], b[j]));
            assert(detail_lt(a[0], a[k]));
            lemma_detail_lt_transitive(a[0], b[0], a[0]);
            lemma_detail_lt_irreflexive(a[0]);
        }
        let a2 = a.drop_first();
        let b2 = b.drop_first();
        assert forall|x: DetailModel| #[trigger] a2.contains(x) == b2.contains(x) by {
            if a2.contains(x) {
                let i = choose|i: int| 0 <= i < a2.len() && a2[i] == x;
                assert(a[i + 1] == x);
                assert(a.contains(x));
                assert(b.contains(x));
                assert(detail_lt(a[0], a[i + 1]));
                lemma_detail_lt_irreflexive(x);
                let m = choose|m: int| 0 <= m < b.len() && b[m] == x;
                assert(m != 0);
                assert(b2[m - 1] == x);
            }
            if b2.contains(x) {
                let i = choose|i: int| 0 <= i < b2.len() && b2[i] == x;
                assert(b[i + 1] == x);
                assert(b.contains(x));
                assert(a.contains(x));
                assert(detail_lt(b[0], b[i + 1]));
                lemma_detail_lt_irreflexive(x);
                let m = choose|m: int| 0 <= m < a.len() && a[m] == x;
                assert(m != 0);
                assert(a2[m - 1] == x);
            }
        }
        lemma_sorted_details_unique(a2, b2);
        assert(a =~= seq![a[0]] + a2);
        assert(b =~= seq![b[0]] + b2);
    }
}

/// What a vocabulary map holds, keyed by the bytes of each word.
pub uninterp spec fn vocab_entries(vocab: HashMap<Vec<u8>, u32>) -> Map<Seq<u8>, u32>;

/// `HashMap::get` on a vocabulary, by the bytes of a word. The contract
/// claims what the std documentation gives: the id stored under a key equal
/// to `word`, and `None` when no key is equal to it.
#[verifier::external_body]
fn vocab_get(vocab: &HashMap<Vec<u8>, u32>, word: &[u8]) -> (r: Option<u32>)
    ensures
        match r {
            Some(id) => vocab_entries(*vocab).contains_key(word@) && vocab_entries(*vocab)[word@] == id,
            None => !vocab_entries(*vocab).contains_key(word@),
        },
{
    vocab.get(word).copied()
}

/// Looks `subword` up in the vocabulary and, if it is a word there, adds
/// `(id, subword, loc)` to the sorted list of found words unless it is
/// already in it.
pub fn lookup_and_insert_sorted(
    subword: &[u8],
    loc: usize,
    vocab_hash: &HashMap<Vec<u8>, u32>,
    vocab_in_subword: &mut Vec<VocabDetail>,
)
    requires
        details_sorted(details_model(old(vocab_in_subword)@)),
    ensures
        details_sorted(details_model(final(vocab_in_subword)@)),
        forall|x: DetailModel|
            #[trigger] details_model(final(vocab_in_subword)@).contains(x) == (details_model(
                old(vocab_in_subword)@,
            ).contains(x) || (vocab_entries(*vocab_hash).contains_key(subword@) && x == (
            vocab_entries(*vocab_hash)[subword@],
            subword@,
            loc,
        ))),
        final(vocab_in_subword)@.len() == old(vocab_in_subword)@.len() + if vocab_entries(
            *vocab_hash,
        ).contains_key(subword@) && !details_model(old(vocab_in_subword)@).contains(
            (vocab_entries(*vocab_hash)[subword@], subword@, loc),
        ) {
            1int
        } else {
            0int
        },
{
    let vocab_num = match vocab_get(vocab_hash, subword) {
        None => {
            return;
        },
        Some(num) => num,
    };
    let ghost pre = details_model(vocab_in_subword@);
    let word = crate::pair_index::copy_bytes(subword);
    let detail = VocabDetail { vocab_num, word, loc };
    let ghost dv = detail@;
    let mut i: usize = 0;
    while i < vocab_in_subword.len() && compare_details(&vocab_in_subword[i], &detail) == Order::Less
        invariant
            pre == details_model(vocab_in_subword@),
            dv == detail@,
            i <= vocab_in_subword.len(),
            forall|j: int| 0 <= j < i ==> detail_lt(#[trigger] pre[j], dv),
        decreases vocab_in_subword.len() - i,
    {
        assert(pre[i as int] == vocab_in_subword@[i as int]@);
        i = i + 1;
    }
    if i < vocab_in_subword.len() && compare_details(&vocab_in_subword[i], &detail) == Order::Equal {
        proof {
            assert(pre[i as int] == dv);
            assert(pre.contains(dv));
        }
        return;
    }
    proof {
        if i < pre.len() {
            assert(pre[i as int] == vocab_in_subword@[i as int]@);
            lemma_detail_lt_total(pre[i as int], dv);
        }
    }
    vocab_in_subword.insert(i, detail);
    proof {
        let post = details_model(vocab_in_subword@);
        let ii = i as int;
        assert forall|a: int| 0 <= a < post.len() implies #[trigger] post[a] == (if a < ii {
            pre[a]
        } else if a == ii {
            dv
        } else {
            pre[a - 1]
        }) by {}
        assert forall|a: int, b: int| 0 <= a < b < post.len() implies detail_lt(#[trigger] post[a], #[trigger] post[b]) by {
            if a < ii && b == ii {
            } else if a < ii && b > ii {
                if b - 1 > ii {
                    lemma_detail_lt_transitive(dv, pre[ii], pre[b - 1]);
                }
                lemma_detail_lt_transitive(pre[a], dv, pre[b - 1]);
            } else if a == ii {
                if b - 1 > ii {
                    lemma_detail_lt_transitive(dv, pre[ii], pre[b - 1]);
                }
            } else if a > ii {
                assert(detail_lt(pre[a - 1], pre[b - 1]));
            }
        }
        assert forall|x: DetailModel| #[trigger] post.contains(x) == (pre.contains(x) || x == dv) by {
            if pre.contains(x) {
                let j = choose|j: int| 0 <= j < pre.len() && pre[j] == x;
                if j < ii {
                    assert(post[j] == x);
                } else {
                    assert(post[j + 1] == x);
                }
            }
            if x == dv {
                assert(post[ii] == x);
            }
            if post.contains(x) {
                let j = choose|j: int| 0 <= j < post.len() && post[j] == x;
                if j < ii {
                    assert(pre[j] == x);
                } else if j > ii {
                    assert(pre[j - 1] == x);
                }
            }
        }
        assert(!pre.contains(dv)) by {
            if pre.contains(dv) {
                let j = choose|j: int| 0 <= j < pre.len() && pre[j] == dv;
                lemma_detail_lt_irreflexive(dv);
                if j < ii {
                    assert(post[j] == dv);
                    assert(detail_lt(post[j], post[ii]));
                } else {
                    assert(post[j + 1] == dv);
                    assert(detail_lt(post[ii], post[j + 1]));
                }
            }
        }
    }
}

} // verus!

verus! {

/// `x` is a word of the vocabulary found in `text`: its bytes are a
/// non-empty substring starting at `x.2`, and `x.0` is its id.
pub open spec fn is_found_word(text: Seq<u8>, vocab: Map<Seq<u8>, u32>, x: DetailModel) -> bool {
    &&& x.1.len() > 0
    &&& x.2 + x.1.len() <= text.len()
    &&& x.1 == text.subrange(x.2 as int, x.2 + x.1.len())
    &&& vocab.contains_key(x.1)
    &&& x.0 == vocab[x.1]
}

/// All words of the vocabulary found in `text`, in increasing order.
pub open spec fn sorted_details(text: Seq<u8>, vocab: Map<Seq<u8>, u32>) -> Seq<DetailModel> {
    choose|ds: Seq<DetailModel>|
        details_sorted(ds) && forall|x: DetailModel| #[trigger] ds.contains(x) == is_found_word(text, vocab, x)
}

/// Merges the found words into the tokens, one after the other.
pub open spec fn fold_merges(toks: Seq<TokenModel>, ds: Seq<DetailModel>) -> Seq<TokenModel>
    decreases ds.len(),
{
    if ds.len() == 0 {
        toks
    } else {
        fold_merges(merge_token_model(toks, ds[0]), ds.drop_first())
    }
}

/// One token per byte, with the byte's value as id.
pub open spec fn initial_tokens(text: Seq<u8>) -> Seq<TokenModel> {
    Seq::new(text.len(), |i: int| (text[i] as u32, 1usize))
}

/// The ids of a list of tokens.
pub open spec fn token_ids(toks: Seq<TokenModel>) -> Seq<u32> {
    Seq::new(toks.len(), |i: int| toks[i].0)
}

/// The ids that encoding `text` gives: the bytes, with every found word
/// merged in increasing `(id, word, start)` order.
pub open spec fn encode_model(text: Seq<u8>, vocab: Map<Seq<u8>, u32>) -> Seq<u32> {
    token_ids(fold_merges(initial_tokens(text), sorted_details(text, vocab)))
}

/// No two words of the vocabulary share an id.
pub open spec fn vocab_injective(vocab: Map<Seq<u8>, u32>) -> bool {
    forall|w1: Seq<u8>, w2: Seq<u8>|
        #[trigger] vocab.contains_key(w1) && #[trigger] vocab.contains_key(w2) && vocab[w1] == vocab[w2] ==> w1 == w2
}

/// Every byte of `text`, as a one-byte word, is in the vocabulary.
pub open spec fn has_text_bytes(text: Seq<u8>, vocab: Map<Seq<u8>, u32>) -> bool {
    forall|i: int| 0 <= i < text.len() ==> #[trigger] vocab.contains_key(seq![text[i]])
}

/// The word that the vocabulary gives the id `id`.
pub open spec fn word_of(vocab: Map<Seq<u8>, u32>, id: u32) -> Seq<u8> {
    choose|w: Seq<u8>| vocab.contains_key(w) && vocab[w] == id
}

/// The bytes of a list of ids, each replaced by its word, joined in order.
pub open spec fn decode_ids(ids: Seq<u32>, vocab: Map<Seq<u8>, u32>) -> Seq<u8> {
    crate::laws::joined(Seq::new(ids.len(), |i: int| word_of(vocab, ids[i])))
}

/// Encodes the bytes of a text given the found words: one token per byte,
/// then each found word, in list order, merged where it covers a run of
/// whole tokens; returns the ids of the tokens.
pub fn apply_merges(text_bytes: &[u8], vocab_in_subword: &Vec<VocabDetail>) -> (r: Vec<u32>)
    requires
        forall|i: int|
            0 <= i < vocab_in_subword.len() ==> #[trigger] vocab_in_subword@[i].word.len() > 0
                && vocab_in_subword@[i].loc + vocab_in_subword@[i].word.len() <= usize::MAX,
    ensures
        r@ == token_ids(fold_merges(initial_tokens(text_bytes@), details_model(vocab_in_subword@))),
{
    let ghost ds = details_model(vocab_in_subword@);
    let mut encoded: Vec<EncodedPair> = Vec::new();
    let mut i: usize = 0;
    while i < text_bytes.len()
        invariant
            i <= text_bytes.len(),
            encoded_model(encoded@) == initial_tokens(text_bytes@).take(i as int),
            covered_len(encoded_model(encoded@)) == i,
        decreases text_bytes.len() - i,
    {
        let ghost before = encoded_model(encoded@);
        encoded.push(EncodedPair { vocab_id: text_bytes[i] as u32, length: 1 });
        proof {
            assert(encoded_model(encoded@) =~= before.push((text_bytes@[i as int] as u32, 1usize)));
            assert(encoded_model(encoded@).drop_last() =~= before);
            assert(encoded_model(encoded@) =~= initial_tokens(text_bytes@).take(i + 1));
        }
        i = i + 1;
    }
    proof {
        assert(initial_tokens(text_bytes@).take(i as int) =~= initial_tokens(text_bytes@));
        assert(ds.skip(0) =~= ds);
    }
    let mut k: usize = 0;
    while k < vocab_in_subword.len()
        invariant
            k <= vocab_in_subword.len(),
            ds == details_model(vocab_in_subword@),
            forall|i: int|
                0 <= i < vocab_in_subword.len() ==> #[trigger] vocab_in_subword@[i].word.len() > 0
                    && vocab_in_subword@[i].loc + vocab_in_subword@[i].word.len() <= usize::MAX,
            fold_merges(initial_tokens(text_bytes@), ds) == fold_merges(encoded_model(encoded@), ds.skip(k as int)),
            forall|j: int| 0 <= j < encoded_model(encoded@).len() ==> #[trigger] encoded_model(encoded@)[j].1 > 0,
            covered_len(encoded_model(encoded@)) == text_bytes.len(),
        decreases vocab_in_subword.len() - k,
    {
        let vd = &vocab_in_subword[k];
        let ghost toks = encoded_model(encoded@);
        proof {
            assert(ds[k as int] == vd@);
            assert(vocab_in_subword@[k as int].word.len() > 0);
            assert(vd.word@.len() == vd.word.len());
            assert(ds.skip(k as int)[0] == ds[k as int]);
            assert(ds.skip(k as int).drop_first() =~= ds.skip(k + 1));
            lemma_merge_keeps_cover(toks, vd@);
        }
        encoded = do_merges(encoded, vd);
        k = k + 1;
    }
    proof {
        assert(ds.skip(k as int) =~= Seq::<DetailModel>::empty());
    }
    let mut ids: Vec<u32> = Vec::new();
    let mut j: usize = 0;
    while j < encoded.len()
        invariant
            j <= encoded.len(),
            ids@ == token_ids(encoded_model(encoded@)).take(j as int),
        decreases encoded.len() - j,
    {
        ids.push(encoded[j].vocab_id);
        j = j + 1;
        proof {
            assert(ids@ =~= token_ids(encoded_model(encoded@)).take(j as int));
        }
    }
    proof {
        assert(token_ids(encoded_model(encoded@)).take(j as int) =~= token_ids(encoded_model(encoded@)));
    }
    ids
}

/// Encodes a text: finds every substring of its bytes that is a word of the
/// vocabulary, sorts the finds by `(id, word, start)`, and merges them in
/// that order into the text's bytes. Always gives `Some`.
pub fn encode(text: String, vocab_hash: &HashMap<Vec<u8>, u32>) -> (r: Option<Vec<u32>>)
    ensures
        r is Some,
        r->0@ == encode_model(encode_utf8(text@), vocab_entries(*vocab_hash)),
        r->0@.len() <= encode_utf8(text@).len(),
        vocab_injective(vocab_entries(*vocab_hash)) && has_text_bytes(encode_utf8(text@), vocab_entries(*vocab_hash))
            ==> decode_ids(r->0@, vocab_entries(*vocab_hash)) == encode_utf8(text@),
{
    let text_bytes = text.as_str().as_bytes();
    let ghost tb = text_bytes@;
    let ghost vocab = vocab_entries(*vocab_hash);
    assert(tb == encode_utf8(text@));
    let n = text_bytes.len();
    let mut vocab_in_subword: Vec<VocabDetail> = Vec::new();
    let mut subword_start: usize = 0;
    while subword_start < n
        invariant
            n == tb.len(),
            tb == text_bytes@,
            vocab == vocab_entries(*vocab_hash),
            subword_start <= n,
            details_sorted(details_model(vocab_in_subword@)),
            forall|x: DetailModel|
                #[trigger] details_model(vocab_in_subword@).contains(x) == (is_found_word(tb, vocab, x) && x.2
                    < subword_start),
        decreases n - subword_start,
    {
        let mut subword_end: usize = subword_start;
        while subword_end < n
            invariant
                n == tb.len(),
                tb == text_bytes@,
                vocab == vocab_entries(*vocab_hash),
                subword_start < n,
                subword_start <= subword_end <= n,
                details_sorted(details_model(vocab_in_subword@)),
                forall|x: DetailModel|
                    #[trigger] details_model(vocab_in_subword@).contains(x) == (is_found_word(tb, vocab, x) && (x.2
                        < subword_start || (x.2 == subword_start && x.2 + x.1.len() <= subword_end))),
            decreases n - subword_end,
        {
            subword_end = subword_end + 1;
            let subword = &text_bytes[subword_start..subword_end];
            let ghost before = details_model(vocab_in_subword@);
            lookup_and_insert_sorted(subword, subword_start, vocab_hash, &mut vocab_in_subword);
            proof {
                assert forall|x: DetailModel| #[trigger] details_model(vocab_in_subword@).contains(x) == (
                is_found_word(tb, vocab, x) && (x.2 < subword_start || (x.2 == subword_start && x.2 + x.1.len()
                    <= subword_end))) by {
                    if is_found_word(tb, vocab, x) && x.2 == subword_start && x.2 + x.1.len() == subword_end {
                        assert(x.1 == subword@);
                    }
                    if before.contains(x) {
                        assert(is_found_word(tb, vocab, x));
                    }
                }
            }
        }
        subword_start = subword_start + 1;
        proof {
            assert forall|x: DetailModel| #[trigger] details_model(vocab_in_subword@).contains(x) == (
            is_found_word(tb, vocab, x) && x.2 < subword_start) by {
                if is_found_word(tb, vocab, x) && x.2 == subword_start - 1 {
                    assert(x.2 + x.1.len() <= n);
                }
            }
        }
    }
    proof {
        let ds = details_model(vocab_in_subword@);
        assert(forall|x: DetailModel| #[trigger] ds.contains(x) == is_found_word(tb, vocab, x));
        let chosen = sorted_details(tb, vocab);
        assert(details_sorted(chosen) && forall|x: DetailModel| #[trigger] chosen.contains(x) == is_found_word(tb, vocab, x));
        lemma_sorted_details_unique(ds, chosen);
        assert forall|i: int| 0 <= i < vocab_in_subword.len() implies #[trigger] vocab_in_subword@[i].word.len() > 0
            && vocab_in_subword@[i].loc + vocab_in_subword@[i].word.len() <= usize::MAX by {
            assert(ds[i] == vocab_in_subword@[i]@);
            assert(ds.contains(ds[i]));
        }
    }
    let token_ids = apply_merges(text_bytes, &vocab_in_subword);
    proof {
        let ds = details_model(vocab_in_subword@);
        assert forall|i: int| 0 <= i < ds.len() implies #[trigger] ds[i].1.len() > 0 by {
            assert(ds[i] == vocab_in_subword@[i]@);
            assert(vocab_in_subword@[i].word.len() > 0);
        }
        crate::laws::law_merges_cover_text(tb, ds);
        if vocab_injective(vocab) && has_text_bytes(tb, vocab) {
            crate::laws::law_encode_decode_round_trip(tb, vocab, ds);
        }
    }
    Some(token_ids)
}

} // verus!

verus! {

/// Size of the alphabet before any merge: the 256 bytes and one special
/// token.
pub const INITAL_ALPHABET_SIZE: i32 = 257;

/// Reading a vocabulary from a file is not implemented: always `None`.
pub fn read_in_vocab(file_path: &str) -> (r: Option<Vec<Vec<u8>>>)
    ensures
        r is None,
{
    None
}

/// Building a vocabulary map from a word list is not implemented: always
/// `None`.
pub fn make_vocab_hash(vocab: Vec<Vec<u8>>) -> (r: Option<HashMap<Vec<u8>, u32>>)
    ensures
        r is None,
{
    None
}

} // verus!
