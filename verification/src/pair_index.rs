//! The pairs of adjacent tokens that occur in the pretokens, each with its
//! weighted count and the pretokens it occurs in: an association list with
//! distinct keys, viewed as a map from pair to `(count, pretoken ids)`.

use vstd::prelude::*;
use crate::byte_order::{compare_pairs, Order};
use crate::pair_model::PairModel;

verus! {

/// A copy of a byte string.
pub fn copy_bytes(v: &[u8]) -> (r: Vec<u8>)
    ensures
        r@ == v@,
{
    let mut r: Vec<u8> = Vec::new();
    let mut i: usize = 0;
    while i < v.len()
        invariant
            i <= v.len(),
            r@ == v@.take(i as int),
        decreases v.len() - i,
    {
        r.push(v[i]);
        i = i + 1;
        proof { assert(r@ =~= v@.take(i as int)); }
    }
    proof { assert(v@.take(i as int) =~= v@); }
    r
}

/// A copy of a list of pretoken ids.
pub fn copy_ids(v: &Vec<usize>) -> (r: Vec<usize>)
    ensures
        r@ == v@,
{
    let mut r: Vec<usize> = Vec::new();
    let mut i: usize = 0;
    while i < v.len()
        invariant
            i <= v.len(),
            r@ == v@.take(i as int),
        decreases v.len() - i,
    {
        r.push(v[i]);
        i = i + 1;
        proof { assert(r@ =~= v@.take(i as int)); }
    }
    proof { assert(v@.take(i as int) =~= v@); }
    r
}

/// Two adjacent tokens.
pub struct AlphabetPair {
    pub pair: (Vec<u8>, Vec<u8>),
}

impl View for AlphabetPair {
    type V = PairModel;

    open spec fn view(&self) -> PairModel {
        (self.pair.0@, self.pair.1@)
    }
}

impl AlphabetPair {
    pub fn new(left: &[u8], right: &[u8]) -> (r: AlphabetPair)
        ensures
            r@ == (left@, right@),
    {
        AlphabetPair { pair: (copy_bytes(left), copy_bytes(right)) }
    }

    pub fn duplicate(&self) -> (r: AlphabetPair)
        ensures
            r@ == self@,
    {
        AlphabetPair::new(self.pair.0.as_slice(), self.pair.1.as_slice())
    }
}

/// What is known of a pair: its count, weighted by pretoken counts, and
/// the ids of the pretokens it occurs in.
pub struct AlphabetPairInfo {
    pub count: usize,
    pub pretoken_ids: Vec<usize>,
}

impl View for AlphabetPairInfo {
    type V = (usize, Seq<usize>);

    open spec fn view(&self) -> (usize, Seq<usize>) {
        (self.count, self.pretoken_ids@)
    }
}

impl AlphabetPairInfo {
    pub fn duplicate(&self) -> (r: AlphabetPairInfo)
        ensures
            r@ == self@,
    {
        AlphabetPairInfo { count: self.count, pretoken_ids: copy_ids(&self.pretoken_ids) }
    }
}

/// A map from pairs to their info, kept as a list of entries with distinct
/// pairs.
pub struct PairIndex {
    entries: Vec<(AlphabetPair, AlphabetPairInfo)>,
}

impl View for PairIndex {
    type V = Map<PairModel, (usize, Seq<usize>)>;

    closed spec fn view(&self) -> Map<PairModel, (usize, Seq<usize>)> {
        Map::new(
            |p: PairModel| exists|i: int| 0 <= i < self.entries.len() && #[trigger] self.entries[i].0@ == p,
            |p: PairModel|
                self.entries[choose|i: int|
                    0 <= i < self.entries.len() && #[trigger] self.entries[i].0@ == p].1@,
        )
    }
}

impl PairIndex {
    /// No pair has two entries.
    pub closed spec fn wf(&self) -> bool {
        forall|i: int, j: int|
            0 <= i < j < self.entries.len() ==> #[trigger] self.entries[i].0@ != #[trigger] self.entries[j].0@
    }

    /// Number of entries.
    pub closed spec fn size(&self) -> nat {
        self.entries.len() as nat
    }

    /// The pair of entry `i`.
    pub closed spec fn key_at(&self, i: int) -> PairModel {
        self.entries[i].0@
    }

    proof fn lemma_view_at(&self, i: int)
        requires
            self.wf(),
            0 <= i < self.entries.len(),
        ensures
            self@.contains_key(self.entries[i].0@),
            self@[self.entries[i].0@] == self.entries[i].1@,
    {
        let p = self.entries[i].0@;
        assert(self@.contains_key(p));
        let j = choose|j: int| 0 <= j < self.entries.len() && #[trigger] self.entries[j].0@ == p;
        if j != i {
            if j < i {
                assert(self.entries[j].0@ != self.entries[i].0@);
            } else {
                assert(self.entries[i].0@ != self.entries[j].0@);
            }
        }
    }

    /// The entries are exactly the pairs of the map, each once.
    pub proof fn lemma_entries(&self)
        requires
            self.wf(),
        ensures
            forall|i: int| 0 <= i < self.size() ==> #[trigger] self@.contains_key(self.key_at(i)),
            forall|i: int, j: int|
                0 <= i < j < self.size() ==> #[trigger] self.key_at(i) != #[trigger] self.key_at(j),
            forall|p: PairModel|
                #[trigger] self@.contains_key(p) ==> exists|i: int|
                    0 <= i < self.size() && #[trigger] self.key_at(i) == p,
    {
        assert forall|i: int| 0 <= i < self.size() implies #[trigger] self@.contains_key(self.key_at(i)) by {
            self.lemma_view_at(i);
        }
        assert forall|p: PairModel| #[trigger] self@.contains_key(p) implies exists|i: int|
            0 <= i < self.size() && #[trigger] self.key_at(i) == p by {
            let j = choose|j: int| 0 <= j < self.entries.len() && #[trigger] self.entries[j].0@ == p;
            assert(self.key_at(j) == p);
        }
    }

    pub fn new() -> (r: PairIndex)
        ensures
            r.wf(),
            r@ == Map::<PairModel, (usize, Seq<usize>)>::empty(),
    {
        let r = PairIndex { entries: Vec::new() };
        assert(r@ =~= Map::<PairModel, (usize, Seq<usize>)>::empty());
        r
    }

    /// Number of entries, that is, of pairs in the map.
    pub fn len(&self) -> (n: usize)
        ensures
            n == self.size(),
    {
        self.entries.len()
    }

    /// Entry `i`, for walking through the map.
    pub fn entry_at(&self, i: usize) -> (r: (&AlphabetPair, &AlphabetPairInfo))
        requires
            self.wf(),
            i < self.size(),
        ensures
            r.0@ == self.key_at(i as int),
            self@.contains_key(r.0@),
            self@[r.0@] == r.1@,
    {
        proof { self.lemma_view_at(i as int); }
        (&self.entries[i].0, &self.entries[i].1)
    }

    fn find(&self, left: &[u8], right: &[u8]) -> (o: Option<usize>)
        requires
            self.wf(),
        ensures
            match o {
                Some(i) => i < self.entries.len() && self.entries[i as int].0@ == (left@, right@),
                None => !self@.contains_key((left@, right@)),
            },
    {
        let mut i: usize = 0;
        while i < self.entries.len()
            invariant
                i <= self.entries.len(),
                forall|j: int| 0 <= j < i ==> #[trigger] self.entries[j].0@ != (left@, right@),
            decreases self.entries.len() - i,
        {
            let e = &self.entries[i].0;
            if compare_pairs(e.pair.0.as_slice(), e.pair.1.as_slice(), left, right) == Order::Equal {
                return Some(i);
            }
            i = i + 1;
        }
        None
    }

    /// The info of a pair, if the map has it.
    pub fn get(&self, left: &[u8], right: &[u8]) -> (r: Option<&AlphabetPairInfo>)
        requires
            self.wf(),
        ensures
            match r {
                Some(v) => self@.contains_key((left@, right@)) && self@[(left@, right@)] == v@,
                None => !self@.contains_key((left@, right@)),
            },
    {
        match self.find(left, right) {
            Some(i) => {
                proof { self.lemma_view_at(i as int); }
                Some(&self.entries[i].1)
            },
            None => None,
        }
    }

    /// Sets the info of a pair; returns its former info.
    pub fn insert(&mut self, k: AlphabetPair, v: AlphabetPairInfo) -> (former: Option<AlphabetPairInfo>)
        requires
            old(self).wf(),
        ensures
            final(self).wf(),
            final(self)@ == old(self)@.insert(k@, v@),
            match former {
                Some(f) => old(self)@.contains_key(k@) && old(self)@[k@] == f@,
                None => !old(self)@.contains_key(k@),
            },
    {
        let ghost pre = *self;
        match self.find(k.pair.0.as_slice(), k.pair.1.as_slice()) {
            Some(i) => {
                proof { pre.lemma_view_at(i as int); }
                let ghost kv = k@;
                let ghost vv = v@;
                let mut e = (k, v);
                std::mem::swap(&mut e, &mut self.entries[i]);
                proof {
                    assert(self.entries@ == pre.entries@.update(i as int, (self.entries[i as int].0, self.entries[i as int].1)));
                    assert forall|a: int, b: int| 0 <= a < b < self.entries.len() implies #[trigger] self.entries[a].0@
                        != #[trigger] self.entries[b].0@ by {
                        if a != i as int && b != i as int {
                            assert(pre.entries[a].0@ != pre.entries[b].0@);
                        } else if a == i as int {
                            assert(pre.entries[a].0@ != pre.entries[b].0@);
                        } else {
                            assert(pre.entries[a].0@ != pre.entries[b].0@);
                        }
                    }
                    assert forall|p: PairModel| #[trigger] self@.contains_key(p) == pre@.insert(kv, vv).contains_key(p) by {
                        if pre@.contains_key(p) && p != kv {
                            let j = choose|j: int| 0 <= j < pre.entries.len() && #[trigger] pre.entries[j].0@ == p;
                            assert(self.entries[j].0@ == p);
                        }
                        if self@.contains_key(p) {
                            let j = choose|j: int| 0 <= j < self.entries.len() && #[trigger] self.entries[j].0@ == p;
                            if j != i as int {
                                assert(pre.entries[j].0@ == p);
                            }
                        }
                        if p == kv {
                            assert(self.entries[i as int].0@ == p);
                        }
                    }
                    assert forall|p: PairModel| #[trigger] self@.contains_key(p) implies self@[p] == pre@.insert(kv, vv)[p] by {
                        let j = choose|j: int| 0 <= j < self.entries.len() && #[trigger] self.entries[j].0@ == p;
                        self.lemma_view_at(j);
                        if j != i as int {
                            pre.lemma_view_at(j);
                        }
                    }
                    assert(self@ =~= pre@.insert(kv, vv));
                }
                Some(e.1)
            },
            None => {
                let ghost kv = k@;
                let ghost vv = v@;
                self.entries.push((k, v));
                proof {
                    let n = pre.entries.len() as int;
                    assert(self.entries@ == pre.entries@.push(self.entries[n]));
                    assert forall|a: int, b: int| 0 <= a < b < self.entries.len() implies #[trigger] self.entries[a].0@
                        != #[trigger] self.entries[b].0@ by {
                        if b == n {
                            assert(pre@.contains_key(pre.entries[a].0@)) by { pre.lemma_view_at(a); }
                        } else {
                            assert(pre.entries[a].0@ != pre.entries[b].0@);
                        }
                    }
                    assert forall|p: PairModel| #[trigger] self@.contains_key(p) == pre@.insert(kv, vv).contains_key(p) by {
                        if pre@.contains_key(p) {
                            let j = choose|j: int| 0 <= j < pre.entries.len() && #[trigger] pre.entries[j].0@ == p;
                            assert(self.entries[j].0@ == p);
                        }
                        if self@.contains_key(p) {
                            let j = choose|j: int| 0 <= j < self.entries.len() && #[trigger] self.entries[j].0@ == p;
                            if j != n {
                                assert(pre.entries[j].0@ == p);
                            }
                        }
                        if p == kv {
                            assert(self.entries[n].0@ == p);
                        }
                    }
                    assert forall|p: PairModel| #[trigger] self@.contains_key(p) implies self@[p] == pre@.insert(kv, vv)[p] by {
                        let j = choose|j: int| 0 <= j < self.entries.len() && #[trigger] self.entries[j].0@ == p;
                        self.lemma_view_at(j);
                        if j != n {
                            pre.lemma_view_at(j);
                        }
                    }
                    assert(self@ =~= pre@.insert(kv, vv));
                }
                None
            },
        }
    }

    /// Removes a pair; returns its former info.
    pub fn remove(&mut self, left: &[u8], right: &[u8]) -> (former: Option<AlphabetPairInfo>)
        requires
            old(self).wf(),
        ensures
            final(self).wf(),
            final(self)@ == old(self)@.remove((left@, right@)),
            match former {
                Some(f) => old(self)@.contains_key((left@, right@)) && old(self)@[(left@, right@)] == f@,
                None => !old(self)@.contains_key((left@, right@)),
            },
    {
        let ghost pre = *self;
        let ghost kv = (left@, right@);
        match self.find(left, right) {
            Some(i) => {
                proof { pre.lemma_view_at(i as int); }
                let e = self.entries.remove(i);
                proof {
                    let ii = i as int;
                    assert forall|a: int| 0 <= a < self.entries.len() implies #[trigger] self.entries[a]
                        == pre.entries[if a < ii { a } else { a + 1 }] by {}
                    assert forall|a: int, b: int| 0 <= a < b < self.entries.len() implies #[trigger] self.entries[a].0@
                        != #[trigger] self.entries[b].0@ by {
                        let a2 = if a < ii { a } else { a + 1 };
                        let b2 = if b < ii { b } else { b + 1 };
                        assert(self.entries[a] == pre.entries[a2]);
                        assert(self.entries[b] == pre.entries[b2]);
                        assert(pre.entries[a2].0@ != pre.entries[b2].0@);
                    }
                    assert forall|p: PairModel| #[trigger] self@.contains_key(p) == pre@.remove(kv).contains_key(p) by {
                        if pre@.contains_key(p) && p != kv {
                            let j = choose|j: int| 0 <= j < pre.entries.len() && #[trigger] pre.entries[j].0@ == p;
                            if j < ii {
                                assert(self.entries[j] == pre.entries[j]);
                            } else {
                                assert(j != ii);
                                assert(self.entries[j - 1] == pre.entries[j]);
                            }
                        }
                        if self@.contains_key(p) {
                            let j = choose|j: int| 0 <= j < self.entries.len() && #[trigger] self.entries[j].0@ == p;
                            let j2 = if j < ii { j } else { j + 1 };
                            assert(self.entries[j] == pre.entries[j2]);
                            assert(pre.entries[j2].0@ == p);
                            if p == kv {
                                assert(pre.entries[j2].0@ == pre.entries[ii].0@);
                                assert(j2 != ii);
                                if j2 < ii {
                                    assert(pre.entries[j2].0@ != pre.entries[ii].0@);
                                } else {
                                    assert(pre.entries[ii].0@ != pre.entries[j2].0@);
                                }
                            }
                        }
                    }
                    assert forall|p: PairModel| #[trigger] self@.contains_key(p) implies self@[p] == pre@.remove(kv)[p] by {
                        let j = choose|j: int| 0 <= j < self.entries.len() && #[trigger] self.entries[j].0@ == p;
                        self.lemma_view_at(j);
                        let j2 = if j < ii { j } else { j + 1 };
                        assert(self.entries[j] == pre.entries[j2]);
                        pre.lemma_view_at(j2);
                    }
                    assert(self@ =~= pre@.remove(kv));
                }
                Some(e.1)
            },
            None => {
                proof { assert(self@ =~= pre@.remove(kv)); }
                None
            },
        }
    }
}

} // verus!
