//! The keys `(count, pair)` of all occurring pairs, in increasing key order,
//! with no key twice: an ordered set whose last key names the next merge.

use vstd::prelude::*;
use crate::byte_order::{
    compare_keys, key_lt, lemma_key_lt_irreflexive, lemma_key_lt_total, lemma_key_lt_transitive,
    Order,
};
use crate::pair_index::AlphabetPair;
use crate::pair_model::PairModel;

verus! {

/// A pair with its count: training's order on pairs.
pub struct AlphabetPairKey {
    pub count: usize,
    pub pair: AlphabetPair,
}

impl View for AlphabetPairKey {
    type V = (usize, PairModel);

    open spec fn view(&self) -> (usize, PairModel) {
        (self.count, self.pair@)
    }
}

/// `a` sorts strictly before `b`: by count, then by pair.
pub open spec fn key_less(a: (usize, PairModel), b: (usize, PairModel)) -> bool {
    key_lt(a.0 as nat, a.1, b.0 as nat, b.1)
}

/// No key sorts before itself.
pub proof fn lemma_key_less_irreflexive(a: (usize, PairModel))
    ensures
        !key_less(a, a),
{
    lemma_key_lt_irreflexive(a.0 as nat, a.1);
}

/// Key order is transitive.
pub proof fn lemma_key_less_transitive(a: (usize, PairModel), b: (usize, PairModel), c: (usize, PairModel))
    requires
        key_less(a, b),
        key_less(b, c),
    ensures
        key_less(a, c),
{
    lemma_key_lt_transitive(a.0 as nat, a.1, b.0 as nat, b.1, c.0 as nat, c.1);
}

/// Of two different keys, one sorts before the other: key order is a
/// strict total order, the order of the keys' derived `Ord`.
pub proof fn lemma_key_less_total(a: (usize, PairModel), b: (usize, PairModel))
    requires
        a != b,
    ensures
        key_less(a, b) || key_less(b, a),
{
    lemma_key_lt_total(a.0 as nat, a.1, b.0 as nat, b.1);
}

impl AlphabetPairKey {
    pub fn new(count: usize, pair: AlphabetPair) -> (r: AlphabetPairKey)
        ensures
            r@ == (count, pair@),
    {
        AlphabetPairKey { count, pair }
    }

    /// Three-way comparison in key order.
    pub fn compare(&self, other: &AlphabetPairKey) -> (o: Order)
        ensures
            (o == Order::Less) == key_less(self@, other@),
            (o == Order::Equal) == (self@ == other@),
            (o == Order::Greater) == key_less(other@, self@),
    {
        compare_keys(
            self.count,
            self.pair.pair.0.as_slice(),
            self.pair.pair.1.as_slice(),
            other.count,
            other.pair.pair.0.as_slice(),
            other.pair.pair.1.as_slice(),
        )
    }
}

/// An ordered set of keys.
pub struct PairTree {
    keys: Vec<AlphabetPairKey>,
}

impl View for PairTree {
    type V = Set<(usize, PairModel)>;

    closed spec fn view(&self) -> Set<(usize, PairModel)> {
        Set::new(|x: (usize, PairModel)| exists|i: int| 0 <= i < self.keys.len() && #[trigger] self.keys[i]@ == x)
    }
}

impl PairTree {
    /// The keys are in strictly increasing order.
    pub closed spec fn wf(&self) -> bool {
        forall|i: int, j: int|
            0 <= i < j < self.keys.len() ==> key_less(#[trigger] self.keys[i]@, #[trigger] self.keys[j]@)
    }

    pub fn new() -> (r: PairTree)
        ensures
            r.wf(),
            r@ == Set::<(usize, PairModel)>::empty(),
    {
        let r = PairTree { keys: Vec::new() };
        assert(r@ =~= Set::<(usize, PairModel)>::empty());
        r
    }

    /// Adds a key; returns whether it was absent.
    pub fn insert(&mut self, k: AlphabetPairKey) -> (added: bool)
        requires
            old(self).wf(),
        ensures
            final(self).wf(),
            final(self)@ == old(self)@.insert(k@),
            added == !old(self)@.contains(k@),
    {
        let ghost pre = *self;
        let ghost kv = k@;
        let mut i: usize = 0;
        while i < self.keys.len() && self.keys[i].compare(&k) == Order::Less
            invariant
                *self == pre,
                kv == k@,
                i <= self.keys.len(),
                forall|j: int| 0 <= j < i ==> key_less(#[trigger] self.keys[j]@, kv),
            decreases self.keys.len() - i,
        {
            i = i + 1;
        }
        if i < self.keys.len() && self.keys[i].compare(&k) == Order::Equal {
            proof { assert(self@ =~= pre@.insert(kv)); }
            return false;
        }
        proof {
            if i < self.keys.len() {
                lemma_key_less_total(self.keys[i as int]@, kv);
            }
            assert forall|j: int| 0 <= j < self.keys.len() implies #[trigger] self.keys[j]@ != kv by {
                if j < i {
                    lemma_key_less_irreflexive(kv);
                } else {
                    if j > i {
                        lemma_key_less_transitive(kv, self.keys[i as int]@, self.keys[j]@);
                    }
                    lemma_key_less_irreflexive(kv);
                }
            }
        }
        self.keys.insert(i, k);
        proof {
            let ii = i as int;
            assert forall|a: int| 0 <= a < self.keys.len() implies #[trigger] self.keys[a]@ == (if a < ii {
                pre.keys[a]@
            } else if a == ii {
                kv
            } else {
                pre.keys[a - 1]@
            }) by {}
            assert forall|a: int, b: int| 0 <= a < b < self.keys.len() implies key_less(
                #[trigger] self.keys[a]@,
                #[trigger] self.keys[b]@,
            ) by {
                if a < ii && b < ii {
                } else if a < ii && b == ii {
                } else if a < ii {
                    assert(key_less(pre.keys[a]@, kv));
                    if b - 1 > ii {
                        lemma_key_less_transitive(kv, pre.keys[ii]@, pre.keys[b - 1]@);
                    }
                    lemma_key_less_transitive(pre.keys[a]@, kv, pre.keys[b - 1]@);
                } else if a == ii {
                    if b - 1 > ii {
                        lemma_key_less_transitive(kv, pre.keys[ii]@, pre.keys[b - 1]@);
                    }
                } else {
                    assert(key_less(pre.keys[a - 1]@, pre.keys[b - 1]@));
                }
            }
            assert forall|x: (usize, PairModel)| #[trigger] self@.contains(x) == pre@.insert(kv).contains(x) by {
                if pre@.contains(x) {
                    let j = choose|j: int| 0 <= j < pre.keys.len() && #[trigger] pre.keys[j]@ == x;
                    if j < ii {
                        assert(self.keys[j]@ == x);
                    } else {
                        assert(self.keys[j + 1]@ == x);
                    }
                }
                if x == kv {
                    assert(self.keys[ii]@ == x);
                }
                if self@.contains(x) {
                    let j = choose|j: int| 0 <= j < self.keys.len() && #[trigger] self.keys[j]@ == x;
                    if j < ii {
                        assert(pre.keys[j]@ == x);
                    } else if j > ii {
                        assert(pre.keys[j - 1]@ == x);
                    }
                }
            }
            assert(self@ =~= pre@.insert(kv));
        }
        true
    }

    /// Removes a key; returns whether it was present.
    pub fn remove(&mut self, k: &AlphabetPairKey) -> (removed: bool)
        requires
            old(self).wf(),
        ensures
            final(self).wf(),
            final(self)@ == old(self)@.remove(k@),
            removed == old(self)@.contains(k@),
    {
        let ghost pre = *self;
        let ghost kv = k@;
        let mut i: usize = 0;
        while i < self.keys.len()
            invariant
                *self == pre,
                *old(self) == pre,
                pre.wf(),
                kv == k@,
                i <= self.keys.len(),
                forall|j: int| 0 <= j < i ==> #[trigger] self.keys[j]@ != kv,
            decreases self.keys.len() - i,
        {
            if self.keys[i].compare(k) == Order::Equal {
                self.keys.remove(i);
                proof {
                    let ii = i as int;
                    assert forall|a: int| 0 <= a < self.keys.len() implies #[trigger] self.keys[a] == (if a < ii {
                        pre.keys[a]
                    } else {
                        pre.keys[a + 1]
                    }) by {}
                    assert forall|a: int, b: int| 0 <= a < b < self.keys.len() implies key_less(
                        #[trigger] self.keys[a]@,
                        #[trigger] self.keys[b]@,
                    ) by {
                        let a2 = if a < ii { a } else { a + 1 };
                        let b2 = if b < ii { b } else { b + 1 };
                        assert(key_less(pre.keys[a2]@, pre.keys[b2]@));
                    }
                    assert forall|x: (usize, PairModel)| #[trigger] self@.contains(x) == pre@.remove(kv).contains(x) by {
                        if pre@.contains(x) && x != kv {
                            let j = choose|j: int| 0 <= j < pre.keys.len() && #[trigger] pre.keys[j]@ == x;
                            if j < ii {
                                assert(self.keys[j]@ == x);
                            } else {
                                assert(j != ii);
                                assert(self.keys[j - 1]@ == x);
                            }
                        }
                        if self@.contains(x) {
                            let j = choose|j: int| 0 <= j < self.keys.len() && #[trigger] self.keys[j]@ == x;
                            let j2 = if j < ii { j } else { j + 1 };
                            assert(pre.keys[j2]@ == x);
                            if x == kv {
                                if j2 < ii {
                                    assert(key_less(pre.keys[j2]@, pre.keys[ii]@));
                                } else {
                                    assert(key_less(pre.keys[ii]@, pre.keys[j2]@));
                                }
                                lemma_key_less_irreflexive(kv);
                            }
                        }
                    }
                    assert(self@ =~= pre@.remove(kv));
                    assert(pre.keys[ii]@ == kv);
                    assert(pre@.contains(kv));
                }
                return true;
            }
            i = i + 1;
        }
        proof {
            if pre@.contains(kv) {
                let j = choose|j: int| 0 <= j < pre.keys.len() && #[trigger] pre.keys[j]@ == kv;
                assert(self.keys[j]@ != kv);
            }
            assert(self@ =~= pre@.remove(kv));
        }
        false
    }

    /// The greatest key, if any.
    pub fn last(&self) -> (r: Option<&AlphabetPairKey>)
        requires
            self.wf(),
        ensures
            match r {
                Some(k) => self@.contains(k@) && forall|x: (usize, PairModel)|
                    #[trigger] self@.contains(x) && x != k@ ==> key_less(x, k@),
                None => self@ == Set::<(usize, PairModel)>::empty(),
            },
    {
        let n = self.keys.len();
        if n == 0 {
            proof { assert(self@ =~= Set::<(usize, PairModel)>::empty()); }
            None
        } else {
            proof {
                assert(self@.contains(self.keys[n - 1]@));
                assert forall|x: (usize, PairModel)| #[trigger] self@.contains(x) && x != self.keys[n
                    - 1]@ implies key_less(x, self.keys[n - 1]@) by {
                    let j = choose|j: int| 0 <= j < self.keys.len() && #[trigger] self.keys[j]@ == x;
                    assert(j != n - 1);
                }
            }
            Some(&self.keys[n - 1])
        }
    }
}

} // verus!
