//! Lexicographic order on byte strings, on pairs of byte strings, and on the
//! keys `(count, pair)` by which training picks the next merge.

use vstd::prelude::*;

verus! {

/// The outcome of a three-way comparison.
#[derive(PartialEq, Eq, Structural, Clone, Copy, Debug)]
pub enum Order {
    Less,
    Equal,
    Greater,
}

/// `a` sorts strictly before `b` in lexicographic byte order (a proper
/// prefix sorts first), the order of `<` on `Vec<u8>`.
pub open spec fn bytes_lt(a: Seq<u8>, b: Seq<u8>) -> bool
    decreases a.len(),
{
    if a.len() == 0 {
        b.len() > 0
    } else if b.len() == 0 {
        false
    } else if a[0] < b[0] {
        true
    } else if a[0] > b[0] {
        false
    } else {
        bytes_lt(a.drop_first(), b.drop_first())
    }
}

/// No byte string sorts before itself.
pub proof fn lemma_bytes_lt_irreflexive(a: Seq<u8>)
    ensures
        !bytes_lt(a, a),
    decreases a.len(),
{
    if a.len() > 0 {
        lemma_bytes_lt_irreflexive(a.drop_first());
    }
}

/// Byte order is transitive.
pub proof fn lemma_bytes_lt_transitive(a: Seq<u8>, b: Seq<u8>, c: Seq<u8>)
    requires
        bytes_lt(a, b),
        bytes_lt(b, c),
    ensures
        bytes_lt(a, c),
    decreases a.len(),
{
    if a.len() > 0 && b.len() > 0 && c.len() > 0 && a[0] == b[0] && b[0] == c[0] {
        lemma_bytes_lt_transitive(a.drop_first(), b.drop_first(), c.drop_first());
    }
}

/// Of two different byte strings, one sorts before the other.
pub proof fn lemma_bytes_lt_total(a: Seq<u8>, b: Seq<u8>)
    requires
        a != b,
    ensures
        bytes_lt(a, b) || bytes_lt(b, a),
    decreases a.len(),
{
    if a.len() > 0 && b.len() > 0 && a[0] == b[0] {
        if a.drop_first() == b.drop_first() {
            assert(a =~= seq![a[0]] + a.drop_first());
            assert(b =~= seq![b[0]] + b.drop_first());
        }
        lemma_bytes_lt_total(a.drop_first(), b.drop_first());
    } else if a.len() == 0 && b.len() == 0 {
        assert(a =~= b);
    }
}

/// Three-way lexicographic comparison of two byte strings.
pub fn compare_bytes(a: &[u8], b: &[u8]) -> (o: Order)
    ensures
        (o == Order::Less) == bytes_lt(a@, b@),
        (o == Order::Equal) == (a@ == b@),
        (o == Order::Greater) == bytes_lt(b@, a@),
{
    let mut i: usize = 0;
    proof {
        assert(a@.skip(0) =~= a@);
        assert(b@.skip(0) =~= b@);
    }
    while i < a.len() && i < b.len()
        invariant
            i <= a.len(),
            i <= b.len(),
            a@.take(i as int) =~= b@.take(i as int),
            bytes_lt(a@, b@) == bytes_lt(a@.skip(i as int), b@.skip(i as int)),
            bytes_lt(b@, a@) == bytes_lt(b@.skip(i as int), a@.skip(i as int)),
        decreases a.len() - i,
    {
        assert(a@.skip(i as int)[0] == a@[i as int]);
        assert(b@.skip(i as int)[0] == b@[i as int]);
        if a[i] < b[i] {
            proof {
                lemma_bytes_lt_irreflexive(a@);
                if a@ == b@ {
                    assert(a@[i as int] == b@[i as int]);
                }
            }
            return Order::Less;
        }
        if a[i] > b[i] {
            proof {
                if a@ == b@ {
                    assert(a@[i as int] == b@[i as int]);
                }
            }
            return Order::Greater;
        }
        proof {
            assert(a@.skip(i as int).drop_first() =~= a@.skip(i + 1));
            assert(b@.skip(i as int).drop_first() =~= b@.skip(i + 1));
            assert(a@.take(i + 1) =~= a@.take(i as int).push(a@[i as int]));
            assert(b@.take(i + 1) =~= b@.take(i as int).push(b@[i as int]));
        }
        i = i + 1;
    }
    if a.len() == b.len() {
        proof {
            assert(a@ =~= a@.take(i as int));
            assert(b@ =~= b@.take(i as int));
            lemma_bytes_lt_irreflexive(a@);
        }
        Order::Equal
    } else if a.len() < b.len() {
        proof {
            assert(a@.skip(i as int).len() == 0);
            if a@ == b@ {
                assert(a@.len() == b@.len());
            }
        }
        Order::Less
    } else {
        proof {
            assert(b@.skip(i as int).len() == 0);
            if a@ == b@ {
                assert(a@.len() == b@.len());
            }
        }
        Order::Greater
    }
}

/// Order on pairs of byte strings: by the left string, then by the right.
pub open spec fn pair_lt(p: (Seq<u8>, Seq<u8>), q: (Seq<u8>, Seq<u8>)) -> bool {
    bytes_lt(p.0, q.0) || (p.0 == q.0 && bytes_lt(p.1, q.1))
}

/// Order on training keys: by count, then by pair. The last key in this
/// order names the pair that training merges next.
pub open spec fn key_lt(c1: nat, p: (Seq<u8>, Seq<u8>), c2: nat, q: (Seq<u8>, Seq<u8>)) -> bool {
    c1 < c2 || (c1 == c2 && pair_lt(p, q))
}

/// No pair sorts before itself.
pub proof fn lemma_pair_lt_irreflexive(p: (Seq<u8>, Seq<u8>))
    ensures
        !pair_lt(p, p),
{
    lemma_bytes_lt_irreflexive(p.0);
    lemma_bytes_lt_irreflexive(p.1);
}

/// Pair order is transitive.
pub proof fn lemma_pair_lt_transitive(p: (Seq<u8>, Seq<u8>), q: (Seq<u8>, Seq<u8>), r: (Seq<u8>, Seq<u8>))
    requires
        pair_lt(p, q),
        pair_lt(q, r),
    ensures
        pair_lt(p, r),
{
    if bytes_lt(p.0, q.0) && bytes_lt(q.0, r.0) {
        lemma_bytes_lt_transitive(p.0, q.0, r.0);
    } else if p.0 == q.0 && q.0 == r.0 {
        lemma_bytes_lt_transitive(p.1, q.1, r.1);
    }
}

/// Of two different pairs, one sorts before the other.
pub proof fn lemma_pair_lt_total(p: (Seq<u8>, Seq<u8>), q: (Seq<u8>, Seq<u8>))
    requires
        p != q,
    ensures
        pair_lt(p, q) || pair_lt(q, p),
{
    if p.0 != q.0 {
        lemma_bytes_lt_total(p.0, q.0);
    } else {
        lemma_bytes_lt_total(p.1, q.1);
    }
}

/// No training key sorts before itself.
pub proof fn lemma_key_lt_irreflexive(c: nat, p: (Seq<u8>, Seq<u8>))
    ensures
        !key_lt(c, p, c, p),
{
    lemma_pair_lt_irreflexive(p);
}

/// Training-key order is transitive.
pub proof fn lemma_key_lt_transitive(
    c1: nat,
    p: (Seq<u8>, Seq<u8>),
    c2: nat,
    q: (Seq<u8>, Seq<u8>),
    c3: nat,
    r: (Seq<u8>, Seq<u8>),
)
    requires
        key_lt(c1, p, c2, q),
        key_lt(c2, q, c3, r),
    ensures
        key_lt(c1, p, c3, r),
{
    if c1 == c2 && c2 == c3 {
        lemma_pair_lt_transitive(p, q, r);
    }
}

/// Of two different training keys, one sorts before the other.
pub proof fn lemma_key_lt_total(c1: nat, p: (Seq<u8>, Seq<u8>), c2: nat, q: (Seq<u8>, Seq<u8>))
    requires
        c1 != c2 || p != q,
    ensures
        key_lt(c1, p, c2, q) || key_lt(c2, q, c1, p),
{
    if c1 == c2 {
        lemma_pair_lt_total(p, q);
    }
}

/// Three-way comparison of two pairs of byte strings.
pub fn compare_pairs(l1: &[u8], r1: &[u8], l2: &[u8], r2: &[u8]) -> (o: Order)
    ensures
        (o == Order::Less) == pair_lt((l1@, r1@), (l2@, r2@)),
        (o == Order::Equal) == ((l1@, r1@) == (l2@, r2@)),
        (o == Order::Greater) == pair_lt((l2@, r2@), (l1@, r1@)),
{
    proof {
        lemma_bytes_lt_irreflexive(l1@);
        lemma_bytes_lt_irreflexive(l2@);
    }
    match compare_bytes(l1, l2) {
        Order::Equal => {
            let o = compare_bytes(r1, r2);
            proof { lemma_bytes_lt_irreflexive(r1@); }
            o
        },
        o => {
            proof {
                if bytes_lt(l1@, l2@) && bytes_lt(l2@, l1@) {
                    lemma_bytes_lt_transitive(l1@, l2@, l1@);
                }
            }
            o
        },
    }
}

/// Three-way comparison of two training keys `(count, left, right)`.
pub fn compare_keys(c1: usize, l1: &[u8], r1: &[u8], c2: usize, l2: &[u8], r2: &[u8]) -> (o: Order)
    ensures
        (o == Order::Less) == key_lt(c1 as nat, (l1@, r1@), c2 as nat, (l2@, r2@)),
        (o == Order::Equal) == (c1 == c2 && (l1@, r1@) == (l2@, r2@)),
        (o == Order::Greater) == key_lt(c2 as nat, (l2@, r2@), c1 as nat, (l1@, r1@)),
{
    if c1 < c2 {
        Order::Less
    } else if c1 > c2 {
        Order::Greater
    } else {
        compare_pairs(l1, r1, l2, r2)
    }
}

} // verus!
