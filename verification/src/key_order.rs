//! `==` and `<` on training keys, in the key order that picks the next merge:
//! by count, then by the pair's left bytes, then by its right bytes.

use vstd::prelude::*;
use vstd::std_specs::cmp::{PartialEqSpecImpl, PartialOrdSpecImpl};
use core::cmp::Ordering;
use crate::byte_order::Order;
use crate::pair_tree::{key_less, AlphabetPairKey};

verus! {

impl PartialEq for AlphabetPairKey {
    fn eq(&self, other: &AlphabetPairKey) -> (r: bool) {
        match self.compare(other) {
            Order::Equal => true,
            _ => false,
        }
    }
}

impl PartialEqSpecImpl for AlphabetPairKey {
    open spec fn obeys_eq_spec() -> bool {
        true
    }

    open spec fn eq_spec(&self, other: &AlphabetPairKey) -> bool {
        self@ == other@
    }
}

impl Eq for AlphabetPairKey {
}

impl PartialOrd for AlphabetPairKey {
    fn partial_cmp(&self, other: &AlphabetPairKey) -> (r: Option<Ordering>) {
        match self.compare(other) {
            Order::Less => Some(Ordering::Less),
            Order::Equal => Some(Ordering::Equal),
            Order::Greater => Some(Ordering::Greater),
        }
    }
}

impl PartialOrdSpecImpl for AlphabetPairKey {
    open spec fn obeys_partial_cmp_spec() -> bool {
        true
    }

    open spec fn partial_cmp_spec(&self, other: &AlphabetPairKey) -> Option<Ordering> {
        if key_less(self@, other@) {
            Some(Ordering::Less)
        } else if self@ == other@ {
            Some(Ordering::Equal)
        } else {
            Some(Ordering::Greater)
        }
    }
}

} // verus!
