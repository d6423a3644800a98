//! The key order plug-in surface. The store's own order is the
//! lexicographic order on encoded key bytes.
use vstd::prelude::*;

use crate::entry::{bytes_lt, compare_bytes};

verus! {

/// A user-supplied order on encoded keys.
pub trait Comparator {
    fn name(&self) -> &'static str;

    fn compare(&self, key1: &[u8], key2: &[u8]) -> core::cmp::Ordering;
}

/// The default order: plain byte-wise comparison.
pub struct DefaultComparator;

impl DefaultComparator {
    pub fn new() -> (r: DefaultComparator) {
        DefaultComparator
    }
}

impl Comparator for DefaultComparator {
    fn name(&self) -> &'static str {
        "eikv.default_comparator.v1"
    }

    fn compare(&self, key1: &[u8], key2: &[u8]) -> (r: core::cmp::Ordering)
        ensures
            r is Less <==> bytes_lt(key1@, key2@),
            r is Equal <==> key1@ == key2@,
            r is Greater <==> bytes_lt(key2@, key1@),
    {
        compare_bytes(key1, key2)
    }
}

} // verus!
