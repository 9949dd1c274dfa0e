//! Sorted scan and key-seek over one block.
//!
//! The iterator is a small state machine: unpositioned after creation,
//! positioned on an entry after a successful seek, and invalid once it
//! moves past either end.  Reading a key or value is allowed only while
//! positioned.

use crate::blocks::{entries_sorted, spec_contains_key, Blocks};
use crate::keys::{key_eq, key_lt, lemma_lex_lt_transitive, lemma_lex_trichotomy, lex_lt};
use std::sync::Arc;
use vstd::prelude::*;

verus! {

/// Yields the records of one shared block in key order.
pub struct BlockRecordIterator {
    block: Arc<Blocks>,
    is_valid: bool,
    current_index: usize,
}

impl BlockRecordIterator {
    /// The entries of the block this iterator walks.
    pub closed spec fn entries(&self) -> Seq<(Seq<u8>, Seq<u8>)> {
        self.block@
    }

    /// Whether the iterator is positioned on an entry.
    pub closed spec fn valid(&self) -> bool {
        self.is_valid
    }

    /// The position of the iterator within the block.
    pub closed spec fn pos(&self) -> int {
        self.current_index as int
    }

    /// A positioned iterator points inside the block.
    pub closed spec fn inv(&self) -> bool {
        self.is_valid ==> self.current_index < self.block@.len()
    }

    /// A fresh iterator over `block`: unpositioned, at index zero.
    pub fn new(block: Arc<Blocks>) -> (r: BlockRecordIterator)
        ensures
            r.entries() == block@,
            !r.valid(),
            r.pos() == 0,
            r.inv(),
    {
        BlockRecordIterator { block, is_valid: false, current_index: 0 }
    }

    /// Whether the iterator is positioned on an entry.
    pub fn is_valid(&self) -> (r: bool)
        ensures
            r == self.valid(),
    {
        self.is_valid
    }

    /// Positions the iterator on the first entry; an empty block leaves
    /// it exhausted.
    pub fn seek_to_first(&mut self)
        ensures
            final(self).entries() == old(self).entries(),
            final(self).inv(),
            final(self).valid() ==> 0 <= final(self).pos() < final(self).entries().len(),
            old(self).entries().len() > 0 ==> final(self).valid() && final(self).pos() == 0,
            old(self).entries().len() == 0 ==> !final(self).valid(),
    {
        self.current_index = 0;
        self.is_valid = self.block.len() > 0;
    }

    /// Positions the iterator on the last entry; an empty block leaves
    /// it exhausted.
    pub fn seek_to_last(&mut self)
        ensures
            final(self).entries() == old(self).entries(),
            final(self).inv(),
            final(self).valid() ==> 0 <= final(self).pos() < final(self).entries().len(),
            old(self).entries().len() > 0
                ==> final(self).valid() && final(self).pos() == old(self).entries().len() - 1,
            old(self).entries().len() == 0 ==> !final(self).valid(),
    {
        let n = self.block.len();
        if n == 0 {
            self.is_valid = false;
        } else {
            self.current_index = n - 1;
            self.is_valid = true;
        }
    }

    /// Seeks the entry whose key is exactly `key`, by binary search over
    /// the sorted entries.  On a match the iterator is positioned there
    /// and the call returns true; otherwise the iterator is left exactly
    /// as it was and the call returns false.
    pub fn seek_to_key(&mut self, key: &[u8]) -> (r: bool)
        requires
            old(self).inv(),
            entries_sorted(old(self).entries()),
        ensures
            final(self).inv(),
            final(self).valid() ==> 0 <= final(self).pos() < final(self).entries().len(),
            final(self).entries() == old(self).entries(),
            r == spec_contains_key(old(self).entries(), key@),
            r ==> final(self).valid() && final(self).entries()[final(self).pos()].0 == key@,
            !r ==> *final(self) == *old(self),
    {
        let ghost s = self.entries();
        let n = self.block.len();
        let mut lo: usize = 0;
        let mut hi: usize = n;
        while lo < hi
            invariant
                0 <= lo <= hi <= n,
                n == s.len(),
                s == self.entries(),
                *self == *old(self),
                entries_sorted(s),
                forall|i: int| 0 <= i < lo ==> lex_lt(#[trigger] s[i].0, key@),
                forall|i: int| hi <= i < n ==> lex_lt(key@, #[trigger] s[i].0),
            decreases hi - lo,
        {
            let mid = lo + (hi - lo) / 2;
            let mk = self.block.key_at(mid);
            if key_lt(mk, key) {
                proof {
                    assert forall|i: int| 0 <= i < mid + 1 implies lex_lt(
                        #[trigger] s[i].0,
                        key@,
                    ) by {
                        if i < mid {
                            assert(lex_lt(s[i].0, s[mid as int].0));
                            lemma_lex_lt_transitive(s[i].0, s[mid as int].0, key@);
                        }
                    }
                }
                lo = mid + 1;
            } else if key_eq(mk, key) {
                self.current_index = mid;
                self.is_valid = true;
                proof {
                    assert(spec_contains_key(s, key@)) by {
                        assert((s[mid as int]).0 == key@);
                    }
                }
                return true;
            } else {
                proof {
                    lemma_lex_trichotomy(s[mid as int].0, key@);
                    assert forall|i: int| mid <= i < n implies lex_lt(
                        key@,
                        #[trigger] s[i].0,
                    ) by {
                        if i > mid {
                            assert(lex_lt(s[mid as int].0, s[i].0));
                            lemma_lex_lt_transitive(key@, s[mid as int].0, s[i].0);
                        }
                    }
                }
                hi = mid;
            }
        }
        proof {
            assert forall|i: int| 0 <= i < n implies s[i].0 != key@ by {
                lemma_lex_trichotomy(s[i].0, key@);
            }
        }
        false
    }

    /// Advances one position; moving past the last entry exhausts the
    /// iterator, as does advancing one that is not positioned.
    pub fn next(&mut self)
        requires
            old(self).inv(),
        ensures
            final(self).inv(),
            final(self).valid() ==> 0 <= final(self).pos() < final(self).entries().len(),
            final(self).entries() == old(self).entries(),
            old(self).valid() && old(self).pos() + 1 < old(self).entries().len()
                ==> final(self).valid() && final(self).pos() == old(self).pos() + 1,
            !(old(self).valid() && old(self).pos() + 1 < old(self).entries().len())
                ==> !final(self).valid(),
    {
        let n = self.block.len();
        if self.is_valid && self.current_index + 1 < n {
            self.current_index = self.current_index + 1;
        } else {
            self.is_valid = false;
        }
    }

    /// Retreats one position; moving past the first entry exhausts the
    /// iterator, as does retreating one that is not positioned.
    pub fn prev(&mut self)
        requires
            old(self).inv(),
        ensures
            final(self).inv(),
            final(self).valid() ==> 0 <= final(self).pos() < final(self).entries().len(),
            final(self).entries() == old(self).entries(),
            old(self).valid() && old(self).pos() > 0 ==> final(self).valid() && final(self).pos()
                == old(self).pos() - 1,
            !(old(self).valid() && old(self).pos() > 0) ==> !final(self).valid(),
    {
        if self.is_valid && self.current_index > 0 {
            self.current_index = self.current_index - 1;
        } else {
            self.is_valid = false;
        }
    }

    /// The key under the iterator; only a positioned iterator may be
    /// read.
    pub fn key(&self) -> (r: &[u8])
        requires
            self.inv(),
            self.valid(),
        ensures
            r@ == self.entries()[self.pos()].0,
    {
        self.block.key_at(self.current_index)
    }

    /// The value under the iterator; only a positioned iterator may be
    /// read.
    pub fn value(&self) -> (r: &[u8])
        requires
            self.inv(),
            self.valid(),
        ensures
            r@ == self.entries()[self.pos()].1,
    {
        self.block.value_at(self.current_index)
    }
}

} // verus!
