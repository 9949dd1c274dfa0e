//! Sorted scan and key-seek across the data blocks of one SSTable.
//!
//! The iterator composes a block iterator over the current data block
//! with an index into the table's sparse index: advancing past a block's
//! last entry loads the next block, seeking dispatches through the index
//! to the one block whose key range covers the key.  Its position is
//! spoken of as an index into the table's flat entry sequence.

use crate::blocks::{spec_contains_key, spec_contains_pair};
use crate::blocks::iterator::BlockRecordIterator;
use crate::keys::{key_lt, lemma_lex_le_lt_transitive, lemma_lex_lt_transitive,
    lemma_lex_trichotomy, lex_le, lex_lt};
use crate::sstable::{
    lemma_flat_index, lemma_flat_pos_step, lemma_flat_pos_total, lemma_flat_prefix,
    lemma_table_dispatch, lemma_table_sorted, lemma_table_wf_facts, recs_sorted,
    spec_block_entries_of, spec_flat_pos, spec_table_entries, sst_rec_wf, sst_wf, SSTable,
};
use std::sync::Arc;
use vstd::prelude::*;

verus! {

/// Yields the records of one shared table in key order.
pub struct SSTableRecordIterator {
    sstable: Arc<SSTable>,
    data_block_iterator: BlockRecordIterator,
    data_block_index: usize,
    is_valid: bool,
}

impl SSTableRecordIterator {
    /// The table's entries, in key order.
    pub closed spec fn table(&self) -> Seq<(Seq<u8>, Seq<u8>)> {
        self.sstable@
    }

    /// Whether the iterator is positioned on an entry.
    pub closed spec fn valid(&self) -> bool {
        self.is_valid
    }

    /// The flat position of the iterator within the table's entries.
    pub closed spec fn fpos(&self) -> int {
        spec_flat_pos(
            self.sstable.file_view(),
            self.sstable.index(),
            self.data_block_index as int,
        ) + self.data_block_iterator.pos()
    }

    /// The iterator walks a consistent, non-empty table, and while
    /// positioned its block iterator stands inside the data block of the
    /// current index record.
    pub closed spec fn inv(&self) -> bool {
        &&& self.sstable.wf()
        &&& self.sstable.index().len() > 0
        &&& self.is_valid ==> {
            &&& self.data_block_index < self.sstable.index().len()
            &&& self.data_block_iterator.inv()
            &&& self.data_block_iterator.valid()
            &&& 0 <= self.data_block_iterator.pos() < self.data_block_iterator.entries().len()
            &&& self.data_block_iterator.entries() == spec_block_entries_of(
                self.sstable.file_view(),
                self.sstable.index()[self.data_block_index as int].1,
            )
        }
    }

    /// A fresh iterator over `sstable`: unpositioned, with the first
    /// data block loaded.
    pub fn new(sstable: Arc<SSTable>) -> (r: SSTableRecordIterator)
        requires
            sstable.wf(),
            sstable.index().len() > 0,
        ensures
            r.inv(),
            !r.valid(),
            r.table() == sstable@,
    {
        let block = sstable.read_data_block(0);
        let data_block_iterator = BlockRecordIterator::new(Arc::new(block));
        SSTableRecordIterator { sstable, data_block_iterator, data_block_index: 0, is_valid: false }
    }

    /// Whether the iterator is positioned on an entry.
    pub fn is_valid(&self) -> (r: bool)
        ensures
            r == self.valid(),
    {
        self.is_valid
    }

    /// Positions the iterator on the table's first entry.
    pub fn seek_to_first(&mut self)
        requires
            old(self).inv(),
        ensures
            final(self).inv(),
            final(self).table() == old(self).table(),
            final(self).valid(),
            final(self).fpos() == 0,
            0 < final(self).table().len(),
    {
        let ghost file = self.sstable.file_view();
        let ghost recs = self.sstable.index();
        let block = self.sstable.read_data_block(0);
        self.data_block_index = 0;
        self.data_block_iterator = BlockRecordIterator::new(Arc::new(block));
        self.data_block_iterator.seek_to_first();
        self.is_valid = true;
        proof {
            assert(recs.take(0) =~= Seq::empty());
            lemma_flat_index(file, recs, 0, 0);
        }
    }

    /// Positions the iterator on the table's last entry.
    pub fn seek_to_last(&mut self)
        requires
            old(self).inv(),
        ensures
            final(self).inv(),
            final(self).table() == old(self).table(),
            final(self).valid(),
            final(self).fpos() == old(self).table().len() - 1,
            0 < final(self).table().len(),
    {
        let ghost file = self.sstable.file_view();
        let ghost recs = self.sstable.index();
        let last = self.sstable.index_len() - 1;
        let block = self.sstable.read_data_block(last);
        self.data_block_index = last;
        self.data_block_iterator = BlockRecordIterator::new(Arc::new(block));
        self.data_block_iterator.seek_to_last();
        self.is_valid = true;
        proof {
            lemma_table_wf_facts(&self.sstable);
            lemma_flat_pos_step(file, recs, last as int);
            lemma_flat_pos_total(file, recs);
            lemma_flat_index(file, recs, last as int, 0);
        }
    }

    /// Seeks the entry whose key is exactly `key`: binary search over
    /// the index for the first record whose largest key is at least
    /// `key`, then a seek inside that one data block.  On a match the
    /// iterator is positioned there and the call returns true; when the
    /// key is absent from the table the iterator becomes invalid and the
    /// call returns false.
    #[verifier::loop_isolation(false)]
    pub fn seek_to_key(&mut self, key: &[u8]) -> (r: bool)
        requires
            old(self).inv(),
        ensures
            final(self).inv(),
            final(self).table() == old(self).table(),
            r == spec_contains_key(old(self).table(), key@),
            r ==> final(self).valid() && 0 <= final(self).fpos() < final(self).table().len()
                && final(self).table()[final(self).fpos()].0 == key@,
            !r ==> !final(self).valid(),
    {
        let ghost file = self.sstable.file_view();
        let ghost recs = self.sstable.index();
        proof {
            lemma_table_wf_facts(&self.sstable);
        }
        let count = self.sstable.index_len();
        let mut lo: usize = 0;
        let mut hi: usize = count;
        while lo < hi
            invariant
                0 <= lo <= hi <= count,
                forall|i: int| 0 <= i < lo ==> lex_lt((#[trigger] recs[i]).0, key@),
                forall|i: int| hi <= i < count ==> lex_le(key@, (#[trigger] recs[i]).0),
            decreases hi - lo,
        {
            let mid = lo + (hi - lo) / 2;
            let rec = self.sstable.index_record(mid);
            if key_lt(rec.largest_key.as_slice(), key) {
                proof {
                    assert forall|i: int| 0 <= i < mid + 1 implies lex_lt(
                        (#[trigger] recs[i]).0,
                        key@,
                    ) by {
                        if i < mid {
                            assert(lex_lt(recs[i].0, recs[mid as int].0));
                            lemma_lex_lt_transitive(recs[i].0, recs[mid as int].0, key@);
                        }
                    }
                }
                lo = mid + 1;
            } else {
                proof {
                    lemma_lex_trichotomy(recs[mid as int].0, key@);
                    assert forall|i: int| mid <= i < count implies lex_le(
                        key@,
                        (#[trigger] recs[i]).0,
                    ) by {
                        if i > mid {
                            assert(lex_lt(recs[mid as int].0, recs[i].0));
                            lemma_lex_le_lt_transitive(key@, recs[mid as int].0, recs[i].0);
                        }
                    }
                }
                hi = mid;
            }
        }
        if lo == count {
            // Every record key is below `key`: the key is past the table.
            self.is_valid = false;
            proof {
                lemma_table_sorted(file, recs);
                assert forall|i: int| 0 <= i < self.table().len() implies (#[trigger] self.table()[
                    i]).0 != key@ by {
                    assert(lex_le(self.table()[i].0, recs[recs.len() - 1].0));
                    assert(lex_lt(recs[recs.len() - 1].0, key@));
                    lemma_lex_le_lt_transitive(self.table()[i].0, recs[recs.len() - 1].0, key@);
                    lemma_lex_trichotomy(self.table()[i].0, key@);
                }
            }
            return false;
        }
        let b = lo;
        proof {
            lemma_table_dispatch(file, recs, key@, b as int);
        }
        let block = self.sstable.read_data_block(b);
        self.data_block_index = b;
        self.data_block_iterator = BlockRecordIterator::new(Arc::new(block));
        if self.data_block_iterator.seek_to_key(key) {
            self.is_valid = true;
            proof {
                let blk = spec_block_entries_of(file, recs[b as int].1);
                let j = self.data_block_iterator.pos();
                lemma_flat_index(file, recs, b as int, j);
                assert(spec_contains_key(self.table(), key@)) by {
                    assert(self.table()[spec_flat_pos(file, recs, b as int) + j].0 == key@);
                }
            }
            true
        } else {
            self.is_valid = false;
            false
        }
    }

    /// Advances one position; crossing into the next data block loads
    /// it, and moving past the table's last entry — or advancing an
    /// unpositioned iterator — leaves the iterator invalid.
    pub fn next(&mut self)
        requires
            old(self).inv(),
        ensures
            final(self).inv(),
            final(self).table() == old(self).table(),
            old(self).valid() && old(self).fpos() + 1 < old(self).table().len()
                ==> final(self).valid() && final(self).fpos() == old(self).fpos() + 1,
            !(old(self).valid() && old(self).fpos() + 1 < old(self).table().len())
                ==> !final(self).valid(),
    {
        let ghost file = self.sstable.file_view();
        let ghost recs = self.sstable.index();
        if !self.is_valid {
            self.is_valid = false;
            return;
        }
        let ghost b = self.data_block_index as int;
        let ghost j = self.data_block_iterator.pos();
        proof {
            lemma_table_wf_facts(&self.sstable);
            lemma_flat_index(file, recs, b, j);
        }
        self.data_block_iterator.next();
        if self.data_block_iterator.is_valid() {
            proof {
                lemma_flat_index(file, recs, b, j + 1);
            }
            return;
        }
        // The current block is exhausted: move to the next one, if any.
        let ilen = self.sstable.index_len();
        let next_index = self.data_block_index + 1;
        if next_index < ilen {
            let block = self.sstable.read_data_block(next_index);
            self.data_block_index = next_index;
            self.data_block_iterator = BlockRecordIterator::new(Arc::new(block));
            self.data_block_iterator.seek_to_first();
            self.is_valid = true;
            proof {
                lemma_flat_pos_step(file, recs, b);
                lemma_flat_index(file, recs, b + 1, 0);
            }
        } else {
            self.is_valid = false;
            proof {
                lemma_flat_pos_step(file, recs, b);
                lemma_flat_pos_total(file, recs);
            }
        }
    }

    /// Retreats one position; crossing back into the previous data
    /// block loads it, and moving past the table's first entry — or
    /// retreating an unpositioned iterator — leaves the iterator
    /// invalid.
    pub fn prev(&mut self)
        requires
            old(self).inv(),
        ensures
            final(self).inv(),
            final(self).table() == old(self).table(),
            old(self).valid() && old(self).fpos() > 0
                ==> final(self).valid() && final(self).fpos() == old(self).fpos() - 1,
            !(old(self).valid() && old(self).fpos() > 0) ==> !final(self).valid(),
    {
        let ghost file = self.sstable.file_view();
        let ghost recs = self.sstable.index();
        if !self.is_valid {
            self.is_valid = false;
            return;
        }
        let ghost b = self.data_block_index as int;
        let ghost j = self.data_block_iterator.pos();
        proof {
            lemma_table_wf_facts(&self.sstable);
            lemma_flat_index(file, recs, b, j);
        }
        self.data_block_iterator.prev();
        if self.data_block_iterator.is_valid() {
            proof {
                lemma_flat_index(file, recs, b, j - 1);
            }
            return;
        }
        // The current block is spent: move back a block, if any.
        if self.data_block_index > 0 {
            let prev_index = self.data_block_index - 1;
            let block = self.sstable.read_data_block(prev_index);
            self.data_block_index = prev_index;
            self.data_block_iterator = BlockRecordIterator::new(Arc::new(block));
            self.data_block_iterator.seek_to_last();
            self.is_valid = true;
            proof {
                lemma_flat_pos_step(file, recs, b - 1);
                lemma_flat_index(file, recs, b - 1, self.data_block_iterator.pos());
            }
        } else {
            self.is_valid = false;
            proof {
                assert(recs.take(0) =~= Seq::empty());
            }
        }
    }

    /// The key under the iterator; only a positioned iterator may be
    /// read.
    pub fn key(&self) -> (r: &[u8])
        requires
            self.inv(),
            self.valid(),
        ensures
            0 <= self.fpos() < self.table().len(),
            r@ == self.table()[self.fpos()].0,
    {
        proof {
            lemma_table_wf_facts(&self.sstable);
            lemma_flat_index(
                self.sstable.file_view(),
                self.sstable.index(),
                self.data_block_index as int,
                self.data_block_iterator.pos(),
            );
        }
        self.data_block_iterator.key()
    }

    /// The value under the iterator; only a positioned iterator may be
    /// read.
    pub fn value(&self) -> (r: &[u8])
        requires
            self.inv(),
            self.valid(),
        ensures
            0 <= self.fpos() < self.table().len(),
            r@ == self.table()[self.fpos()].1,
    {
        proof {
            lemma_table_wf_facts(&self.sstable);
            lemma_flat_index(
                self.sstable.file_view(),
                self.sstable.index(),
                self.data_block_index as int,
                self.data_block_iterator.pos(),
            );
        }
        self.data_block_iterator.value()
    }
}

} // verus!
