//! The block builder: accumulates entries into one block.
//!
//! The builder enforces the block capacity: an entry whose encoding would
//! push the block past [`BLOCK_SIZE`] is rejected — except the very first
//! entry of an empty builder, which is always accepted, so that one
//! oversized record still makes progress.

use crate::blocks::{
    block_wf, entries_fit, entries_sorted, lemma_block_push, lemma_small_block_fits, pairs_view,
    spec_block_size, Blocks,
};
use crate::codec::{entry_fits, spec_entry_len};
use crate::error::Error;
use crate::keys::lex_lt;
use vstd::prelude::*;
use vstd::slice::slice_to_vec;

verus! {

/// The soft capacity of a block, in encoded bytes.
pub const BLOCK_SIZE: usize = 4096;

/// Accumulates client records and generates a [`Blocks`] object on
/// [`BlockBuilder::build`].
pub struct BlockBuilder {
    entries: Vec<(Vec<u8>, Vec<u8>)>,
    /// The encoded size of the block under construction: data section
    /// plus offset section plus the trailing count field.
    amount: u64,
}

impl View for BlockBuilder {
    type V = Seq<(Seq<u8>, Seq<u8>)>;

    closed spec fn view(&self) -> Seq<(Seq<u8>, Seq<u8>)> {
        pairs_view(self.entries@)
    }
}

impl BlockBuilder {
    /// The builder's bookkeeping is consistent: the running byte counter
    /// is the encoded size of the accumulated entries, the entries fit
    /// the format with strictly ascending keys, and the capacity is
    /// respected unless a single oversized entry occupies the block.
    pub closed spec fn wf(&self) -> bool {
        &&& self.amount == spec_block_size(self@)
        &&& entries_fit(self@)
        &&& entries_sorted(self@)
        &&& (self@.len() <= 1 || spec_block_size(self@) <= BLOCK_SIZE)
    }

    /// A fresh, empty builder.
    pub fn new() -> (r: BlockBuilder)
        ensures
            r.wf(),
            r@ == Seq::<(Seq<u8>, Seq<u8>)>::empty(),
    {
        let r = BlockBuilder { entries: Vec::new(), amount: 2 };
        proof {
            assert(r@ =~= Seq::<(Seq<u8>, Seq<u8>)>::empty());
        }
        r
    }

    /// The number of entries accumulated so far.
    pub fn len(&self) -> (n: usize)
        ensures
            n == self@.len(),
    {
        self.entries.len()
    }

    /// The encoded size the block would have if built now.
    pub fn size(&self) -> (r: u64)
        requires
            self.wf(),
        ensures
            r == spec_block_size(self@),
    {
        self.amount
    }

    /// Appends one record, encoding it in the block format.
    ///
    /// Fails with `BlockOverflow`, leaving the builder untouched, exactly
    /// when the builder already holds an entry and this one would push
    /// the encoded size past the capacity.  On an empty builder it always
    /// succeeds.  Keys must arrive in strictly ascending order.
    pub fn add(&mut self, key: &[u8], value: &[u8]) -> (r: Result<(), Error>)
        requires
            old(self).wf(),
            entry_fits(key@, value@),
            old(self)@.len() == 0 || lex_lt(old(self)@[old(self)@.len() - 1].0, key@),
        ensures
            final(self).wf(),
            match r {
                Ok(()) => final(self)@ == old(self)@.push((key@, value@)) && (old(self)@.len()
                    == 0 || spec_block_size(old(self)@) + spec_entry_len(key@, value@) + 2
                    <= BLOCK_SIZE),
                Err(e) => e == Error::BlockOverflow && *final(self) == *old(self) && old(
                    self,
                )@.len() > 0 && spec_block_size(old(self)@) + spec_entry_len(key@, value@) + 2
                    > BLOCK_SIZE,
            },
    {
        let el: u64 = 4 + key.len() as u64 + value.len() as u64;
        proof {
            crate::blocks::lemma_data_len_bound(self@);
        }
        if self.entries.len() > 0 && self.amount + el + 2 > BLOCK_SIZE as u64 {
            return Err(Error::BlockOverflow);
        }
        let k = slice_to_vec(key);
        let v = slice_to_vec(value);
        proof {
            lemma_block_push(self@, key@, value@);
            crate::blocks::lemma_sorted_push(self@, key@, value@);
            assert(pairs_view(self.entries@.push((k, v))) =~= self@.push((key@, value@)));
        }
        self.entries.push((k, v));
        self.amount = self.amount + el + 2;
        Ok(())
    }

    /// Materializes the accumulated entries into an immutable block.
    /// The builder keeps its contents; [`BlockBuilder::clean_up`] clears
    /// it for reuse.
    pub fn build(&self) -> (r: Blocks)
        requires
            self.wf(),
        ensures
            r@ == self@,
            block_wf(r@),
    {
        proof {
            lemma_small_block_fits(self@);
        }
        let n = self.entries.len();
        let mut entries: Vec<(Vec<u8>, Vec<u8>)> = Vec::new();
        let mut i: usize = 0;
        proof {
            assert(pairs_view(entries@) =~= self@.take(0));
        }
        while i < n
            invariant
                i <= n,
                n == self.entries@.len(),
                pairs_view(entries@) == self@.take(i as int),
            decreases n - i,
        {
            let e = &self.entries[i];
            let k = crate::blocks::clone_bytes(&e.0);
            let v = crate::blocks::clone_bytes(&e.1);
            let ghost old_entries = entries@;
            entries.push((k, v));
            proof {
                assert(self@[i as int] == (self.entries@[i as int].0@,
                    self.entries@[i as int].1@));
                assert(pairs_view(entries@) =~= pairs_view(old_entries) + seq![(k@, v@)]);
                assert(self@.take(i + 1) =~= self@.take(i as int) + seq![self@[i as int]]);
            }
            i = i + 1;
        }
        proof {
            assert(self@.take(n as int) =~= self@);
        }
        Blocks::from_entries(entries)
    }

    /// Clears the builder for reuse.
    pub fn clean_up(&mut self)
        ensures
            final(self).wf(),
            final(self)@ == Seq::<(Seq<u8>, Seq<u8>)>::empty(),
    {
        self.entries.clear();
        self.amount = 2;
        proof {
            assert(self@ =~= Seq::<(Seq<u8>, Seq<u8>)>::empty());
        }
    }
}

} // verus!
