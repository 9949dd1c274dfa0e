//! The iterator protocol of the store.
//!
//! Every record iterator — over one block, or over a whole table —
//! follows the same contract: it is created unpositioned over some
//! owner, walks a fixed sequence of entries, and may be read only while
//! positioned.  The trait states that contract once, over each
//! implementation's entry sequence and position.

use crate::blocks::spec_contains_key;
use crate::blocks::iterator::BlockRecordIterator;
use crate::blocks::{entries_sorted, Blocks};
use crate::sstable::iterator::SSTableRecordIterator;
use crate::sstable::SSTable;
use std::sync::Arc;
use vstd::prelude::*;

verus! {

/// Sorted forward/backward scan and key-seek over an immutable owner.
pub trait Iterator: Sized {
    /// The owning structure an iterator is created over.
    type Item;

    /// The entries the iterator walks, in order.
    spec fn entries(&self) -> Seq<(Seq<u8>, Seq<u8>)>;

    /// Whether the iterator is positioned on an entry.
    spec fn valid(&self) -> bool;

    /// The position of the iterator within the entries.
    spec fn pos(&self) -> int;

    /// The iterator's internal consistency.
    spec fn inv(&self) -> bool;

    /// What the owner must satisfy to be iterated.
    spec fn source_ok(arg: &Self::Item) -> bool;

    /// A fresh, unpositioned iterator over `arg`.
    fn new(arg: Self::Item) -> (r: Self)
        requires
            Self::source_ok(&arg),
        ensures
            r.inv(),
            !r.valid(),
    ;

    /// Positions the iterator on the first entry, if there is one.
    fn seek_to_first(&mut self)
        requires
            old(self).inv(),
        ensures
            final(self).inv(),
            final(self).entries() == old(self).entries(),
            final(self).valid() ==> 0 <= final(self).pos() < final(self).entries().len(),
            old(self).entries().len() > 0 ==> final(self).valid() && final(self).pos() == 0,
            old(self).entries().len() == 0 ==> !final(self).valid(),
    ;

    /// Positions the iterator on the last entry, if there is one.
    fn seek_to_last(&mut self)
        requires
            old(self).inv(),
        ensures
            final(self).inv(),
            final(self).entries() == old(self).entries(),
            final(self).valid() ==> 0 <= final(self).pos() < final(self).entries().len(),
            old(self).entries().len() > 0 ==> final(self).valid() && final(self).pos() == old(
                self,
            ).entries().len() - 1,
            old(self).entries().len() == 0 ==> !final(self).valid(),
    ;

    /// Seeks the entry whose key is exactly `key`, returning whether it
    /// exists; on a match the iterator is positioned on it.
    fn seek_to_key(&mut self, key: &[u8]) -> (r: bool)
        requires
            old(self).inv(),
        ensures
            final(self).inv(),
            final(self).entries() == old(self).entries(),
            r == spec_contains_key(old(self).entries(), key@),
            r ==> final(self).valid() && 0 <= final(self).pos() < final(self).entries().len()
                && final(self).entries()[final(self).pos()].0 == key@,
    ;

    /// Whether the iterator is positioned on an entry.
    fn is_valid(&self) -> (r: bool)
        ensures
            r == self.valid(),
    ;

    /// Advances one position; moving past the last entry — or advancing
    /// an unpositioned iterator — leaves it invalid.
    fn next(&mut self)
        requires
            old(self).inv(),
        ensures
            final(self).inv(),
            final(self).entries() == old(self).entries(),
            old(self).valid() && old(self).pos() + 1 < old(self).entries().len()
                ==> final(self).valid() && final(self).pos() == old(self).pos() + 1,
            !(old(self).valid() && old(self).pos() + 1 < old(self).entries().len())
                ==> !final(self).valid(),
    ;

    /// Retreats one position; moving past the first entry — or
    /// retreating an unpositioned iterator — leaves it invalid.
    fn prev(&mut self)
        requires
            old(self).inv(),
        ensures
            final(self).inv(),
            final(self).entries() == old(self).entries(),
            old(self).valid() && old(self).pos() > 0 ==> final(self).valid() && final(self).pos()
                == old(self).pos() - 1,
            !(old(self).valid() && old(self).pos() > 0) ==> !final(self).valid(),
    ;

    /// The key under the iterator; only a positioned iterator may be
    /// read.
    fn key(&self) -> (r: &[u8])
        requires
            self.inv(),
            self.valid(),
        ensures
            0 <= self.pos() < self.entries().len(),
            r@ == self.entries()[self.pos()].0,
    ;

    /// The value under the iterator; only a positioned iterator may be
    /// read.
    fn value(&self) -> (r: &[u8])
        requires
            self.inv(),
            self.valid(),
        ensures
            0 <= self.pos() < self.entries().len(),
            r@ == self.entries()[self.pos()].1,
    ;
}

impl Iterator for BlockRecordIterator {
    type Item = Arc<Blocks>;

    closed spec fn entries(&self) -> Seq<(Seq<u8>, Seq<u8>)> {
        BlockRecordIterator::entries(self)
    }

    closed spec fn valid(&self) -> bool {
        BlockRecordIterator::valid(self)
    }

    closed spec fn pos(&self) -> int {
        BlockRecordIterator::pos(self)
    }

    closed spec fn inv(&self) -> bool {
        BlockRecordIterator::inv(self) && entries_sorted(BlockRecordIterator::entries(self))
            && (BlockRecordIterator::valid(self) ==> 0 <= BlockRecordIterator::pos(self)
            < BlockRecordIterator::entries(self).len())
    }

    closed spec fn source_ok(arg: &Arc<Blocks>) -> bool {
        entries_sorted(arg@)
    }

    fn new(arg: Arc<Blocks>) -> (r: Self) {
        BlockRecordIterator::new(arg)
    }

    fn seek_to_first(&mut self) {
        BlockRecordIterator::seek_to_first(self)
    }

    fn seek_to_last(&mut self) {
        BlockRecordIterator::seek_to_last(self)
    }

    fn seek_to_key(&mut self, key: &[u8]) -> (r: bool) {
        BlockRecordIterator::seek_to_key(self, key)
    }

    fn is_valid(&self) -> (r: bool) {
        BlockRecordIterator::is_valid(self)
    }

    fn next(&mut self) {
        BlockRecordIterator::next(self)
    }

    fn prev(&mut self) {
        BlockRecordIterator::prev(self)
    }

    fn key(&self) -> (r: &[u8]) {
        BlockRecordIterator::key(self)
    }

    fn value(&self) -> (r: &[u8]) {
        BlockRecordIterator::value(self)
    }
}

impl Iterator for SSTableRecordIterator {
    type Item = Arc<SSTable>;

    closed spec fn entries(&self) -> Seq<(Seq<u8>, Seq<u8>)> {
        self.table()
    }

    closed spec fn valid(&self) -> bool {
        SSTableRecordIterator::valid(self)
    }

    closed spec fn pos(&self) -> int {
        self.fpos()
    }

    closed spec fn inv(&self) -> bool {
        SSTableRecordIterator::inv(self)
    }

    closed spec fn source_ok(arg: &Arc<SSTable>) -> bool {
        arg.wf() && arg.index().len() > 0
    }

    fn new(arg: Arc<SSTable>) -> (r: Self) {
        SSTableRecordIterator::new(arg)
    }

    fn seek_to_first(&mut self) {
        SSTableRecordIterator::seek_to_first(self)
    }

    fn seek_to_last(&mut self) {
        SSTableRecordIterator::seek_to_last(self)
    }

    fn seek_to_key(&mut self, key: &[u8]) -> (r: bool) {
        SSTableRecordIterator::seek_to_key(self, key)
    }

    fn is_valid(&self) -> (r: bool) {
        SSTableRecordIterator::is_valid(self)
    }

    fn next(&mut self) {
        SSTableRecordIterator::next(self)
    }

    fn prev(&mut self) {
        SSTableRecordIterator::prev(self)
    }

    fn key(&self) -> (r: &[u8]) {
        SSTableRecordIterator::key(self)
    }

    fn value(&self) -> (r: &[u8]) {
        SSTableRecordIterator::value(self)
    }
}

} // verus!
