//! The sorted string table: an immutable sorted run of entries on disk.
//!
//! An SSTable file is laid out as:
//!
//! ```text
//! <file begin>
//! <data block> ... <data block>
//! <index block> ... <index block>
//! <footer>
//! <file end>
//! ```
//!
//! An index block is an ordinary block whose records map the largest key
//! of one data block to that block's location, a [`BlockPointer`]: the
//! sparse index.  The footer lists the locations of the index blocks and
//! ends with their count, the last two bytes of the file.
//!
//! Opening a table reads the footer, then every index block, and checks
//! the whole layout — every pointer in bounds, every data block a
//! well-formed block, block largest keys matching their index records,
//! and keys ascending across block boundaries — so that lookups on an
//! open table are exact.
//!
//! The table keeps the file bytes in memory; reading and writing the
//! backing file belongs to the embedding program, which names the file
//! after the table's sequence number.

pub mod iterator;
pub mod sstable_builder;

pub use sstable_builder::SSTableBuilder;

use crate::blocks::{
    entries_sorted, lemma_block_key_bounds, pairs_view, spec_contains_key, spec_contains_pair,
    spec_lookup, spec_parse_block, Blocks,
};
use crate::codec::{
    read_be16, put_be16, put_be64, spec_be16, spec_be16_val, spec_be64, spec_be64_val,
    spec_encode_entry, spec_parse_entry,
};
use crate::error::Error;
use crate::keys::{key_eq, key_lt, lemma_lex_lt_transitive, lemma_lex_trichotomy, lex_le, lex_lt};
use vstd::prelude::*;
use vstd::slice::{slice_subrange, slice_to_vec};

verus! {

/// The location of a block inside an SSTable file: byte offset and byte
/// length, each encoded as a big-endian 64-bit integer.
#[derive(Debug, Clone, Copy, PartialEq, Eq, Structural)]
pub struct BlockPointer(pub u64, pub u64);

/// The encoded length of a block pointer.
pub const BLOCK_POINTER_SIZE: usize = 16;

/// The encoding of a block pointer: offset then length.
pub open spec fn spec_encode_ptr(p: BlockPointer) -> Seq<u8> {
    spec_be64(p.0) + spec_be64(p.1)
}

/// Parses a block pointer from exactly sixteen bytes.
pub open spec fn spec_parse_ptr(d: Seq<u8>) -> Option<BlockPointer> {
    if d.len() == 16 {
        Some(BlockPointer(spec_be64_val(d.subrange(0, 8)), spec_be64_val(d.subrange(8, 16))))
    } else {
        None
    }
}

/// Round-trip of the block-pointer codec.
pub proof fn lemma_ptr_round_trip(p: BlockPointer)
    ensures
        spec_parse_ptr(spec_encode_ptr(p)) == Some(p),
{
    let d = spec_encode_ptr(p);
    assert(d.subrange(0, 8) =~= spec_be64(p.0));
    assert(d.subrange(8, 16) =~= spec_be64(p.1));
    crate::codec::lemma_be64_round_trip(p.0);
    crate::codec::lemma_be64_round_trip(p.1);
}

impl BlockPointer {
    /// Encodes the pointer: offset then length, eight bytes each.
    pub fn encode(&self) -> (r: Vec<u8>)
        ensures
            r@ == spec_encode_ptr(*self),
    {
        let mut buf: Vec<u8> = Vec::new();
        put_be64(&mut buf, self.0);
        put_be64(&mut buf, self.1);
        proof {
            assert(buf@ =~= spec_encode_ptr(*self));
        }
        buf
    }

    /// Decodes a pointer from exactly sixteen bytes.
    pub fn decode(raw: &[u8]) -> (r: Result<BlockPointer, Error>)
        ensures
            match r {
                Ok(p) => spec_parse_ptr(raw@) == Some(p),
                Err(e) => spec_parse_ptr(raw@) is None && e == Error::Corruption,
            },
    {
        if raw.len() != BLOCK_POINTER_SIZE {
            return Err(Error::Corruption);
        }
        let off = crate::codec::read_be64(raw, 0);
        let len = crate::codec::read_be64(raw, 8);
        Ok(BlockPointer(off, len))
    }
}

/// One record of the sparse index: the largest key of a data block and
/// that block's location.
#[derive(Debug, Clone, PartialEq)]
pub struct IndexBlockRecord {
    pub largest_key: Vec<u8>,
    pub data_block_pointer: BlockPointer,
}

impl View for IndexBlockRecord {
    type V = (Seq<u8>, BlockPointer);

    open spec fn view(&self) -> (Seq<u8>, BlockPointer) {
        (self.largest_key@, self.data_block_pointer)
    }
}

/// The index-record sequence a vector of records stands for.
pub open spec fn recs_view(v: Seq<IndexBlockRecord>) -> Seq<(Seq<u8>, BlockPointer)> {
    v.map_values(|r: IndexBlockRecord| (r.largest_key@, r.data_block_pointer))
}

impl IndexBlockRecord {
    /// Encodes the record as a block entry: the largest key, with the
    /// encoded pointer as the value.
    pub fn encode(&self) -> (r: Vec<u8>)
        requires
            self.largest_key@.len() <= 0xffff,
        ensures
            r@ == spec_encode_entry(self.largest_key@, spec_encode_ptr(self.data_block_pointer)),
    {
        let ptr_bytes = self.data_block_pointer.encode();
        crate::codec::encode_entry(self.largest_key.as_slice(), ptr_bytes.as_slice())
    }

    /// Decodes a record from an entry encoding: the key, then a pointer
    /// as the sixteen-byte value.
    pub fn decode(raw: &[u8]) -> (r: Result<IndexBlockRecord, Error>)
        ensures
            match r {
                Ok(rec) => {
                    &&& spec_parse_entry(raw@, 0) is Some
                    &&& spec_parse_entry(raw@, 0).unwrap().0.0 == rec.largest_key@
                    &&& spec_parse_ptr(spec_parse_entry(raw@, 0).unwrap().0.1) == Some(
                        rec.data_block_pointer,
                    )
                },
                Err(e) => e == Error::Corruption && (spec_parse_entry(raw@, 0) is None
                    || spec_parse_ptr(spec_parse_entry(raw@, 0).unwrap().0.1) is None),
            },
    {
        match crate::codec::decode_entry(raw, 0) {
            Err(e) => Err(e),
            Ok((key, value, _end)) => match BlockPointer::decode(value.as_slice()) {
                Err(e) => Err(e),
                Ok(p) => Ok(IndexBlockRecord { largest_key: key, data_block_pointer: p }),
            },
        }
    }
}

/// The footer: the block pointers of the index blocks, then their count
/// as the trailing two bytes of the file.
#[derive(Debug)]
pub struct Footer {
    pub index_block_pointers: Vec<BlockPointer>,
    pub num_of_index_block: usize,
}

/// The concatenated encodings of a pointer sequence.
pub open spec fn spec_encode_ptrs(ps: Seq<BlockPointer>) -> Seq<u8>
    decreases ps.len(),
{
    if ps.len() == 0 {
        Seq::empty()
    } else {
        spec_encode_ptrs(ps.drop_last()) + spec_encode_ptr(ps.last())
    }
}

proof fn lemma_encode_ptrs_len(ps: Seq<BlockPointer>)
    ensures
        spec_encode_ptrs(ps).len() == 16 * ps.len(),
    decreases ps.len(),
{
    if ps.len() > 0 {
        lemma_encode_ptrs_len(ps.drop_last());
    }
}

proof fn lemma_encode_ptrs_index(ps: Seq<BlockPointer>, i: int)
    requires
        0 <= i < ps.len(),
    ensures
        spec_encode_ptrs(ps).len() == 16 * ps.len(),
        spec_encode_ptrs(ps).subrange(16 * i, 16 * i + 16) == spec_encode_ptr(ps[i]),
    decreases ps.len(),
{
    lemma_encode_ptrs_len(ps);
    if i == ps.len() - 1 {
        lemma_encode_ptrs_len(ps.drop_last());
        assert(spec_encode_ptrs(ps).subrange(16 * i, 16 * i + 16) =~= spec_encode_ptr(ps[i]));
    } else {
        lemma_encode_ptrs_index(ps.drop_last(), i);
        assert(spec_encode_ptrs(ps).subrange(16 * i, 16 * i + 16) =~= spec_encode_ptrs(
            ps.drop_last(),
        ).subrange(16 * i, 16 * i + 16));
    }
}

/// The footer encoding: the pointers, then the count.
pub open spec fn spec_encode_footer(ps: Seq<BlockPointer>) -> Seq<u8>
    recommends
        ps.len() <= 0xffff,
{
    spec_encode_ptrs(ps) + spec_be16(ps.len() as u16)
}

/// Parses a footer from its exact byte region: the trailing two bytes
/// give the pointer count, which must account for every preceding byte.
pub open spec fn spec_parse_footer(d: Seq<u8>) -> Option<Seq<BlockPointer>> {
    if d.len() >= 2 {
        let m = spec_be16_val(d[d.len() - 2], d[d.len() - 1]) as int;
        if d.len() == 16 * m + 2 {
            Some(
                Seq::new(
                    m as nat,
                    |i: int|
                        BlockPointer(
                            spec_be64_val(d.subrange(16 * i, 16 * i + 8)),
                            spec_be64_val(d.subrange(16 * i + 8, 16 * i + 16)),
                        ),
                ),
            )
        } else {
            None
        }
    } else {
        None
    }
}

/// Round-trip of the footer codec.
pub proof fn lemma_footer_round_trip(ps: Seq<BlockPointer>)
    requires
        ps.len() <= 0xffff,
    ensures
        spec_parse_footer(spec_encode_footer(ps)) == Some(ps),
{
    let d = spec_encode_footer(ps);
    lemma_encode_ptrs_len(ps);
    crate::codec::lemma_be16_round_trip(ps.len() as u16);
    assert(d[d.len() - 2] == spec_be16(ps.len() as u16)[0]);
    assert(d[d.len() - 1] == spec_be16(ps.len() as u16)[1]);
    let m = ps.len() as int;
    assert(spec_be16_val(d[d.len() - 2], d[d.len() - 1]) == m);
    let parsed = spec_parse_footer(d).unwrap();
    assert forall|i: int| 0 <= i < m implies parsed[i] == ps[i] by {
        lemma_encode_ptrs_index(ps, i);
        lemma_ptr_round_trip(ps[i]);
        assert(d.subrange(16 * i, 16 * i + 8) =~= spec_encode_ptrs(ps).subrange(
            16 * i,
            16 * i + 16,
        ).subrange(0, 8));
        assert(d.subrange(16 * i + 8, 16 * i + 16) =~= spec_encode_ptrs(ps).subrange(
            16 * i,
            16 * i + 16,
        ).subrange(8, 16));
        assert(spec_encode_ptr(ps[i]).subrange(0, 8) =~= spec_be64(ps[i].0));
        assert(spec_encode_ptr(ps[i]).subrange(8, 16) =~= spec_be64(ps[i].1));
        crate::codec::lemma_be64_round_trip(ps[i].0);
        crate::codec::lemma_be64_round_trip(ps[i].1);
    }
    assert(parsed =~= ps);
}

impl Footer {
    /// Encodes the footer.
    pub fn encode(&self) -> (r: Vec<u8>)
        requires
            self.index_block_pointers@.len() <= 0xffff,
            self.num_of_index_block == self.index_block_pointers@.len(),
        ensures
            r@ == spec_encode_footer(self.index_block_pointers@),
    {
        let ghost ps = self.index_block_pointers@;
        let n = self.index_block_pointers.len();
        let mut buf: Vec<u8> = Vec::new();
        let mut i: usize = 0;
        proof {
            assert(ps.take(0) =~= Seq::empty());
            assert(buf@ =~= spec_encode_ptrs(ps.take(0)));
        }
        while i < n
            invariant
                i <= n,
                n == ps.len(),
                ps == self.index_block_pointers@,
                buf@ == spec_encode_ptrs(ps.take(i as int)),
            decreases n - i,
        {
            let p = self.index_block_pointers[i];
            proof {
                let t = ps.take(i + 1);
                assert(t.drop_last() =~= ps.take(i as int));
                assert(t.last() == ps[i as int]);
            }
            put_be64(&mut buf, p.0);
            put_be64(&mut buf, p.1);
            proof {
                assert(buf@ =~= spec_encode_ptrs(ps.take(i + 1)));
            }
            i = i + 1;
        }
        proof {
            assert(ps.take(n as int) =~= ps);
        }
        put_be16(&mut buf, n as u16);
        buf
    }

    /// Decodes a footer from its exact byte region.
    pub fn decode(raw: &[u8]) -> (r: Result<Footer, Error>)
        ensures
            match r {
                Ok(f) => spec_parse_footer(raw@) == Some(f.index_block_pointers@)
                    && f.num_of_index_block == f.index_block_pointers@.len(),
                Err(e) => spec_parse_footer(raw@) is None && e == Error::Corruption,
            },
    {
        let n = raw.len();
        if n < 2 {
            return Err(Error::Corruption);
        }
        let m = read_be16(raw, n - 2) as usize;
        if n - 2 != 16 * m {
            return Err(Error::Corruption);
        }
        let ghost ps = spec_parse_footer(raw@).unwrap();
        let mut pointers: Vec<BlockPointer> = Vec::new();
        let mut i: usize = 0;
        while i < m
            invariant
                i <= m,
                n == raw@.len(),
                n - 2 == 16 * m,
                spec_parse_footer(raw@) == Some(ps),
                ps.len() == m,
                pointers@.len() == i,
                forall|j: int| 0 <= j < i ==> pointers@[j] == ps[j],
            decreases m - i,
        {
            let off = crate::codec::read_be64(raw, 16 * i);
            let len = crate::codec::read_be64(raw, 16 * i + 8);
            proof {
                assert(raw@.subrange(16 * i as int + 8, 16 * i as int + 16) =~= raw@.subrange(
                    (16 * i + 8) as int,
                    (16 * i + 8) + 8,
                ));
            }
            pointers.push(BlockPointer(off, len));
            i = i + 1;
        }
        proof {
            assert(pointers@ =~= ps);
        }
        Ok(Footer { num_of_index_block: m, index_block_pointers: pointers })
    }
}

/// The block stored at `p`, parsed from the file bytes; `None` when the
/// pointer leaves the file or the bytes are not a well-formed block.
pub open spec fn spec_block_at(file: Seq<u8>, p: BlockPointer) -> Option<Seq<(Seq<u8>, Seq<u8>)>> {
    if p.0 + p.1 <= file.len() {
        spec_parse_block(file.subrange(p.0 as int, p.0 + p.1))
    } else {
        None
    }
}

/// The entries of the block at `p`, empty when it does not parse.
pub open spec fn spec_block_entries_of(file: Seq<u8>, p: BlockPointer) -> Seq<(Seq<u8>, Seq<u8>)> {
    match spec_block_at(file, p) {
        Some(s) => s,
        None => Seq::empty(),
    }
}

/// The index records an index block's entries carry: each value must be
/// an encoded block pointer.
pub open spec fn spec_records_of_entries(entries: Seq<(Seq<u8>, Seq<u8>)>) -> Option<
    Seq<(Seq<u8>, BlockPointer)>,
> {
    if forall|i: int| 0 <= i < entries.len() ==> spec_parse_ptr((#[trigger] entries[i]).1) is Some {
        Some(
            Seq::new(
                entries.len(),
                |i: int| (entries[i].0, spec_parse_ptr(entries[i].1).unwrap()),
            ),
        )
    } else {
        None
    }
}

/// The index records of the index block at `p`.
pub open spec fn spec_index_block_records(file: Seq<u8>, p: BlockPointer) -> Option<
    Seq<(Seq<u8>, BlockPointer)>,
> {
    match spec_block_at(file, p) {
        Some(entries) => spec_records_of_entries(entries),
        None => None,
    }
}

/// The concatenated records of the index blocks at `ptrs`, in order.
pub open spec fn spec_parse_index_blocks(file: Seq<u8>, ptrs: Seq<BlockPointer>) -> Option<
    Seq<(Seq<u8>, BlockPointer)>,
>
    decreases ptrs.len(),
{
    if ptrs.len() == 0 {
        Some(Seq::empty())
    } else {
        match spec_parse_index_blocks(file, ptrs.drop_last()) {
            Some(pre) => match spec_index_block_records(file, ptrs.last()) {
                Some(recs) => Some(pre + recs),
                None => None,
            },
            None => None,
        }
    }
}

/// Opening an SSTable file: the trailing two bytes give the index-block
/// count, the footer region before them gives their locations, and the
/// index blocks give the flattened record list.
pub open spec fn spec_open(file: Seq<u8>) -> Option<Seq<(Seq<u8>, BlockPointer)>> {
    if file.len() >= 2 {
        let m = spec_be16_val(file[file.len() - 2], file[file.len() - 1]) as int;
        if file.len() >= 16 * m + 2 {
            match spec_parse_footer(file.subrange(file.len() - (16 * m + 2), file.len() as int)) {
                Some(ptrs) => spec_parse_index_blocks(file, ptrs),
                None => None,
            }
        } else {
            None
        }
    } else {
        None
    }
}

/// Record `i` of the index is sound: it points at a well-formed,
/// non-empty data block inside the file, the block's last key is the
/// record's key, and the block's first key lies strictly after the
/// previous record's key.
pub open spec fn sst_rec_wf(file: Seq<u8>, recs: Seq<(Seq<u8>, BlockPointer)>, i: int) -> bool {
    let b = spec_block_at(file, recs[i].1);
    &&& b is Some
    &&& b.unwrap().len() > 0
    &&& b.unwrap()[b.unwrap().len() - 1].0 == recs[i].0
    &&& (i > 0 ==> lex_lt(recs[i - 1].0, b.unwrap()[0].0))
}

/// Each index record points at a well-formed, non-empty data block whose
/// last key is the record's key, and whose first key lies strictly after
/// the previous record's key.
pub open spec fn sst_index_wf(file: Seq<u8>, recs: Seq<(Seq<u8>, BlockPointer)>) -> bool {
    forall|i: int| 0 <= i < recs.len() ==> #[trigger] sst_rec_wf(file, recs, i)
}

/// The record keys strictly ascend.
pub open spec fn recs_sorted(recs: Seq<(Seq<u8>, BlockPointer)>) -> bool {
    forall|i: int, j: int|
        0 <= i < j < recs.len() ==> lex_lt((#[trigger] recs[i]).0, (#[trigger] recs[j]).0)
}

/// A consistent table layout: the index is sound and sorted.
pub open spec fn sst_wf(file: Seq<u8>, recs: Seq<(Seq<u8>, BlockPointer)>) -> bool {
    sst_index_wf(file, recs) && recs_sorted(recs)
}

/// The entries of the whole table: the data blocks' entries, in index
/// order.
pub open spec fn spec_table_entries(file: Seq<u8>, recs: Seq<(Seq<u8>, BlockPointer)>) -> Seq<
    (Seq<u8>, Seq<u8>),
>
    decreases recs.len(),
{
    if recs.len() == 0 {
        Seq::empty()
    } else {
        spec_table_entries(file, recs.drop_last()) + spec_block_entries_of(
            file,
            recs.last().1,
        )
    }
}

/// A sound index restricted to its first records is still sound.
proof fn lemma_wf_drop_last(file: Seq<u8>, recs: Seq<(Seq<u8>, BlockPointer)>)
    requires
        sst_wf(file, recs),
        recs.len() > 0,
    ensures
        sst_wf(file, recs.drop_last()),
{
    let pre = recs.drop_last();
    assert(forall|i: int| 0 <= i < pre.len() ==> #[trigger] pre[i] == recs[i]);
    assert forall|i: int| 0 <= i < pre.len() implies #[trigger] sst_rec_wf(file, pre, i) by {
        assert(sst_rec_wf(file, recs, i));
    }
}

/// Every key of the data block at record `b` is at most the record's
/// key, and past the previous record's key.
pub proof fn lemma_block_key_range(
    file: Seq<u8>,
    recs: Seq<(Seq<u8>, BlockPointer)>,
    b: int,
    j: int,
)
    requires
        sst_wf(file, recs),
        0 <= b < recs.len(),
        0 <= j < spec_block_entries_of(file, recs[b].1).len(),
    ensures
        lex_le(spec_block_entries_of(file, recs[b].1)[j].0, recs[b].0),
        b > 0 ==> lex_lt(recs[b - 1].0, spec_block_entries_of(file, recs[b].1)[j].0),
{
    let blk = spec_block_entries_of(file, recs[b].1);
    assert(sst_rec_wf(file, recs, b));
    assert(entries_sorted(blk));
    lemma_block_key_bounds(blk, j);
    if b > 0 {
        assert(lex_lt(recs[b - 1].0, blk[0].0));
        if j > 0 {
            assert(lex_lt(blk[0].0, blk[j].0));
            lemma_lex_lt_transitive(recs[b - 1].0, blk[0].0, blk[j].0);
        }
    }
}

/// The table's entries are sorted, and all their keys are at most the
/// last record's key.
pub proof fn lemma_table_sorted(file: Seq<u8>, recs: Seq<(Seq<u8>, BlockPointer)>)
    requires
        sst_wf(file, recs),
    ensures
        entries_sorted(spec_table_entries(file, recs)),
        forall|i: int|
            0 <= i < spec_table_entries(file, recs).len() ==> recs.len() > 0 && lex_le(
                (#[trigger] spec_table_entries(file, recs)[i]).0,
                recs[recs.len() - 1].0,
            ),
    decreases recs.len(),
{
    if recs.len() > 0 {
        let pre = recs.drop_last();
        let flatp = spec_table_entries(file, pre);
        let blk = spec_block_entries_of(file, recs.last().1);
        let flat = spec_table_entries(file, recs);
        lemma_wf_drop_last(file, recs);
        lemma_table_sorted(file, pre);
        assert(sst_rec_wf(file, recs, recs.len() - 1));
        assert(entries_sorted(blk));
        assert forall|i: int| 0 <= i < flat.len() implies lex_le(
            (#[trigger] flat[i]).0,
            recs[recs.len() - 1].0,
        ) by {
            if i < flatp.len() {
                assert(flat[i] == flatp[i]);
                assert(lex_le(flatp[i].0, pre[pre.len() - 1].0));
                assert(lex_lt(recs[recs.len() - 2].0, recs[recs.len() - 1].0));
                if flatp[i].0 == pre[pre.len() - 1].0 {
                } else {
                    lemma_lex_lt_transitive(
                        flatp[i].0,
                        recs[recs.len() - 2].0,
                        recs[recs.len() - 1].0,
                    );
                }
            } else {
                assert(flat[i] == blk[i - flatp.len()]);
                lemma_block_key_range(file, recs, recs.len() - 1, i - flatp.len());
            }
        }
        assert forall|i: int, j: int| 0 <= i < j < flat.len() implies lex_lt(
            (#[trigger] flat[i]).0,
            (#[trigger] flat[j]).0,
        ) by {
            if j < flatp.len() {
                assert(flat[i] == flatp[i] && flat[j] == flatp[j]);
                assert(lex_lt(flatp[i].0, flatp[j].0));
            } else if i >= flatp.len() {
                assert(flat[i] == blk[i - flatp.len()] && flat[j] == blk[j - flatp.len()]);
                assert(lex_lt(blk[i - flatp.len()].0, blk[j - flatp.len()].0));
            } else {
                assert(flat[i] == flatp[i] && flat[j] == blk[j - flatp.len()]);
                assert(lex_le(flatp[i].0, pre[pre.len() - 1].0));
                lemma_block_key_range(file, recs, recs.len() - 1, j - flatp.len());
                assert(lex_lt(recs[recs.len() - 2].0, blk[j - flatp.len()].0));
                if flatp[i].0 == recs[recs.len() - 2].0 {
                } else {
                    lemma_lex_lt_transitive(
                        flatp[i].0,
                        recs[recs.len() - 2].0,
                        blk[j - flatp.len()].0,
                    );
                }
            }
        }
    }
}

/// The table holds a pair exactly when one of its data blocks does.
pub proof fn lemma_table_contains_pair(
    file: Seq<u8>,
    recs: Seq<(Seq<u8>, BlockPointer)>,
    k: Seq<u8>,
    v: Seq<u8>,
)
    ensures
        spec_contains_pair(spec_table_entries(file, recs), k, v) <==> exists|b: int|
            0 <= b < recs.len() && spec_contains_pair(
                spec_block_entries_of(file, (#[trigger] recs[b]).1),
                k,
                v,
            ),
    decreases recs.len(),
{
    let flat = spec_table_entries(file, recs);
    if recs.len() == 0 {
        assert(!spec_contains_pair(flat, k, v)) by {
            assert(flat.len() == 0);
        }
    } else {
        let pre = recs.drop_last();
        let flatp = spec_table_entries(file, pre);
        let blk = spec_block_entries_of(file, recs.last().1);
        lemma_table_contains_pair(file, pre, k, v);
        crate::blocks::lemma_contains_pair_append(flatp, blk, k, v);
        assert(forall|b: int| 0 <= b < pre.len() ==> #[trigger] pre[b] == recs[b]);
        if spec_contains_pair(flat, k, v) {
            if spec_contains_pair(flatp, k, v) {
                let b = choose|b: int|
                    0 <= b < pre.len() && spec_contains_pair(
                        spec_block_entries_of(file, (#[trigger] pre[b]).1),
                        k,
                        v,
                    );
                assert(spec_contains_pair(
                    spec_block_entries_of(file, (recs[b]).1),
                    k,
                    v,
                ));
            } else {
                assert(spec_contains_pair(
                    spec_block_entries_of(file, (recs[recs.len() - 1]).1),
                    k,
                    v,
                ));
            }
        }
        if exists|b: int|
            0 <= b < recs.len() && spec_contains_pair(
                spec_block_entries_of(file, (#[trigger] recs[b]).1),
                k,
                v,
            ) {
            let b = choose|b: int|
                0 <= b < recs.len() && spec_contains_pair(
                    spec_block_entries_of(file, (#[trigger] recs[b]).1),
                    k,
                    v,
                );
            if b < recs.len() - 1 {
                assert(spec_contains_pair(
                    spec_block_entries_of(file, (pre[b]).1),
                    k,
                    v,
                ));
            }
        }
    }
}

/// Looking a key up in the table is looking it up in the one data block
/// whose key range covers it: the block binary search dispatches to.
#[verifier::rlimit(60)]
pub proof fn lemma_table_dispatch(
    file: Seq<u8>,
    recs: Seq<(Seq<u8>, BlockPointer)>,
    key: Seq<u8>,
    b: int,
)
    requires
        sst_wf(file, recs),
        0 <= b < recs.len(),
        lex_le(key, recs[b].0),
        b > 0 ==> lex_lt(recs[b - 1].0, key),
    ensures
        spec_lookup(spec_table_entries(file, recs), key) == spec_lookup(
            spec_block_entries_of(file, recs[b].1),
            key,
        ),
        spec_contains_key(spec_table_entries(file, recs), key) == spec_contains_key(
            spec_block_entries_of(file, recs[b].1),
            key,
        ),
{
    let flat = spec_table_entries(file, recs);
    let blk = spec_block_entries_of(file, recs[b].1);
    lemma_table_sorted(file, recs);
    assert(sst_rec_wf(file, recs, b));
    assert(entries_sorted(blk));
    if spec_contains_key(blk, key) {
        let j = choose|j: int| 0 <= j < blk.len() && (#[trigger] blk[j]).0 == key;
        let v = blk[j].1;
        assert(spec_contains_pair(blk, key, v)) by {
            assert(blk[j] == (key, v));
        }
        crate::blocks::lemma_sorted_lookup(blk, key, v);
        lemma_table_contains_pair(file, recs, key, v);
        crate::blocks::lemma_sorted_lookup(flat, key, v);
    } else {
        if spec_contains_key(flat, key) {
            let i = choose|i: int| 0 <= i < flat.len() && (#[trigger] flat[i]).0 == key;
            let v = flat[i].1;
            assert(spec_contains_pair(flat, key, v)) by {
                assert(flat[i] == (key, v));
            }
            lemma_table_contains_pair(file, recs, key, v);
            let b2 = choose|b2: int|
                0 <= b2 < recs.len() && spec_contains_pair(
                    spec_block_entries_of(file, (#[trigger] recs[b2]).1),
                    key,
                    v,
                );
            let blk2 = spec_block_entries_of(file, recs[b2].1);
            let j2 = choose|j2: int| 0 <= j2 < blk2.len() && #[trigger] blk2[j2] == (key, v);
            lemma_block_key_range(file, recs, b2, j2);
            if b2 == b {
                assert(spec_contains_key(blk, key)) by {
                    assert((blk[j2]).0 == key);
                }
            } else if b2 < b {
                assert(lex_le(key, recs[b2].0));
                if b2 < b - 1 {
                    assert(lex_lt(recs[b2].0, recs[b - 1].0));
                    crate::keys::lemma_lex_le_lt_transitive(key, recs[b2].0, recs[b - 1].0);
                }
                crate::keys::lemma_lex_le_lt_transitive(key, recs[b - 1].0, key);
                crate::keys::lemma_lex_irreflexive(key);
            } else {
                assert(lex_lt(recs[b2 - 1].0, key));
                if b < b2 - 1 {
                    assert(lex_lt(recs[b].0, recs[b2 - 1].0));
                    crate::keys::lemma_lex_le_lt_transitive(key, recs[b].0, recs[b2 - 1].0);
                }
                crate::keys::lemma_lex_le_lt_transitive(key, recs[b2 - 1].0, key);
                crate::keys::lemma_lex_irreflexive(key);
            }
            assert(false);
        }
        assert(spec_lookup(flat, key) is None);
        assert(spec_lookup(blk, key) is None);
    }
}

/// Adjacent ascending record keys imply the full sorted invariant.
proof fn lemma_adjacent_recs_sorted(recs: Seq<(Seq<u8>, BlockPointer)>)
    requires
        forall|i: int| 0 < i < recs.len() ==> lex_lt((#[trigger] recs[i - 1]).0, recs[i].0),
    ensures
        recs_sorted(recs),
{
    assert forall|i: int, j: int| 0 <= i < j < recs.len() implies lex_lt(
        (#[trigger] recs[i]).0,
        (#[trigger] recs[j]).0,
    ) by {
        lemma_recs_lt_span(recs, i, j);
    }
}

proof fn lemma_recs_lt_span(recs: Seq<(Seq<u8>, BlockPointer)>, i: int, j: int)
    requires
        forall|m: int| 0 < m < recs.len() ==> lex_lt((#[trigger] recs[m - 1]).0, recs[m].0),
        0 <= i < j < recs.len(),
    ensures
        lex_lt(recs[i].0, recs[j].0),
    decreases j - i,
{
    assert(lex_lt(recs[j - 1].0, recs[j].0));
    if i + 1 < j {
        lemma_recs_lt_span(recs, i, j - 1);
        lemma_lex_lt_transitive(recs[i].0, recs[j - 1].0, recs[j].0);
    }
}

/// One more index block extends the parsed records by that block's
/// records — or poisons the whole parse if it does not read back.
proof fn lemma_parse_index_blocks_take_step(file: Seq<u8>, ptrs: Seq<BlockPointer>, i: int)
    requires
        0 <= i < ptrs.len(),
    ensures
        spec_parse_index_blocks(file, ptrs.take(i + 1)) == (match spec_parse_index_blocks(
            file,
            ptrs.take(i),
        ) {
            Some(pre) => match spec_index_block_records(file, ptrs[i]) {
                Some(r) => Some(pre + r),
                None => None::<Seq<(Seq<u8>, BlockPointer)>>,
            },
            None => None,
        }),
{
    let t = ptrs.take(i + 1);
    assert(t.drop_last() =~= ptrs.take(i));
    assert(t.last() == ptrs[i]);
}

/// A failed prefix fails the whole index parse.
proof fn lemma_parse_index_blocks_prefix_none(file: Seq<u8>, ptrs: Seq<BlockPointer>, i: int)
    requires
        0 <= i <= ptrs.len(),
        spec_parse_index_blocks(file, ptrs.take(i)) is None,
    ensures
        spec_parse_index_blocks(file, ptrs) is None,
    decreases ptrs.len() - i,
{
    if i == ptrs.len() {
        assert(ptrs.take(i) =~= ptrs);
    } else {
        lemma_parse_index_blocks_take_step(file, ptrs, i);
        lemma_parse_index_blocks_prefix_none(file, ptrs, i + 1);
    }
}

/// The concatenation of per-block record lists.
pub open spec fn concat_recs(chunks: Seq<Seq<(Seq<u8>, BlockPointer)>>) -> Seq<
    (Seq<u8>, BlockPointer),
>
    decreases chunks.len(),
{
    if chunks.len() == 0 {
        Seq::empty()
    } else {
        concat_recs(chunks.drop_last()) + chunks.last()
    }
}

/// When every index block reads back, the index parse is their records,
/// concatenated.
proof fn lemma_parse_index_blocks_all_some(
    file: Seq<u8>,
    ptrs: Seq<BlockPointer>,
    chunks: Seq<Seq<(Seq<u8>, BlockPointer)>>,
)
    requires
        chunks.len() == ptrs.len(),
        forall|i: int|
            0 <= i < ptrs.len() ==> spec_index_block_records(file, #[trigger] ptrs[i]) == Some(
                chunks[i],
            ),
    ensures
        spec_parse_index_blocks(file, ptrs) == Some(concat_recs(chunks)),
    decreases ptrs.len(),
{
    if ptrs.len() > 0 {
        let pp = ptrs.drop_last();
        let cp = chunks.drop_last();
        assert(forall|i: int| 0 <= i < pp.len() ==> #[trigger] pp[i] == ptrs[i]);
        assert(forall|i: int| 0 <= i < cp.len() ==> #[trigger] cp[i] == chunks[i]);
        lemma_parse_index_blocks_all_some(file, pp, cp);
    }
}

/// When every record's data block reads back as a given entry list, the
/// table's entries are those lists, concatenated.
proof fn lemma_table_entries_of_chunks(
    file: Seq<u8>,
    recs: Seq<(Seq<u8>, BlockPointer)>,
    chunks: Seq<Seq<(Seq<u8>, Seq<u8>)>>,
)
    requires
        chunks.len() == recs.len(),
        forall|i: int|
            0 <= i < recs.len() ==> spec_block_entries_of(file, (#[trigger] recs[i]).1)
                == chunks[i],
    ensures
        spec_table_entries(file, recs) == crate::blocks::concat_entry_chunks(chunks),
    decreases recs.len(),
{
    if recs.len() > 0 {
        let rp = recs.drop_last();
        let cp = chunks.drop_last();
        assert(forall|i: int| 0 <= i < rp.len() ==> #[trigger] rp[i] == recs[i]);
        assert(forall|i: int| 0 <= i < cp.len() ==> #[trigger] cp[i] == chunks[i]);
        lemma_table_entries_of_chunks(file, rp, cp);
    }
}

/// An immutable sorted run: the in-memory copy of one SSTable file, with
/// its flattened sparse index.
///
/// The spec view of a table is the full entry sequence of its data
/// blocks, in key order.
pub struct SSTable {
    file: Vec<u8>,
    indexes: Vec<IndexBlockRecord>,
    seq: u64,
}

impl View for SSTable {
    type V = Seq<(Seq<u8>, Seq<u8>)>;

    closed spec fn view(&self) -> Seq<(Seq<u8>, Seq<u8>)> {
        spec_table_entries(self.file@, recs_view(self.indexes@))
    }
}

impl SSTable {
    /// The bytes of the backing file.
    pub closed spec fn file_view(&self) -> Seq<u8> {
        self.file@
    }

    /// The flattened index records, ascending by largest key.
    pub closed spec fn index(&self) -> Seq<(Seq<u8>, BlockPointer)> {
        recs_view(self.indexes@)
    }

    /// The sequence number the table's file is named after.
    pub closed spec fn seq_view(&self) -> u64 {
        self.seq
    }

    /// The table is consistent: its index is exactly what opening its
    /// file bytes yields, and the whole layout is sound.
    pub closed spec fn wf(&self) -> bool {
        &&& spec_open(self.file@) == Some(recs_view(self.indexes@))
        &&& sst_wf(self.file@, recs_view(self.indexes@))
    }

    /// Wraps an already-validated layout as a table.
    pub(crate) fn assemble(file: Vec<u8>, indexes: Vec<IndexBlockRecord>, seq: u64) -> (r: SSTable)
        requires
            spec_open(file@) == Some(recs_view(indexes@)),
            sst_wf(file@, recs_view(indexes@)),
        ensures
            r.wf(),
            r.file_view() == file@,
            r.index() == recs_view(indexes@),
            r.seq_view() == seq,
            r@ == spec_table_entries(file@, recs_view(indexes@)),
    {
        SSTable { file, indexes, seq }
    }

    /// The sequence number of the table.
    pub fn seq_num(&self) -> (r: u64)
        ensures
            r == self.seq_view(),
    {
        self.seq
    }

    /// The bytes of the backing file, for the embedding program to
    /// persist.
    pub fn file_bytes(&self) -> (r: &Vec<u8>)
        ensures
            r@ == self.file_view(),
    {
        &self.file
    }

    /// The number of index records.
    pub fn index_len(&self) -> (r: usize)
        ensures
            r == self.index().len(),
    {
        self.indexes.len()
    }

    /// The index record at `i`.
    pub fn index_record(&self, i: usize) -> (r: &IndexBlockRecord)
        requires
            i < self.index().len(),
        ensures
            r@ == self.index()[i as int],
    {
        &self.indexes[i]
    }

    /// Opens a table from the bytes of an SSTable file named by `seq`.
    ///
    /// Reads the index-block count from the last two bytes, the footer
    /// region before it, then every index block, and validates the whole
    /// layout: every pointer in bounds, every data block well formed and
    /// non-empty, largest keys as recorded, keys ascending across blocks.
    /// Fails with `Corruption` exactly when the bytes are no such file.
    #[verifier::loop_isolation(false)]
    #[verifier::rlimit(60)]
    pub fn open(seq: u64, file: Vec<u8>) -> (r: Result<SSTable, Error>)
        ensures
            match r {
                Ok(t) => {
                    &&& t.wf()
                    &&& t.file_view() == file@
                    &&& t.seq_view() == seq
                    &&& spec_open(file@) == Some(t.index())
                },
                Err(e) => {
                    &&& e == Error::Corruption
                    &&& (spec_open(file@) is None || !sst_wf(file@, spec_open(file@).unwrap()))
                },
            },
    {
        let n = file.len();
        if n < 2 {
            return Err(Error::Corruption);
        }
        let m = read_be16(file.as_slice(), n - 2) as usize;
        if n < 16 * m + 2 {
            return Err(Error::Corruption);
        }
        let fl = 16 * m + 2;
        let footer_region = slice_subrange(file.as_slice(), n - fl, n);
        let footer = match Footer::decode(footer_region) {
            Ok(f) => f,
            Err(_) => {
                return Err(Error::Corruption);
            },
        };
        let ghost ptrs = footer.index_block_pointers@;
        let num_ptrs = footer.index_block_pointers.len();
        let mut indexes: Vec<IndexBlockRecord> = Vec::new();
        let mut i: usize = 0;
        proof {
            assert(ptrs.take(0) =~= Seq::empty());
            assert(recs_view(indexes@) =~= Seq::empty());
        }
        while i < num_ptrs
            invariant
                i <= num_ptrs,
                spec_parse_index_blocks(file@, ptrs.take(i as int)) == Some(recs_view(indexes@)),
            decreases num_ptrs - i,
        {
            let p = footer.index_block_pointers[i];
            proof {
                lemma_parse_index_blocks_take_step(file@, ptrs, i as int);
            }
            if p.1 > n as u64 || p.0 > n as u64 - p.1 {
                proof {
                    lemma_parse_index_blocks_prefix_none(file@, ptrs, i + 1);
                }
                return Err(Error::Corruption);
            }
            let off = p.0 as usize;
            let blen = p.1 as usize;
            let region = slice_subrange(file.as_slice(), off, off + blen);
            let block = match Blocks::decode(region) {
                Ok(b) => b,
                Err(_) => {
                    proof {
                        lemma_parse_index_blocks_prefix_none(file@, ptrs, i + 1);
                    }
                    return Err(Error::Corruption);
                },
            };
            let ghost entries = block@;
            let ghost recs_before = recs_view(indexes@);
            let bl = block.len();
            let mut j: usize = 0;
            while j < bl
                invariant
                    j <= bl,
                    bl == entries.len(),
                    entries == block@,
                    spec_block_at(file@, ptrs[i as int]) == Some(entries),
                    recs_before == spec_parse_index_blocks(file@, ptrs.take(i as int)).unwrap(),
                    spec_parse_index_blocks(file@, ptrs.take(i as int)) == Some(recs_before),
                    indexes@.len() == recs_before.len() + j,
                    forall|jj: int|
                        0 <= jj < j ==> spec_parse_ptr((#[trigger] entries[jj]).1) is Some,
                    forall|jj: int|
                        0 <= jj < recs_before.len() ==> recs_view(indexes@)[jj] == recs_before[jj],
                    forall|jj: int|
                        0 <= jj < j ==> recs_view(indexes@)[recs_before.len() + jj] == (
                        entries[jj].0,
                        spec_parse_ptr(entries[jj].1).unwrap(),
                        ),
                decreases bl - j,
            {
                let value = block.value_at(j);
                let dp = match BlockPointer::decode(value) {
                    Ok(dp) => dp,
                    Err(_) => {
                        proof {
                            assert(spec_records_of_entries(entries) is None) by {
                                assert(spec_parse_ptr((entries[j as int]).1) is None);
                            }
                            lemma_parse_index_blocks_prefix_none(file@, ptrs, i + 1);
                        }
                        return Err(Error::Corruption);
                    },
                };
                let key = slice_to_vec(block.key_at(j));
                indexes.push(IndexBlockRecord { largest_key: key, data_block_pointer: dp });
                j = j + 1;
            }
            proof {
                let r = spec_records_of_entries(entries);
                assert(r is Some);
                assert(recs_view(indexes@) =~= recs_before + r.unwrap());
            }
            i = i + 1;
        }
        proof {
            assert(ptrs.take(num_ptrs as int) =~= ptrs);
        }
        let ghost recs = recs_view(indexes@);
        // The index parses back; now validate every data block against it.
        let count = indexes.len();
        let mut i: usize = 0;
        while i < count
            invariant
                i <= count,
                count == indexes@.len(),
                recs == recs_view(indexes@),
                spec_open(file@) == Some(recs),
                forall|ii: int| 0 <= ii < i ==> #[trigger] sst_rec_wf(file@, recs, ii),
                forall|ii: int| 0 < ii < i ==> lex_lt((#[trigger] recs[ii - 1]).0, recs[ii].0),
            decreases count - i,
        {
            let p = indexes[i].data_block_pointer;
            proof {
                assert(recs[i as int] == (indexes@[i as int].largest_key@,
                    indexes@[i as int].data_block_pointer));
            }
            if p.1 > n as u64 || p.0 > n as u64 - p.1 {
                proof {
                    assert(!sst_rec_wf(file@, recs, i as int));
                }
                return Err(Error::Corruption);
            }
            let region = slice_subrange(file.as_slice(), p.0 as usize, p.0 as usize + p.1 as usize);
            let block = match Blocks::decode(region) {
                Ok(b) => b,
                Err(_) => {
                    proof {
                        assert(!sst_rec_wf(file@, recs, i as int));
                    }
                    return Err(Error::Corruption);
                },
            };
            if block.len() == 0 {
                proof {
                    assert(!sst_rec_wf(file@, recs, i as int));
                }
                return Err(Error::Corruption);
            }
            if !key_eq(block.largest_key(), indexes[i].largest_key.as_slice()) {
                proof {
                    assert(!sst_rec_wf(file@, recs, i as int));
                }
                return Err(Error::Corruption);
            }
            if i > 0 {
                proof {
                    assert(recs[i - 1] == (indexes@[i - 1].largest_key@,
                        indexes@[i - 1].data_block_pointer));
                }
                if !key_lt(indexes[i - 1].largest_key.as_slice(), block.smallest_key()) {
                    proof {
                        assert(!sst_rec_wf(file@, recs, i as int));
                    }
                    return Err(Error::Corruption);
                }
                proof {
                    crate::blocks::lemma_block_key_bounds(block@, 0);
                    crate::keys::lemma_lex_lt_le_transitive(
                        recs[i - 1].0,
                        block@[0].0,
                        block@[block@.len() - 1].0,
                    );
                }
            }
            proof {
                assert(sst_rec_wf(file@, recs, i as int));
            }
            i = i + 1;
        }
        proof {
            lemma_adjacent_recs_sorted(recs);
        }
        Ok(SSTable { file, indexes, seq })
    }

    /// Reads and decodes the data block of index record `i`.
    pub fn read_data_block(&self, i: usize) -> (r: Blocks)
        requires
            self.wf(),
            i < self.index().len(),
        ensures
            r@ == spec_block_entries_of(self.file_view(), self.index()[i as int].1),
            r@.len() > 0,
            entries_sorted(r@),
            r@[r@.len() - 1].0 == self.index()[i as int].0,
    {
        let ghost recs = recs_view(self.indexes@);
        proof {
            assert(sst_rec_wf(self.file@, recs, i as int));
            assert(recs[i as int] == (self.indexes@[i as int].largest_key@,
                self.indexes@[i as int].data_block_pointer));
        }
        let p = self.indexes[i].data_block_pointer;
        let flen = self.file.len();
        proof {
            assert(p.0 + p.1 <= flen);
        }
        let region = slice_subrange(
            self.file.as_slice(),
            p.0 as usize,
            p.0 as usize + p.1 as usize,
        );
        match Blocks::decode(region) {
            Ok(blk) => blk,
            Err(_) => {
                proof {
                    assert(false);
                }
                vstd::pervasive::unreached()
            },
        }
    }

    /// Looks `key` up: binary search over the index for the first record
    /// whose largest key is at least `key`, then binary search inside
    /// that one data block.  Returns the stored value on an exact match
    /// and fails with `KeyNotFound` exactly when no entry has the key.
    #[verifier::loop_isolation(false)]
    pub fn get(&self, key: &[u8]) -> (r: Result<Vec<u8>, Error>)
        requires
            self.wf(),
        ensures
            match r {
                Ok(v) => spec_lookup(self@, key@) == Some(v@),
                Err(e) => e == Error::KeyNotFound && !spec_contains_key(self@, key@),
            },
    {
        let ghost recs = recs_view(self.indexes@);
        let count = self.indexes.len();
        let mut lo: usize = 0;
        let mut hi: usize = count;
        while lo < hi
            invariant
                0 <= lo <= hi <= count,
                forall|i: int| 0 <= i < lo ==> lex_lt((#[trigger] recs[i]).0, key@),
                forall|i: int| hi <= i < count ==> lex_le(key@, (#[trigger] recs[i]).0),
            decreases hi - lo,
        {
            let mid = lo + (hi - lo) / 2;
            proof {
                assert(recs[mid as int] == (self.indexes@[mid as int].largest_key@,
                    self.indexes@[mid as int].data_block_pointer));
            }
            if key_lt(self.indexes[mid].largest_key.as_slice(), key) {
                proof {
                    assert forall|i: int| 0 <= i < mid + 1 implies lex_lt(
                        (#[trigger] recs[i]).0,
                        key@,
                    ) by {
                        if i < mid {
                            assert(lex_lt(recs[i].0, recs[mid as int].0));
                            lemma_lex_lt_transitive(recs[i].0, recs[mid as int].0, key@);
                        }
                    }
                }
                lo = mid + 1;
            } else {
                proof {
                    lemma_lex_trichotomy(recs[mid as int].0, key@);
                    assert forall|i: int| mid <= i < count implies lex_le(
                        key@,
                        (#[trigger] recs[i]).0,
                    ) by {
                        if i > mid {
                            assert(lex_lt(recs[mid as int].0, recs[i].0));
                            crate::keys::lemma_lex_le_lt_transitive(
                                key@,
                                recs[mid as int].0,
                                recs[i].0,
                            );
                        }
                    }
                }
                hi = mid;
            }
        }
        if lo == count {
            // Every record key is below `key`: the key is past the table.
            proof {
                lemma_table_sorted(self.file@, recs);
                assert forall|i: int| 0 <= i < self@.len() implies (#[trigger] self@[i]).0
                    != key@ by {
                    assert(lex_le(self@[i].0, recs[recs.len() - 1].0));
                    assert(lex_lt(recs[recs.len() - 1].0, key@));
                    crate::keys::lemma_lex_le_lt_transitive(self@[i].0, recs[recs.len() - 1].0, key@);
                    lemma_lex_trichotomy(self@[i].0, key@);
                }
            }
            return Err(Error::KeyNotFound);
        }
        let b = lo;
        proof {
            assert(sst_rec_wf(self.file@, recs, b as int));
            assert(recs[b as int] == (self.indexes@[b as int].largest_key@,
                self.indexes@[b as int].data_block_pointer));
            lemma_table_dispatch(self.file@, recs, key@, b as int);
        }
        let p = self.indexes[b].data_block_pointer;
        let flen = self.file.len();
        proof {
            assert(p == recs[b as int].1);
            assert(spec_block_at(self.file@, p) is Some);
            assert(p.0 + p.1 <= flen);
        }
        let region = slice_subrange(
            self.file.as_slice(),
            p.0 as usize,
            p.0 as usize + p.1 as usize,
        );
        let block = match Blocks::decode(region) {
            Ok(blk) => blk,
            Err(_) => {
                proof {
                    assert(false);
                }
                vstd::pervasive::unreached()
            },
        };
        proof {
            assert(block@ == spec_block_entries_of(self.file@, recs[b as int].1));
        }
        let mut iter = crate::blocks::iterator::BlockRecordIterator::new(
            std::sync::Arc::new(block),
        );
        if iter.seek_to_key(key) {
            let v = slice_to_vec(iter.value());
            proof {
                let blk = spec_block_entries_of(self.file@, recs[b as int].1);
                let pos = iter.pos();
                assert(spec_contains_pair(blk, key@, v@)) by {
                    assert(blk[pos] == (key@, v@));
                }
                crate::blocks::lemma_sorted_lookup(blk, key@, v@);
            }
            Ok(v)
        } else {
            Err(Error::KeyNotFound)
        }
    }
}

/// The number of table entries before the data block of record `b`.
pub open spec fn spec_flat_pos(file: Seq<u8>, recs: Seq<(Seq<u8>, BlockPointer)>, b: int) -> int {
    spec_table_entries(file, recs.take(b)).len() as int
}

/// One more data block extends the table's entries by that block's
/// entries.
pub proof fn lemma_flat_pos_step(file: Seq<u8>, recs: Seq<(Seq<u8>, BlockPointer)>, b: int)
    requires
        0 <= b < recs.len(),
    ensures
        spec_table_entries(file, recs.take(b + 1)) == spec_table_entries(file, recs.take(b))
            + spec_block_entries_of(file, recs[b].1),
        spec_flat_pos(file, recs, b + 1) == spec_flat_pos(file, recs, b)
            + spec_block_entries_of(file, recs[b].1).len(),
{
    let t = recs.take(b + 1);
    assert(t.drop_last() =~= recs.take(b));
    assert(t.last() == recs[b]);
}

/// The entries of the first `b` data blocks are a prefix of the table's
/// entries.
pub proof fn lemma_flat_prefix(file: Seq<u8>, recs: Seq<(Seq<u8>, BlockPointer)>, b: int)
    requires
        0 <= b <= recs.len(),
    ensures
        0 <= spec_flat_pos(file, recs, b) <= spec_table_entries(file, recs).len(),
        forall|i: int|
            0 <= i < spec_flat_pos(file, recs, b) ==> #[trigger] spec_table_entries(
                file,
                recs.take(b),
            )[i] == spec_table_entries(file, recs)[i],
    decreases recs.len() - b,
{
    if b == recs.len() {
        assert(recs.take(b) =~= recs);
    } else {
        lemma_flat_pos_step(file, recs, b);
        lemma_flat_prefix(file, recs, b + 1);
        assert forall|i: int| 0 <= i < spec_flat_pos(file, recs, b) implies #[trigger]
            spec_table_entries(file, recs.take(b))[i] == spec_table_entries(file, recs)[i] by {
            assert(spec_table_entries(file, recs.take(b + 1))[i] == spec_table_entries(
                file,
                recs.take(b),
            )[i]);
        }
    }
}

/// Entry `j` of data block `b` sits at flat position `b`'s offset plus
/// `j`.
pub proof fn lemma_flat_index(file: Seq<u8>, recs: Seq<(Seq<u8>, BlockPointer)>, b: int, j: int)
    requires
        0 <= b < recs.len(),
        0 <= j < spec_block_entries_of(file, recs[b].1).len(),
    ensures
        0 <= spec_flat_pos(file, recs, b) + j < spec_table_entries(file, recs).len(),
        spec_table_entries(file, recs)[spec_flat_pos(file, recs, b) + j]
            == spec_block_entries_of(file, recs[b].1)[j],
{
    lemma_flat_pos_step(file, recs, b);
    lemma_flat_prefix(file, recs, b);
    lemma_flat_prefix(file, recs, b + 1);
    assert(spec_table_entries(file, recs.take(b + 1))[spec_flat_pos(file, recs, b) + j]
        == spec_block_entries_of(file, recs[b].1)[j]);
}

/// All data blocks together hold exactly the table's entries.
pub proof fn lemma_flat_pos_total(file: Seq<u8>, recs: Seq<(Seq<u8>, BlockPointer)>)
    ensures
        spec_flat_pos(file, recs, recs.len() as int) == spec_table_entries(file, recs).len(),
{
    assert(recs.take(recs.len() as int) =~= recs);
}

/// A consistent table's entries are the entries of its layout: what the
/// table's view unfolds to, for reasoning that composes block access
/// with the flat entry sequence.
pub proof fn lemma_table_wf_facts(t: &SSTable)
    requires
        t.wf(),
    ensures
        sst_wf(t.file_view(), t.index()),
        t@ == spec_table_entries(t.file_view(), t.index()),
{
}

/// Reopening the same table bytes yields the same index records and the
/// same entries: opening is a function of the file alone.
pub proof fn lemma_reopen_same_index(t1: &SSTable, t2: &SSTable)
    requires
        t1.wf(),
        t2.wf(),
        t1.file_view() == t2.file_view(),
    ensures
        t1.index() == t2.index(),
        t1@ == t2@,
{
}

} // verus!
