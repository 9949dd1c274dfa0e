//! The SSTable builder: assembles data blocks, the sparse index, and the
//! footer, and lays the whole table out as one byte file.
//!
//! Entries arrive in strictly ascending key order and flow into a block
//! builder; when one would not fit its block, or the table would grow
//! past [`SSTABLE_SIZE_LIMIT`], the current block is sealed and the entry
//! is re-added — which always succeeds, since an empty block accepts any
//! first entry.  Building writes the sealed blocks in order, one index
//! block run over their largest keys, and the footer; the result is a
//! table whose bytes open back to exactly the accumulated entries.

use crate::blocks::{
    block_wf, entries_fit, entries_sorted, lemma_block_key_bounds, spec_block_size, BlockBuilder,
    Blocks,
};
use crate::codec::{entry_fits, spec_entry_len};
use crate::error::Error;
use crate::keys::lex_lt;
use crate::sstable::{
    concat_recs, recs_sorted, recs_view, spec_block_at, spec_encode_ptr,
    spec_index_block_records, sst_rec_wf, sst_wf, BlockPointer, Footer, IndexBlockRecord, SSTable,
};
use vstd::prelude::*;
use vstd::slice::slice_to_vec;

verus! {

/// The soft capacity of a whole table, in encoded data-block bytes.
pub const SSTABLE_SIZE_LIMIT: usize = 4 * 1024 * 1024;

/// The entries of a list of blocks, concatenated in order.
pub open spec fn blocks_entries(bs: Seq<Blocks>) -> Seq<(Seq<u8>, Seq<u8>)>
    decreases bs.len(),
{
    if bs.len() == 0 {
        Seq::empty()
    } else {
        blocks_entries(bs.drop_last()) + bs.last()@
    }
}

/// The summed encoded sizes of a list of blocks.
pub open spec fn spec_blocks_size(bs: Seq<Blocks>) -> int
    decreases bs.len(),
{
    if bs.len() == 0 {
        0
    } else {
        spec_blocks_size(bs.drop_last()) + spec_block_size(bs.last()@)
    }
}

/// Lists of blocks with the same entries hold the same data.
proof fn lemma_blocks_entries_congruent(a: Seq<Blocks>, b: Seq<Blocks>)
    requires
        a.len() == b.len(),
        forall|i: int| 0 <= i < a.len() ==> (#[trigger] a[i])@ == b[i]@,
    ensures
        blocks_entries(a) == blocks_entries(b),
        spec_blocks_size(a) == spec_blocks_size(b),
    decreases a.len(),
{
    if a.len() > 0 {
        assert(forall|i: int|
            0 <= i < a.len() - 1 ==> (#[trigger] a.drop_last()[i])@ == b.drop_last()[i]@);
        lemma_blocks_entries_congruent(a.drop_last(), b.drop_last());
    }
}

/// The entries of a block list, chunk by chunk.
proof fn lemma_blocks_entries_as_chunks(bs: Seq<Blocks>)
    ensures
        crate::blocks::concat_entry_chunks(Seq::new(bs.len(), |j: int| bs[j]@))
            == blocks_entries(bs),
    decreases bs.len(),
{
    let chunks = Seq::new(bs.len(), |j: int| bs[j]@);
    if bs.len() > 0 {
        lemma_blocks_entries_as_chunks(bs.drop_last());
        assert(chunks.drop_last() =~= Seq::new(bs.drop_last().len(), |j: int| bs.drop_last()[j]@));
        assert(chunks.last() == bs.last()@);
    } else {
        assert(chunks.len() == 0);
    }
}

/// Writes every block into `file`, in order, and returns one index
/// record per block: its largest key and its location.
#[verifier::loop_isolation(false)]
fn write_data_blocks(blocks: &Vec<Blocks>, file: &mut Vec<u8>) -> (indexes: Vec<IndexBlockRecord>)
    requires
        old(file)@.len() == 0,
        forall|j: int|
            0 <= j < blocks@.len() ==> block_wf((#[trigger] blocks@[j])@) && blocks@[j]@.len()
                > 0,
    ensures
        indexes@.len() == blocks@.len(),
        forall|j: int|
            0 <= j < blocks@.len() ==> (#[trigger] indexes@[j]).largest_key@
                == blocks@[j]@[blocks@[j]@.len() - 1].0,
        forall|j: int|
            0 <= j < blocks@.len() ==> {
                let p = (#[trigger] indexes@[j]).data_block_pointer;
                &&& p.0 + p.1 <= final(file)@.len()
                &&& final(file)@.subrange(p.0 as int, p.0 + p.1)
                    == crate::blocks::spec_encode_block(blocks@[j]@)
            },
{
    let kcount = blocks.len();
    let mut indexes: Vec<IndexBlockRecord> = Vec::new();
    let mut i: usize = 0;
    while i < kcount
        invariant
            i <= kcount,
            indexes@.len() == i,
            forall|j: int|
                0 <= j < i ==> (#[trigger] indexes@[j]).largest_key@
                    == blocks@[j]@[blocks@[j]@.len() - 1].0,
            forall|j: int|
                0 <= j < i ==> {
                    let p = (#[trigger] indexes@[j]).data_block_pointer;
                    &&& p.0 + p.1 <= file@.len()
                    &&& file@.subrange(p.0 as int, p.0 + p.1)
                        == crate::blocks::spec_encode_block(blocks@[j]@)
                },
        decreases kcount - i,
    {
        let b = &blocks[i];
        let mut buf = b.encode();
        let off = file.len() as u64;
        let blen = buf.len() as u64;
        let key = slice_to_vec(b.largest_key());
        let ghost file0 = file@;
        let ghost enc = buf@;
        file.append(&mut buf);
        indexes.push(
            IndexBlockRecord { largest_key: key, data_block_pointer: BlockPointer(off, blen) },
        );
        proof {
            assert forall|j: int| 0 <= j < i + 1 implies {
                let p = (#[trigger] indexes@[j]).data_block_pointer;
                &&& p.0 + p.1 <= file@.len()
                &&& file@.subrange(p.0 as int, p.0 + p.1) == crate::blocks::spec_encode_block(
                    blocks@[j]@,
                )
            } by {
                let p = indexes@[j].data_block_pointer;
                if j < i {
                    crate::blocks::lemma_subrange_stable(file0, enc, p.0 as int, p.0 + p.1);
                } else {
                    assert(file@.subrange(p.0 as int, p.0 + p.1) =~= enc);
                }
            }
        }
        i = i + 1;
    }
    indexes
}

/// Packs the index records into index blocks appended to `file`, sealing
/// a block and starting anew whenever one fills.  Returns the blocks'
/// locations, together with their entry lists and record lists.
#[verifier::loop_isolation(false)]
#[verifier::rlimit(80)]
fn write_index_blocks(indexes: &Vec<IndexBlockRecord>, file: &mut Vec<u8>) -> (r: (
    Vec<BlockPointer>,
    Ghost<(Seq<Seq<(Seq<u8>, Seq<u8>)>>, Seq<Seq<(Seq<u8>, BlockPointer)>>)>,
))
    requires
        recs_sorted(recs_view(indexes@)),
        forall|j: int|
            0 <= j < indexes@.len() ==> (#[trigger] indexes@[j]).largest_key@.len() <= 0xffff,
        indexes@.len() <= 0xffff,
    ensures
        ({
            let ptrs = r.0@;
            let ichunks = r.1@.0;
            let chunks = r.1@.1;
            &&& final(file)@.len() >= old(file)@.len()
            &&& final(file)@.subrange(0, old(file)@.len() as int) == old(file)@
            &&& 1 <= ptrs.len() <= 0xffff
            &&& ptrs.len() == chunks.len()
            &&& chunks.len() == ichunks.len()
            &&& concat_recs(chunks) == recs_view(indexes@)
            &&& forall|c: int|
                0 <= c < chunks.len() ==> {
                    let p = ptrs[c];
                    &&& block_wf(#[trigger] ichunks[c])
                    &&& crate::sstable::spec_records_of_entries(ichunks[c]) == Some(chunks[c])
                    &&& p.0 + p.1 <= final(file)@.len()
                    &&& final(file)@.subrange(p.0 as int, p.0 + p.1)
                        == crate::blocks::spec_encode_block(ichunks[c])
                }
        }),
{
    let ghost recs = recs_view(indexes@);
    let ghost base = file@;
    let kcount = indexes.len();
    let mut ib = BlockBuilder::new();
    let mut index_ptrs: Vec<BlockPointer> = Vec::new();
    let ghost mut ichunks: Seq<Seq<(Seq<u8>, Seq<u8>)>> = Seq::empty();
    let ghost mut chunks: Seq<Seq<(Seq<u8>, BlockPointer)>> = Seq::empty();
    let ghost mut chunk_start: int = 0;
    let mut i: usize = 0;
    proof {
        assert(concat_recs(chunks) =~= recs.take(0));
        assert(file@.subrange(0, base.len() as int) =~= base);
    }
    while i < kcount
        invariant
            i <= kcount,
            0 <= chunk_start <= i,
            chunk_start == 0 || chunk_start < i,
            file@.len() >= base.len(),
            file@.subrange(0, base.len() as int) == base,
            ib.wf(),
            ib@.len() == i - chunk_start,
            forall|m: int|
                0 <= m < ib@.len() ==> #[trigger] ib@[m] == (
                    recs[chunk_start + m].0,
                    spec_encode_ptr(recs[chunk_start + m].1),
                ),
            index_ptrs@.len() == chunks.len(),
            chunks.len() == ichunks.len(),
            chunks.len() <= chunk_start,
            concat_recs(chunks) == recs.take(chunk_start),
            forall|c: int|
                0 <= c < chunks.len() ==> {
                    let p = index_ptrs@[c];
                    &&& block_wf(#[trigger] ichunks[c])
                    &&& crate::sstable::spec_records_of_entries(ichunks[c]) == Some(chunks[c])
                    &&& p.0 + p.1 <= file@.len()
                    &&& file@.subrange(p.0 as int, p.0 + p.1)
                        == crate::blocks::spec_encode_block(ichunks[c])
                },
        decreases kcount - i,
    {
        let p = indexes[i].data_block_pointer;
        let val = p.encode();
        proof {
            assert(recs[i as int] == (indexes@[i as int].largest_key@,
                indexes@[i as int].data_block_pointer));
            if ib@.len() > 0 {
                assert(ib@[ib@.len() - 1].0 == recs[i - 1].0);
                assert(lex_lt(recs[i - 1].0, recs[i as int].0));
            }
        }
        let r = ib.add(indexes[i].largest_key.as_slice(), val.as_slice());
        if r.is_err() {
            let ghost ibe = ib@;
            let iblk = ib.build();
            let mut ibuf = iblk.encode();
            let off = file.len() as u64;
            let blen2 = ibuf.len() as u64;
            let ghost file0 = file@;
            let ghost enc = ibuf@;
            index_ptrs.push(BlockPointer(off, blen2));
            file.append(&mut ibuf);
            ib.clean_up();
            proof {
                let chunkrec = Seq::new(
                    ibe.len(),
                    |m: int| (ibe[m].0, crate::sstable::spec_parse_ptr(ibe[m].1).unwrap()),
                );
                assert forall|m: int|
                    0 <= m < ibe.len() implies crate::sstable::spec_parse_ptr(
                    (#[trigger] ibe[m]).1,
                ) == Some(recs[chunk_start + m].1) by {
                    super::lemma_ptr_round_trip(recs[chunk_start + m].1);
                }
                assert(crate::sstable::spec_records_of_entries(ibe) == Some(chunkrec));
                assert(chunkrec =~= recs.subrange(chunk_start, i as int));
                let old_chunks = chunks;
                ichunks = ichunks.push(ibe);
                chunks = chunks.push(chunkrec);
                assert(chunks.drop_last() =~= old_chunks);
                assert(concat_recs(chunks) == recs.take(chunk_start) + recs.subrange(
                    chunk_start,
                    i as int,
                ));
                assert(concat_recs(chunks) =~= recs.take(i as int));
                chunk_start = i as int;
                crate::blocks::lemma_subrange_stable(file0, enc, 0, base.len() as int);
                assert forall|c: int| 0 <= c < chunks.len() implies {
                    let p2 = index_ptrs@[c];
                    &&& block_wf(#[trigger] ichunks[c])
                    &&& crate::sstable::spec_records_of_entries(ichunks[c]) == Some(chunks[c])
                    &&& p2.0 + p2.1 <= file@.len()
                    &&& file@.subrange(p2.0 as int, p2.0 + p2.1)
                        == crate::blocks::spec_encode_block(ichunks[c])
                } by {
                    let p2 = index_ptrs@[c];
                    if c < chunks.len() - 1 {
                        crate::blocks::lemma_subrange_stable(file0, enc, p2.0 as int, p2.0 + p2.1);
                    } else {
                        assert(file@.subrange(p2.0 as int, p2.0 + p2.1) =~= enc);
                    }
                }
            }
            let r2 = ib.add(indexes[i].largest_key.as_slice(), val.as_slice());
            match r2 {
                Ok(()) => {},
                Err(_) => {
                    proof {
                        assert(false);
                    }
                },
            }
        }
        i = i + 1;
    }
    // Seal the last index block; an empty table still gets one, so the
    // footer always has a block to point at.
    let ghost ibe = ib@;
    let iblk = ib.build();
    let mut ibuf = iblk.encode();
    let off = file.len() as u64;
    let blen2 = ibuf.len() as u64;
    let ghost file0 = file@;
    let ghost enc = ibuf@;
    index_ptrs.push(BlockPointer(off, blen2));
    file.append(&mut ibuf);
    proof {
        let chunkrec = Seq::new(
            ibe.len(),
            |m: int| (ibe[m].0, crate::sstable::spec_parse_ptr(ibe[m].1).unwrap()),
        );
        assert forall|m: int|
            0 <= m < ibe.len() implies crate::sstable::spec_parse_ptr((#[trigger] ibe[m]).1)
            == Some(recs[chunk_start + m].1) by {
            super::lemma_ptr_round_trip(recs[chunk_start + m].1);
        }
        assert(crate::sstable::spec_records_of_entries(ibe) == Some(chunkrec));
        assert(chunkrec =~= recs.subrange(chunk_start, kcount as int));
        let old_chunks = chunks;
        ichunks = ichunks.push(ibe);
        chunks = chunks.push(chunkrec);
        assert(chunks.drop_last() =~= old_chunks);
        assert(concat_recs(chunks) == recs.take(chunk_start) + recs.subrange(
            chunk_start,
            kcount as int,
        ));
        assert(concat_recs(chunks) =~= recs);
        crate::blocks::lemma_subrange_stable(file0, enc, 0, base.len() as int);
        assert forall|c: int| 0 <= c < chunks.len() implies {
            let p2 = index_ptrs@[c];
            &&& block_wf(#[trigger] ichunks[c])
            &&& crate::sstable::spec_records_of_entries(ichunks[c]) == Some(chunks[c])
            &&& p2.0 + p2.1 <= file@.len()
            &&& file@.subrange(p2.0 as int, p2.0 + p2.1) == crate::blocks::spec_encode_block(
                ichunks[c],
            )
        } by {
            let p2 = index_ptrs@[c];
            if c < chunks.len() - 1 {
                crate::blocks::lemma_subrange_stable(file0, enc, p2.0 as int, p2.0 + p2.1);
            } else {
                assert(file@.subrange(p2.0 as int, p2.0 + p2.1) =~= enc);
            }
        }
    }
    (index_ptrs, Ghost((ichunks, chunks)))
}

/// A complete layout opens back to its index records: the footer parses,
/// each index block parses to its records, each data block parses to its
/// entries, and the whole is a sound, sorted table.
#[verifier::rlimit(80)]
proof fn lemma_build_open(
    prefile: Seq<u8>,
    fenc: Seq<u8>,
    file: Seq<u8>,
    ptrs: Seq<BlockPointer>,
    ichunks: Seq<Seq<(Seq<u8>, Seq<u8>)>>,
    chunks: Seq<Seq<(Seq<u8>, BlockPointer)>>,
    indexes: Seq<IndexBlockRecord>,
    bs: Seq<Blocks>,
)
    requires
        file == prefile + fenc,
        fenc == crate::sstable::spec_encode_footer(ptrs),
        1 <= ptrs.len() <= 0xffff,
        ptrs.len() == chunks.len(),
        chunks.len() == ichunks.len(),
        concat_recs(chunks) == recs_view(indexes),
        forall|c: int|
            0 <= c < chunks.len() ==> {
                let p = #[trigger] ptrs[c];
                &&& block_wf(ichunks[c])
                &&& crate::sstable::spec_records_of_entries(ichunks[c]) == Some(chunks[c])
                &&& p.0 + p.1 <= prefile.len()
                &&& prefile.subrange(p.0 as int, p.0 + p.1) == crate::blocks::spec_encode_block(
                    ichunks[c],
                )
            },
        indexes.len() == bs.len(),
        forall|j: int|
            0 <= j < bs.len() ==> block_wf((#[trigger] bs[j])@) && bs[j]@.len() > 0,
        forall|j: int|
            0 <= j < indexes.len() ==> (#[trigger] indexes[j]).largest_key@
                == bs[j]@[bs[j]@.len() - 1].0,
        forall|j: int|
            0 <= j < indexes.len() ==> {
                let p = (#[trigger] indexes[j]).data_block_pointer;
                &&& p.0 + p.1 <= prefile.len()
                &&& prefile.subrange(p.0 as int, p.0 + p.1) == crate::blocks::spec_encode_block(
                    bs[j]@,
                )
            },
        forall|j: int|
            0 < j < bs.len() ==> lex_lt(recs_view(indexes)[j - 1].0, (#[trigger] bs[j])@[0].0),
        recs_sorted(recs_view(indexes)),
    ensures
        crate::sstable::spec_open(file) == Some(recs_view(indexes)),
        sst_wf(file, recs_view(indexes)),
        crate::sstable::spec_table_entries(file, recs_view(indexes)) == blocks_entries(bs),
{
    let recs = recs_view(indexes);
    let m = ptrs.len() as int;
    super::lemma_encode_ptrs_len(ptrs);
    crate::codec::lemma_be16_round_trip(m as u16);
    assert(file[file.len() - 2] == crate::codec::spec_be16(m as u16)[0]);
    assert(file[file.len() - 1] == crate::codec::spec_be16(m as u16)[1]);
    assert(file.subrange(file.len() - (16 * m + 2), file.len() as int) =~= fenc);
    super::lemma_footer_round_trip(ptrs);
    assert forall|c: int|
        0 <= c < ptrs.len() implies crate::sstable::spec_index_block_records(
        file,
        #[trigger] ptrs[c],
    ) == Some(chunks[c]) by {
        let p = ptrs[c];
        crate::blocks::lemma_subrange_stable(prefile, fenc, p.0 as int, p.0 + p.1);
        crate::blocks::lemma_block_round_trip(ichunks[c]);
    }
    super::lemma_parse_index_blocks_all_some(file, ptrs, chunks);
    assert(crate::sstable::spec_open(file) == Some(recs));
    assert forall|j: int| 0 <= j < recs.len() implies #[trigger] sst_rec_wf(file, recs, j) by {
        let p = indexes[j].data_block_pointer;
        assert(recs[j] == (indexes[j].largest_key@, p));
        crate::blocks::lemma_subrange_stable(prefile, fenc, p.0 as int, p.0 + p.1);
        crate::blocks::lemma_block_round_trip(bs[j]@);
        assert(spec_block_at(file, recs[j].1) == Some(bs[j]@));
    }
    let bchunks = Seq::new(bs.len(), |j: int| bs[j]@);
    assert forall|j: int|
        0 <= j < recs.len() implies crate::sstable::spec_block_entries_of(
        file,
        (#[trigger] recs[j]).1,
    ) == bchunks[j] by {
        let p = indexes[j].data_block_pointer;
        assert(recs[j] == (indexes[j].largest_key@, p));
        crate::blocks::lemma_subrange_stable(prefile, fenc, p.0 as int, p.0 + p.1);
        crate::blocks::lemma_block_round_trip(bs[j]@);
    }
    super::lemma_table_entries_of_chunks(file, recs, bchunks);
    lemma_blocks_entries_as_chunks(bs);
}

/// Accumulates entries and lays them out as one SSTable.
pub struct SSTableBuilder {
    data_blocks: Vec<Blocks>,
    block_builder: BlockBuilder,
    /// The summed encoded sizes of the sealed blocks.
    sealed_bytes: u64,
}

impl View for SSTableBuilder {
    type V = Seq<(Seq<u8>, Seq<u8>)>;

    closed spec fn view(&self) -> Seq<(Seq<u8>, Seq<u8>)> {
        blocks_entries(self.data_blocks@) + self.block_builder@
    }
}

impl SSTableBuilder {
    /// The number of sealed data blocks.
    pub closed spec fn sealed_blocks(&self) -> int {
        self.data_blocks@.len() as int
    }

    /// The encoded bytes the data blocks will occupy: the sealed blocks
    /// plus the block under construction.
    pub closed spec fn total_bytes(&self) -> int {
        spec_blocks_size(self.data_blocks@) + spec_block_size(self.block_builder@)
    }

    /// The builder's bookkeeping is consistent: sealed blocks are
    /// well-formed, non-empty and chained in strictly ascending key
    /// order, the pending block continues that order, the byte counter
    /// matches, and the table stays within its size envelope.
    pub closed spec fn wf(&self) -> bool {
        let db = self.data_blocks@;
        &&& self.block_builder.wf()
        &&& self.sealed_bytes == spec_blocks_size(db)
        &&& db.len() <= 0xfffe
        &&& self.total_bytes() <= SSTABLE_SIZE_LIMIT + 0x2_000c
        &&& (forall|i: int|
            0 <= i < db.len() ==> block_wf((#[trigger] db[i])@) && db[i]@.len() > 0)
        &&& (forall|i: int|
            0 < i < db.len() ==> lex_lt(
                (#[trigger] db[i - 1])@[db[i - 1]@.len() - 1].0,
                db[i]@[0].0,
            ))
        &&& (self.block_builder@.len() > 0 && db.len() > 0 ==> lex_lt(
            db[db.len() - 1]@[db[db.len() - 1]@.len() - 1].0,
            self.block_builder@[0].0,
        ))
    }

    /// A fresh, empty builder.
    pub fn new() -> (r: SSTableBuilder)
        ensures
            r.wf(),
            r@ == Seq::<(Seq<u8>, Seq<u8>)>::empty(),
            r.sealed_blocks() == 0,
            r.total_bytes() == 2,
    {
        let r = SSTableBuilder {
            data_blocks: Vec::new(),
            block_builder: BlockBuilder::new(),
            sealed_bytes: 0,
        };
        proof {
            assert(r@ =~= Seq::<(Seq<u8>, Seq<u8>)>::empty());
        }
        r
    }

    /// The encoded data-block bytes the table would hold after adding
    /// this entry: the size gate callers check against
    /// [`SSTABLE_SIZE_LIMIT`].
    pub fn approximate_size_after_add(&self, key: &[u8], value: &[u8]) -> (r: u64)
        requires
            self.wf(),
            entry_fits(key@, value@),
        ensures
            r == self.total_bytes() + spec_entry_len(key@, value@) + 2,
    {
        let el: u64 = 4 + key.len() as u64 + value.len() as u64;
        self.sealed_bytes + self.block_builder.size() + el + 2
    }

    /// Appends one record.
    ///
    /// The record goes into the block under construction; if it would
    /// push that block past its capacity, or the table past its size
    /// limit, the block is sealed first and the record opens a fresh
    /// block — which cannot fail, so the call always appends.  Keys must
    /// arrive in strictly ascending order, and the table must stay
    /// within its size envelope and its index capacity (the sparse index
    /// counts blocks in a 16-bit field).
    pub fn add(&mut self, key: &[u8], value: &[u8])
        requires
            old(self).wf(),
            entry_fits(key@, value@),
            old(self)@.len() == 0 || lex_lt(old(self)@[old(self)@.len() - 1].0, key@),
            old(self).total_bytes() + spec_entry_len(key@, value@) + 4 <= SSTABLE_SIZE_LIMIT
                + 0x2_000c,
            old(self).sealed_blocks() + 2 <= 0xffff,
        ensures
            final(self).wf(),
            final(self)@ == old(self)@.push((key@, value@)),
            final(self).sealed_blocks() <= old(self).sealed_blocks() + 1,
            final(self).total_bytes() <= old(self).total_bytes() + spec_entry_len(key@, value@)
                + 4,
    {
        let ghost db0 = self.data_blocks@;
        let ghost bb0 = self.block_builder@;
        proof {
            if bb0.len() > 0 {
                assert(self@[self@.len() - 1] == bb0[bb0.len() - 1]);
            } else if db0.len() > 0 {
                assert(blocks_entries(db0) == blocks_entries(db0.drop_last())
                    + db0[db0.len() - 1]@);
                assert(db0[db0.len() - 1]@.len() > 0);
                assert(self@[self@.len() - 1] == db0[db0.len() - 1]@[db0[db0.len() - 1]@.len()
                    - 1]);
            }
        }
        let el: u64 = 4 + key.len() as u64 + value.len() as u64;
        let fits_limit = self.sealed_bytes + self.block_builder.size() + el + 2
            <= SSTABLE_SIZE_LIMIT as u64;
        if fits_limit {
            let r = self.block_builder.add(key, value);
            if r.is_ok() {
                proof {
                    crate::blocks::lemma_block_push(bb0, key@, value@);
                    assert(self@ =~= old(self)@.push((key@, value@)));
                    assert(self.block_builder@[0] == (if bb0.len() > 0 {
                        bb0[0]
                    } else {
                        (key@, value@)
                    }));
                }
                return;
            }
        }
        if self.block_builder.len() > 0 {
            let blk = self.block_builder.build();
            self.sealed_bytes = self.sealed_bytes + self.block_builder.size();
            let ghost db1 = self.data_blocks@.push(blk);
            self.data_blocks.push(blk);
            proof {
                assert(db1.drop_last() =~= db0);
                assert(db1.last() == blk);
                assert(forall|i: int| 0 <= i < db0.len() ==> #[trigger] db1[i] == db0[i]);
            }
            self.block_builder.clean_up();
        }
        let r = self.block_builder.add(key, value);
        match r {
            Ok(()) => {},
            Err(_) => {
                proof {
                    assert(false);
                }
            },
        }
        proof {
            crate::blocks::lemma_block_push(Seq::<(Seq<u8>, Seq<u8>)>::empty(), key@, value@);
            assert(self.block_builder@ == Seq::<(Seq<u8>, Seq<u8>)>::empty().push(
                (key@, value@),
            ));
            assert(self.block_builder@[0] == (key@, value@));
            assert(spec_block_size(self.block_builder@) == 4 + spec_entry_len(key@, value@));
            if self.data_blocks@.len() == db0.len() {
                // No block was sealed: the pending block was empty.
                assert(bb0.len() == 0);
                assert(self@ =~= old(self)@.push((key@, value@)));
            } else {
                // The pending block was sealed as the last data block.
                let db1 = self.data_blocks@;
                assert(db1[db1.len() - 1]@ == bb0);
                assert(blocks_entries(db1) == blocks_entries(db0) + bb0);
                assert(spec_blocks_size(db1) == spec_blocks_size(db0) + spec_block_size(bb0));
                assert(self@ =~= old(self)@.push((key@, value@)));
            }
        }
    }

    /// Lays the accumulated entries out as one SSTable file — data
    /// blocks, index blocks, footer — and returns the table over those
    /// bytes, its index loaded.  The file bytes open back to exactly the
    /// accumulated entries; the embedding program persists them under
    /// the table's sequence number.
    #[verifier::rlimit(80)]
    pub fn build(&self, seq: u64) -> (r: SSTable)
        requires
            self.wf(),
        ensures
            r.wf(),
            r@ == self@,
            r.seq_view() == seq,
    {
        // Materialize the blocks: the sealed ones, then the pending one.
        let mut blocks: Vec<Blocks> = Vec::new();
        let nd = self.data_blocks.len();
        let mut i: usize = 0;
        while i < nd
            invariant
                i <= nd,
                nd == self.data_blocks@.len(),
                blocks@.len() == i,
                forall|j: int| 0 <= j < i ==> (#[trigger] blocks@[j])@ == self.data_blocks@[j]@,
            decreases nd - i,
        {
            blocks.push(self.data_blocks[i].duplicate());
            i = i + 1;
        }
        proof {
            lemma_blocks_entries_congruent(blocks@, self.data_blocks@);
        }
        if self.block_builder.len() > 0 {
            let ghost pre = blocks@;
            blocks.push(self.block_builder.build());
            proof {
                assert(blocks@.drop_last() =~= pre);
                assert(blocks_entries(blocks@) == blocks_entries(self.data_blocks@)
                    + self.block_builder@);
            }
        } else {
            proof {
                assert(blocks_entries(blocks@) + self.block_builder@ =~= blocks_entries(
                    blocks@,
                ));
            }
        }
        let ghost bs = blocks@;
        let kcount = blocks.len();
        proof {
            assert(blocks_entries(bs) == self@);
            assert(forall|j: int|
                0 <= j < kcount ==> block_wf((#[trigger] bs[j])@) && bs[j]@.len() > 0);
            assert forall|j: int| 0 < j < kcount implies lex_lt(
                (#[trigger] bs[j - 1])@[bs[j - 1]@.len() - 1].0,
                bs[j]@[0].0,
            ) by {
                if j < self.data_blocks@.len() {
                    assert(lex_lt(
                        self.data_blocks@[j - 1]@[self.data_blocks@[j - 1]@.len() - 1].0,
                        self.data_blocks@[j]@[0].0,
                    ));
                }
            }
        }
        // Write the data blocks and index them by largest key.
        let mut file: Vec<u8> = Vec::new();
        let indexes = write_data_blocks(&blocks, &mut file);
        let ghost recs = recs_view(indexes@);
        let ghost datafile = file@;
        proof {
            assert forall|j: int| 0 < j < kcount implies lex_lt(
                (#[trigger] recs[j - 1]).0,
                recs[j].0,
            ) by {
                assert(lex_lt(bs[j - 1]@[bs[j - 1]@.len() - 1].0, bs[j]@[0].0));
                lemma_block_key_bounds(bs[j]@, 0);
                crate::keys::lemma_lex_lt_le_transitive(
                    recs[j - 1].0,
                    bs[j]@[0].0,
                    bs[j]@[bs[j]@.len() - 1].0,
                );
            }
            super::lemma_adjacent_recs_sorted(recs);
            assert forall|j: int| 0 <= j < kcount implies (#[trigger] indexes@[j]).largest_key@.len()
                <= 0xffff by {
                assert(crate::codec::entry_fits(
                    bs[j]@[bs[j]@.len() - 1].0,
                    bs[j]@[bs[j]@.len() - 1].1,
                ));
            }
        }
        // Pack the index records into index blocks.
        let (index_ptrs, chunk_info) = write_index_blocks(&indexes, &mut file);
        let ghost ichunks = chunk_info@.0;
        let ghost chunks = chunk_info@.1;
        proof {
            // The data-block regions survive the appended index blocks.
            assert forall|j: int| 0 <= j < kcount implies {
                let p = (#[trigger] indexes@[j]).data_block_pointer;
                &&& p.0 + p.1 <= file@.len()
                &&& file@.subrange(p.0 as int, p.0 + p.1) == crate::blocks::spec_encode_block(
                    bs[j]@,
                )
            } by {
                let p = indexes@[j].data_block_pointer;
                crate::blocks::lemma_prefix_region_stable(file@, datafile, p.0 as int, p.0 + p.1);
            }
        }
        // The footer: every index block's location, then their count.
        let m = index_ptrs.len();
        let footer = Footer { num_of_index_block: m, index_block_pointers: index_ptrs };
        let mut fbuf = footer.encode();
        let ghost ptrs = footer.index_block_pointers@;
        let ghost prefile = file@;
        let ghost fenc = fbuf@;
        file.append(&mut fbuf);
        proof {
            lemma_build_open(prefile, fenc, file@, ptrs, ichunks, chunks, indexes@, bs);
        }
        SSTable::assemble(file, indexes, seq)
    }
}

} // verus!
