//! The block: the smallest unit of reading and caching in the LSM tree.
//!
//! A block is an immutable collection of entries with strictly ascending,
//! unique keys.  Its storage format is:
//!
//! ```text
//! ----------------------------------------------------------------------------------------------------
//! |             Data Section             |              Offset Section             |      Extra      |
//! ----------------------------------------------------------------------------------------------------
//! | Entry #1 | Entry #2 | ... | Entry #N | Offset #1 | Offset #2 | ... | Offset #N | num_of_elements |
//! ----------------------------------------------------------------------------------------------------
//! ```
//!
//! Each offset is the position of its entry within the data section, as an
//! unsigned 16-bit integer; the trailing field holds the entry count.
//! Entries themselves use the codec of [`crate::codec`].

pub mod block_builder;
pub mod iterator;

pub use block_builder::BlockBuilder;

use crate::codec::{
    decode_entry, encode_entry_into, put_be16, read_be16, spec_be16, spec_be16_val,
    spec_encode_entry, spec_entry_len, spec_parse_entry, entry_fits,
};
use crate::error::Error;
use crate::keys::{key_lt, lemma_lex_lt_transitive, lex_lt};
use vstd::prelude::*;

verus! {

/// Every entry of `s` fits the length-prefixed format.
pub open spec fn entries_fit(s: Seq<(Seq<u8>, Seq<u8>)>) -> bool {
    forall|i: int| 0 <= i < s.len() ==> entry_fits(#[trigger] s[i].0, s[i].1)
}

/// Keys are strictly ascending: the block invariant.
pub open spec fn entries_sorted(s: Seq<(Seq<u8>, Seq<u8>)>) -> bool {
    forall|i: int, j: int| 0 <= i < j < s.len() ==> lex_lt(#[trigger] s[i].0, #[trigger] s[j].0)
}

/// Adjacent ascending keys imply the full sorted invariant.
pub proof fn lemma_adjacent_implies_sorted(s: Seq<(Seq<u8>, Seq<u8>)>)
    requires
        forall|i: int| 0 < i < s.len() ==> lex_lt(#[trigger] s[i - 1].0, s[i].0),
    ensures
        entries_sorted(s),
{
    assert forall|i: int, j: int| 0 <= i < j < s.len() implies lex_lt(
        #[trigger] s[i].0,
        #[trigger] s[j].0,
    ) by {
        lemma_lt_span(s, i, j);
    }
}

proof fn lemma_lt_span(s: Seq<(Seq<u8>, Seq<u8>)>, i: int, j: int)
    requires
        forall|m: int| 0 < m < s.len() ==> lex_lt(#[trigger] s[m - 1].0, s[m].0),
        0 <= i < j < s.len(),
    ensures
        lex_lt(s[i].0, s[j].0),
    decreases j - i,
{
    assert(lex_lt(s[j - 1].0, s[j].0));
    if i + 1 < j {
        lemma_lt_span(s, i, j - 1);
        lemma_lex_lt_transitive(s[i].0, s[j - 1].0, s[j].0);
    }
}

/// The data section: the concatenation of the entry encodings.
pub open spec fn spec_data_section(s: Seq<(Seq<u8>, Seq<u8>)>) -> Seq<u8>
    decreases s.len(),
{
    if s.len() == 0 {
        Seq::empty()
    } else {
        spec_data_section(s.drop_last()) + spec_encode_entry(s.last().0, s.last().1)
    }
}

/// The length of the data section.
pub open spec fn spec_data_len(s: Seq<(Seq<u8>, Seq<u8>)>) -> int {
    spec_data_section(s).len() as int
}

/// The offset of entry `i` within the data section.
pub open spec fn spec_offset(s: Seq<(Seq<u8>, Seq<u8>)>, i: int) -> int {
    spec_data_len(s.take(i))
}

/// Extending the entries by one extends the data section by that entry's
/// encoding.
pub proof fn lemma_data_section_take_step(s: Seq<(Seq<u8>, Seq<u8>)>, i: int)
    requires
        0 <= i < s.len(),
    ensures
        spec_data_section(s.take(i + 1)) == spec_data_section(s.take(i)) + spec_encode_entry(
            s[i].0,
            s[i].1,
        ),
        spec_offset(s, i + 1) == spec_offset(s, i) + spec_entry_len(s[i].0, s[i].1),
{
    let t = s.take(i + 1);
    assert(t.drop_last() =~= s.take(i));
    assert(t.last() == s[i]);
}

/// The whole data section is the data section of the full prefix.
pub proof fn lemma_data_section_take_all(s: Seq<(Seq<u8>, Seq<u8>)>)
    ensures
        spec_data_section(s.take(s.len() as int)) == spec_data_section(s),
        spec_offset(s, s.len() as int) == spec_data_len(s),
{
    assert(s.take(s.len() as int) =~= s);
}

/// The data section grows by at most the largest entry encoding per entry.
pub proof fn lemma_data_len_bound(s: Seq<(Seq<u8>, Seq<u8>)>)
    requires
        entries_fit(s),
    ensures
        spec_data_len(s) <= s.len() * 0x2_0004,
        spec_data_len(s) >= 0,
    decreases s.len(),
{
    if s.len() > 0 {
        assert(entries_fit(s.drop_last())) by {
            assert(forall|i: int|
                0 <= i < s.len() - 1 ==> #[trigger] s.drop_last()[i] == s[i]);
        }
        lemma_data_len_bound(s.drop_last());
        assert(spec_entry_len(s.last().0, s.last().1) <= 0x2_0004);
        assert((s.len() - 1) * 0x2_0004 + 0x2_0004 == s.len() * 0x2_0004) by (nonlinear_arith);
    }
}

/// The offset section: one 16-bit offset per entry.
pub open spec fn spec_offsets_section(s: Seq<(Seq<u8>, Seq<u8>)>) -> Seq<u8>
    decreases s.len(),
{
    if s.len() == 0 {
        Seq::empty()
    } else {
        spec_offsets_section(s.drop_last()) + spec_be16(
            spec_offset(s, s.len() - 1) as u16,
        )
    }
}

proof fn lemma_offsets_section_len(s: Seq<(Seq<u8>, Seq<u8>)>)
    ensures
        spec_offsets_section(s).len() == 2 * s.len(),
    decreases s.len(),
{
    if s.len() > 0 {
        lemma_offsets_section_len(s.drop_last());
    }
}

/// Each pair of bytes of the offset section encodes its entry's offset.
proof fn lemma_offsets_section_index(s: Seq<(Seq<u8>, Seq<u8>)>, i: int)
    requires
        0 <= i < s.len(),
    ensures
        spec_offsets_section(s).len() == 2 * s.len(),
        spec_offsets_section(s)[2 * i] == spec_be16(spec_offset(s, i) as u16)[0],
        spec_offsets_section(s)[2 * i + 1] == spec_be16(spec_offset(s, i) as u16)[1],
    decreases s.len(),
{
    lemma_offsets_section_len(s);
    if i == s.len() - 1 {
        lemma_offsets_section_len(s.drop_last());
    } else {
        lemma_offsets_section_index(s.drop_last(), i);
        assert(s.drop_last().take(i) =~= s.take(i));
    }
}

/// Whether the entries can be laid out: counts and offsets fit 16 bits.
pub open spec fn block_fits(s: Seq<(Seq<u8>, Seq<u8>)>) -> bool {
    &&& s.len() <= 0xffff
    &&& entries_fit(s)
    &&& forall|i: int| 0 <= i < s.len() ==> 0 <= #[trigger] spec_offset(s, i) <= 0xffff
}

/// A well-formed block: it can be laid out and its keys strictly ascend.
pub open spec fn block_wf(s: Seq<(Seq<u8>, Seq<u8>)>) -> bool {
    block_fits(s) && entries_sorted(s)
}

/// The full block encoding: data section, offset section, entry count.
pub open spec fn spec_encode_block(s: Seq<(Seq<u8>, Seq<u8>)>) -> Seq<u8>
    recommends
        block_fits(s),
{
    spec_data_section(s) + spec_offsets_section(s) + spec_be16(s.len() as u16)
}

/// The encoded size of a block.
pub open spec fn spec_block_size(s: Seq<(Seq<u8>, Seq<u8>)>) -> int {
    spec_data_len(s) + 2 * s.len() + 2
}

/// Parses `n` entries of `d` starting at `pos`, which must together
/// consume the bytes up to exactly `end`.
pub open spec fn spec_parse_entries(d: Seq<u8>, pos: int, end: int, n: int) -> Option<
    Seq<(Seq<u8>, Seq<u8>)>,
>
    decreases n,
{
    if n <= 0 {
        if pos == end && n == 0 {
            Some(Seq::empty())
        } else {
            None
        }
    } else {
        match spec_parse_entry(d, pos) {
            Some(((k, v), next)) => if next <= end {
                match spec_parse_entries(d, next, end, n - 1) {
                    Some(rest) => Some(seq![(k, v)] + rest),
                    None => None,
                }
            } else {
                None
            },
            None => None,
        }
    }
}

/// Whether the offset section of `d` starting at `data_end` lists the
/// offsets of the entries `s`.
pub open spec fn spec_offsets_match(d: Seq<u8>, data_end: int, s: Seq<(Seq<u8>, Seq<u8>)>) -> bool
    recommends
        data_end + 2 * s.len() <= d.len(),
{
    forall|i: int|
        0 <= i < s.len() ==> spec_be16_val(
            #[trigger] d[data_end + 2 * i],
            d[data_end + 2 * i + 1],
        ) == spec_offset(s, i)
}

/// Parses a whole block: entry count from the trailing two bytes, then
/// the entries, checked against the offset section and the sorted-key
/// invariant.  `None` on any inconsistency.
pub open spec fn spec_parse_block(d: Seq<u8>) -> Option<Seq<(Seq<u8>, Seq<u8>)>> {
    if d.len() >= 2 {
        let n = spec_be16_val(d[d.len() - 2], d[d.len() - 1]) as int;
        if d.len() >= 2 + 2 * n {
            let data_end = d.len() - 2 - 2 * n;
            match spec_parse_entries(d, 0, data_end, n) {
                Some(s) => if spec_offsets_match(d, data_end, s) && entries_sorted(s) {
                    Some(s)
                } else {
                    None
                },
                None => None,
            }
        } else {
            None
        }
    } else {
        None
    }
}

/// The data section read front to back: first entry, then the rest.
pub proof fn lemma_data_section_cons(s: Seq<(Seq<u8>, Seq<u8>)>)
    requires
        s.len() > 0,
    ensures
        spec_data_section(s) == spec_encode_entry(s[0].0, s[0].1) + spec_data_section(
            s.drop_first(),
        ),
    decreases s.len(),
{
    if s.len() == 1 {
        assert(s.drop_last() =~= Seq::empty());
        assert(s.drop_first() =~= Seq::empty());
        assert(s.last() == s[0]);
        assert(spec_data_section(s) =~= spec_encode_entry(s[0].0, s[0].1) + spec_data_section(
            s.drop_first(),
        ));
    } else {
        lemma_data_section_cons(s.drop_last());
        assert(s.drop_last()[0] == s[0]);
        assert(s.drop_last().drop_first() =~= s.drop_first().drop_last());
        assert(s.drop_first().last() == s.last());
        assert(spec_data_section(s) =~= spec_encode_entry(s[0].0, s[0].1) + spec_data_section(
            s.drop_first(),
        ));
    }
}

/// Parsing the region that holds the encodings of `s` yields `s`.
proof fn lemma_parse_entries_of_encoding(d: Seq<u8>, pos: int, s: Seq<(Seq<u8>, Seq<u8>)>)
    requires
        entries_fit(s),
        0 <= pos,
        pos + spec_data_len(s) <= d.len(),
        d.subrange(pos, pos + spec_data_len(s)) == spec_data_section(s),
    ensures
        spec_parse_entries(d, pos, pos + spec_data_len(s), s.len() as int) == Some(s),
    decreases s.len(),
{
    if s.len() == 0 {
        assert(s =~= Seq::<(Seq<u8>, Seq<u8>)>::empty());
    } else {
        let k = s[0].0;
        let v = s[0].1;
        let el = spec_entry_len(k, v);
        lemma_data_section_cons(s);
        let pre = d.subrange(0, pos);
        let suf = d.subrange(pos + el, d.len() as int);
        assert(d =~= pre + (spec_encode_entry(k, v) + suf)) by {
            assert forall|i: int| 0 <= i < d.len() implies d[i] == (pre + (spec_encode_entry(k, v)
                + suf))[i] by {
                if pos <= i < pos + el {
                    assert(d.subrange(pos, pos + spec_data_len(s))[i - pos] == d[i]);
                    assert(spec_data_section(s)[i - pos] == spec_encode_entry(k, v)[i - pos]);
                }
            }
        }
        assert(pre + (spec_encode_entry(k, v) + suf) =~= pre + spec_encode_entry(k, v) + suf);
        crate::codec::lemma_parse_entry_of_encoding(pre, k, v, suf);
        assert(spec_parse_entry(d, pos) == Some(((k, v), pos + el)));
        let rest = s.drop_first();
        assert(entries_fit(rest)) by {
            assert(forall|i: int| 0 <= i < rest.len() ==> #[trigger] rest[i] == s[i + 1]);
        }
        assert(spec_data_len(rest) == spec_data_len(s) - el);
        assert(d.subrange(pos + el, pos + el + spec_data_len(rest)) == spec_data_section(rest)) by {
            assert forall|i: int| 0 <= i < spec_data_len(rest) implies d.subrange(
                pos + el,
                pos + el + spec_data_len(rest),
            )[i] == spec_data_section(rest)[i] by {
                assert(d.subrange(pos, pos + spec_data_len(s))[el + i] == d[pos + el + i]);
                assert(spec_data_section(s)[el + i] == (spec_encode_entry(k, v)
                    + spec_data_section(rest))[el + i]);
            }
            assert(d.subrange(pos + el, pos + el + spec_data_len(rest)) =~= spec_data_section(
                rest,
            ));
        }
        lemma_parse_entries_of_encoding(d, pos + el, rest);
        assert(seq![(k, v)] + rest =~= s);
    }
}

/// Round-trip of the block codec: a well-formed block parses back from
/// its own encoding, entry for entry.
pub proof fn lemma_block_round_trip(s: Seq<(Seq<u8>, Seq<u8>)>)
    requires
        block_wf(s),
    ensures
        spec_parse_block(spec_encode_block(s)) == Some(s),
{
    let d = spec_encode_block(s);
    let n = s.len() as int;
    let dl = spec_data_len(s);
    lemma_offsets_section_len(s);
    assert(d.len() == dl + 2 * n + 2);
    crate::codec::lemma_be16_round_trip(s.len() as u16);
    assert(d[d.len() - 2] == spec_be16(s.len() as u16)[0]);
    assert(d[d.len() - 1] == spec_be16(s.len() as u16)[1]);
    assert(spec_be16_val(d[d.len() - 2], d[d.len() - 1]) == n);
    let data_end = d.len() - 2 - 2 * n;
    assert(data_end == dl);
    assert(d.subrange(0, dl) == spec_data_section(s)) by {
        assert forall|i: int| 0 <= i < dl implies d.subrange(0, dl)[i] == spec_data_section(
            s,
        )[i] by {
            assert(d[i] == (spec_data_section(s) + spec_offsets_section(s))[i]);
        }
        assert(d.subrange(0, dl) =~= spec_data_section(s));
    }
    lemma_parse_entries_of_encoding(d, 0, s);
    assert(spec_parse_entries(d, 0, data_end, n) == Some(s));
    assert(spec_offsets_match(d, data_end, s)) by {
        assert forall|i: int| 0 <= i < n implies spec_be16_val(
            #[trigger] d[data_end + 2 * i],
            d[data_end + 2 * i + 1],
        ) == spec_offset(s, i) by {
            lemma_offsets_section_index(s, i);
            assert(d[data_end + 2 * i] == (spec_data_section(s) + spec_offsets_section(s))[dl + 2
                * i]);
            assert(d[data_end + 2 * i + 1] == (spec_data_section(s) + spec_offsets_section(s))[dl
                + 2 * i + 1]);
            assert(d[data_end + 2 * i] == spec_be16(spec_offset(s, i) as u16)[0]);
            assert(d[data_end + 2 * i + 1] == spec_be16(spec_offset(s, i) as u16)[1]);
            crate::codec::lemma_be16_round_trip(spec_offset(s, i) as u16);
        }
    }
}

/// Whether some entry of `s` has key `k`.
pub open spec fn spec_contains_key(s: Seq<(Seq<u8>, Seq<u8>)>, k: Seq<u8>) -> bool {
    exists|i: int| 0 <= i < s.len() && (#[trigger] s[i]).0 == k
}

/// The value stored under key `k`, if any entry of `s` holds it.
pub open spec fn spec_lookup(s: Seq<(Seq<u8>, Seq<u8>)>, k: Seq<u8>) -> Option<Seq<u8>> {
    if spec_contains_key(s, k) {
        Some(s[choose|i: int| 0 <= i < s.len() && (#[trigger] s[i]).0 == k].1)
    } else {
        None
    }
}

/// Whether some entry of `s` is exactly the pair `(k, v)`.
pub open spec fn spec_contains_pair(s: Seq<(Seq<u8>, Seq<u8>)>, k: Seq<u8>, v: Seq<u8>) -> bool {
    exists|i: int| 0 <= i < s.len() && #[trigger] s[i] == (k, v)
}

/// In a sorted sequence keys are unique, so holding the pair `(k, v)`
/// pins the lookup of `k` to `v`.
pub proof fn lemma_sorted_lookup(s: Seq<(Seq<u8>, Seq<u8>)>, k: Seq<u8>, v: Seq<u8>)
    requires
        entries_sorted(s),
        spec_contains_pair(s, k, v),
    ensures
        spec_contains_key(s, k),
        spec_lookup(s, k) == Some(v),
{
    let i = choose|i: int| 0 <= i < s.len() && #[trigger] s[i] == (k, v);
    assert(spec_contains_key(s, k)) by {
        assert((s[i]).0 == k);
    }
    assert forall|m: int| 0 <= m < s.len() && (#[trigger] s[m]).0 == k implies s[m].1 == v by {
        if m != i {
            crate::keys::lemma_lex_trichotomy(k, k);
            if i < m {
                assert(lex_lt(s[i].0, s[m].0));
            } else {
                assert(lex_lt(s[m].0, s[i].0));
            }
            assert(false);
        }
    }
    assert(spec_lookup(s, k) == Some(v));
}

/// A concatenation holds a pair exactly when one of its parts does.
pub proof fn lemma_contains_pair_append(
    a: Seq<(Seq<u8>, Seq<u8>)>,
    b: Seq<(Seq<u8>, Seq<u8>)>,
    k: Seq<u8>,
    v: Seq<u8>,
)
    ensures
        spec_contains_pair(a + b, k, v) == (spec_contains_pair(a, k, v) || spec_contains_pair(
            b,
            k,
            v,
        )),
{
    if spec_contains_pair(a + b, k, v) {
        let i = choose|i: int| 0 <= i < (a + b).len() && #[trigger] (a + b)[i] == (k, v);
        if i < a.len() {
            assert(a[i] == (k, v));
        } else {
            assert(b[i - a.len()] == (k, v));
        }
    }
    if spec_contains_pair(a, k, v) {
        let i = choose|i: int| 0 <= i < a.len() && #[trigger] a[i] == (k, v);
        assert((a + b)[i] == (k, v));
    }
    if spec_contains_pair(b, k, v) {
        let i = choose|i: int| 0 <= i < b.len() && #[trigger] b[i] == (k, v);
        assert((a + b)[a.len() + i] == (k, v));
    }
}

/// Every key of a sorted entry sequence lies between the first key and
/// the last key.
pub proof fn lemma_block_key_bounds(s: Seq<(Seq<u8>, Seq<u8>)>, i: int)
    requires
        entries_sorted(s),
        0 <= i < s.len(),
    ensures
        crate::keys::lex_le(s[0].0, s[i].0),
        crate::keys::lex_le(s[i].0, s[s.len() - 1].0),
{
}

/// Appending an entry keeps the layout bookkeeping: the new data section
/// is the old one followed by the entry's encoding, and the encoded size
/// grows by the entry's length plus its offset slot.
pub proof fn lemma_block_push(s: Seq<(Seq<u8>, Seq<u8>)>, k: Seq<u8>, v: Seq<u8>)
    ensures
        spec_data_section(s.push((k, v))) == spec_data_section(s) + spec_encode_entry(k, v),
        spec_block_size(s.push((k, v))) == spec_block_size(s) + spec_entry_len(k, v) + 2,
{
    assert(s.push((k, v)).drop_last() =~= s);
    assert(s.push((k, v)).last() == (k, v));
}

/// Appending a key greater than every present key keeps the entries
/// sorted.
pub proof fn lemma_sorted_push(s: Seq<(Seq<u8>, Seq<u8>)>, k: Seq<u8>, v: Seq<u8>)
    requires
        entries_sorted(s),
        s.len() == 0 || lex_lt(s[s.len() - 1].0, k),
    ensures
        entries_sorted(s.push((k, v))),
{
    let t = s.push((k, v));
    assert forall|i: int, j: int| 0 <= i < j < t.len() implies lex_lt(
        #[trigger] t[i].0,
        #[trigger] t[j].0,
    ) by {
        if j == s.len() {
            if i < s.len() - 1 {
                assert(lex_lt(s[i].0, s[s.len() - 1].0));
                lemma_lex_lt_transitive(s[i].0, s[s.len() - 1].0, k);
            }
        }
    }
}

/// No entry starts past the end of the data section.
pub proof fn lemma_offset_le_data_len(s: Seq<(Seq<u8>, Seq<u8>)>, i: int)
    requires
        0 <= i <= s.len(),
    ensures
        0 <= spec_offset(s, i) <= spec_data_len(s),
    decreases s.len() - i,
{
    lemma_data_len_nonneg(s.take(i));
    if i == s.len() {
        lemma_data_section_take_all(s);
    } else {
        lemma_data_section_take_step(s, i);
        lemma_offset_le_data_len(s, i + 1);
    }
}

proof fn lemma_data_len_nonneg(s: Seq<(Seq<u8>, Seq<u8>)>)
    ensures
        spec_data_len(s) >= 2 * s.len(),
    decreases s.len(),
{
    if s.len() > 0 {
        lemma_data_len_nonneg(s.drop_last());
    }
}

/// A block whose encoded size stays within a 16-bit-offset layout is
/// laid out without loss: count and offsets fit their fields.
pub proof fn lemma_small_block_fits(s: Seq<(Seq<u8>, Seq<u8>)>)
    requires
        entries_fit(s),
        s.len() <= 1 || spec_block_size(s) <= 0xffff,
    ensures
        block_fits(s),
{
    lemma_data_len_nonneg(s);
    assert forall|i: int| 0 <= i < s.len() implies 0 <= #[trigger] spec_offset(s, i)
        <= 0xffff by {
        lemma_offset_le_data_len(s, i);
        if s.len() <= 1 {
            assert(s.take(0) =~= Seq::empty());
        }
    }
}

/// The concatenation of per-block entry lists.
pub open spec fn concat_entry_chunks(chunks: Seq<Seq<(Seq<u8>, Seq<u8>)>>) -> Seq<
    (Seq<u8>, Seq<u8>),
>
    decreases chunks.len(),
{
    if chunks.len() == 0 {
        Seq::empty()
    } else {
        concat_entry_chunks(chunks.drop_last()) + chunks.last()
    }
}

/// Growing a byte sequence does not disturb an existing region.
pub proof fn lemma_subrange_stable(a: Seq<u8>, b: Seq<u8>, lo: int, hi: int)
    requires
        0 <= lo <= hi <= a.len(),
    ensures
        (a + b).subrange(lo, hi) == a.subrange(lo, hi),
{
    assert((a + b).subrange(lo, hi) =~= a.subrange(lo, hi));
}

/// A region inside a preserved prefix reads the same from the longer
/// byte sequence.
pub proof fn lemma_prefix_region_stable(big: Seq<u8>, small: Seq<u8>, lo: int, hi: int)
    requires
        big.len() >= small.len(),
        big.subrange(0, small.len() as int) == small,
        0 <= lo <= hi <= small.len(),
    ensures
        big.subrange(lo, hi) == small.subrange(lo, hi),
{
    assert forall|i: int| 0 <= i < hi - lo implies big.subrange(lo, hi)[i] == small.subrange(
        lo,
        hi,
    )[i] by {
        assert(big.subrange(0, small.len() as int)[lo + i] == big[lo + i]);
    }
    assert(big.subrange(lo, hi) =~= small.subrange(lo, hi));
}

/// Copies a byte vector.
pub(crate) fn clone_bytes(v: &Vec<u8>) -> (r: Vec<u8>)
    ensures
        r@ == v@,
{
    let r = v.clone();
    proof {
        assert forall|i: int| 0 <= i < v@.len() implies r@[i] == v@[i] by {
            assert(cloned::<u8>(v@[i], r@[i]));
        }
        assert(r@ =~= v@);
    }
    r
}

/// The entry sequence a vector of key/value byte vectors stands for.
pub open spec fn pairs_view(v: Seq<(Vec<u8>, Vec<u8>)>) -> Seq<(Seq<u8>, Seq<u8>)> {
    v.map_values(|e: (Vec<u8>, Vec<u8>)| (e.0@, e.1@))
}

/// An immutable block: a collection of sorted key-value pairs.
///
/// A block holds its entries decoded; [`Blocks::encode`] lays them out in
/// the storage format and [`Blocks::decode`] validates and reads that
/// format back.
#[derive(Debug)]
pub struct Blocks {
    entries: Vec<(Vec<u8>, Vec<u8>)>,
}

impl View for Blocks {
    type V = Seq<(Seq<u8>, Seq<u8>)>;

    closed spec fn view(&self) -> Seq<(Seq<u8>, Seq<u8>)> {
        pairs_view(self.entries@)
    }
}

impl Blocks {
    /// Wraps already-validated entries as a block.
    pub(crate) fn from_entries(entries: Vec<(Vec<u8>, Vec<u8>)>) -> (r: Blocks)
        ensures
            r@ == pairs_view(entries@),
    {
        Blocks { entries }
    }

    /// The number of entries held.
    pub fn len(&self) -> (n: usize)
        ensures
            n == self@.len(),
    {
        self.entries.len()
    }

    /// A copy of the block, entry for entry.
    pub fn duplicate(&self) -> (r: Blocks)
        ensures
            r@ == self@,
    {
        let n = self.entries.len();
        let mut entries: Vec<(Vec<u8>, Vec<u8>)> = Vec::new();
        let mut i: usize = 0;
        proof {
            assert(pairs_view(entries@) =~= self@.take(0));
        }
        while i < n
            invariant
                i <= n,
                n == self.entries@.len(),
                pairs_view(entries@) == self@.take(i as int),
            decreases n - i,
        {
            let e = &self.entries[i];
            let k = clone_bytes(&e.0);
            let v = clone_bytes(&e.1);
            let ghost old_entries = entries@;
            entries.push((k, v));
            proof {
                assert(self@[i as int] == (self.entries@[i as int].0@,
                    self.entries@[i as int].1@));
                assert(pairs_view(entries@) =~= pairs_view(old_entries) + seq![(k@, v@)]);
                assert(self@.take(i + 1) =~= self@.take(i as int) + seq![self@[i as int]]);
            }
            i = i + 1;
        }
        proof {
            assert(self@.take(n as int) =~= self@);
        }
        Blocks { entries }
    }

    /// The key of the entry at `index`.
    pub fn key_at(&self, index: usize) -> (r: &[u8])
        requires
            index < self@.len(),
        ensures
            r@ == self@[index as int].0,
    {
        self.entries[index].0.as_slice()
    }

    /// The value of the entry at `index`.
    pub fn value_at(&self, index: usize) -> (r: &[u8])
        requires
            index < self@.len(),
        ensures
            r@ == self@[index as int].1,
    {
        self.entries[index].1.as_slice()
    }

    /// The key every key of the block is at least: the first one.
    pub fn smallest_key(&self) -> (r: &[u8])
        requires
            self@.len() > 0,
        ensures
            r@ == self@[0].0,
    {
        self.entries[0].0.as_slice()
    }

    /// The key every key of the block is at most: the last one.
    pub fn largest_key(&self) -> (r: &[u8])
        requires
            self@.len() > 0,
        ensures
            r@ == self@[self@.len() - 1].0,
    {
        self.entries[self.entries.len() - 1].0.as_slice()
    }

    /// The total encoded byte length of the block.
    pub fn size(&self) -> (r: u64)
        requires
            block_fits(self@),
        ensures
            r == spec_block_size(self@),
    {
        let ghost s = self@;
        let n = self.entries.len();
        let mut sum: u64 = 2;
        let mut i: usize = 0;
        proof {
            assert(s.take(0) =~= Seq::empty());
        }
        while i < n
            invariant
                i <= n,
                n == self.entries@.len(),
                s == self@,
                block_fits(s),
                sum == spec_data_len(s.take(i as int)) + 2 * i + 2,
                sum <= i * 0x2_0006 + 2,
            decreases n - i,
        {
            let e = &self.entries[i];
            proof {
                assert(s[i as int] == (self.entries@[i as int].0@, self.entries@[i as int].1@));
                lemma_data_section_take_step(s, i as int);
                assert((i + 1) * 0x2_0006 == i * 0x2_0006 + 0x2_0006) by (nonlinear_arith);
            }
            sum = sum + 4 + e.0.len() as u64 + e.1.len() as u64 + 2;
            i = i + 1;
        }
        proof {
            lemma_data_section_take_all(s);
        }
        sum
    }

    /// Encodes the block into its storage format.
    pub fn encode(&self) -> (r: Vec<u8>)
        requires
            block_fits(self@),
        ensures
            r@ == spec_encode_block(self@),
    {
        let ghost s = self@;
        let n = self.entries.len();
        let mut buf: Vec<u8> = Vec::new();
        proof {
            assert(s.take(0) =~= Seq::empty());
            assert(buf@ =~= spec_data_section(s.take(0)));
        }
        let mut i: usize = 0;
        while i < n
            invariant
                i <= n,
                n == self.entries@.len(),
                s == self@,
                block_fits(s),
                buf@ == spec_data_section(s.take(i as int)),
            decreases n - i,
        {
            let e = &self.entries[i];
            proof {
                assert(s[i as int] == (self.entries@[i as int].0@, self.entries@[i as int].1@));
                lemma_data_section_take_step(s, i as int);
            }
            encode_entry_into(&mut buf, e.0.as_slice(), e.1.as_slice());
            i = i + 1;
        }
        proof {
            lemma_data_section_take_all(s);
        }
        let mut off: u64 = 0;
        let mut i: usize = 0;
        proof {
            assert(s.take(0) =~= Seq::empty());
            assert(buf@ =~= spec_data_section(s) + spec_offsets_section(s.take(0)));
        }
        while i < n
            invariant
                i <= n,
                n == self.entries@.len(),
                s == self@,
                block_fits(s),
                off == spec_offset(s, i as int),
                off <= 0x2_0004 * (i as int),
                buf@ == spec_data_section(s) + spec_offsets_section(s.take(i as int)),
            decreases n - i,
        {
            proof {
                assert(spec_offset(s, i as int) <= 0xffff);
                assert(s[i as int] == (self.entries@[i as int].0@, self.entries@[i as int].1@));
                lemma_data_section_take_step(s, i as int);
                let t = s.take(i + 1);
                assert(t.drop_last() =~= s.take(i as int));
                assert(t.take(i as int) =~= s.take(i as int));
                assert(spec_offset(t, i as int) == spec_offset(s, i as int));
                assert(spec_offsets_section(s.take(i + 1)) == spec_offsets_section(
                    s.take(i as int),
                ) + spec_be16(spec_offset(s, i as int) as u16));
                assert(0x2_0004 * ((i + 1) as int) == 0x2_0004 * (i as int) + 0x2_0004)
                    by (nonlinear_arith);
            }
            put_be16(&mut buf, off as u16);
            proof {
                assert(buf@ =~= spec_data_section(s) + spec_offsets_section(s.take(i + 1)));
            }
            let e = &self.entries[i];
            off = off + 4 + e.0.len() as u64 + e.1.len() as u64;
            i = i + 1;
        }
        proof {
            assert(s.take(n as int) =~= s);
        }
        put_be16(&mut buf, n as u16);
        proof {
            assert(buf@ =~= spec_encode_block(s));
        }
        buf
    }

    /// Decodes and validates a block from its storage format.
    ///
    /// Succeeds exactly when the bytes are a well-formed block encoding:
    /// the trailing count and offset section consistent with the entries,
    /// the data section fully consumed, and the keys strictly ascending.
    #[verifier::loop_isolation(false)]
    pub fn decode(data: &[u8]) -> (r: Result<Blocks, Error>)
        ensures
            match r {
                Ok(b) => spec_parse_block(data@) == Some(b@) && block_wf(b@),
                Err(e) => spec_parse_block(data@) is None && e == Error::Corruption,
            },
    {
        let ghost d = data@;
        let len = data.len();
        if len < 2 {
            return Err(Error::Corruption);
        }
        let count = read_be16(data, len - 2) as usize;
        let ghost n = count as int;
        if len - 2 < 2 * count {
            return Err(Error::Corruption);
        }
        let data_end = len - 2 - 2 * count;
        let mut entries: Vec<(Vec<u8>, Vec<u8>)> = Vec::new();
        let mut pos: usize = 0;
        let mut i: usize = 0;
        proof {
            assert(pairs_view(entries@) =~= Seq::empty());
        }
        while i < count
            invariant
                i <= count,
                d == data@,
                n == count,
                len == d.len(),
                len >= 2 + 2 * n,
                data_end == len - 2 - 2 * count,
                pos <= data_end,
                entries@.len() == i,
                entries_fit(pairs_view(entries@)),
                spec_parse_entries(d, pos as int, data_end as int, n - i) matches Some(rest)
                    ==> spec_parse_entries(d, 0, data_end as int, n) == Some(
                    pairs_view(entries@) + rest,
                ),
                spec_parse_entries(d, pos as int, data_end as int, n - i) is None
                    ==> spec_parse_entries(d, 0, data_end as int, n) is None,
            decreases count - i,
        {
            let ghost old_entries = entries@;
            let ghost old_pos = pos as int;
            match decode_entry(data, pos) {
                Err(_) => {
                    return Err(Error::Corruption);
                },
                Ok((k, v, next)) => {
                    if next > data_end {
                        return Err(Error::Corruption);
                    }
                    proof {
                        crate::codec::lemma_parse_entry_bounds(d, pos as int);
                    }
                    entries.push((k, v));
                    pos = next;
                    i = i + 1;
                    proof {
                        assert(pairs_view(entries@) =~= pairs_view(old_entries) + seq![
                            (k@, v@),
                        ]);
                        assert(entries_fit(pairs_view(entries@)));
                        let r2 = spec_parse_entries(d, pos as int, data_end as int, n - i);
                        if r2 is Some {
                            let rest = r2.unwrap();
                            assert(spec_parse_entries(d, old_pos, data_end as int, n - i + 1)
                                == Some(seq![(k@, v@)] + rest));
                            assert(pairs_view(old_entries) + (seq![(k@, v@)] + rest)
                                =~= pairs_view(entries@) + rest);
                        }
                    }
                },
            }
        }
        if pos != data_end {
            return Err(Error::Corruption);
        }
        let ghost s = pairs_view(entries@);
        proof {
            assert(spec_parse_entries(d, pos as int, data_end as int, 0) == Some(
                Seq::<(Seq<u8>, Seq<u8>)>::empty(),
            ));
            assert(s + Seq::<(Seq<u8>, Seq<u8>)>::empty() =~= s);
            assert(spec_parse_entries(d, 0, data_end as int, n) == Some(s));
        }
        // The offset section must list the offset of every parsed entry.
        let mut off: u64 = 0;
        let mut i: usize = 0;
        proof {
            assert(s.take(0) =~= Seq::empty());
        }
        while i < count
            invariant
                i <= count,
                d == data@,
                n == count,
                len == d.len(),
                len >= 2 + 2 * n,
                data_end == len - 2 - 2 * count,
                s == pairs_view(entries@),
                entries@.len() == count,
                entries_fit(s),
                off == spec_offset(s, i as int),
                off <= 0x2_0004 * (i as int),
                forall|j: int|
                    0 <= j < i ==> spec_be16_val(
                        #[trigger] d[data_end + 2 * j],
                        d[data_end + 2 * j + 1],
                    ) == spec_offset(s, j),
                forall|j: int| 0 <= j < i ==> 0 <= #[trigger] spec_offset(s, j) <= 0xffff,
            decreases count - i,
        {
            let got = read_be16(data, data_end + 2 * i);
            if off > 0xffff || got as u64 != off {
                proof {
                    assert(!spec_offsets_match(d, data_end as int, s));
                }
                return Err(Error::Corruption);
            }
            let e = &entries[i];
            proof {
                assert(s[i as int] == (entries@[i as int].0@, entries@[i as int].1@));
                lemma_data_section_take_step(s, i as int);
                assert(0x2_0004 * ((i + 1) as int) == 0x2_0004 * (i as int) + 0x2_0004)
                    by (nonlinear_arith);
            }
            off = off + 4 + e.0.len() as u64 + e.1.len() as u64;
            i = i + 1;
        }
        // The keys must strictly ascend.
        let mut i: usize = 1;
        while i < count
            invariant
                1 <= i <= count || (count == 0 && i == 1),
                s == pairs_view(entries@),
                entries@.len() == count,
                forall|m: int| 0 < m < i ==> lex_lt(#[trigger] s[m - 1].0, s[m].0),
            decreases count - i,
        {
            let prev = &entries[i - 1];
            let cur = &entries[i];
            proof {
                assert(s[i - 1] == (entries@[i - 1].0@, entries@[i - 1].1@));
                assert(s[i as int] == (entries@[i as int].0@, entries@[i as int].1@));
            }
            if !key_lt(prev.0.as_slice(), cur.0.as_slice()) {
                proof {
                    assert(!entries_sorted(s)) by {
                        if entries_sorted(s) {
                            assert(lex_lt(s[i - 1].0, s[i as int].0));
                        }
                    }
                }
                return Err(Error::Corruption);
            }
            i = i + 1;
        }
        proof {
            lemma_adjacent_implies_sorted(s);
            assert(spec_offsets_match(d, data_end as int, s));
            assert(spec_parse_block(d) == Some(s));
            assert(block_fits(s)) by {
                assert(forall|j: int| 0 <= j < n ==> #[trigger] spec_offset(s, j) <= 0xffff);
                assert(forall|j: int| 0 <= j < n ==> #[trigger] spec_offset(s, j) >= 0);
            }
        }
        Ok(Blocks { entries })
    }
}

} // verus!
