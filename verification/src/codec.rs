//! The shared binary codec.
//!
//! Every multi-byte integer of the storage formats is big-endian.  An
//! entry — the unit shared by blocks and the write-ahead log — is a pair
//! of byte strings, each prefixed by its length as an unsigned 16-bit
//! integer:
//!
//! ```text
//! | key length (2 bytes) | key | value length (2 bytes) | value |
//! ```

use crate::error::Error;
use vstd::prelude::*;
use vstd::slice::{slice_index_get, slice_subrange, slice_to_vec};

verus! {

/// The two big-endian bytes of a 16-bit integer.
pub open spec fn spec_be16(x: u16) -> Seq<u8> {
    seq![(x >> 8) as u8, x as u8]
}

/// The 16-bit integer read from two big-endian bytes.
pub open spec fn spec_be16_val(b0: u8, b1: u8) -> u16 {
    (((b0 as u16) << 8) | (b1 as u16)) as u16
}

/// Reading back the two bytes of a 16-bit integer returns the integer.
pub proof fn lemma_be16_round_trip(x: u16)
    ensures
        spec_be16_val(spec_be16(x)[0], spec_be16(x)[1]) == x,
{
    assert(((((x >> 8) as u8) as u16) << 8) | ((x as u8) as u16) == x) by (bit_vector);
}

/// Appends the two big-endian bytes of `x`.
pub fn put_be16(buf: &mut Vec<u8>, x: u16)
    ensures
        final(buf)@ == old(buf)@ + spec_be16(x),
{
    buf.push((x >> 8) as u8);
    buf.push(x as u8);
    assert(buf@ =~= old(buf)@ + spec_be16(x));
}

/// Reads a big-endian 16-bit integer at `pos`.
pub fn read_be16(d: &[u8], pos: usize) -> (x: u16)
    requires
        pos + 2 <= d@.len(),
    ensures
        x == spec_be16_val(d@[pos as int], d@[pos + 1]),
{
    let _n = d.len();
    let b0 = *slice_index_get(d, pos);
    let b1 = *slice_index_get(d, pos + 1);
    ((b0 as u16) << 8) | (b1 as u16)
}

/// The eight big-endian bytes of a 64-bit integer.
pub open spec fn spec_be64(x: u64) -> Seq<u8> {
    seq![
        (x >> 56) as u8,
        (x >> 48) as u8,
        (x >> 40) as u8,
        (x >> 32) as u8,
        (x >> 24) as u8,
        (x >> 16) as u8,
        (x >> 8) as u8,
        x as u8,
    ]
}

/// The 64-bit integer read from eight big-endian bytes.
pub open spec fn spec_be64_val(b: Seq<u8>) -> u64
    recommends
        b.len() == 8,
{
    (((b[0] as u64) << 56) | ((b[1] as u64) << 48) | ((b[2] as u64) << 40) | ((b[3] as u64) << 32)
        | ((b[4] as u64) << 24) | ((b[5] as u64) << 16) | ((b[6] as u64) << 8) | (b[7] as u64)) as u64
}

/// Reading back the eight bytes of a 64-bit integer returns the integer.
pub proof fn lemma_be64_round_trip(x: u64)
    ensures
        spec_be64_val(spec_be64(x)) == x,
{
    assert(((((x >> 56) as u8) as u64) << 56) | ((((x >> 48) as u8) as u64) << 48)
        | ((((x >> 40) as u8) as u64) << 40) | ((((x >> 32) as u8) as u64) << 32)
        | ((((x >> 24) as u8) as u64) << 24) | ((((x >> 16) as u8) as u64) << 16)
        | ((((x >> 8) as u8) as u64) << 8) | ((x as u8) as u64) == x) by (bit_vector);
}

/// Appends the eight big-endian bytes of `x`.
pub fn put_be64(buf: &mut Vec<u8>, x: u64)
    ensures
        final(buf)@ == old(buf)@ + spec_be64(x),
{
    buf.push((x >> 56) as u8);
    buf.push((x >> 48) as u8);
    buf.push((x >> 40) as u8);
    buf.push((x >> 32) as u8);
    buf.push((x >> 24) as u8);
    buf.push((x >> 16) as u8);
    buf.push((x >> 8) as u8);
    buf.push(x as u8);
    assert(buf@ =~= old(buf)@ + spec_be64(x));
}

/// Reads a big-endian 64-bit integer at `pos`.
pub fn read_be64(d: &[u8], pos: usize) -> (x: u64)
    requires
        pos + 8 <= d@.len(),
    ensures
        x == spec_be64_val(d@.subrange(pos as int, pos + 8)),
{
    let _n = d.len();
    let b0 = *slice_index_get(d, pos);
    let b1 = *slice_index_get(d, pos + 1);
    let b2 = *slice_index_get(d, pos + 2);
    let b3 = *slice_index_get(d, pos + 3);
    let b4 = *slice_index_get(d, pos + 4);
    let b5 = *slice_index_get(d, pos + 5);
    let b6 = *slice_index_get(d, pos + 6);
    let b7 = *slice_index_get(d, pos + 7);
    ((b0 as u64) << 56) | ((b1 as u64) << 48) | ((b2 as u64) << 40) | ((b3 as u64) << 32)
        | ((b4 as u64) << 24) | ((b5 as u64) << 16) | ((b6 as u64) << 8) | (b7 as u64)
}

/// Whether a key and a value fit the format: each length-prefixed by an
/// unsigned 16-bit integer, so each at most 65,535 bytes.
pub open spec fn entry_fits(k: Seq<u8>, v: Seq<u8>) -> bool {
    k.len() <= 0xffff && v.len() <= 0xffff
}

/// The number of bytes an encoded entry occupies.
pub open spec fn spec_entry_len(k: Seq<u8>, v: Seq<u8>) -> int {
    4 + k.len() as int + v.len() as int
}

/// The encoding of one entry.
pub open spec fn spec_encode_entry(k: Seq<u8>, v: Seq<u8>) -> Seq<u8>
    recommends
        entry_fits(k, v),
{
    spec_be16(k.len() as u16) + k + spec_be16(v.len() as u16) + v
}

/// Parses one entry at position `pos` of `d`: the key, the value, and the
/// position just past the entry.  `None` on truncated input.
pub open spec fn spec_parse_entry(d: Seq<u8>, pos: int) -> Option<((Seq<u8>, Seq<u8>), int)> {
    if 0 <= pos && pos + 2 <= d.len() {
        let kl = spec_be16_val(d[pos], d[pos + 1]) as int;
        if pos + 4 + kl <= d.len() {
            let vl = spec_be16_val(d[pos + 2 + kl], d[pos + 3 + kl]) as int;
            if pos + 4 + kl + vl <= d.len() {
                Some(
                    ((d.subrange(pos + 2, pos + 2 + kl), d.subrange(pos + 4 + kl, pos + 4 + kl + vl)),
                    pos + 4 + kl + vl),
                )
            } else {
                None
            }
        } else {
            None
        }
    } else {
        None
    }
}

/// A parsed entry consumes at least its two length fields and ends inside
/// the input.
pub proof fn lemma_parse_entry_bounds(d: Seq<u8>, pos: int)
    requires
        spec_parse_entry(d, pos) is Some,
    ensures
        pos + 4 <= spec_parse_entry(d, pos).unwrap().1 <= d.len(),
        entry_fits(
            spec_parse_entry(d, pos).unwrap().0.0,
            spec_parse_entry(d, pos).unwrap().0.1,
        ),
{
}

/// Parsing an encoded entry embedded at `pos` returns exactly the key and
/// the value that were encoded.
pub proof fn lemma_parse_entry_of_encoding(pre: Seq<u8>, k: Seq<u8>, v: Seq<u8>, suf: Seq<u8>)
    requires
        entry_fits(k, v),
    ensures
        spec_parse_entry(pre + spec_encode_entry(k, v) + suf, pre.len() as int) == Some(
            ((k, v), pre.len() + spec_entry_len(k, v)),
        ),
{
    let d = pre + spec_encode_entry(k, v) + suf;
    let pos = pre.len() as int;
    lemma_be16_round_trip(k.len() as u16);
    lemma_be16_round_trip(v.len() as u16);
    assert(d[pos] == spec_be16(k.len() as u16)[0]);
    assert(d[pos + 1] == spec_be16(k.len() as u16)[1]);
    let kl = k.len() as int;
    assert(spec_be16_val(d[pos], d[pos + 1]) == k.len());
    assert(d[pos + 2 + kl] == spec_be16(v.len() as u16)[0]);
    assert(d[pos + 3 + kl] == spec_be16(v.len() as u16)[1]);
    assert(spec_be16_val(d[pos + 2 + kl], d[pos + 3 + kl]) == v.len());
    let vl = v.len() as int;
    assert(d.subrange(pos + 2, pos + 2 + kl) =~= k);
    assert(d.subrange(pos + 4 + kl, pos + 4 + kl + vl) =~= v);
}

/// Round-trip of the entry codec: decoding an encoded entry returns the
/// entry, and consumes exactly its encoded length.
pub proof fn lemma_entry_round_trip(k: Seq<u8>, v: Seq<u8>)
    requires
        entry_fits(k, v),
    ensures
        spec_parse_entry(spec_encode_entry(k, v), 0) == Some(((k, v), spec_entry_len(k, v))),
{
    lemma_parse_entry_of_encoding(Seq::empty(), k, v, Seq::empty());
    assert(Seq::<u8>::empty() + spec_encode_entry(k, v) + Seq::<u8>::empty()
        =~= spec_encode_entry(k, v));
}

/// Encodes one entry and appends it to `buf`.
pub fn encode_entry_into(buf: &mut Vec<u8>, key: &[u8], value: &[u8])
    requires
        entry_fits(key@, value@),
    ensures
        final(buf)@ == old(buf)@ + spec_encode_entry(key@, value@),
{
    put_be16(buf, key.len() as u16);
    buf.extend_from_slice(key);
    put_be16(buf, value.len() as u16);
    buf.extend_from_slice(value);
    assert(buf@ =~= old(buf)@ + spec_encode_entry(key@, value@));
}

/// Encodes one entry: the length-prefixed key followed by the
/// length-prefixed value.
pub fn encode_entry(key: &[u8], value: &[u8]) -> (r: Vec<u8>)
    requires
        entry_fits(key@, value@),
    ensures
        r@ == spec_encode_entry(key@, value@),
{
    let mut buf: Vec<u8> = Vec::new();
    encode_entry_into(&mut buf, key, value);
    assert(buf@ =~= spec_encode_entry(key@, value@));
    buf
}

/// Decodes the entry at position `pos` of `data`: the key, the value, and
/// the position just past the entry.  Truncated or malformed input is a
/// corruption.
pub fn decode_entry(data: &[u8], pos: usize) -> (r: Result<(Vec<u8>, Vec<u8>, usize), Error>)
    ensures
        match r {
            Ok((k, v, end)) => spec_parse_entry(data@, pos as int) == Some(
                ((k@, v@), end as int),
            ),
            Err(e) => spec_parse_entry(data@, pos as int) is None && e == Error::Corruption,
        },
{
    let n = data.len();
    if pos >= n || n - pos < 2 {
        return Err(Error::Corruption);
    }
    let kl = read_be16(data, pos) as usize;
    if n - pos - 2 < kl || n - pos - 2 - kl < 2 {
        return Err(Error::Corruption);
    }
    let key = slice_to_vec(slice_subrange(data, pos + 2, pos + 2 + kl));
    let vl = read_be16(data, pos + 2 + kl) as usize;
    if n - pos - 4 - kl < vl {
        return Err(Error::Corruption);
    }
    let value = slice_to_vec(slice_subrange(data, pos + 4 + kl, pos + 4 + kl + vl));
    Ok((key, value, pos + 4 + kl + vl))
}

} // verus!
