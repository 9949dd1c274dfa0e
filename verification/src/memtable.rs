//! The mutable in-memory table, paired one-to-one with a write-ahead
//! log.
//!
//! Every mutation is encoded as a log record first — log before apply —
//! and only then applied to the sorted table; the embedding program
//! appends the log bytes to the table's log file and forces them durable
//! before letting the mutation return.  A delete is a put of the empty
//! value: the log and the table both keep the empty-value marker.
//! Recovery replays a log's records in order, stopping cleanly at the
//! first record that no longer decodes — a truncated tail from an
//! incomplete write — and treats an empty value as removing the key.

pub mod logger;

use crate::blocks::{
    entries_fit, entries_sorted, pairs_view, spec_contains_key, spec_data_section,
    lemma_data_section_cons,
};
use crate::codec::{
    decode_entry, encode_entry_into, entry_fits, spec_encode_entry, spec_entry_len,
    spec_parse_entry,
};
use crate::error::Error;
use crate::keys::{key_eq, key_lt, lemma_lex_trichotomy, lex_lt};
use vstd::prelude::*;
use vstd::slice::slice_to_vec;

verus! {

/// The key-to-value mapping an association list stands for; a later
/// binding overrides an earlier one.
pub open spec fn pairs_map(s: Seq<(Seq<u8>, Seq<u8>)>) -> Map<Seq<u8>, Seq<u8>>
    decreases s.len(),
{
    if s.len() == 0 {
        Map::empty()
    } else {
        pairs_map(s.drop_last()).insert(s.last().0, s.last().1)
    }
}

/// For a sorted association list the mapping is exact: it binds exactly
/// the listed keys, each to its listed value.
pub proof fn lemma_pairs_map_props(s: Seq<(Seq<u8>, Seq<u8>)>)
    requires
        entries_sorted(s),
    ensures
        forall|k: Seq<u8>|
            #[trigger] pairs_map(s).contains_key(k) <==> spec_contains_key(s, k),
        forall|i: int|
            0 <= i < s.len() ==> pairs_map(s).contains_key(#[trigger] s[i].0) && pairs_map(
                s,
            )[s[i].0] == s[i].1,
    decreases s.len(),
{
    if s.len() > 0 {
        let pre = s.drop_last();
        assert(entries_sorted(pre)) by {
            assert(forall|i: int| 0 <= i < pre.len() ==> #[trigger] pre[i] == s[i]);
        }
        lemma_pairs_map_props(pre);
        assert forall|k: Seq<u8>| #[trigger]
            pairs_map(s).contains_key(k) <==> spec_contains_key(s, k) by {
            if pairs_map(s).contains_key(k) {
                if k == s.last().0 {
                    assert(s[s.len() - 1].0 == k);
                    assert(spec_contains_key(s, k));
                } else {
                    assert(pairs_map(pre).contains_key(k));
                    let i = choose|i: int| 0 <= i < pre.len() && (#[trigger] pre[i]).0 == k;
                    assert(s[i].0 == k);
                }
            }
            if spec_contains_key(s, k) {
                let i = choose|i: int| 0 <= i < s.len() && (#[trigger] s[i]).0 == k;
                if i < s.len() - 1 {
                    assert(pre[i].0 == k);
                    assert(spec_contains_key(pre, k));
                }
            }
        }
        assert forall|i: int|
            0 <= i < s.len() implies pairs_map(s).contains_key(#[trigger] s[i].0) && pairs_map(
            s,
        )[s[i].0] == s[i].1 by {
            if i < s.len() - 1 {
                assert(pre[i] == s[i]);
                assert(lex_lt(s[i].0, s[s.len() - 1].0));
                lemma_lex_trichotomy(s[i].0, s[s.len() - 1].0);
                assert(s[i].0 != s.last().0);
            }
        }
    }
}

/// Replacing the binding at position `i` of a sorted association
/// updates the mapping at that key.
proof fn lemma_assoc_update(
    s: Seq<(Seq<u8>, Seq<u8>)>,
    s2: Seq<(Seq<u8>, Seq<u8>)>,
    i: int,
    k: Seq<u8>,
    v: Seq<u8>,
)
    requires
        entries_sorted(s),
        entries_sorted(s2),
        0 <= i < s.len(),
        s.len() == s2.len(),
        s[i].0 == k,
        forall|x: int| 0 <= x < s2.len() && x != i ==> #[trigger] s2[x] == s[x],
        s2[i] == (k, v),
    ensures
        pairs_map(s2) == pairs_map(s).insert(k, v),
{
    lemma_pairs_map_props(s);
    lemma_pairs_map_props(s2);
    let m2 = pairs_map(s2);
    let mi = pairs_map(s).insert(k, v);
    assert forall|q: Seq<u8>| #[trigger] m2.contains_key(q) implies mi.contains_key(q) && m2[q]
        == mi[q] by {
        let j = choose|j: int| 0 <= j < s2.len() && (#[trigger] s2[j]).0 == q;
        if j == i {
            assert(q == k);
        } else {
            assert(s[j].0 == q);
            assert(q != k) by {
                lemma_lex_trichotomy(s[j].0, s[i].0);
                if j < i {
                    assert(lex_lt(s[j].0, s[i].0));
                } else {
                    assert(lex_lt(s[i].0, s[j].0));
                }
            }
            assert(m2[q] == s2[j].1);
            assert(mi[q] == s[j].1);
        }
    }
    assert forall|q: Seq<u8>| #[trigger] mi.contains_key(q) implies m2.contains_key(q) by {
        if q == k {
            assert(s2[i].0 == q);
            assert(spec_contains_key(s2, q));
        } else {
            let j = choose|j: int| 0 <= j < s.len() && (#[trigger] s[j]).0 == q;
            assert(j != i);
            assert(s2[j].0 == q);
            assert(spec_contains_key(s2, q));
        }
    }
    assert(m2 =~= mi);
}

/// Inserting a fresh binding at its sorted position keeps the
/// association sorted and inserts into the mapping.
proof fn lemma_assoc_insert(
    s: Seq<(Seq<u8>, Seq<u8>)>,
    s2: Seq<(Seq<u8>, Seq<u8>)>,
    i: int,
    k: Seq<u8>,
    v: Seq<u8>,
)
    requires
        entries_sorted(s),
        0 <= i <= s.len(),
        s2.len() == s.len() + 1,
        forall|x: int| 0 <= x < i ==> #[trigger] s2[x] == s[x],
        s2[i] == (k, v),
        forall|x: int| i < x < s2.len() ==> #[trigger] s2[x] == s[x - 1],
        forall|j: int| 0 <= j < i ==> lex_lt((#[trigger] s[j]).0, k),
        i < s.len() ==> lex_lt(k, s[i].0),
    ensures
        entries_sorted(s2),
        pairs_map(s2) == pairs_map(s).insert(k, v),
{
    assert forall|a: int, b: int| 0 <= a < b < s2.len() implies lex_lt(
        (#[trigger] s2[a]).0,
        (#[trigger] s2[b]).0,
    ) by {
        if a == i {
            assert(s2[b] == s[b - 1]);
            assert(lex_lt(k, s[i].0));
            if b - 1 > i {
                assert(lex_lt(s[i].0, s[b - 1].0));
                crate::keys::lemma_lex_lt_transitive(k, s[i].0, s[b - 1].0);
            }
        } else if b == i {
            assert(s2[a] == s[a]);
            assert(lex_lt(s[a].0, k));
        } else if a < i && b > i {
            assert(s2[a] == s[a] && s2[b] == s[b - 1]);
            assert(lex_lt(s[a].0, k));
            assert(lex_lt(k, s[i].0));
            if b - 1 > i {
                assert(lex_lt(s[i].0, s[b - 1].0));
                crate::keys::lemma_lex_lt_transitive(k, s[i].0, s[b - 1].0);
            }
            crate::keys::lemma_lex_lt_transitive(s[a].0, k, s[b - 1].0);
        } else if b < i {
            assert(s2[a] == s[a] && s2[b] == s[b]);
            assert(lex_lt(s[a].0, s[b].0));
        } else {
            assert(s2[a] == s[a - 1] && s2[b] == s[b - 1]);
            assert(lex_lt(s[a - 1].0, s[b - 1].0));
        }
    }
    lemma_pairs_map_props(s);
    lemma_pairs_map_props(s2);
    let m2 = pairs_map(s2);
    let mi = pairs_map(s).insert(k, v);
    assert forall|q: Seq<u8>| #[trigger] m2.contains_key(q) implies mi.contains_key(q) && m2[q]
        == mi[q] by {
        let j = choose|j: int| 0 <= j < s2.len() && (#[trigger] s2[j]).0 == q;
        assert(m2[q] == s2[j].1);
        if j == i {
            assert(q == k);
        } else {
            assert(q != k) by {
                lemma_lex_trichotomy(s2[j].0, s2[i].0);
                if j < i {
                    assert(lex_lt(s2[j].0, s2[i].0));
                } else {
                    assert(lex_lt(s2[i].0, s2[j].0));
                }
            }
            if j < i {
                assert(s[j].0 == q && s[j].1 == s2[j].1);
                assert(mi[q] == s[j].1);
            } else {
                assert(s[j - 1].0 == q && s[j - 1].1 == s2[j].1);
                assert(mi[q] == s[j - 1].1);
            }
        }
    }
    assert forall|q: Seq<u8>| #[trigger] mi.contains_key(q) implies m2.contains_key(q) by {
        if q == k {
            assert(s2[i].0 == q);
            assert(spec_contains_key(s2, q));
        } else {
            let j = choose|j: int| 0 <= j < s.len() && (#[trigger] s[j]).0 == q;
            if j < i {
                assert(s2[j].0 == q);
            } else {
                assert(s2[j + 1].0 == q);
            }
            assert(spec_contains_key(s2, q));
        }
    }
    assert(m2 =~= mi);
}

/// Removing the binding at position `i` of a sorted association keeps
/// it sorted and removes the key from the mapping.
proof fn lemma_assoc_remove(
    s: Seq<(Seq<u8>, Seq<u8>)>,
    s2: Seq<(Seq<u8>, Seq<u8>)>,
    i: int,
    k: Seq<u8>,
)
    requires
        entries_sorted(s),
        0 <= i < s.len(),
        s[i].0 == k,
        s2.len() == s.len() - 1,
        forall|x: int| 0 <= x < i ==> #[trigger] s2[x] == s[x],
        forall|x: int| i <= x < s2.len() ==> #[trigger] s2[x] == s[x + 1],
    ensures
        entries_sorted(s2),
        pairs_map(s2) == pairs_map(s).remove(k),
{
    assert forall|a: int, b: int| 0 <= a < b < s2.len() implies lex_lt(
        (#[trigger] s2[a]).0,
        (#[trigger] s2[b]).0,
    ) by {
        let pa: int = if a < i {
            a
        } else {
            a + 1
        };
        let pb: int = if b < i {
            b
        } else {
            b + 1
        };
        assert(s2[a] == s[pa] && s2[b] == s[pb]);
        assert(lex_lt(s[pa].0, s[pb].0));
    }
    lemma_pairs_map_props(s);
    lemma_pairs_map_props(s2);
    let m2 = pairs_map(s2);
    let mr = pairs_map(s).remove(k);
    assert forall|q: Seq<u8>| #[trigger] m2.contains_key(q) implies mr.contains_key(q) && m2[q]
        == mr[q] by {
        let j = choose|j: int| 0 <= j < s2.len() && (#[trigger] s2[j]).0 == q;
        let pj: int = if j < i {
            j
        } else {
            j + 1
        };
        assert(s2[j] == s[pj]);
        assert(s[pj].0 == q);
        assert(q != k) by {
            lemma_lex_trichotomy(s[pj].0, s[i].0);
            if pj < i {
                assert(lex_lt(s[pj].0, s[i].0));
            } else {
                assert(lex_lt(s[i].0, s[pj].0));
            }
        }
        assert(m2[q] == s2[j].1);
        assert(mr[q] == s[pj].1);
    }
    assert forall|q: Seq<u8>| #[trigger] mr.contains_key(q) implies m2.contains_key(q) by {
        let j = choose|j: int| 0 <= j < s.len() && (#[trigger] s[j]).0 == q;
        assert(q != k);
        assert(j != i);
        if j < i {
            assert(s2[j].0 == q);
        } else {
            assert(s2[j - 1].0 == q);
        }
        assert(spec_contains_key(s2, q));
    }
    assert(m2 =~= mr);
}

/// The records readable from the head of a log: entries parsed one
/// after another, ending cleanly at the first position that no longer
/// parses.
pub open spec fn spec_wal_records(d: Seq<u8>, pos: int) -> Seq<(Seq<u8>, Seq<u8>)>
    decreases d.len() - pos,
{
    match spec_parse_entry(d, pos) {
        Some(((k, v), end)) => if pos < end <= d.len() {
            seq![(k, v)] + spec_wal_records(d, end)
        } else {
            Seq::empty()
        },
        None => Seq::empty(),
    }
}

/// Replaying records as the live table applies them: every record is a
/// put, an empty value stored as the empty-value marker.
pub open spec fn spec_replay_live(rs: Seq<(Seq<u8>, Seq<u8>)>) -> Map<Seq<u8>, Seq<u8>> {
    pairs_map(rs)
}

/// Replaying records as recovery applies them: an empty value removes
/// the key instead of binding it.
pub open spec fn spec_replay_recover(rs: Seq<(Seq<u8>, Seq<u8>)>) -> Map<Seq<u8>, Seq<u8>>
    decreases rs.len(),
{
    if rs.len() == 0 {
        Map::empty()
    } else {
        let m = spec_replay_recover(rs.drop_last());
        if rs.last().1.len() == 0 {
            m.remove(rs.last().0)
        } else {
            m.insert(rs.last().0, rs.last().1)
        }
    }
}

/// Reading the records back from their concatenated encodings returns
/// the records.
#[verifier::rlimit(60)]
pub proof fn lemma_wal_records_of_encoding(d: Seq<u8>, pos: int, rs: Seq<(Seq<u8>, Seq<u8>)>)
    requires
        entries_fit(rs),
        0 <= pos,
        d.len() == pos + spec_data_section(rs).len(),
        d.subrange(pos, d.len() as int) == spec_data_section(rs),
    ensures
        spec_wal_records(d, pos) == rs,
    decreases rs.len(),
{
    if rs.len() == 0 {
        assert(spec_parse_entry(d, pos) is None);
        assert(rs =~= Seq::<(Seq<u8>, Seq<u8>)>::empty());
    } else {
        let k = rs[0].0;
        let v = rs[0].1;
        let el = spec_entry_len(k, v);
        lemma_data_section_cons(rs);
        let pre = d.subrange(0, pos);
        assert(d =~= pre + spec_encode_entry(k, v) + spec_data_section(rs.drop_first())) by {
            assert forall|i: int| 0 <= i < d.len() implies d[i] == (pre + spec_encode_entry(k, v)
                + spec_data_section(rs.drop_first()))[i] by {
                if i >= pos {
                    assert(d.subrange(pos, d.len() as int)[i - pos] == d[i]);
                }
            }
        }
        crate::codec::lemma_parse_entry_of_encoding(
            pre,
            k,
            v,
            spec_data_section(rs.drop_first()),
        );
        assert(spec_parse_entry(d, pos) == Some(((k, v), pos + el)));
        let rest = rs.drop_first();
        assert(entries_fit(rest)) by {
            assert(forall|i: int| 0 <= i < rest.len() ==> #[trigger] rest[i] == rs[i + 1]);
        }
        assert(d.subrange(pos + el, d.len() as int) == spec_data_section(rest)) by {
            assert forall|i: int| 0 <= i < spec_data_section(rest).len() implies d.subrange(
                pos + el,
                d.len() as int,
            )[i] == spec_data_section(rest)[i] by {
                assert(d.subrange(pos, d.len() as int)[el + i] == d[pos + el + i]);
                assert(spec_data_section(rs)[el + i] == (spec_encode_entry(k, v)
                    + spec_data_section(rest))[el + i]);
            }
            assert(d.subrange(pos + el, d.len() as int) =~= spec_data_section(rest));
        }
        lemma_wal_records_of_encoding(d, pos + el, rest);
        assert(seq![(k, v)] + rest =~= rs);
    }
}

/// A mutable sorted table backing active writes, paired with the bytes
/// of its write-ahead log.
///
/// The spec view of the table is its key-to-value mapping.
pub struct MemTable {
    /// The sorted association of keys to values.
    table: Vec<(Vec<u8>, Vec<u8>)>,
    /// The table's unique sequence number, which names its log file.
    seq: u64,
    /// The bytes logged so far: the concatenated record encodings.
    wal: Vec<u8>,
    /// The records those bytes encode.
    records: Ghost<Seq<(Seq<u8>, Seq<u8>)>>,
}

impl View for MemTable {
    type V = Map<Seq<u8>, Seq<u8>>;

    closed spec fn view(&self) -> Map<Seq<u8>, Seq<u8>> {
        pairs_map(pairs_view(self.table@))
    }
}

impl MemTable {
    /// The bytes of the write-ahead log.
    pub closed spec fn wal_view(&self) -> Seq<u8> {
        self.wal@
    }

    /// The records the log holds, in order.
    pub closed spec fn records_view(&self) -> Seq<(Seq<u8>, Seq<u8>)> {
        self.records@
    }

    /// The table's sequence number.
    pub closed spec fn seq_view(&self) -> u64 {
        self.seq
    }

    /// The table is consistent: sorted unique keys within the
    /// length-prefixed format, and a log that is exactly the encodings
    /// of its records.
    pub closed spec fn wf(&self) -> bool {
        &&& entries_sorted(pairs_view(self.table@))
        &&& entries_fit(pairs_view(self.table@))
        &&& entries_fit(self.records@)
        &&& self.wal@ == spec_data_section(self.records@)
    }

    /// Every logged record has been applied as a put: true of a table
    /// mutated only through [`MemTable::put`] and [`MemTable::delete`].
    pub closed spec fn logs_applied(&self) -> bool {
        self@ == spec_replay_live(self.records@)
    }

    /// A fresh, empty table under sequence number `seq`; its log starts
    /// empty.
    pub fn new(seq: u64) -> (r: MemTable)
        ensures
            r.wf(),
            r.logs_applied(),
            r@ == Map::<Seq<u8>, Seq<u8>>::empty(),
            r.wal_view() == Seq::<u8>::empty(),
            r.records_view() == Seq::<(Seq<u8>, Seq<u8>)>::empty(),
            r.seq_view() == seq,
    {
        let r = MemTable { table: Vec::new(), seq, wal: Vec::new(), records: Ghost(Seq::empty()) };
        proof {
            assert(pairs_view(r.table@) =~= Seq::<(Seq<u8>, Seq<u8>)>::empty());
            assert(r.wal@ =~= spec_data_section(r.records@));
        }
        r
    }

    /// The table's sequence number.
    pub fn seq_num(&self) -> (r: u64)
        ensures
            r == self.seq_view(),
    {
        self.seq
    }

    /// The log bytes accumulated so far, for the embedding program to
    /// append and sync.
    pub fn wal_bytes(&self) -> (r: &Vec<u8>)
        ensures
            r@ == self.wal_view(),
    {
        &self.wal
    }

    /// Stores `value` under `key`: the record is logged first, then the
    /// binding is applied to the table.
    pub fn put(&mut self, key: &[u8], value: &[u8]) -> (r: Result<(), Error>)
        requires
            old(self).wf(),
            entry_fits(key@, value@),
        ensures
            final(self).wf(),
            r is Ok,
            final(self)@ == old(self)@.insert(key@, value@),
            final(self).wal_view() == old(self).wal_view() + spec_encode_entry(key@, value@),
            final(self).records_view() == old(self).records_view().push((key@, value@)),
            final(self).seq_view() == old(self).seq_view(),
            old(self).logs_applied() ==> final(self).logs_applied(),
    {
        // Log before apply: the record's bytes come first.
        encode_entry_into(&mut self.wal, key, value);
        proof {
            let rs = self.records@.push((key@, value@));
            assert(rs.drop_last() =~= self.records@);
            assert(self.wal@ == spec_data_section(rs));
            self.records@ = rs;
        }
        self.apply_put(key, value);
        Ok(())
    }

    /// Applies a binding to the sorted table, keeping it sorted: an
    /// existing binding of the key is replaced.
    fn apply_put(&mut self, key: &[u8], value: &[u8])
        requires
            entries_sorted(pairs_view(old(self).table@)),
            entries_fit(pairs_view(old(self).table@)),
            entry_fits(key@, value@),
        ensures
            entries_sorted(pairs_view(final(self).table@)),
            entries_fit(pairs_view(final(self).table@)),
            pairs_map(pairs_view(final(self).table@)) == pairs_map(
                pairs_view(old(self).table@),
            ).insert(key@, value@),
            final(self).wal == old(self).wal,
            final(self).records == old(self).records,
            final(self).seq == old(self).seq,
    {
        let ghost s = pairs_view(self.table@);
        proof {
            lemma_pairs_map_props(s);
        }
        let n = self.table.len();
        let mut i: usize = 0;
        while i < n
            invariant
                i <= n,
                n == self.table@.len(),
                *self == *old(self),
                s == pairs_view(self.table@),
                entries_sorted(s),
                forall|j: int| 0 <= j < i ==> lex_lt((#[trigger] s[j]).0, key@),
            ensures
                i <= n,
                n == self.table@.len(),
                *self == *old(self),
                s == pairs_view(self.table@),
                entries_sorted(s),
                forall|j: int| 0 <= j < i ==> lex_lt((#[trigger] s[j]).0, key@),
                i < n ==> !lex_lt(s[i as int].0, key@),
            decreases n - i,
        {
            proof {
                assert(s[i as int] == (self.table@[i as int].0@, self.table@[i as int].1@));
            }
            if !key_lt(self.table[i].0.as_slice(), key) {
                break;
            }
            i = i + 1;
        }
        let k = slice_to_vec(key);
        let v = slice_to_vec(value);
        if i < n {
            proof {
                assert(s[i as int] == (self.table@[i as int].0@, self.table@[i as int].1@));
            }
            if key_eq(self.table[i].0.as_slice(), key) {
                // Replace the existing binding.
                self.table.remove(i);
                self.table.insert(i, (k, v));
                proof {
                    let s2 = pairs_view(self.table@);
                    assert(s2 =~= s.update(i as int, (key@, value@)));
                    assert(forall|x: int| 0 <= x < s2.len() && x != i ==> #[trigger] s2[x] == s[x]);
                    assert(s2[i as int] == (key@, value@));
                    assert forall|a: int, b: int| 0 <= a < b < s2.len() implies lex_lt(
                        (#[trigger] s2[a]).0,
                        (#[trigger] s2[b]).0,
                    ) by {
                        assert(lex_lt(s[a].0, s[b].0));
                        assert(s[i as int].0 == key@);
                    }
                    lemma_pairs_map_props(s2);
                    lemma_assoc_update(s, s2, i as int, key@, value@);
                }
                return;
            }
        }
        // Insert a fresh binding at position `i`.
        proof {
            if i < n {
                assert(s[i as int] == (self.table@[i as int].0@, self.table@[i as int].1@));
                lemma_lex_trichotomy(s[i as int].0, key@);
                assert(lex_lt(key@, s[i as int].0));
            }
        }
        self.table.insert(i, (k, v));
        proof {
            let s2 = pairs_view(self.table@);
            assert(s2 =~= s.insert(i as int, (key@, value@)));
            assert(forall|x: int| 0 <= x < i ==> #[trigger] s2[x] == s[x]);
            assert(s2[i as int] == (key@, value@));
            assert(forall|x: int| i < x < s2.len() ==> #[trigger] s2[x] == s[x - 1]);
            lemma_assoc_insert(s, s2, i as int, key@, value@);
        }
    }

    /// The value stored under `key`, verbatim: a deleted key reads back
    /// as the empty-value marker, not as absence.
    #[verifier::loop_isolation(false)]
    pub fn get(&self, key: &[u8]) -> (r: Option<Vec<u8>>)
        requires
            self.wf(),
        ensures
            match r {
                Some(v) => self@.contains_key(key@) && self@[key@] == v@,
                None => !self@.contains_key(key@),
            },
    {
        let ghost s = pairs_view(self.table@);
        proof {
            lemma_pairs_map_props(s);
        }
        let n = self.table.len();
        let mut i: usize = 0;
        while i < n
            invariant
                i <= n,
                n == self.table@.len(),
                s == pairs_view(self.table@),
                forall|j: int| 0 <= j < i ==> (#[trigger] s[j]).0 != key@,
            decreases n - i,
        {
            proof {
                assert(s[i as int] == (self.table@[i as int].0@, self.table@[i as int].1@));
            }
            if key_eq(self.table[i].0.as_slice(), key) {
                proof {
                    assert(spec_contains_key(s, key@)) by {
                        assert(s[i as int].0 == key@);
                    }
                }
                return Some(crate::blocks::clone_bytes(&self.table[i].1));
            }
            i = i + 1;
        }
        proof {
            assert(!spec_contains_key(s, key@));
        }
        None
    }

    /// Deletes `key`: a put of the empty value, the stored delete
    /// marker.
    pub fn delete(&mut self, key: &[u8]) -> (r: Result<(), Error>)
        requires
            old(self).wf(),
            key@.len() <= 0xffff,
        ensures
            final(self).wf(),
            r is Ok,
            final(self)@ == old(self)@.insert(key@, Seq::<u8>::empty()),
            final(self).wal_view() == old(self).wal_view() + spec_encode_entry(
                key@,
                Seq::<u8>::empty(),
            ),
            final(self).records_view() == old(self).records_view().push(
                (key@, Seq::<u8>::empty()),
            ),
            final(self).seq_view() == old(self).seq_view(),
            old(self).logs_applied() ==> final(self).logs_applied(),
    {
        let empty: Vec<u8> = Vec::new();
        let r = self.put(key, empty.as_slice());
        proof {
            assert(empty@ =~= Seq::<u8>::empty());
        }
        r
    }

    /// Rebuilds a table by replaying a write-ahead log from its start:
    /// each record is applied in order — an empty value removes its key
    /// — and replay stops cleanly at the first record that does not
    /// decode, keeping everything reconstructed so far.
    #[verifier::loop_isolation(false)]
    pub fn recover(seq: u64, wal: &[u8]) -> (m: MemTable)
        ensures
            m.wf(),
            m@ == spec_replay_recover(spec_wal_records(wal@, 0)),
            m.records_view() == spec_wal_records(wal@, 0),
            m.seq_view() == seq,
    {
        let ghost d = wal@;
        let mut m = MemTable::new(seq);
        let mut pos: usize = 0;
        loop
            invariant
                m.wf(),
                pos <= d.len(),
                m.seq_view() == seq,
                m@ == spec_replay_recover(m.records_view()),
                spec_wal_records(d, 0) == m.records_view() + spec_wal_records(d, pos as int),
            decreases d.len() - pos,
        {
            let ghost old_records = m.records_view();
            match decode_entry(wal, pos) {
                Err(_) => {
                    proof {
                        assert(spec_wal_records(d, pos as int) =~= Seq::<
                            (Seq<u8>, Seq<u8>),
                        >::empty());
                        assert(spec_wal_records(d, 0) =~= m.records_view());
                    }
                    return m;
                },
                Ok((k, v, end)) => {
                    proof {
                        crate::codec::lemma_parse_entry_bounds(d, pos as int);
                    }
                    if v.len() == 0 {
                        proof {
                            assert(v@ =~= Seq::<u8>::empty());
                        }
                        m.apply_delete_record(k.as_slice());
                    } else {
                        m.apply_put_record(k.as_slice(), v.as_slice());
                    }
                    proof {
                        let rs2 = old_records.push((k@, v@));
                        assert(rs2.drop_last() =~= old_records);
                        assert(m.records_view() == rs2);
                        assert(spec_wal_records(d, pos as int) == seq![(k@, v@)]
                            + spec_wal_records(d, end as int));
                        assert(spec_wal_records(d, 0) =~= m.records_view() + spec_wal_records(
                            d,
                            end as int,
                        ));
                    }
                    pos = end;
                },
            }
        }
    }

    /// Replays one put record during recovery.
    fn apply_put_record(&mut self, key: &[u8], value: &[u8])
        requires
            old(self).wf(),
            entry_fits(key@, value@),
            value@.len() > 0,
        ensures
            final(self).wf(),
            final(self)@ == old(self)@.insert(key@, value@),
            final(self).records_view() == old(self).records_view().push((key@, value@)),
            final(self).wal_view() == old(self).wal_view() + spec_encode_entry(key@, value@),
            final(self).seq_view() == old(self).seq_view(),
            old(self)@ == spec_replay_recover(old(self).records_view()) ==> final(self)@
                == spec_replay_recover(final(self).records_view()),
    {
        encode_entry_into(&mut self.wal, key, value);
        proof {
            let rs = self.records@.push((key@, value@));
            assert(rs.drop_last() =~= self.records@);
            assert(self.wal@ == spec_data_section(rs));
            self.records@ = rs;
        }
        self.apply_put(key, value);
    }

    /// Replays one delete record during recovery: the key is removed.
    fn apply_delete_record(&mut self, key: &[u8])
        requires
            old(self).wf(),
            key@.len() <= 0xffff,
        ensures
            final(self).wf(),
            final(self)@ == old(self)@.remove(key@),
            final(self).records_view() == old(self).records_view().push(
                (key@, Seq::<u8>::empty()),
            ),
            final(self).wal_view() == old(self).wal_view() + spec_encode_entry(
                key@,
                Seq::<u8>::empty(),
            ),
            final(self).seq_view() == old(self).seq_view(),
            old(self)@ == spec_replay_recover(old(self).records_view()) ==> final(self)@
                == spec_replay_recover(final(self).records_view()),
    {
        let empty: Vec<u8> = Vec::new();
        encode_entry_into(&mut self.wal, key, empty.as_slice());
        proof {
            assert(empty@ =~= Seq::<u8>::empty());
            let rs = self.records@.push((key@, Seq::<u8>::empty()));
            assert(rs.drop_last() =~= self.records@);
            assert(self.wal@ == spec_data_section(rs));
            self.records@ = rs;
        }
        self.apply_remove(key);
    }

    /// Removes a key from the sorted table, if present.
    #[verifier::loop_isolation(false)]
    fn apply_remove(&mut self, key: &[u8])
        requires
            entries_sorted(pairs_view(old(self).table@)),
            entries_fit(pairs_view(old(self).table@)),
        ensures
            entries_sorted(pairs_view(final(self).table@)),
            entries_fit(pairs_view(final(self).table@)),
            pairs_map(pairs_view(final(self).table@)) == pairs_map(
                pairs_view(old(self).table@),
            ).remove(key@),
            final(self).wal == old(self).wal,
            final(self).records == old(self).records,
            final(self).seq == old(self).seq,
    {
        let ghost s = pairs_view(self.table@);
        proof {
            lemma_pairs_map_props(s);
        }
        let n = self.table.len();
        let mut i: usize = 0;
        while i < n
            invariant
                i <= n,
                *self == *old(self),
                forall|j: int| 0 <= j < i ==> (#[trigger] s[j]).0 != key@,
            decreases n - i,
        {
            proof {
                assert(s[i as int] == (self.table@[i as int].0@, self.table@[i as int].1@));
            }
            if key_eq(self.table[i].0.as_slice(), key) {
                self.table.remove(i);
                proof {
                    let s2 = pairs_view(self.table@);
                    assert(s2 =~= s.remove(i as int));
                    assert(forall|x: int| 0 <= x < i ==> #[trigger] s2[x] == s[x]);
                    assert(forall|x: int| i <= x < s2.len() ==> #[trigger] s2[x] == s[x + 1]);
                    lemma_assoc_remove(s, s2, i as int, key@);
                }
                return;
            }
            i = i + 1;
        }
        proof {
            assert(!spec_contains_key(s, key@));
            assert(pairs_map(s) =~= pairs_map(s).remove(key@)) by {
                assert(!pairs_map(s).contains_key(key@));
            }
        }
    }
}

/// When a table has seen only puts of non-empty values, recovering from
/// its log reproduces its mapping exactly: the round trip through the
/// write-ahead log loses nothing.  (A delete leaves the live table
/// holding the empty-value marker while recovery removes the key, so
/// logs holding empty-value records are excluded.)
pub proof fn lemma_recover_matches_live(m: &MemTable)
    requires
        m.wf(),
        m.logs_applied(),
        forall|i: int| 0 <= i < m.records_view().len() ==> (#[trigger] m.records_view()[i]).1.len() > 0,
    ensures
        spec_replay_recover(spec_wal_records(m.wal_view(), 0)) == m@,
{
    assert(m.wal_view().subrange(0, m.wal_view().len() as int) =~= m.wal_view());
    lemma_wal_records_of_encoding(m.wal_view(), 0, m.records_view());
    lemma_replay_agree(m.records_view());
}

/// Replaying without deletes, the live and the recovery semantics
/// agree.
proof fn lemma_replay_agree(rs: Seq<(Seq<u8>, Seq<u8>)>)
    requires
        forall|i: int| 0 <= i < rs.len() ==> (#[trigger] rs[i]).1.len() > 0,
    ensures
        spec_replay_recover(rs) == spec_replay_live(rs),
    decreases rs.len(),
{
    if rs.len() > 0 {
        assert(forall|i: int|
            0 <= i < rs.len() - 1 ==> (#[trigger] rs.drop_last()[i]).1.len() > 0);
        lemma_replay_agree(rs.drop_last());
        assert(rs[rs.len() - 1].1.len() > 0);
    }
}

} // verus!
