//! The mathematical model of the store: how a history of appended records
//! lays out as log bytes, what replaying a history yields, and how the
//! in-memory index behaves as an association sequence from keys to locations.

use vstd::prelude::*;

use crate::codec::entry_bytes;
use crate::codec::u64_le_bytes;
use crate::codec::lemma_u64_le_bytes_injective;

verus! {

/// Where one record of the log lives: its byte offset, its encoded length,
/// and the value it carries.
pub ghost struct LocModel {
    pub start: u64,
    pub size: u64,
    pub value: u64,
}

/// The concatenation of the encodings of a history of `(key, value)` records,
/// in append order.
pub open spec fn concat_entries(h: Seq<(Seq<char>, u64)>) -> Seq<u8>
    decreases h.len(),
{
    if h.len() == 0 {
        Seq::empty()
    } else {
        concat_entries(h.drop_last()) + entry_bytes(h.last().0, h.last().1)
    }
}

/// The key/value map that a history denotes: the latest record for a key
/// wins.
pub open spec fn replay_map(h: Seq<(Seq<char>, u64)>) -> Map<Seq<char>, u64>
    decreases h.len(),
{
    if h.len() == 0 {
        Map::empty()
    } else {
        replay_map(h.drop_last()).insert(h.last().0, h.last().1)
    }
}

/// Whether `bytes` is exactly the log that the history `h` produces: the
/// record count as an eight-byte little-endian header, then the records in
/// order. A file of no bytes at all counts as the empty history, the
/// deliberate fresh-store fallback.
pub open spec fn parses(bytes: Seq<u8>, h: Seq<(Seq<char>, u64)>) -> bool {
    if bytes.len() == 0 {
        h.len() == 0
    } else {
        h.len() <= u64::MAX && bytes == u64_le_bytes(h.len() as u64) + concat_entries(h)
    }
}

/// A value `None`/`Some` lookup in a key/value map.
pub open spec fn lookup(m: Map<Seq<char>, u64>, k: Seq<char>) -> Option<u64> {
    if m.contains_key(k) {
        Some(m[k])
    } else {
        None
    }
}

/// No two positions of the association sequence hold the same key.
pub open spec fn distinct_keys(s: Seq<(Seq<char>, LocModel)>) -> bool {
    forall|i: int, j: int| 0 <= i < j < s.len() ==> s[i].0 != s[j].0
}

/// Whether the association sequence holds the key.
pub open spec fn assoc_has(s: Seq<(Seq<char>, LocModel)>, k: Seq<char>) -> bool {
    exists|i: int| 0 <= i < s.len() && s[i].0 == k
}

/// The position at which the association sequence holds the key.
pub open spec fn assoc_idx(s: Seq<(Seq<char>, LocModel)>, k: Seq<char>) -> int {
    choose|i: int| 0 <= i < s.len() && s[i].0 == k
}

/// The location stored for the key.
pub open spec fn assoc_loc(s: Seq<(Seq<char>, LocModel)>, k: Seq<char>) -> LocModel {
    s[assoc_idx(s, k)].1
}

/// The key/value map that the association sequence denotes.
pub open spec fn assoc_map(s: Seq<(Seq<char>, LocModel)>) -> Map<Seq<char>, u64> {
    Map::new(|k: Seq<char>| assoc_has(s, k), |k: Seq<char>| assoc_loc(s, k).value)
}

/// Insert-or-overwrite on the association sequence: an existing key keeps its
/// position, a new key goes at the end.
pub open spec fn assoc_update(
    s: Seq<(Seq<char>, LocModel)>,
    k: Seq<char>,
    l: LocModel,
) -> Seq<(Seq<char>, LocModel)> {
    if assoc_has(s, k) {
        s.update(assoc_idx(s, k), (k, l))
    } else {
        s.push((k, l))
    }
}

/// Every pair of `t` stands somewhere in `s`.
pub open spec fn pairs_within(t: Seq<(Seq<char>, LocModel)>, s: Seq<(Seq<char>, LocModel)>) -> bool {
    forall|j: int| 0 <= j && j < t.len() ==> s.contains(#[trigger] t[j])
}

/// Deletion on the association sequence: the entry for the key leaves, the
/// order of the rest stands.
pub open spec fn assoc_remove(
    s: Seq<(Seq<char>, LocModel)>,
    k: Seq<char>,
) -> Seq<(Seq<char>, LocModel)> {
    if assoc_has(s, k) {
        s.remove(assoc_idx(s, k))
    } else {
        s
    }
}

/// The location of record `i` of a history: past the header and every
/// earlier record, with the record's own encoded length.
pub open spec fn entry_loc(h: Seq<(Seq<char>, u64)>, i: int) -> LocModel {
    LocModel {
        start: (8 + concat_entries(h.take(i)).len()) as u64,
        size: entry_bytes(h[i].0, h[i].1).len() as u64,
        value: h[i].1,
    }
}

/// The index that replaying a history builds, location bookkeeping included.
pub open spec fn replay_ix(h: Seq<(Seq<char>, u64)>) -> Seq<(Seq<char>, LocModel)>
    decreases h.len(),
{
    if h.len() == 0 {
        Seq::empty()
    } else {
        assoc_update(replay_ix(h.drop_last()), h.last().0, entry_loc(h, h.len() - 1))
    }
}

/// Appending one record extends the concatenated encodings by that record's
/// encoding.
pub proof fn lemma_concat_entries_push(h: Seq<(Seq<char>, u64)>, k: Seq<char>, v: u64)
    ensures
        concat_entries(h.push((k, v))) == concat_entries(h) + entry_bytes(k, v),
{
    assert(h.push((k, v)).drop_last() =~= h);
    assert(h.push((k, v)).last() == (k, v));
}

/// Appending one record updates the denoted map at that record's key.
pub proof fn lemma_replay_map_push(h: Seq<(Seq<char>, u64)>, k: Seq<char>, v: u64)
    ensures
        replay_map(h.push((k, v))) == replay_map(h).insert(k, v),
{
    assert(h.push((k, v)).drop_last() =~= h);
    assert(h.push((k, v)).last() == (k, v));
}

/// Appending one record extends the replayed index by an insert-or-overwrite
/// at the end of the log.
pub proof fn lemma_replay_ix_push(h: Seq<(Seq<char>, u64)>, k: Seq<char>, v: u64)
    ensures
        replay_ix(h.push((k, v))) == assoc_update(
            replay_ix(h),
            k,
            (LocModel {
                start: (8 + concat_entries(h).len()) as u64,
                size: entry_bytes(k, v).len() as u64,
                value: v,
            }),
        ),
{
    let g = h.push((k, v));
    assert(g.drop_last() =~= h);
    assert(g.last() == (k, v));
    assert(g.take(g.len() - 1) =~= h);
    assert(g[g.len() - 1] == (k, v));
}

/// The concatenated encodings unfold from the front as well.
pub proof fn lemma_concat_entries_first(h: Seq<(Seq<char>, u64)>)
    requires
        h.len() > 0,
    ensures
        concat_entries(h) == entry_bytes(h[0].0, h[0].1) + concat_entries(h.drop_first()),
    decreases h.len(),
{
    if h.len() == 1 {
        assert(h.drop_last() =~= Seq::<(Seq<char>, u64)>::empty());
        assert(h.drop_first() =~= Seq::<(Seq<char>, u64)>::empty());
        assert(h.last() == h[0]);
        assert(concat_entries(h) =~= entry_bytes(h[0].0, h[0].1) + concat_entries(h.drop_first()));
    } else {
        let t = h.drop_last();
        lemma_concat_entries_first(t);
        assert(t[0] == h[0]);
        let d = h.drop_first();
        assert(d.len() > 0);
        assert(d.drop_last() =~= t.drop_first());
        assert(d.last() == h.last());
        assert(concat_entries(d) == concat_entries(t.drop_first()) + entry_bytes(
            h.last().0,
            h.last().1,
        ));
        assert(concat_entries(h) == (entry_bytes(h[0].0, h[0].1) + concat_entries(t.drop_first()))
            + entry_bytes(h.last().0, h.last().1));
        assert((entry_bytes(h[0].0, h[0].1) + concat_entries(t.drop_first())) + entry_bytes(
            h.last().0,
            h.last().1,
        ) =~= entry_bytes(h[0].0, h[0].1) + (concat_entries(t.drop_first()) + entry_bytes(
            h.last().0,
            h.last().1,
        )));
    }
}

/// The concatenated encodings split at any record boundary.
pub proof fn lemma_concat_entries_split(h: Seq<(Seq<char>, u64)>, i: int)
    requires
        0 <= i <= h.len(),
    ensures
        concat_entries(h) == concat_entries(h.take(i)) + concat_entries(h.skip(i)),
    decreases h.len() - i,
{
    if i == h.len() {
        assert(h.take(i) =~= h);
        assert(h.skip(i) =~= Seq::<(Seq<char>, u64)>::empty());
        assert(concat_entries(h) =~= concat_entries(h.take(i)) + concat_entries(h.skip(i)));
    } else {
        lemma_concat_entries_split(h, i + 1);
        assert(h.take(i + 1) =~= h.take(i).push(h[i]));
        lemma_concat_entries_push(h.take(i), h[i].0, h[i].1);
        let s = h.skip(i);
        assert(s.len() > 0);
        assert(s[0] == h[i]);
        lemma_concat_entries_first(s);
        assert(s.drop_first() =~= h.skip(i + 1));
        assert((concat_entries(h.take(i)) + entry_bytes(h[i].0, h[i].1)) + concat_entries(
            h.skip(i + 1),
        ) =~= concat_entries(h.take(i)) + (entry_bytes(h[i].0, h[i].1) + concat_entries(
            h.skip(i + 1),
        )));
    }
}

/// Under distinct keys, the chosen position for a held key is the one and
/// only position that holds it.
pub proof fn lemma_assoc_idx(s: Seq<(Seq<char>, LocModel)>, k: Seq<char>)
    requires
        distinct_keys(s),
        assoc_has(s, k),
    ensures
        0 <= assoc_idx(s, k) < s.len(),
        s[assoc_idx(s, k)].0 == k,
        forall|i: int| 0 <= i < s.len() && s[i].0 == k ==> i == assoc_idx(s, k),
{
    let i0 = assoc_idx(s, k);
    assert(0 <= i0 < s.len() && s[i0].0 == k) by {
        assert(exists|i: int| 0 <= i < s.len() && s[i].0 == k);
    }
    assert forall|i: int| 0 <= i < s.len() && s[i].0 == k implies i == i0 by {
        if i < i0 {
            assert(s[i].0 != s[i0].0);
        } else if i0 < i {
            assert(s[i0].0 != s[i].0);
        }
    }
}

/// Insert-or-overwrite keeps the keys distinct and denotes a map insert.
pub proof fn lemma_assoc_map_update(s: Seq<(Seq<char>, LocModel)>, k: Seq<char>, l: LocModel)
    requires
        distinct_keys(s),
    ensures
        distinct_keys(assoc_update(s, k, l)),
        assoc_map(assoc_update(s, k, l)) == assoc_map(s).insert(k, l.value),
        assoc_has(assoc_update(s, k, l), k),
        assoc_loc(assoc_update(s, k, l), k) == l,
{
    let t = assoc_update(s, k, l);
    if assoc_has(s, k) {
        lemma_assoc_idx(s, k);
        let i0 = assoc_idx(s, k);
        assert(t == s.update(i0, (k, l)));
        assert(distinct_keys(t)) by {
            assert(forall|i: int| 0 <= i < t.len() ==> t[i].0 == s[i].0);
        }
    } else {
        assert(t == s.push((k, l)));
        assert(distinct_keys(t)) by {
            assert(forall|i: int| 0 <= i < s.len() ==> t[i] == s[i]);
            assert(t[s.len() as int].0 == k);
            assert(forall|i: int| 0 <= i < s.len() ==> s[i].0 != k);
        }
    }
    assert(assoc_has(t, k)) by {
        if assoc_has(s, k) {
            lemma_assoc_idx(s, k);
            assert(t[assoc_idx(s, k)].0 == k);
        } else {
            assert(t[t.len() - 1].0 == k);
        }
    }
    lemma_assoc_idx(t, k);
    assert(t[assoc_idx(t, k)] == (k, l)) by {
        if assoc_has(s, k) {
            lemma_assoc_idx(s, k);
            assert(t[assoc_idx(s, k)] == (k, l));
        } else {
            assert(t[t.len() - 1] == (k, l));
        }
    }
    assert(assoc_map(t) =~= assoc_map(s).insert(k, l.value)) by {
        assert forall|k2: Seq<char>| true implies (assoc_has(t, k2) == (k2 == k || assoc_has(
            s,
            k2,
        ))) by {
            if k2 == k {
                assert(assoc_has(t, k2));
            } else {
                if assoc_has(s, k2) {
                    lemma_assoc_idx(s, k2);
                    let i2 = assoc_idx(s, k2);
                    assert(t[i2].0 == k2);
                } else if assoc_has(t, k2) {
                    let i2 = assoc_idx(t, k2);
                    lemma_assoc_idx(t, k2);
                    assert(s[i2].0 == k2);
                }
            }
        }
        assert forall|k2: Seq<char>| assoc_has(t, k2) && k2 != k implies assoc_loc(t, k2)
            == assoc_loc(s, k2) by {
            lemma_assoc_idx(t, k2);
            let i2 = assoc_idx(t, k2);
            assert(s[i2].0 == k2);
            lemma_assoc_idx(s, k2);
            assert(assoc_idx(s, k2) == i2);
            assert(t[i2].1 == s[i2].1);
        }
    }
}

/// Deletion keeps the keys distinct, denotes a map remove, and leaves no
/// record of the key behind; every surviving pair stood in the sequence
/// before.
pub proof fn lemma_assoc_map_remove(s: Seq<(Seq<char>, LocModel)>, k: Seq<char>)
    requires
        distinct_keys(s),
    ensures
        distinct_keys(assoc_remove(s, k)),
        assoc_map(assoc_remove(s, k)) == assoc_map(s).remove(k),
        !assoc_has(assoc_remove(s, k), k),
        pairs_within(assoc_remove(s, k), s),
{
    let t = assoc_remove(s, k);
    if assoc_has(s, k) {
        lemma_assoc_idx(s, k);
        let i0 = assoc_idx(s, k);
        assert(t == s.remove(i0));
        assert(forall|j: int|
            0 <= j < t.len() ==> t[j] == (if j < i0 {
                s[j]
            } else {
                s[j + 1]
            }));
        assert(distinct_keys(t));
        assert(!assoc_has(t, k)) by {
            if assoc_has(t, k) {
                let j = assoc_idx(t, k);
                lemma_assoc_idx(t, k);
                if j < i0 {
                    assert(s[j].0 == k);
                } else {
                    assert(s[j + 1].0 == k);
                }
            }
        }
        assert(pairs_within(t, s)) by {
            assert forall|j: int| 0 <= j && j < t.len() implies s.contains(#[trigger] t[j]) by {
                if j < i0 {
                    assert(t[j] == s[j]);
                    assert(s.contains(s[j]));
                } else {
                    assert(t[j] == s[j + 1]);
                    assert(s.contains(s[j + 1]));
                }
            }
        }
        assert(assoc_map(t) =~= assoc_map(s).remove(k)) by {
            assert forall|k2: Seq<char>| k2 != k implies (assoc_has(t, k2) == assoc_has(
                s,
                k2,
            )) by {
                if assoc_has(s, k2) {
                    lemma_assoc_idx(s, k2);
                    let i2 = assoc_idx(s, k2);
                    if i2 < i0 {
                        assert(t[i2].0 == k2);
                    } else {
                        assert(i2 > i0);
                        assert(t[i2 - 1].0 == k2);
                    }
                } else if assoc_has(t, k2) {
                    lemma_assoc_idx(t, k2);
                    let j = assoc_idx(t, k2);
                    if j < i0 {
                        assert(s[j].0 == k2);
                    } else {
                        assert(s[j + 1].0 == k2);
                    }
                }
            }
            assert forall|k2: Seq<char>| assoc_has(t, k2) implies assoc_loc(t, k2) == assoc_loc(
                s,
                k2,
            ) by {
                lemma_assoc_idx(t, k2);
                let j = assoc_idx(t, k2);
                assert(k2 != k);
                if j < i0 {
                    assert(s[j] == t[j]);
                    lemma_assoc_idx(s, k2);
                    assert(assoc_idx(s, k2) == j);
                } else {
                    assert(s[j + 1] == t[j]);
                    lemma_assoc_idx(s, k2);
                    assert(assoc_idx(s, k2) == j + 1);
                }
            }
        }
    } else {
        assert(t == s);
        assert(!assoc_has(t, k));
        assert(assoc_map(t) =~= assoc_map(s).remove(k)) by {
            assert(!assoc_map(s).contains_key(k));
        }
        assert(pairs_within(t, s)) by {
            assert forall|j: int| 0 <= j && j < t.len() implies s.contains(#[trigger] t[j]) by {
                assert(t[j] == s[j]);
                assert(s.contains(s[j]));
            }
        }
    }
}

/// During a replay that has consumed the first `hist` records of a log that
/// some history `h` lays out, the encoding of the next record of `h` is what
/// starts the unread rest of the log.
pub proof fn lemma_parses_next_record(
    bytes: Seq<u8>,
    h: Seq<(Seq<char>, u64)>,
    hist: Seq<(Seq<char>, u64)>,
    count: u64,
    off: int,
)
    requires
        parses(bytes, h),
        bytes.len() > 0,
        h.len() == count as nat,
        hist.len() < count as nat,
        h.take(hist.len() as int) == hist,
        off == 8 + concat_entries(hist).len(),
    ensures
        entry_bytes(h[hist.len() as int].0, h[hist.len() as int].1).is_prefix_of(bytes.skip(off)),
        h[hist.len() as int].0 == h.skip(hist.len() as int)[0].0,
{
    let i = hist.len() as int;
    lemma_concat_entries_split(h, i);
    let pre = u64_le_bytes(count) + concat_entries(hist);
    assert((h.len() as u64) == count);
    assert(pre.len() == off);
    assert(bytes =~= pre + concat_entries(h.skip(i)));
    assert(bytes.skip(off) =~= concat_entries(h.skip(i)));
    lemma_concat_entries_first(h.skip(i));
    assert(h.skip(i)[0] == h[i]);
    let e = entry_bytes(h[i].0, h[i].1);
    let rest = concat_entries(h.skip(i).drop_first());
    assert(concat_entries(h.skip(i)) == e + rest);
    assert(e.is_prefix_of(e + rest)) by {
        assert((e + rest).subrange(0, e.len() as int) =~= e);
    }
}

/// Two histories that lay out the same bytes are the same history in count;
/// the header pins the count.
pub proof fn lemma_parses_header(bytes: Seq<u8>, h: Seq<(Seq<char>, u64)>, c: u64)
    requires
        parses(bytes, h),
        bytes.len() > 0,
        bytes.take(8) == u64_le_bytes(c),
    ensures
        h.len() == c,
{
    assert(bytes == u64_le_bytes(h.len() as u64) + concat_entries(h));
    assert(bytes.take(8) =~= u64_le_bytes(h.len() as u64));
    lemma_u64_le_bytes_injective(h.len() as u64, c);
}

} // verus!
