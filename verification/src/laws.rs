//! The store's laws, stated over the spec functions and views that the
//! operations' contracts use, and proved once and for all.

use vstd::prelude::*;

use crate::model::assoc_has;
use crate::model::assoc_remove;
use crate::model::distinct_keys;
use crate::model::lemma_assoc_map_remove;
use crate::model::lemma_replay_map_push;
use crate::model::lookup;
use crate::model::parses;
use crate::model::replay_map;
use crate::model::LocModel;
use crate::store::lemma_wf_parses;
use crate::store::reopen_post;
use crate::store::Error;
use crate::store::Store;

verus! {

/// Round-trip: after `insert(k, v)` turns the contents `m` into
/// `m.insert(k, v)`, a `get(k)` — which returns `lookup` on the contents —
/// yields `Some(v)`.
pub proof fn lemma_insert_then_get(m: Map<Seq<char>, u64>, k: Seq<char>, v: u64)
    ensures
        lookup(m.insert(k, v), k) == Some(v),
{
}

/// Overwrite: inserting `v1` then `v2` under one key leaves `get` at
/// `Some(v2)`, and the second insert reports `Some(v1)` as the previous
/// value.
pub proof fn lemma_overwrite(m: Map<Seq<char>, u64>, k: Seq<char>, v1: u64, v2: u64)
    ensures
        lookup(m.insert(k, v1).insert(k, v2), k) == Some(v2),
        lookup(m.insert(k, v1), k) == Some(v1),
{
}

/// Distinct keys do not interfere: an insert under another key leaves a
/// key's value where it was.
pub proof fn lemma_distinct_insert(m: Map<Seq<char>, u64>, k1: Seq<char>, k2: Seq<char>, v2: u64)
    requires
        k1 != k2,
    ensures
        lookup(m.insert(k2, v2), k1) == lookup(m, k1),
{
}

/// Removal: after `remove(k)` turns the contents `m` into `m.remove(k)`,
/// `get(k)` yields `None`; and the index — which `keys()` walks — no longer
/// holds `k` at any position.
pub proof fn lemma_remove_then_get(
    m: Map<Seq<char>, u64>,
    s: Seq<(Seq<char>, LocModel)>,
    k: Seq<char>,
)
    requires
        distinct_keys(s),
    ensures
        lookup(m.remove(k), k) == None::<u64>,
        !assoc_has(assoc_remove(s, k), k),
{
    lemma_assoc_map_remove(s, k);
}

/// Inserting preserves the bond between a store's contents and the replay
/// of its history; with `new`'s empty start it follows that a store built
/// by inserts alone always reads back as the replay of what it appended.
pub proof fn lemma_insert_tracks_replay(
    pre: Map<Seq<char>, u64>,
    h: Seq<(Seq<char>, u64)>,
    k: Seq<char>,
    v: u64,
)
    requires
        pre == replay_map(h),
    ensures
        pre.insert(k, v) == replay_map(h.push((k, v))),
{
    lemma_replay_map_push(h, k, v);
}

/// Persistence: reopening the bytes of any well-formed store succeeds and
/// recovers the latest-wins replay of its full history; for a store whose
/// contents still equal that replay (one never touched by `remove`, e.g.
/// built by inserts alone), the recovered contents are exactly the
/// contents that were flushed, whatever order they were inserted in.
pub proof fn lemma_persistence(s: Store, r: Result<Store, Error>)
    requires
        s.wf(),
        reopen_post(s.log_bytes(), r),
    ensures
        r is Ok,
        (r->Ok_0).history() == s.history(),
        (r->Ok_0)@ == replay_map(s.history()),
        s@ == replay_map(s.history()) ==> (r->Ok_0)@ == s@,
{
    lemma_wf_parses(s);
    assert(parses(s.log_bytes(), s.history()));
}

/// Idempotent reopen: two reopenings of one unmodified byte log either both
/// fail or both succeed, and on success they agree on the history, the
/// contents, the index with its locations, the log bytes, and the entry
/// count.
pub proof fn lemma_reopen_idempotent(
    bytes: Seq<u8>,
    r1: Result<Store, Error>,
    r2: Result<Store, Error>,
)
    requires
        reopen_post(bytes, r1),
        reopen_post(bytes, r2),
    ensures
        r1 is Ok <==> r2 is Ok,
        r1 is Ok ==> {
            &&& (r1->Ok_0).history() == (r2->Ok_0).history()
            &&& (r1->Ok_0)@ == (r2->Ok_0)@
            &&& (r1->Ok_0).index_model() == (r2->Ok_0).index_model()
            &&& (r1->Ok_0).log_bytes() == (r2->Ok_0).log_bytes()
            &&& (r1->Ok_0).entry_count() == (r2->Ok_0).entry_count()
        },
{
    if r1 is Ok {
        let h = choose|h: Seq<(Seq<char>, u64)>| parses(bytes, h);
        assert(parses(bytes, h));
        assert((r1->Ok_0).history() == h);
        assert((r2->Ok_0).history() == h);
        lemma_wf_parses(r1->Ok_0);
        lemma_wf_parses(r2->Ok_0);
        assert((r1->Ok_0).entry_count() as nat == h.len());
        assert((r2->Ok_0).entry_count() as nat == h.len());
    } else if r2 is Ok {
        let h = choose|h: Seq<(Seq<char>, u64)>| parses(bytes, h);
        assert(parses(bytes, h));
        assert(!parses(bytes, h));
    }
}

} // verus!
