//! The log store itself: an append-only byte log with a header that counts
//! every record ever appended, and an in-memory index from live keys to the
//! byte range of their latest record.
//!
//! The backing stream is a plain byte vector owned by the store, so every
//! mutating operation takes the store exclusively and no call can fail on
//! I/O. An embedder that keeps the log on disk loads the file's bytes before
//! `reopen` and writes `into_inner`'s bytes back afterwards.

use vstd::prelude::*;

use crate::codec::decode_entry;
use crate::codec::decode_u64_prefix;
use crate::codec::encode_entry;
use crate::codec::encode_u64;
use crate::codec::entry_bytes;
use crate::codec::entry_size;
use crate::codec::u64_le_bytes;
use crate::model::assoc_has;
use crate::model::assoc_idx;
use crate::model::assoc_map;
use crate::model::assoc_remove;
use crate::model::assoc_update;
use crate::model::concat_entries;
use crate::model::distinct_keys;
use crate::model::lemma_assoc_idx;
use crate::model::lemma_assoc_map_remove;
use crate::model::lemma_assoc_map_update;
use crate::model::lemma_concat_entries_push;
use crate::model::lemma_parses_header;
use crate::model::lemma_parses_next_record;
use crate::model::lemma_replay_ix_push;
use crate::model::lemma_replay_map_push;
use crate::model::lookup;
use crate::model::parses;
use crate::model::replay_ix;
use crate::model::replay_map;
use crate::model::LocModel;

verus! {

/// What a store operation can report.
///
/// `Io` is never produced here, where the backing stream is a byte vector in
/// memory; it is for embedders that wrap the store around a real stream and
/// need to surface its failures under the same type.
#[derive(Clone, Copy, PartialEq, Eq, Structural, Debug)]
pub enum Error {
    /// The underlying stream failed.
    Io,
    /// Bytes at an indexed location do not decode to a record of the indexed
    /// key.
    CorruptEntry,
    /// Replaying the log found fewer valid records than the header promises,
    /// or bytes outside any record.
    RebuildError,
}

/// Where the latest record for a key lives in the log: byte offset and
/// encoded length, with the value carried along as ghost bookkeeping.
struct Loc {
    start: u64,
    size: u64,
    value: Ghost<u64>,
}

/// One position of a log's byte range is a validly encoded record of the
/// indexed key.
pub open spec fn loc_valid(log: Seq<u8>, p: (Seq<char>, LocModel)) -> bool {
    &&& 8 <= p.1.start
    &&& p.1.start + p.1.size <= log.len()
    &&& log.subrange(p.1.start as int, p.1.start + p.1.size) == entry_bytes(p.0, p.1.value)
}

/// The log store: the backing byte log, the index of live keys, the append
/// cursor, and the count of records ever appended (the header's value).
pub struct Store {
    log: Vec<u8>,
    index: Vec<(String, Loc)>,
    offset: u64,
    entries: u64,
    hist: Ghost<Seq<(Seq<char>, u64)>>,
}

impl View for Store {
    type V = Map<Seq<char>, u64>;

    closed spec fn view(&self) -> Map<Seq<char>, u64> {
        assoc_map(self.index_model())
    }
}

impl Store {
    /// The bytes of the backing log, exactly as an embedder would persist
    /// them.
    pub closed spec fn log_bytes(self) -> Seq<u8> {
        self.log@
    }

    /// Every record ever appended to this log, in append order, across
    /// reopen cycles.
    pub closed spec fn history(self) -> Seq<(Seq<char>, u64)> {
        self.hist@
    }

    /// The header's count: how many records were ever appended, removals
    /// notwithstanding.
    pub closed spec fn entry_count(self) -> u64 {
        self.entries
    }

    /// The index as an association sequence from live keys to locations.
    pub closed spec fn index_model(self) -> Seq<(Seq<char>, LocModel)> {
        ix_model(self.index@)
    }

    /// Well-formedness: the log is exactly the layout of the history, the
    /// header count matches it, the append cursor sits at the end (or at the
    /// header boundary of a still-unwritten fresh log), every record is at
    /// least sixteen bytes long, and the index holds each live key once,
    /// pointing at a byte range that encodes that key with the indexed
    /// value.
    pub closed spec fn wf(self) -> bool {
        &&& self.entries as nat == self.hist@.len()
        &&& parses(self.log@, self.hist@)
        &&& (self.log@.len() == 0 ==> self.offset == 8)
        &&& (self.log@.len() > 0 ==> self.offset as nat == self.log@.len())
        &&& (self.log@.len() > 0 ==> 16 * (self.entries as nat) + 8 <= self.log@.len())
        &&& distinct_keys(self.index_model())
        &&& (forall|i: int|
            0 <= i < self.index_model().len() ==> loc_valid(
                self.log@,
                #[trigger] self.index_model()[i],
            ))
    }

    /// Builds a store over a stream known to be empty and fresh: nothing is
    /// read, the index starts empty, the append cursor sits past the
    /// still-unwritten header, and the entry counter is zero.
    pub fn new(target: Vec<u8>) -> (s: Store)
        requires
            target@.len() == 0,
        ensures
            s.wf(),
            s@ == Map::<Seq<char>, u64>::empty(),
            s.history() == Seq::<(Seq<char>, u64)>::empty(),
            s.index_model() == Seq::<(Seq<char>, LocModel)>::empty(),
            s.entry_count() == 0,
            s.log_bytes() == target@,
    {
        let s = Store {
            log: target,
            index: Vec::new(),
            offset: 8,
            entries: 0,
            hist: Ghost(Seq::empty()),
        };
        proof {
            assert(s.index_model() =~= Seq::<(Seq<char>, LocModel)>::empty());
            assert(s@ =~= Map::<Seq<char>, u64>::empty());
        }
        s
    }

    /// Gives the backing log's bytes back to the embedder, to be persisted
    /// or handed to `reopen`.
    pub fn into_inner(self) -> (r: Vec<u8>)
        ensures
            r@ == self.log_bytes(),
    {
        self.log
    }
}

/// The association view of a bare index vector.
spec fn ix_model(v: Seq<(String, Loc)>) -> Seq<(Seq<char>, LocModel)> {
    v.map_values(
        |p: (String, Loc)| (p.0@, LocModel { start: p.1.start, size: p.1.size, value: p.1.value@ }),
    )
}

/// Scans the index for a key; the position returned holds the key, and a
/// miss means no position does.
fn index_find(ix: &Vec<(String, Loc)>, key: &String) -> (r: Option<usize>)
    ensures
        match r {
            Some(i) => i < ix@.len() && ix_model(ix@)[i as int].0 == key@,
            None => !assoc_has(ix_model(ix@), key@),
        },
{
    let mut i: usize = 0;
    while i < ix.len()
        invariant
            i <= ix@.len(),
            forall|j: int| 0 <= j < i ==> ix_model(ix@)[j].0 != key@,
        decreases ix@.len() - i,
    {
        if ix[i].0 == *key {
            return Some(i);
        }
        i = i + 1;
    }
    None
}

/// Inserts or overwrites one key's location in the index: an existing key
/// keeps its position, a new key goes at the end.
fn index_put(ix: &mut Vec<(String, Loc)>, key: String, loc: Loc)
    requires
        distinct_keys(ix_model(old(ix)@)),
    ensures
        ix_model(final(ix)@) == assoc_update(
            ix_model(old(ix)@),
            key@,
            (LocModel { start: loc.start, size: loc.size, value: loc.value@ }),
        ),
{
    let mut i: usize = 0;
    while i < ix.len()
        invariant
            i <= ix@.len(),
            ix@ == old(ix)@,
            distinct_keys(ix_model(ix@)),
            forall|j: int| 0 <= j < i ==> ix_model(ix@)[j].0 != key@,
        decreases ix@.len() - i,
    {
        if ix[i].0 == key {
            proof {
                assert(ix_model(ix@)[i as int].0 == key@);
                lemma_assoc_idx(ix_model(ix@), key@);
            }
            ix[i] = (key, loc);
            proof {
                let om = ix_model(old(ix)@);
                let lm = LocModel { start: loc.start, size: loc.size, value: loc.value@ };
                assert(ix@ == old(ix)@.update(i as int, (key, loc)));
                assert(assoc_idx(om, key@) == i as int);
                assert(forall|j: int|
                    0 <= j < ix@.len() && j != i ==> ix_model(ix@)[j] == om[j]);
                assert(ix_model(ix@)[i as int] == (key@, lm));
                assert(ix_model(ix@) =~= assoc_update(om, key@, lm));
            }
            return ;
        }
        i = i + 1;
    }
    proof {
        assert(!assoc_has(ix_model(ix@), key@));
    }
    ix.push((key, loc));
    proof {
        let lm = LocModel { start: loc.start, size: loc.size, value: loc.value@ };
        assert(ix_model(ix@) =~= assoc_update(ix_model(old(ix)@), key@, lm));
    }
}

impl Store {
    /// Bumps the entry counter and writes it back as the header at the start
    /// of the log, extending a still-empty fresh log to its header; nothing
    /// past the header moves.
    fn add_entry(&mut self)
        requires
            old(self).wf(),
        ensures
            final(self).entries as nat == old(self).entries as nat + 1,
            final(self).log@ == u64_le_bytes(final(self).entries) + concat_entries(
                old(self).hist@,
            ),
            final(self).log@.len() == (if old(self).log@.len() == 0 {
                8int
            } else {
                old(self).log@.len() as int
            }),
            final(self).index == old(self).index,
            final(self).hist == old(self).hist,
            final(self).offset == old(self).offset,
    {
        let n = self.log.len();
        proof {
            if n > 0 {
                assert(16 * (self.entries as nat) + 8 <= self.log@.len());
            } else {
                assert(self.hist@.len() == 0);
            }
        }
        self.entries = self.entries + 1;
        let hdr = encode_u64(self.entries);
        if n == 0 {
            let mut h = hdr;
            self.log.append(&mut h);
            proof {
                assert(concat_entries(self.hist@) =~= Seq::<u8>::empty());
                assert(self.log@ =~= u64_le_bytes(self.entries) + concat_entries(self.hist@));
            }
        } else {
            proof {
                assert(self.log@ == u64_le_bytes(old(self).entries) + concat_entries(self.hist@));
                assert(self.log@.len() >= 8);
            }
            let mut i: usize = 0;
            while i < 8
                invariant
                    i <= 8,
                    self.log@.len() == old(self).log@.len(),
                    self.log@.len() >= 8,
                    hdr@ == u64_le_bytes(self.entries),
                    self.entries == old(self).entries + 1,
                    self.index == old(self).index,
                    self.hist == old(self).hist,
                    self.offset == old(self).offset,
                    forall|j: int| 0 <= j < i ==> self.log@[j] == hdr@[j],
                    forall|j: int|
                        i <= j < self.log@.len() ==> self.log@[j] == old(self).log@[j],
                decreases 8 - i,
            {
                let b = hdr[i];
                self.log[i] = b;
                i = i + 1;
            }
            proof {
                assert(old(self).log@ == u64_le_bytes(old(self).entries) + concat_entries(
                    self.hist@,
                ));
                assert(self.log@ =~= u64_le_bytes(self.entries) + concat_entries(self.hist@)) by {
                    assert(forall|j: int|
                        8 <= j < self.log@.len() ==> old(self).log@[j] == concat_entries(
                            self.hist@,
                        )[j - 8]);
                }
            }
        }
    }

    /// Appends a record for the key: the previous value (if any) is looked
    /// up first and returned, the header count grows by one, the record's
    /// encoding goes to the end of the log, and the index points the key at
    /// it. Bytes of an overwritten record stay in the log, orphaned.
    pub fn insert(&mut self, key: String, value: u64) -> (r: Result<Option<u64>, Error>)
        requires
            old(self).wf(),
        ensures
            final(self).wf(),
            final(self)@ == old(self)@.insert(key@, value),
            final(self).history() == old(self).history().push((key@, value)),
            final(self).entry_count() as nat == old(self).entry_count() as nat + 1,
            final(self).log_bytes() == u64_le_bytes(final(self).entry_count()) + concat_entries(
                final(self).history(),
            ),
            final(self).index_model() == assoc_update(
                old(self).index_model(),
                key@,
                (LocModel {
                    start: (8 + concat_entries(old(self).history()).len()) as u64,
                    size: entry_bytes(key@, value).len() as u64,
                    value: value,
                }),
            ),
            r == Result::<Option<u64>, Error>::Ok(lookup(old(self)@, key@)),
    {
        let ghost k = key@;
        let previous = match self.get(&key) {
            Ok(p) => p,
            Err(e) => {
                return Err(e);
            },
        };
        self.add_entry();
        let ghost old_hist = self.hist@;
        let data = encode_entry(&key, value);
        let sz = data.len();
        let start = self.log.len();
        let ghost lm = LocModel { start: start as u64, size: sz as u64, value: value };
        proof {
            assert(start as nat == 8 + concat_entries(old_hist).len());
        }
        let mut d = data;
        self.log.append(&mut d);
        self.offset = self.log.len() as u64;
        let loc = Loc { start: start as u64, size: sz as u64, value: Ghost(value) };
        index_put(&mut self.index, key, loc);
        self.hist = Ghost(old_hist.push((k, value)));
        proof {
            let om = old(self).index_model();
            let nm = self.index_model();
            assert(nm == assoc_update(om, k, lm));
            lemma_assoc_map_update(om, k, lm);
            lemma_concat_entries_push(old_hist, k, value);
            assert(self.log@ =~= u64_le_bytes(self.entries) + concat_entries(self.hist@));
            assert(parses(self.log@, self.hist@));
            // every indexed location still points at its record
            assert forall|j: int| 0 <= j < nm.len() implies loc_valid(
                self.log@,
                #[trigger] nm[j],
            ) by {
                if assoc_has(om, k) {
                    lemma_assoc_idx(om, k);
                    let i0 = assoc_idx(om, k);
                    if j != i0 {
                        assert(nm[j] == om[j]);
                        assert(loc_valid(old(self).log@, om[j]));
                        assert(self.log@.subrange(
                            om[j].1.start as int,
                            om[j].1.start + om[j].1.size,
                        ) =~= old(self).log@.subrange(
                            om[j].1.start as int,
                            om[j].1.start + om[j].1.size,
                        ));
                    } else {
                        assert(nm[j] == (k, lm));
                        assert(self.log@.subrange(lm.start as int, lm.start + lm.size)
                            =~= entry_bytes(k, value));
                    }
                } else {
                    if j < om.len() {
                        assert(nm[j] == om[j]);
                        assert(loc_valid(old(self).log@, om[j]));
                        assert(self.log@.subrange(
                            om[j].1.start as int,
                            om[j].1.start + om[j].1.size,
                        ) =~= old(self).log@.subrange(
                            om[j].1.start as int,
                            om[j].1.start + om[j].1.size,
                        ));
                    } else {
                        assert(nm[j] == (k, lm));
                        assert(self.log@.subrange(lm.start as int, lm.start + lm.size)
                            =~= entry_bytes(k, value));
                    }
                }
            }
            assert(self.wf());
            lemma_replay_map_push(old_hist, k, value);
            assert(self@ == old(self)@.insert(k, value));
        }
        Ok(previous)
    }
}

impl Store {
    /// Looks a key up: `Ok(None)` when the key is not live, otherwise the
    /// value of the key's latest record, read back from the log and decoded.
    pub fn get(&self, key: &String) -> (r: Result<Option<u64>, Error>)
        requires
            self.wf(),
        ensures
            r == Result::<Option<u64>, Error>::Ok(lookup(self@, key@)),
    {
        match index_find(&self.index, key) {
            None => {
                proof {
                    assert(!self@.contains_key(key@));
                }
                Ok(None)
            },
            Some(i) => {
                let start = self.index[i].1.start;
                let size = self.index[i].1.size;
                let n = self.log.len();
                let ghost m = self.index_model()[i as int];
                proof {
                    assert(loc_valid(self.log@, m));
                    assert(m.0 == key@ && m.1.start == start && m.1.size == size);
                }
                let lo = start as usize;
                let hi = (start + size) as usize;
                let bytes = vstd::slice::slice_subrange(self.log.as_slice(), lo, hi);
                let ghost v = m.1.value;
                proof {
                    assert(bytes@ == entry_bytes(key@, v));
                    assert(entry_bytes(key@, v).is_prefix_of(bytes@));
                    lemma_assoc_idx(self.index_model(), key@);
                    assert(self@.contains_key(key@) && self@[key@] == v);
                }
                match decode_entry(bytes) {
                    Some(p) => {
                        if p.0 == *key {
                            Ok(Some(p.1))
                        } else {
                            Err(Error::CorruptEntry)
                        }
                    },
                    None => Err(Error::CorruptEntry),
                }
            },
        }
    }
}

impl Store {
    /// Removes a key from the index and returns its value, read back the
    /// way `get` reads it. The record's bytes stay in the log, the append
    /// cursor and the header count do not move: a pure index-level delete.
    pub fn remove(&mut self, key: &String) -> (r: Result<Option<u64>, Error>)
        requires
            old(self).wf(),
        ensures
            final(self).wf(),
            final(self)@ == old(self)@.remove(key@),
            final(self).history() == old(self).history(),
            final(self).entry_count() == old(self).entry_count(),
            final(self).log_bytes() == old(self).log_bytes(),
            final(self).index_model() == assoc_remove(old(self).index_model(), key@),
            r == Result::<Option<u64>, Error>::Ok(lookup(old(self)@, key@)),
    {
        let previous = match self.get(key) {
            Ok(p) => p,
            Err(e) => {
                return Err(e);
            },
        };
        match previous {
            Some(prev) => {
                match index_find(&self.index, key) {
                    Some(i) => {
                        proof {
                            lemma_assoc_idx(self.index_model(), key@);
                            assert(assoc_idx(self.index_model(), key@) == i as int);
                        }
                        self.index.remove(i);
                        proof {
                            let om = old(self).index_model();
                            assert(self.index@ == old(self).index@.remove(i as int));
                            assert(self.index_model() =~= assoc_remove(om, key@));
                            lemma_assoc_map_remove(om, key@);
                            assert forall|j: int|
                                0 <= j < self.index_model().len() implies loc_valid(
                                self.log@,
                                #[trigger] self.index_model()[j],
                            ) by {
                                let p = self.index_model()[j];
                                assert(om.contains(p));
                                let w = choose|w: int| 0 <= w < om.len() && om[w] == p;
                                assert(loc_valid(old(self).log@, om[w]));
                            }
                            assert(self.wf());
                            assert(self@ == old(self)@.remove(key@));
                        }
                        Ok(Some(prev))
                    },
                    None => {
                        proof {
                            assert(false);
                        }
                        Ok(Some(prev))
                    },
                }
            },
            None => {
                proof {
                    assert(!old(self)@.contains_key(key@));
                    assert(old(self)@.remove(key@) =~= old(self)@);
                }
                Ok(None)
            },
        }
    }

    /// The live keys, in the order their index entries stand: each key that
    /// `get` would find, exactly once.
    pub fn keys(&self) -> (r: Vec<String>)
        requires
            self.wf(),
        ensures
            r@.len() == self.index_model().len(),
            forall|i: int| 0 <= i < r@.len() ==> r@[i]@ == self.index_model()[i].0,
            forall|i: int, j: int| 0 <= i < j < r@.len() ==> r@[i]@ != r@[j]@,
            forall|k: Seq<char>| self@.contains_key(k) <==> assoc_has(self.index_model(), k),
    {
        let mut out: Vec<String> = Vec::new();
        let mut i: usize = 0;
        while i < self.index.len()
            invariant
                i <= self.index@.len(),
                out@.len() == i,
                forall|j: int| 0 <= j < i ==> out@[j]@ == ix_model(self.index@)[j].0,
            decreases self.index@.len() - i,
        {
            out.push(self.index[i].0.clone());
            i = i + 1;
        }
        out
    }
}

/// Everything `reopen` promises about its result, over the bytes it was
/// given: success exactly when some history lays the bytes out, and then a
/// well-formed store over those very bytes whose history is that (unique)
/// history, whose contents are its latest-wins replay, and whose index is
/// its replayed location bookkeeping; otherwise a rebuild failure.
pub open spec fn reopen_post(bytes: Seq<u8>, r: Result<Store, Error>) -> bool {
    match r {
        Result::Ok(s) => {
            &&& s.wf()
            &&& s.log_bytes() == bytes
            &&& (exists|h: Seq<(Seq<char>, u64)>| parses(bytes, h))
            &&& (forall|h: Seq<(Seq<char>, u64)>| parses(bytes, h) ==> s.history() == h)
            &&& s@ == replay_map(s.history())
            &&& s.index_model() == replay_ix(s.history())
        },
        Result::Err(e) => {
            &&& e == Error::RebuildError
            &&& (forall|h: Seq<(Seq<char>, u64)>| !parses(bytes, h))
        },
    }
}

impl Store {
    /// Rebuilds the index by replay: reads the header count, then decodes
    /// exactly that many records from the start, recording each key's
    /// location as it goes (a later duplicate overwrites, so the latest
    /// write wins). Fails with `RebuildError` when a record does not decode
    /// or bytes are left over past the promised records; a header that
    /// cannot be read at all on a non-empty log is treated the same way,
    /// while a log of no bytes at all is the fresh empty store.
    fn build_keys(&mut self) -> (r: Result<(), Error>)
        requires
            old(self).index@.len() == 0,
            old(self).entries == 0,
            old(self).hist@.len() == 0,
            old(self).offset == 8,
        ensures
            match r {
                Result::Ok(_) => {
                    &&& final(self).wf()
                    &&& final(self).log@ == old(self).log@
                    &&& (exists|h: Seq<(Seq<char>, u64)>| parses(old(self).log@, h))
                    &&& (forall|h: Seq<(Seq<char>, u64)>|
                        parses(old(self).log@, h) ==> final(self).hist@ == h)
                    &&& final(self)@ == replay_map(final(self).hist@)
                    &&& final(self).index_model() == replay_ix(final(self).hist@)
                },
                Result::Err(e) => {
                    &&& e == Error::RebuildError
                    &&& (forall|h: Seq<(Seq<char>, u64)>| !parses(old(self).log@, h))
                },
            },
    {
        let n = self.log.len();
        if n == 0 {
            proof {
                assert(parses(self.log@, self.hist@));
                assert forall|h: Seq<(Seq<char>, u64)>| parses(
                    self.log@,
                    h,
                ) implies self.hist@ == h by {
                    assert(h.len() == 0);
                    assert(h =~= self.hist@);
                }
                assert(self.index_model() =~= replay_ix(self.hist@));
                assert(self@ =~= replay_map(self.hist@));
                assert(self.wf());
            }
            return Ok(());
        }
        let count = match decode_u64_prefix(self.log.as_slice()) {
            Some(c) => c,
            None => {
                proof {
                    assert forall|h: Seq<(Seq<char>, u64)>| !parses(self.log@, h) by {
                        if parses(self.log@, h) {
                            assert(self.log@.len() >= 8);
                        }
                    }
                }
                return Err(Error::RebuildError);
            },
        };
        self.entries = count;
        let ghost bytes = self.log@;
        proof {
            assert(bytes.take(8) =~= u64_le_bytes(count) + concat_entries(self.hist@));
            assert(self.index_model() =~= Seq::<(Seq<char>, LocModel)>::empty());
            assert(self.index_model() == replay_ix(self.hist@));
            assert(assoc_map(self.index_model()) =~= replay_map(self.hist@));
            assert forall|h: Seq<(Seq<char>, u64)>| parses(bytes, h) implies h.len()
                == count as nat && h.take(0) == self.hist@ by {
                lemma_parses_header(bytes, h, count);
                assert(h.take(0) =~= self.hist@);
            }
        }
        let mut off: usize = 8;
        let mut i: u64 = 0;
        while i < count
            invariant
                self.log@ == bytes,
                bytes == old(self).log@,
                bytes.len() >= 8,
                bytes.take(8) == u64_le_bytes(count),
                i <= count,
                self.entries == count,
                self.hist@.len() == i as nat,
                8 <= off <= bytes.len(),
                off as nat == 8 + concat_entries(self.hist@).len(),
                bytes.take(off as int) == u64_le_bytes(count) + concat_entries(self.hist@),
                16 * (i as nat) + 8 <= off as nat,
                distinct_keys(self.index_model()),
                forall|j: int|
                    0 <= j < self.index_model().len() ==> loc_valid(
                        bytes,
                        #[trigger] self.index_model()[j],
                    ),
                self.index_model() == replay_ix(self.hist@),
                assoc_map(self.index_model()) == replay_map(self.hist@),
                forall|h: Seq<(Seq<char>, u64)>|
                    parses(bytes, h) ==> h.len() == count as nat && h.take(i as int)
                        == self.hist@,
            decreases count - i,
        {
            let ghost pre_hist = self.hist@;
            let here = self.log.len();
            let slice = vstd::slice::slice_subrange(self.log.as_slice(), off, here);
            proof {
                assert(slice@ =~= bytes.skip(off as int));
                assert forall|h: Seq<(Seq<char>, u64)>| parses(bytes, h) implies entry_bytes(
                    h[i as int].0,
                    h[i as int].1,
                ).is_prefix_of(slice@) by {
                    lemma_parses_next_record(bytes, h, pre_hist, count, off as int);
                }
            }
            let entry = match decode_entry(slice) {
                Some(p) => p,
                None => {
                    proof {
                        assert forall|h: Seq<(Seq<char>, u64)>| !parses(bytes, h) by {
                            if parses(bytes, h) {
                                assert(entry_bytes(h[i as int].0, h[i as int].1).is_prefix_of(
                                    slice@,
                                ));
                            }
                        }
                    }
                    return Err(Error::RebuildError);
                },
            };
            let sz64 = entry_size(&entry.0, entry.1);
            let ghost k = entry.0@;
            let ghost v = entry.1;
            proof {
                assert(entry_bytes(k, v).is_prefix_of(slice@));
                assert(off + sz64 as nat <= bytes.len());
                assert(bytes.subrange(off as int, off as int + sz64 as int) =~= entry_bytes(
                    k,
                    v,
                ));
            }
            let sz = sz64 as usize;
            let loc = Loc { start: off as u64, size: sz64, value: Ghost(v) };
            let ghost om = self.index_model();
            index_put(&mut self.index, entry.0, loc);
            self.hist = Ghost(pre_hist.push((k, v)));
            proof {
                let lm = LocModel { start: off as u64, size: sz64, value: v };
                let nm = self.index_model();
                assert(nm == assoc_update(om, k, lm));
                lemma_assoc_map_update(om, k, lm);
                lemma_concat_entries_push(pre_hist, k, v);
                lemma_replay_map_push(pre_hist, k, v);
                lemma_replay_ix_push(pre_hist, k, v);
                assert(nm == replay_ix(self.hist@));
                assert(bytes.take(off as int + sz as int) =~= u64_le_bytes(count)
                    + concat_entries(self.hist@));
                // every location still points at its record
                assert forall|j: int| 0 <= j < nm.len() implies loc_valid(
                    bytes,
                    #[trigger] nm[j],
                ) by {
                    if assoc_has(om, k) {
                        lemma_assoc_idx(om, k);
                        if j != assoc_idx(om, k) {
                            assert(nm[j] == om[j]);
                        } else {
                            assert(nm[j] == (k, lm));
                        }
                    } else {
                        if j < om.len() {
                            assert(nm[j] == om[j]);
                        } else {
                            assert(nm[j] == (k, lm));
                        }
                    }
                }
                // any history that lays these bytes out agrees one record
                // further
                assert forall|h: Seq<(Seq<char>, u64)>| parses(bytes, h) implies h.len()
                    == count as nat && h.take(i as int + 1) == self.hist@ by {
                    assert(h[i as int].0 == k && h[i as int].1 == v);
                    assert(h.take(i as int + 1) =~= h.take(i as int).push(h[i as int]));
                }
            }
            off = off + sz;
            i = i + 1;
        }
        let len = self.log.len();
        if off != len {
            proof {
                assert forall|h: Seq<(Seq<char>, u64)>| !parses(bytes, h) by {
                    if parses(bytes, h) {
                        assert(h.take(count as int) =~= h);
                        assert(h == self.hist@);
                        assert(bytes.len() == 8 + concat_entries(h).len());
                    }
                }
            }
            return Err(Error::RebuildError);
        }
        self.offset = len as u64;
        proof {
            assert(bytes.take(len as int) =~= bytes);
            assert((self.hist@.len() as u64) == count);
            assert(parses(bytes, self.hist@));
            assert forall|h: Seq<(Seq<char>, u64)>| parses(bytes, h) implies self.hist@ == h by {
                assert(h.take(count as int) =~= h);
            }
            assert(self.wf());
        }
        Ok(())
    }

    /// Opens a store over the bytes of an existing log: replays the header
    /// count and that many records to rebuild the index and the append
    /// cursor. The bytes themselves are kept untouched. Fails with
    /// `RebuildError` when the bytes are not exactly a well-formed log.
    pub fn reopen(target: Vec<u8>) -> (r: Result<Store, Error>)
        ensures
            reopen_post(target@, r),
    {
        let mut store = Store {
            log: target,
            index: Vec::new(),
            offset: 8,
            entries: 0,
            hist: Ghost(Seq::empty()),
        };
        let ghost given = store.log@;
        match store.build_keys() {
            Ok(_) => Ok(store),
            Err(e) => {
                proof {
                    // `build_keys` spoke of the log it was handed; those are
                    // the bytes this function was given.
                    assert(given == target@);
                    assert(forall|h: Seq<(Seq<char>, u64)>| !parses(given, h));
                }
                Err(e)
            },
        }
    }
}

/// The store's interface as a plain key/value map, for code that does not
/// care which store stands behind it. `inv` is whatever well-formedness the
/// implementing store maintains between calls.
pub trait KVStore {
    type Key;

    type Value;

    /// The invariant that every operation expects and maintains.
    spec fn inv(&self) -> bool;

    fn insert(&mut self, key: Self::Key, value: Self::Value) -> (r: Result<
        Option<Self::Value>,
        Error,
    >)
        requires
            old(self).inv(),
        ensures
            final(self).inv(),
    ;

    fn get(&self, key: &Self::Key) -> (r: Result<Option<Self::Value>, Error>)
        requires
            self.inv(),
    ;

    fn remove(&mut self, key: &Self::Key) -> (r: Result<Option<Self::Value>, Error>)
        requires
            old(self).inv(),
        ensures
            final(self).inv(),
    ;

    fn keys(&self) -> (r: Vec<Self::Key>)
        requires
            self.inv(),
    ;
}

impl KVStore for Store {
    type Key = String;

    type Value = u64;

    open spec fn inv(&self) -> bool {
        self.wf()
    }

    fn insert(&mut self, key: String, value: u64) -> (r: Result<Option<u64>, Error>) {
        self.insert(key, value)
    }

    fn get(&self, key: &String) -> (r: Result<Option<u64>, Error>) {
        self.get(key)
    }

    fn remove(&mut self, key: &String) -> (r: Result<Option<u64>, Error>) {
        self.remove(key)
    }

    fn keys(&self) -> (r: Vec<String>) {
        self.keys()
    }
}

/// What well-formedness gives a caller: the log's bytes always lay out the
/// append history exactly, the header count matches it, and the store's map
/// is the one its index denotes.
pub proof fn lemma_wf_parses(s: Store)
    requires
        s.wf(),
    ensures
        parses(s.log_bytes(), s.history()),
        s.entry_count() as nat == s.history().len(),
        s@ == assoc_map(s.index_model()),
        distinct_keys(s.index_model()),
{
}

} // verus!
