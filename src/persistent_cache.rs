//! Durable cache: the bounded recency cache over text keys and text values,
//! whose whole state is rendered as a snapshot text after every change and
//! restored from such a text on construction.
//!
//! Reading and writing the snapshot file is left to the caller: each
//! operation that changes the state hands back the snapshot to write, a miss
//! hands back none, and the caller reports the outcome of each write with
//! `record_write`.
use vstd::prelude::*;

use crate::cache::{
    entry_map, has_key, lemma_keys_bijection, put_model, recency, text_view, touch_model,
    unique_keys, value_of, Cache,
};
use crate::error::CacheError;
use crate::snapshot::{decode, enc_entries, lemma_enc_entries_injective, pairs_view};

verus! {

/// Whether `t` is the snapshot of a state that a cache of capacity `cap`
/// can hold: no key twice and at most `cap` entries.
pub open spec fn restorable(t: Seq<char>, cap: nat) -> bool {
    exists|es: Seq<(Seq<char>, Seq<char>)>|
        enc_entries(es) == t && es.len() <= cap && #[trigger] unique_keys(es)
}

/// Snapshot round trip: the snapshot of any state that a cache of capacity
/// `cap` can hold is restorable at that capacity, and every state whose
/// snapshot is the same text holds the same keys, in the same recency order,
/// with the same values.
pub proof fn lemma_snapshot_round_trip(
    s: Seq<(Seq<char>, String)>,
    s2: Seq<(Seq<char>, String)>,
    cap: nat,
)
    requires
        unique_keys(s),
        s.len() <= cap,
        enc_entries(text_view(s2)) == enc_entries(text_view(s)),
    ensures
        restorable(enc_entries(text_view(s)), cap),
        text_view(s2) == text_view(s),
{
    let es = text_view(s);
    assert forall|i: int, j: int|
        0 <= i < es.len() && 0 <= j < es.len() && i != j implies (#[trigger] es[i]).0 != (
    #[trigger] es[j]).0 by {
        assert(es[i].0 == s[i].0);
        assert(es[j].0 == s[j].0);
    }
    assert(unique_keys(es));
    lemma_enc_entries_injective(text_view(s2), es);
}

/// A bounded recency cache of text values whose state is kept in a snapshot.
pub struct PersistentCache {
    cache: Cache<String>,
    file_path: String,
    degraded: bool,
}

impl View for PersistentCache {
    type V = Seq<(Seq<char>, String)>;

    /// The entries in recency order, least recently used first.
    closed spec fn view(&self) -> Seq<(Seq<char>, String)> {
        self.cache@
    }
}

impl PersistentCache {
    /// The capacity the cache was created with.
    pub closed spec fn cap(&self) -> nat {
        self.cache.cap()
    }

    /// Where the snapshot is kept.
    pub closed spec fn path(&self) -> Seq<char> {
        self.file_path@
    }

    /// Whether the last snapshot write failed.
    pub closed spec fn degraded_spec(&self) -> bool {
        self.degraded
    }

    /// Well-formed: positive capacity, at most `capacity` entries, no key
    /// stored twice.
    pub closed spec fn wf(&self) -> bool {
        self.cache.wf()
    }

    /// The facts that `wf` stands for.
    pub proof fn lemma_wf(&self)
        requires
            self.wf(),
        ensures
            0 < self.cap(),
            self@.len() <= self.cap(),
            unique_keys(self@),
            self@.len() == recency(self@).len(),
            entry_map(self@).dom() == recency(self@).to_set(),
            recency(self@).no_duplicates(),
    {
        lemma_keys_bijection(self@);
    }

    /// Creates a cache of capacity `capacity` whose snapshot is kept at
    /// `file_path`. `snapshot` is the text found there, if any: without one
    /// the cache starts empty; with one the cache starts in the state it
    /// renders, and a text that renders no state this capacity can hold is
    /// refused.
    pub fn new(capacity: usize, file_path: &str, snapshot: Option<&str>) -> (r: Result<
        PersistentCache,
        CacheError,
    >)
        ensures
            capacity == 0 ==> r == Err::<PersistentCache, CacheError>(CacheError::Construction),
            capacity > 0 ==> match snapshot {
                None => r is Ok,
                Some(t) => (r is Ok <==> restorable(t@, capacity as nat)) && (r is Err ==> r
                    == Err::<PersistentCache, CacheError>(CacheError::PersistenceRead)),
            },
            r matches Ok(c) ==> {
                &&& c.wf()
                &&& c.cap() == capacity
                &&& c.path() == file_path@
                &&& !c.degraded_spec()
                &&& match snapshot {
                    None => c@ == Seq::<(Seq<char>, String)>::empty(),
                    Some(t) => enc_entries(text_view(c@)) == t@,
                }
            },
    {
        if capacity == 0 {
            return Err(CacheError::Construction);
        }
        let cache = match snapshot {
            None => Cache::new(capacity),
            Some(t) => {
                let entries = match decode(t) {
                    Some(entries) => entries,
                    None => {
                        return Err(CacheError::PersistenceRead);
                    },
                };
                match Cache::from_entries(capacity, &entries) {
                    Some(c) => {
                        assert(text_view(c@) =~= pairs_view(entries@));
                        c
                    },
                    None => {
                        proof {
                            if restorable(t@, capacity as nat) {
                                let es = choose|es: Seq<(Seq<char>, Seq<char>)>|
                                    enc_entries(es) == t@ && es.len() <= capacity
                                        && #[trigger] unique_keys(es);
                                lemma_enc_entries_injective(es, pairs_view(entries@));
                            }
                        }
                        return Err(CacheError::PersistenceRead);
                    },
                }
            },
        };
        Ok(PersistentCache { cache, file_path: String::from_str(file_path), degraded: false })
    }

    /// The snapshot text of the current state.
    pub fn snapshot(&self) -> (r: String)
        ensures
            r@ == enc_entries(text_view(self@)),
    {
        self.cache.snapshot()
    }

    /// Stores `value` under `key` as the bounded recency cache does, and
    /// returns the snapshot of the new state, to be written.
    pub fn put(&mut self, key: &str, value: String) -> (r: String)
        requires
            old(self).wf(),
        ensures
            final(self).wf(),
            final(self).cap() == old(self).cap(),
            final(self).path() == old(self).path(),
            final(self).degraded_spec() == old(self).degraded_spec(),
            final(self)@ == put_model(old(self)@, key@, value, old(self).cap() as int),
            r@ == enc_entries(text_view(final(self)@)),
    {
        self.cache.put(key, value);
        self.cache.snapshot()
    }

    /// Looks `key` up as the bounded recency cache does. On a hit returns the
    /// value and the snapshot of the new state, to be written; on a miss
    /// returns `None` and changes nothing.
    pub fn get(&mut self, key: &str) -> (r: Option<(String, String)>)
        requires
            old(self).wf(),
        ensures
            final(self).wf(),
            final(self).cap() == old(self).cap(),
            final(self).path() == old(self).path(),
            final(self).degraded_spec() == old(self).degraded_spec(),
            final(self)@ == touch_model(old(self)@, key@),
            match r {
                Some((v, snap)) => {
                    &&& has_key(old(self)@, key@)
                    &&& v == value_of(old(self)@, key@)
                    &&& snap@ == enc_entries(text_view(final(self)@))
                },
                None => !has_key(old(self)@, key@) && final(self)@ == old(self)@,
            },
    {
        match self.cache.get(key) {
            Some(v) => {
                let value = v.clone();
                Some((value, self.cache.snapshot()))
            },
            None => None,
        }
    }

    /// Records the outcome of writing the latest snapshot: a failed write
    /// leaves the cache degraded until a later write succeeds.
    pub fn record_write(&mut self, succeeded: bool)
        ensures
            final(self)@ == old(self)@,
            final(self).wf() == old(self).wf(),
            final(self).cap() == old(self).cap(),
            final(self).path() == old(self).path(),
            final(self).degraded_spec() == !succeeded,
    {
        self.degraded = !succeeded;
    }

    /// Whether the last snapshot write failed, so that the snapshot may lag
    /// behind the state.
    pub fn is_degraded(&self) -> (r: bool)
        ensures
            r == self.degraded_spec(),
    {
        self.degraded
    }

    /// Where the snapshot is kept.
    pub fn file_path(&self) -> (r: &str)
        ensures
            r@ == self.path(),
    {
        self.file_path.as_str()
    }

    /// The capacity the cache was created with.
    pub fn capacity(&self) -> (r: usize)
        ensures
            r == self.cap(),
    {
        self.cache.capacity()
    }

    /// Number of entries stored.
    pub fn len(&self) -> (r: usize)
        ensures
            r == self@.len(),
    {
        self.cache.len()
    }
}

} // verus!
