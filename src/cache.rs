//! Bounded recency cache: at most `capacity` entries, least recently used
//! entry evicted first.
//!
//! The state is modelled as the sequence of `(key, value)` entries in recency
//! order: the front is the least recently used entry, the back the most
//! recently used one. The entry map and the recency sequence are both read off
//! that one sequence.
use vstd::prelude::*;

use crate::snapshot::{enc_entries, encode, pairs_view};

verus! {

/// Whether the entry sequence `s` holds an entry for key `k`.
pub open spec fn has_key<V>(s: Seq<(Seq<char>, V)>, k: Seq<char>) -> bool {
    exists|i: int| 0 <= i < s.len() && (#[trigger] s[i]).0 == k
}

/// Position of the entry for key `k` in `s`; meaningful when `has_key(s, k)`.
pub open spec fn index_of<V>(s: Seq<(Seq<char>, V)>, k: Seq<char>) -> int {
    choose|i: int| 0 <= i < s.len() && (#[trigger] s[i]).0 == k
}

/// No key occurs twice in `s`.
pub open spec fn unique_keys<V>(s: Seq<(Seq<char>, V)>) -> bool {
    forall|i: int, j: int|
        0 <= i < s.len() && 0 <= j < s.len() && i != j ==> (#[trigger] s[i]).0 != (#[trigger] s[j]).0
}

/// The value stored for key `k`; meaningful when `has_key(s, k)`.
pub open spec fn value_of<V>(s: Seq<(Seq<char>, V)>, k: Seq<char>) -> V {
    s[index_of(s, k)].1
}

/// The recency sequence: the keys, least recently used first.
pub open spec fn recency<V>(s: Seq<(Seq<char>, V)>) -> Seq<Seq<char>> {
    s.map_values(|e: (Seq<char>, V)| e.0)
}

/// The entry map: each stored key with its value.
pub open spec fn entry_map<V>(s: Seq<(Seq<char>, V)>) -> Map<Seq<char>, V> {
    Map::new(|k: Seq<char>| has_key(s, k), |k: Seq<char>| value_of(s, k))
}

/// State after `put(k, v)` on state `s` of a cache of capacity `cap`: an
/// existing entry for `k` is dropped from its place; otherwise, on a full
/// cache, the least recently used entry is evicted. Then `(k, v)` becomes the
/// most recently used entry.
pub open spec fn put_model<V>(s: Seq<(Seq<char>, V)>, k: Seq<char>, v: V, cap: int) -> Seq<
    (Seq<char>, V),
> {
    if has_key(s, k) {
        s.remove(index_of(s, k)).push((k, v))
    } else if s.len() >= cap {
        s.drop_first().push((k, v))
    } else {
        s.push((k, v))
    }
}

/// State after `get(k)` on state `s`: on a hit the entry for `k` moves to the
/// most recently used end; on a miss nothing changes.
pub open spec fn touch_model<V>(s: Seq<(Seq<char>, V)>, k: Seq<char>) -> Seq<(Seq<char>, V)> {
    if has_key(s, k) {
        s.remove(index_of(s, k)).push(s[index_of(s, k)])
    } else {
        s
    }
}

/// State after the puts `(ks[0], vs[0]), (ks[1], vs[1]), ...` in that order.
pub open spec fn put_all<V>(s: Seq<(Seq<char>, V)>, ks: Seq<Seq<char>>, vs: Seq<V>, cap: int) -> Seq<
    (Seq<char>, V),
>
    decreases ks.len(),
{
    if ks.len() == 0 || vs.len() == 0 {
        s
    } else {
        put_model(put_all(s, ks.drop_last(), vs.drop_last(), cap), ks.last(), vs.last(), cap)
    }
}

/// The entry sequence that pairs `ks[i]` with `vs[i]`.
pub open spec fn pairs<V>(ks: Seq<Seq<char>>, vs: Seq<V>) -> Seq<(Seq<char>, V)> {
    Seq::new(ks.len(), |i: int| (ks[i], vs[i]))
}

/// With unique keys, an entry with key `k` sits at `index_of(s, k)`.
pub proof fn lemma_index_of_unique<V>(s: Seq<(Seq<char>, V)>, k: Seq<char>, i: int)
    requires
        unique_keys(s),
        0 <= i < s.len(),
        s[i].0 == k,
    ensures
        has_key(s, k),
        index_of(s, k) == i,
{
    assert(has_key(s, k));
}

/// `put_model` keeps keys unique and the length within a positive capacity.
pub proof fn lemma_put_model_wf<V>(s: Seq<(Seq<char>, V)>, k: Seq<char>, v: V, cap: int)
    requires
        unique_keys(s),
        s.len() <= cap,
        0 < cap,
    ensures
        unique_keys(put_model(s, k, v, cap)),
        put_model(s, k, v, cap).len() <= cap,
        has_key(put_model(s, k, v, cap), k),
        value_of(put_model(s, k, v, cap), k) == v,
{
    let r = put_model(s, k, v, cap);
    let base = if has_key(s, k) {
        s.remove(index_of(s, k))
    } else if s.len() >= cap {
        s.drop_first()
    } else {
        s
    };
    assert(r == base.push((k, v)));
    assert forall|i: int, j: int|
        0 <= i < base.len() && 0 <= j < base.len() && i != j implies (#[trigger] base[i]).0 != (
    #[trigger] base[j]).0 && base[i].0 != k by {
        let (mi, mj) = if has_key(s, k) {
            let x = index_of(s, k);
            (
                if i < x {
                    i
                } else {
                    i + 1
                },
                if j < x {
                    j
                } else {
                    j + 1
                },
            )
        } else if s.len() >= cap {
            (i + 1, j + 1)
        } else {
            (i, j)
        };
        assert(s[mi] == base[i]);
        assert(s[mj] == base[j]);
    }
    assert forall|i: int, j: int|
        0 <= i < r.len() && 0 <= j < r.len() && i != j implies (#[trigger] r[i]).0 != (
    #[trigger] r[j]).0 by {
        if i < base.len() && j < base.len() {
            assert(base[i] == r[i]);
            assert(base[j] == r[j]);
        }
    }
    lemma_index_of_unique(r, k, r.len() - 1);
}

/// `touch_model` keeps keys unique and the length unchanged.
pub proof fn lemma_touch_model_wf<V>(s: Seq<(Seq<char>, V)>, k: Seq<char>)
    requires
        unique_keys(s),
    ensures
        unique_keys(touch_model(s, k)),
        touch_model(s, k).len() == s.len(),
{
    if has_key(s, k) {
        let x = index_of(s, k);
        let base = s.remove(x);
        let r = touch_model(s, k);
        assert(r == base.push(s[x]));
        assert forall|j: int| 0 <= j < base.len() implies (#[trigger] base[j]).0 != k && base[j]
            == s[if j < x {
            j
        } else {
            j + 1
        }] by {
            let m = if j < x {
                j
            } else {
                j + 1
            };
            assert(s[m] == base[j]);
        }
        assert forall|i: int, j: int|
            0 <= i < r.len() && 0 <= j < r.len() && i != j implies (#[trigger] r[i]).0 != (
        #[trigger] r[j]).0 by {
            if i < base.len() && j < base.len() {
                let mi = if i < x {
                    i
                } else {
                    i + 1
                };
                let mj = if j < x {
                    j
                } else {
                    j + 1
                };
                assert(s[mi] == r[i]);
                assert(s[mj] == r[j]);
            } else if i < base.len() {
                assert(r[i] == base[i]);
            } else if j < base.len() {
                assert(r[j] == base[j]);
            }
        }
    }
}

/// Bijection between the entry map and the recency sequence: in a state with
/// unique keys, the keys of the entry map are exactly the keys of the recency
/// sequence, and the recency sequence holds no key twice.
pub proof fn lemma_keys_bijection<V>(s: Seq<(Seq<char>, V)>)
    requires
        unique_keys(s),
    ensures
        entry_map(s).dom() == recency(s).to_set(),
        recency(s).no_duplicates(),
{
    let r = recency(s);
    assert forall|k: Seq<char>| entry_map(s).dom().contains(k) <==> r.to_set().contains(k) by {
        if has_key(s, k) {
            let i = choose|i: int| 0 <= i < s.len() && (#[trigger] s[i]).0 == k;
            assert(r[i] == k);
        }
        if r.contains(k) {
            let i = choose|i: int| 0 <= i < r.len() && r[i] == k;
            assert(s[i].0 == k);
        }
    }
    assert(entry_map(s).dom() =~= r.to_set());
    assert forall|i: int, j: int| 0 <= i < r.len() && 0 <= j < r.len() && i != j implies r[i]
        != r[j] by {
        assert(r[i] == s[i].0);
        assert(r[j] == s[j].0);
    }
}

/// Putting distinct keys into an empty cache, no more than its capacity,
/// stores them in insertion order with their values.
proof fn lemma_fill_in_order<V>(ks: Seq<Seq<char>>, vs: Seq<V>, cap: int)
    requires
        ks.len() <= cap,
        vs.len() == ks.len(),
        ks.no_duplicates(),
    ensures
        put_all(Seq::empty(), ks, vs, cap) == pairs(ks, vs),
    decreases ks.len(),
{
    if ks.len() > 0 {
        let ks0 = ks.drop_last();
        let vs0 = vs.drop_last();
        lemma_fill_in_order(ks0, vs0, cap);
        let s = pairs(ks0, vs0);
        let k = ks.last();
        assert(!has_key(s, k)) by {
            if has_key(s, k) {
                let i = choose|i: int| 0 <= i < s.len() && (#[trigger] s[i]).0 == k;
                assert(ks[i] == ks[ks.len() - 1]);
            }
        }
        assert(s.push((k, vs.last())) =~= pairs(ks, vs));
    }
}

/// Eviction order: after `capacity + 1` puts of distinct keys into an empty
/// cache, with no get in between, the first key put is gone and every other
/// key is present with the value it was put with.
pub proof fn lemma_evicts_first_inserted<V>(ks: Seq<Seq<char>>, vs: Seq<V>, cap: int)
    requires
        0 < cap,
        ks.len() == cap + 1,
        vs.len() == ks.len(),
        ks.no_duplicates(),
    ensures
        !has_key(put_all(Seq::empty(), ks, vs, cap), ks[0]),
        forall|i: int|
            1 <= i < ks.len() ==> has_key(put_all(Seq::empty(), ks, vs, cap), #[trigger] ks[i])
                && value_of(put_all(Seq::empty(), ks, vs, cap), ks[i]) == vs[i],
{
    let ks0 = ks.drop_last();
    let vs0 = vs.drop_last();
    lemma_fill_in_order(ks0, vs0, cap);
    let s = pairs(ks0, vs0);
    let k = ks.last();
    assert(!has_key(s, k)) by {
        if has_key(s, k) {
            let i = choose|i: int| 0 <= i < s.len() && (#[trigger] s[i]).0 == k;
            assert(ks[i] == ks[ks.len() - 1]);
        }
    }
    let r = put_all(Seq::empty(), ks, vs, cap);
    assert(r == s.drop_first().push((k, vs.last())));
    assert(r =~= pairs(ks.drop_first(), vs.drop_first()));
    assert(unique_keys(r)) by {
        assert forall|i: int, j: int|
            0 <= i < r.len() && 0 <= j < r.len() && i != j implies (#[trigger] r[i]).0 != (
        #[trigger] r[j]).0 by {
            assert(r[i].0 == ks[i + 1]);
            assert(r[j].0 == ks[j + 1]);
        }
    }
    if has_key(r, ks[0]) {
        let i = choose|i: int| 0 <= i < r.len() && (#[trigger] r[i]).0 == ks[0];
        assert(ks[i + 1] == ks[0]);
    }
    assert forall|i: int| 1 <= i < ks.len() implies has_key(r, #[trigger] ks[i]) && value_of(
        r,
        ks[i],
    ) == vs[i] by {
        assert(r[i - 1].0 == ks[i]);
        lemma_index_of_unique(r, ks[i], i - 1);
    }
}

/// The entry sequence with each value read as its text.
pub open spec fn text_view(s: Seq<(Seq<char>, String)>) -> Seq<(Seq<char>, Seq<char>)> {
    s.map_values(|e: (Seq<char>, String)| (e.0, e.1@))
}

/// View of a vector of entries as an entry sequence.
pub open spec fn entries_view<V>(v: Seq<(String, V)>) -> Seq<(Seq<char>, V)> {
    v.map_values(|e: (String, V)| (e.0@, e.1))
}

/// A cache of at most `capacity` entries with least-recently-used eviction.
pub struct Cache<V> {
    capacity: usize,
    /// The entries in recency order, least recently used first.
    entries: Vec<(String, V)>,
}

impl<V> View for Cache<V> {
    type V = Seq<(Seq<char>, V)>;

    /// The entries in recency order, least recently used first.
    closed spec fn view(&self) -> Seq<(Seq<char>, V)> {
        entries_view(self.entries@)
    }
}

impl<V> Cache<V> {
    /// The capacity the cache was created with.
    pub closed spec fn cap(&self) -> nat {
        self.capacity as nat
    }

    /// Well-formed: positive capacity, at most `capacity` entries, no key
    /// stored twice.
    pub open spec fn wf(&self) -> bool {
        &&& 0 < self.cap()
        &&& self@.len() <= self.cap()
        &&& unique_keys(self@)
    }

    /// Creates an empty cache that holds at most `capacity` entries.
    pub fn new(capacity: usize) -> (r: Cache<V>)
        requires
            0 < capacity,
        ensures
            r.wf(),
            r.cap() == capacity,
            r@ == Seq::<(Seq<char>, V)>::empty(),
    {
        let r = Cache { capacity, entries: Vec::new() };
        assert(r@ =~= Seq::<(Seq<char>, V)>::empty());
        r
    }

    /// The capacity the cache was created with.
    pub fn capacity(&self) -> (r: usize)
        ensures
            r == self.cap(),
    {
        self.capacity
    }

    /// Number of entries stored.
    pub fn len(&self) -> (r: usize)
        ensures
            r == self@.len(),
    {
        self.entries.len()
    }

    /// Position of the entry for `k`, if there is one.
    fn position(&self, k: &String) -> (r: Option<usize>)
        requires
            self.wf(),
        ensures
            match r {
                Some(i) => i < self@.len() && has_key(self@, k@) && index_of(self@, k@) == i,
                None => !has_key(self@, k@),
            },
    {
        let n = self.entries.len();
        let mut i: usize = 0;
        while i < n
            invariant
                n == self.entries@.len(),
                i <= n,
                self.wf(),
                forall|j: int| 0 <= j < i ==> (#[trigger] self@[j]).0 != k@,
            decreases n - i,
        {
            if self.entries[i].0 == *k {
                assert(self@[i as int].0 == k@);
                proof {
                    lemma_index_of_unique(self@, k@, i as int);
                }
                return Some(i);
            }
            i = i + 1;
        }
        proof {
            let s = self@;
            if has_key(s, k@) {
                let j = choose|j: int| 0 <= j < s.len() && (#[trigger] s[j]).0 == k@;
                assert(s[j].0 != k@);
            }
        }
        None
    }

    /// Stores `value` under `key` and makes `key` the most recently used
    /// entry. An existing entry for `key` is replaced and nothing is evicted;
    /// otherwise, on a full cache, the least recently used entry is evicted
    /// first.
    pub fn put(&mut self, key: &str, value: V)
        requires
            old(self).wf(),
        ensures
            final(self).wf(),
            final(self).cap() == old(self).cap(),
            final(self)@ == put_model(old(self)@, key@, value, old(self).cap() as int),
            final(self)@.len() <= final(self).cap(),
            has_key(final(self)@, key@),
            value_of(final(self)@, key@) == value,
    {
        let k = String::from_str(key);
        let ghost s = self@;
        let ghost v = value;
        match self.position(&k) {
            Some(i) => {
                self.entries.remove(i);
                assert(self@ =~= s.remove(i as int));
            },
            None => {
                if self.entries.len() >= self.capacity {
                    self.entries.remove(0);
                    assert(self@ =~= s.drop_first());
                }
            },
        }
        self.entries.push((k, value));
        assert(self@ =~= put_model(s, key@, v, self.cap() as int));
        proof {
            lemma_put_model_wf(s, key@, v, self.cap() as int);
        }
    }

    /// Returns the value stored under `key`, if any. A hit makes `key` the
    /// most recently used entry; a miss changes nothing.
    pub fn get(&mut self, key: &str) -> (r: Option<&V>)
        requires
            old(self).wf(),
        ensures
            final(self).wf(),
            final(self).cap() == old(self).cap(),
            final(self)@ == touch_model(old(self)@, key@),
            match r {
                Some(v) => has_key(old(self)@, key@) && *v == value_of(old(self)@, key@),
                None => !has_key(old(self)@, key@) && final(self)@ == old(self)@,
            },
    {
        let k = String::from_str(key);
        let ghost s = self@;
        match self.position(&k) {
            Some(i) => {
                let e = self.entries.remove(i);
                self.entries.push(e);
                assert(self@ =~= touch_model(s, key@));
                proof {
                    lemma_touch_model_wf(s, key@);
                }
                let n = self.entries.len();
                Some(&self.entries[n - 1].1)
            },
            None => None,
        }
    }
}

impl Cache<String> {
    /// The snapshot text of the current state.
    pub fn snapshot(&self) -> (r: String)
        ensures
            r@ == enc_entries(text_view(self@)),
    {
        assert(pairs_view(self.entries@) =~= text_view(self@));
        encode(&self.entries)
    }

    /// A cache of capacity `capacity` holding `entries`, given in recency
    /// order; `None` when a key occurs twice or there are more entries than
    /// the capacity allows.
    pub fn from_entries(capacity: usize, entries: &Vec<(String, String)>) -> (r: Option<
        Cache<String>,
    >)
        requires
            0 < capacity,
        ensures
            match r {
                Some(c) => {
                    &&& entries@.len() <= capacity
                    &&& unique_keys(pairs_view(entries@))
                    &&& c.wf()
                    &&& c.cap() == capacity
                    &&& c@ == entries_view(entries@)
                },
                None => !(entries@.len() <= capacity && unique_keys(pairs_view(entries@))),
            },
    {
        let ghost ks = pairs_view(entries@).map_values(|e: (Seq<char>, Seq<char>)| e.0);
        let ghost vs = entries@.map_values(|e: (String, String)| e.1);
        let ghost all = entries_view(entries@);
        assert(all =~= pairs(ks, vs));
        let mut c: Cache<String> = Cache::new(capacity);
        let n = entries.len();
        let mut i: usize = 0;
        assert(c@ =~= pairs(ks.subrange(0, 0), vs.subrange(0, 0)));
        while i < n
            invariant
                n == entries@.len(),
                i <= n,
                c.wf(),
                c.cap() == capacity,
                ks.len() == n,
                vs.len() == n,
                all == pairs(ks, vs),
                ks == pairs_view(entries@).map_values(|e: (Seq<char>, Seq<char>)| e.0),
                vs == entries@.map_values(|e: (String, String)| e.1),
                c@.len() <= i,
                c@.len() == i ==> c@ == pairs(ks.subrange(0, i as int), vs.subrange(0, i as int)),
                ks.no_duplicates() && n <= capacity ==> c@.len() == i,
            decreases n - i,
        {
            let ghost s = c@;
            let ghost k = ks[i as int];
            assert(entries@[i as int].0@ == k);
            assert(entries@[i as int].1 == vs[i as int]);
            let value = entries[i].1.clone();
            c.put(entries[i].0.as_str(), value);
            proof {
                let p1 = pairs(ks.subrange(0, i + 1), vs.subrange(0, i + 1));
                if s.len() == i {
                    if has_key(s, k) {
                        assert(c@.len() == s.len());
                        let j = index_of(s, k);
                        assert(ks[j] == k);
                    } else if s.len() >= capacity {
                        assert(c@.len() == s.len());
                    } else {
                        assert(c@ =~= p1);
                    }
                } else {
                    if has_key(s, k) {
                        assert(c@.len() == s.len());
                    } else if s.len() >= capacity {
                        assert(c@.len() == s.len());
                    }
                }
            }
            i = i + 1;
        }
        assert(ks.subrange(0, n as int) =~= ks);
        assert(vs.subrange(0, n as int) =~= vs);
        if c.len() == n {
            proof {
                assert forall|a: int, b: int|
                    0 <= a < n && 0 <= b < n && a != b implies (#[trigger] pairs_view(
                    entries@,
                )[a]).0 != (#[trigger] pairs_view(entries@)[b]).0 by {
                    assert(c@[a].0 == ks[a]);
                    assert(c@[b].0 == ks[b]);
                }
            }
            Some(c)
        } else {
            proof {
                if n <= capacity && unique_keys(pairs_view(entries@)) {
                    assert forall|a: int, b: int| 0 <= a < b < n implies ks[a] != ks[b] by {
                        assert(pairs_view(entries@)[a].0 == ks[a]);
                        assert(pairs_view(entries@)[b].0 == ks[b]);
                    }
                }
            }
            None
        }
    }
}

} // verus!
