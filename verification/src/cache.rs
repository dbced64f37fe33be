//! The fixed-capacity TTL cache in front of skills.sh, keyed by
//! `(query, limit)`. Time is handed in, never read, so every rule of it is
//! a function of its arguments.

use vstd::prelude::*;
use crate::paths::str_eq;
use crate::search::{OnlineSkillResult, CACHE_TTL_SECS, CACHE_CAPACITY};

verus! {

/// What a cache key is: the query text and the limit.
pub type CacheKey = (Seq<char>, usize);

/// What the cache keeps for a key: when it was stored, and the results.
pub type CacheSlot = (u64, Seq<OnlineSkillResult>);

/// One stored answer.
#[derive(Debug)]
struct CacheEntry {
    query: String,
    limit: usize,
    stored_at: u64,
    results: Vec<OnlineSkillResult>,
}

spec fn key_of(e: CacheEntry) -> CacheKey {
    (e.query@, e.limit)
}

spec fn slot_of(e: CacheEntry) -> CacheSlot {
    (e.stored_at, e.results@)
}

/// No key is stored twice.
spec fn keys_unique(s: Seq<CacheEntry>) -> bool {
    forall|i: int, j: int| 0 <= i < s.len() && 0 <= j < s.len() && i != j
        ==> key_of(#[trigger] s[i]) != key_of(#[trigger] s[j])
}

spec fn has_key(s: Seq<CacheEntry>, k: CacheKey) -> bool {
    exists|i: int| 0 <= i < s.len() && key_of(#[trigger] s[i]) == k
}

spec fn index_for(s: Seq<CacheEntry>, k: CacheKey) -> int {
    choose|i: int| 0 <= i < s.len() && key_of(#[trigger] s[i]) == k
}

/// The map a list of entries describes.
spec fn entries_map(s: Seq<CacheEntry>) -> Map<CacheKey, CacheSlot> {
    Map::new(|k: CacheKey| has_key(s, k), |k: CacheKey| slot_of(s[index_for(s, k)]))
}

/// An answer stored at `stored_at` is stale from `stored_at + TTL` on.
pub open spec fn is_stale(stored_at: u64, now: u64) -> bool {
    now - stored_at >= CACHE_TTL_SECS
}

/// What a lookup at `now` answers: the fresh results stored for `k`.
pub open spec fn spec_lookup(m: Map<CacheKey, CacheSlot>, k: CacheKey, now: u64) -> Option<Seq<OnlineSkillResult>> {
    if m.contains_key(k) && !is_stale(m[k].0, now) {
        Some(m[k].1)
    } else {
        None
    }
}

/// What a lookup leaves behind: a stale answer for `k` is dropped.
pub open spec fn after_lookup(m: Map<CacheKey, CacheSlot>, k: CacheKey, now: u64) -> Map<CacheKey, CacheSlot> {
    if m.contains_key(k) && is_stale(m[k].0, now) {
        m.remove(k)
    } else {
        m
    }
}

/// `k` is stored and nothing was stored before it.
pub open spec fn is_oldest(m: Map<CacheKey, CacheSlot>, k: CacheKey) -> bool {
    &&& m.contains_key(k)
    &&& forall|j: CacheKey| #[trigger] m.contains_key(j) ==> m[k].0 <= m[j].0
}

/// The outcomes of storing `v` under `k`: when the cache is full, one of its
/// oldest answers makes room first.
pub open spec fn is_put_of(
    old: Map<CacheKey, CacheSlot>,
    new: Map<CacheKey, CacheSlot>,
    k: CacheKey,
    v: CacheSlot,
) -> bool {
    if old.len() >= CACHE_CAPACITY {
        exists|o: CacheKey| is_oldest(old, o) && new == old.remove(o).insert(k, v)
    } else {
        new == old.insert(k, v)
    }
}

/// An answer just stored is what a lookup before its TTL runs out gives
/// back, and from then on the lookup answers nothing.
pub proof fn law_lookup_after_put(
    old: Map<CacheKey, CacheSlot>,
    new: Map<CacheKey, CacheSlot>,
    k: CacheKey,
    stored_at: u64,
    results: Seq<OnlineSkillResult>,
    now: u64,
)
    requires
        is_put_of(old, new, k, (stored_at, results)),
    ensures
        now < stored_at + CACHE_TTL_SECS ==> spec_lookup(new, k, now) == Some(results),
        now >= stored_at + CACHE_TTL_SECS ==> spec_lookup(new, k, now).is_none(),
        now >= stored_at + CACHE_TTL_SECS ==> !after_lookup(new, k, now).contains_key(k),
{
    if old.len() >= CACHE_CAPACITY {
        let o = choose|o: CacheKey| is_oldest(old, o) && new == old.remove(o).insert(k, (stored_at, results));
        assert(new.contains_key(k) && new[k] == (stored_at, results));
    }
}

/// Storing an answer keeps every other answer, except the one oldest answer
/// that a full cache gives up.
pub proof fn law_put_keeps_others(
    old: Map<CacheKey, CacheSlot>,
    new: Map<CacheKey, CacheSlot>,
    k: CacheKey,
    v: CacheSlot,
    j: CacheKey,
)
    requires
        is_put_of(old, new, k, v),
        old.contains_key(j),
        j != k,
        old.len() < CACHE_CAPACITY || !is_oldest(old, j),
    ensures
        new.contains_key(j),
        new[j] == old[j],
{
    if old.len() >= CACHE_CAPACITY {
        let o = choose|o: CacheKey| is_oldest(old, o) && new == old.remove(o).insert(k, v);
        if o == j {
            assert(is_oldest(old, j));
        }
    }
}

/// One operation on the cache: storing `op.1` under `op.0` when it holds
/// an answer, else a lookup of `op.0` at `op.2`.
pub type CacheOp = (CacheKey, Option<CacheSlot>, u64);

/// `new` is what `op` may leave of `old` (see [`SearchCache::get`] and
/// [`SearchCache::put`]).
pub open spec fn cache_step(old: Map<CacheKey, CacheSlot>, op: CacheOp, new: Map<CacheKey, CacheSlot>) -> bool {
    match op.1 {
        Some(v) => is_put_of(old, new, op.0, v),
        None => new == after_lookup(old, op.0, op.2),
    }
}

/// `ms` is what the cache goes through under `ops`, one step each.
pub open spec fn cache_trace(ms: Seq<Map<CacheKey, CacheSlot>>, ops: Seq<CacheOp>) -> bool {
    &&& ms.len() == ops.len() + 1
    &&& forall|i: int| 0 <= i < ops.len() ==> cache_step(ms[i], #[trigger] ops[i], ms[i + 1])
}

/// `op` on `m` leaves the answer under `k` alone: it stores nothing under
/// `k`, gives up no answer to make room while `k`'s is among the oldest,
/// and looks `k` up only while its answer is fresh.
pub open spec fn spares(m: Map<CacheKey, CacheSlot>, op: CacheOp, k: CacheKey) -> bool {
    match op.1 {
        Some(_) => op.0 != k && (m.len() < CACHE_CAPACITY || !is_oldest(m, k)),
        None => op.0 != k || !is_stale(m[k].0, op.2),
    }
}

proof fn lemma_survives_upto(ms: Seq<Map<CacheKey, CacheSlot>>, ops: Seq<CacheOp>, k: CacheKey, n: int)
    requires
        cache_trace(ms, ops),
        ms[0].contains_key(k),
        forall|i: int| 0 <= i < ops.len() ==> spares(ms[i], #[trigger] ops[i], k),
        0 <= n < ms.len(),
    ensures
        ms[n].contains_key(k),
        ms[n][k] == ms[0][k],
    decreases n,
{
    if n > 0 {
        lemma_survives_upto(ms, ops, k, n - 1);
        let op = ops[n - 1];
        assert(cache_step(ms[n - 1], op, ms[n]));
        assert(spares(ms[n - 1], op, k));
        match op.1 {
            Some(v) => {
                law_put_keeps_others(ms[n - 1], ms[n], op.0, v, k);
            },
            None => {},
        }
    }
}

/// A stored answer stays what lookups give back until its TTL runs out, for
/// as long as every later operation spares it: whatever else is stored or
/// looked up in between, a lookup at `now` answers the stored results while
/// they are fresh and nothing once they are stale.
pub proof fn law_answer_survives(ms: Seq<Map<CacheKey, CacheSlot>>, ops: Seq<CacheOp>, k: CacheKey, now: u64)
    requires
        cache_trace(ms, ops),
        ms[0].contains_key(k),
        forall|i: int| 0 <= i < ops.len() ==> spares(ms[i], #[trigger] ops[i], k),
    ensures
        ms.last().contains_key(k),
        ms.last()[k] == ms[0][k],
        !is_stale(ms[0][k].0, now) ==> spec_lookup(ms.last(), k, now) == Some(ms[0][k].1),
        is_stale(ms[0][k].0, now) ==> spec_lookup(ms.last(), k, now).is_none(),
{
    lemma_survives_upto(ms, ops, k, ops.len() as int);
}

proof fn lemma_absent_upto(ms: Seq<Map<CacheKey, CacheSlot>>, ops: Seq<CacheOp>, k: CacheKey, n: int)
    requires
        cache_trace(ms, ops),
        !ms[0].contains_key(k),
        forall|i: int| 0 <= i < ops.len() ==> (#[trigger] ops[i]).1 is None || ops[i].0 != k,
        0 <= n < ms.len(),
    ensures
        !ms[n].contains_key(k),
    decreases n,
{
    if n > 0 {
        lemma_absent_upto(ms, ops, k, n - 1);
        let op = ops[n - 1];
        assert(cache_step(ms[n - 1], op, ms[n]));
        match op.1 {
            Some(v) => {
                if ms[n - 1].len() >= CACHE_CAPACITY {
                    let o = choose|o: CacheKey| #[trigger] is_oldest(ms[n - 1], o) && ms[n] == ms[n - 1].remove(o).insert(op.0, v);
                    assert(!ms[n].contains_key(k));
                }
            },
            None => {},
        }
    }
}

/// An answer, once gone (dropped by a stale lookup, or never stored), stays
/// gone: until something is stored under its key again, every lookup of it
/// answers nothing.
pub proof fn law_gone_answer_stays_gone(ms: Seq<Map<CacheKey, CacheSlot>>, ops: Seq<CacheOp>, k: CacheKey, now: u64)
    requires
        cache_trace(ms, ops),
        !ms[0].contains_key(k),
        forall|i: int| 0 <= i < ops.len() ==> (#[trigger] ops[i]).1 is None || ops[i].0 != k,
    ensures
        forall|i: int| 0 <= i < ms.len() ==> !(#[trigger] ms[i]).contains_key(k),
        spec_lookup(ms.last(), k, now).is_none(),
{
    assert forall|i: int| 0 <= i < ms.len() implies !(#[trigger] ms[i]).contains_key(k) by {
        lemma_absent_upto(ms, ops, k, i);
    }
    assert(ms.last() == ms[ms.len() - 1]);
}

proof fn lemma_index(s: Seq<CacheEntry>, i: int)
    requires
        keys_unique(s),
        0 <= i < s.len(),
    ensures
        has_key(s, key_of(s[i])),
        index_for(s, key_of(s[i])) == i,
        entries_map(s).contains_key(key_of(s[i])),
        entries_map(s)[key_of(s[i])] == slot_of(s[i]),
{
    assert(has_key(s, key_of(s[i])));
}

proof fn lemma_len(s: Seq<CacheEntry>)
    requires
        keys_unique(s),
    ensures
        entries_map(s).dom().finite(),
        entries_map(s).len() == s.len(),
{
    let ks = s.map_values(|e: CacheEntry| key_of(e));
    assert forall|i: int, j: int| 0 <= i < ks.len() && 0 <= j < ks.len() && i != j implies ks[i] != ks[j] by {
        assert(key_of(s[i]) != key_of(s[j]));
    }
    assert(ks.no_duplicates());
    assert forall|k: CacheKey| entries_map(s).dom().contains(k) <==> ks.to_set().contains(k) by {
        if has_key(s, k) {
            let i = index_for(s, k);
            assert(ks[i] == k);
        }
        if ks.to_set().contains(k) {
            assert(ks.contains(k));
            let i = choose|i: int| 0 <= i < ks.len() && ks[i] == k;
            assert(key_of(s[i]) == k);
        }
    }
    assert(entries_map(s).dom() =~= ks.to_set());
    ks.unique_seq_to_set();
}

proof fn lemma_remove(s: Seq<CacheEntry>, i: int)
    requires
        keys_unique(s),
        0 <= i < s.len(),
    ensures
        keys_unique(s.remove(i)),
        entries_map(s.remove(i)) == entries_map(s).remove(key_of(s[i])),
{
    let t = s.remove(i);
    let k0 = key_of(s[i]);
    assert forall|a: int, b: int| 0 <= a < t.len() && 0 <= b < t.len() && a != b
        implies key_of(#[trigger] t[a]) != key_of(#[trigger] t[b]) by {
        let a1 = if a < i { a } else { a + 1 };
        let b1 = if b < i { b } else { b + 1 };
        assert(t[a] == s[a1]);
        assert(t[b] == s[b1]);
    }
    lemma_index(s, i);
    assert forall|k: CacheKey| #[trigger] entries_map(t).contains_key(k)
        <==> entries_map(s).remove(k0).contains_key(k) by {
        if has_key(t, k) {
            let a = index_for(t, k);
            let a1 = if a < i { a } else { a + 1 };
            assert(s[a1] == t[a]);
            assert(has_key(s, k));
            assert(k != k0);
        }
        if has_key(s, k) && k != k0 {
            let a1 = index_for(s, k);
            assert(a1 != i);
            let a = if a1 < i { a1 } else { a1 - 1 };
            assert(t[a] == s[a1]);
            assert(has_key(t, k));
        }
    }
    assert forall|k: CacheKey| #[trigger] entries_map(t).contains_key(k)
        implies entries_map(t)[k] == entries_map(s)[k] by {
        let a = index_for(t, k);
        let a1 = if a < i { a } else { a + 1 };
        assert(s[a1] == t[a]);
        lemma_index(s, a1);
        lemma_index(t, a);
    }
    assert(entries_map(t) =~= entries_map(s).remove(k0));
}

proof fn lemma_push(s: Seq<CacheEntry>, e: CacheEntry)
    requires
        keys_unique(s),
        !has_key(s, key_of(e)),
    ensures
        keys_unique(s.push(e)),
        entries_map(s.push(e)) == entries_map(s).insert(key_of(e), slot_of(e)),
{
    let t = s.push(e);
    assert forall|a: int, b: int| 0 <= a < t.len() && 0 <= b < t.len() && a != b
        implies key_of(#[trigger] t[a]) != key_of(#[trigger] t[b]) by {
        if a == s.len() {
            assert(t[b] == s[b]);
        } else if b == s.len() {
            assert(t[a] == s[a]);
        } else {
            assert(t[a] == s[a]);
            assert(t[b] == s[b]);
        }
    }
    lemma_index(t, s.len() as int);
    assert forall|k: CacheKey| #[trigger] entries_map(t).contains_key(k)
        <==> entries_map(s).insert(key_of(e), slot_of(e)).contains_key(k) by {
        if has_key(t, k) && k != key_of(e) {
            let a = index_for(t, k);
            assert(a != s.len());
            assert(s[a] == t[a]);
            assert(has_key(s, k));
        }
        if has_key(s, k) {
            let a = index_for(s, k);
            assert(t[a] == s[a]);
            assert(has_key(t, k));
        }
    }
    assert forall|k: CacheKey| #[trigger] entries_map(t).contains_key(k) && k != key_of(e)
        implies entries_map(t)[k] == entries_map(s)[k] by {
        let a = index_for(t, k);
        assert(a != s.len());
        assert(s[a] == t[a]);
        lemma_index(s, a);
        lemma_index(t, a);
    }
    assert(entries_map(t) =~= entries_map(s).insert(key_of(e), slot_of(e)));
}

proof fn lemma_update(s: Seq<CacheEntry>, i: int, e: CacheEntry)
    requires
        keys_unique(s),
        0 <= i < s.len(),
        key_of(e) == key_of(s[i]),
    ensures
        keys_unique(s.update(i, e)),
        entries_map(s.update(i, e)) == entries_map(s).insert(key_of(e), slot_of(e)),
{
    let t = s.update(i, e);
    assert forall|a: int, b: int| 0 <= a < t.len() && 0 <= b < t.len() && a != b
        implies key_of(#[trigger] t[a]) != key_of(#[trigger] t[b]) by {
        assert(key_of(t[a]) == key_of(s[a]));
        assert(key_of(t[b]) == key_of(s[b]));
    }
    lemma_index(s, i);
    lemma_index(t, i);
    assert forall|k: CacheKey| #[trigger] entries_map(t).contains_key(k)
        <==> entries_map(s).contains_key(k) by {
        if has_key(t, k) {
            let a = index_for(t, k);
            assert(key_of(s[a]) == k);
        }
        if has_key(s, k) {
            let a = index_for(s, k);
            assert(key_of(t[a]) == k);
        }
    }
    assert forall|k: CacheKey| #[trigger] entries_map(t).contains_key(k) && k != key_of(e)
        implies entries_map(t)[k] == entries_map(s)[k] by {
        let a = index_for(t, k);
        assert(a != i);
        assert(s[a] == t[a]);
        lemma_index(s, a);
        lemma_index(t, a);
    }
    assert(entries_map(t) =~= entries_map(s).insert(key_of(e), slot_of(e)));
}

/// A copy of one result, field by field.
fn copy_result(r: &OnlineSkillResult) -> (c: OnlineSkillResult)
    ensures
        c == *r,
{
    let license = match &r.license {
        Some(l) => Some(l.clone()),
        None => None,
    };
    OnlineSkillResult {
        name: r.name.clone(),
        installs: r.installs,
        source: r.source.clone(),
        source_url: r.source_url.clone(),
        license,
    }
}

/// A copy of a list of results.
pub fn copy_results(v: &Vec<OnlineSkillResult>) -> (c: Vec<OnlineSkillResult>)
    ensures
        c@ == v@,
{
    let mut c: Vec<OnlineSkillResult> = Vec::new();
    let mut i: usize = 0;
    while i < v.len()
        invariant
            i <= v@.len(),
            c@ == v@.subrange(0, i as int),
        decreases v.len() - i,
    {
        c.push(copy_result(&v[i]));
        i = i + 1;
    }
    assert(v@.subrange(0, v@.len() as int) == v@);
    c
}

/// Tiny fixed-capacity TTL cache keyed by `(query, limit)`.
#[derive(Debug)]
pub struct SearchCache {
    entries: Vec<CacheEntry>,
}

impl SearchCache {
    /// Keys unique, never more than `CACHE_CAPACITY` answers.
    pub closed spec fn wf(&self) -> bool {
        &&& keys_unique(self.entries@)
        &&& self.entries@.len() <= CACHE_CAPACITY
    }

    /// The stored answers by key.
    pub closed spec fn view(&self) -> Map<CacheKey, CacheSlot> {
        entries_map(self.entries@)
    }

    /// The cache never holds more than `CACHE_CAPACITY` answers.
    pub proof fn law_cache_bounded(&self)
        requires
            self.wf(),
        ensures
            self@.dom().finite(),
            self@.len() <= CACHE_CAPACITY,
    {
        lemma_len(self.entries@);
    }

    /// The fresh results stored for `(query, limit)`. A stale answer is
    /// dropped and answers nothing.
    pub fn get(&mut self, query: &str, limit: usize, now_secs: u64) -> (r: Option<Vec<OnlineSkillResult>>)
        requires
            old(self).wf(),
        ensures
            final(self).wf(),
            final(self)@ == after_lookup(old(self)@, (query@, limit), now_secs),
            match r {
                Some(v) => spec_lookup(old(self)@, (query@, limit), now_secs) == Some(v@),
                None => spec_lookup(old(self)@, (query@, limit), now_secs).is_none(),
            },
    {
        let ghost k = (query@, limit);
        match self.find(query, limit) {
            None => {
                assert(!entries_map(self.entries@).contains_key(k));
                None
            },
            Some(i) => {
                proof {
                    lemma_index(self.entries@, i as int);
                }
                let stored_at = self.entries[i].stored_at;
                if now_secs >= stored_at && now_secs - stored_at >= CACHE_TTL_SECS {
                    proof {
                        lemma_remove(self.entries@, i as int);
                    }
                    self.entries.remove(i);
                    None
                } else {
                    Some(copy_results(&self.entries[i].results))
                }
            },
        }
    }

    /// Index of an entry stored no later than any other.
    fn oldest_index(&self) -> (r: usize)
        requires
            self.entries@.len() > 0,
        ensures
            r < self.entries@.len(),
            forall|j: int| 0 <= j < self.entries@.len() ==> self.entries@[r as int].stored_at <= #[trigger] self.entries@[j].stored_at,
    {
        let mut best: usize = 0;
        let mut i: usize = 1;
        while i < self.entries.len()
            invariant
                1 <= i <= self.entries@.len(),
                best < i,
                forall|j: int| 0 <= j < i ==> self.entries@[best as int].stored_at <= #[trigger] self.entries@[j].stored_at,
            decreases self.entries.len() - i,
        {
            if self.entries[i].stored_at < self.entries[best].stored_at {
                best = i;
            }
            i = i + 1;
        }
        best
    }

    /// Stores `results` under `(query, limit)` at `now_secs`. A full cache
    /// first drops one of its oldest answers.
    pub fn put(&mut self, query: &str, limit: usize, results: Vec<OnlineSkillResult>, now_secs: u64)
        requires
            old(self).wf(),
        ensures
            final(self).wf(),
            is_put_of(old(self)@, final(self)@, (query@, limit), (now_secs, results@)),
    {
        let ghost m0 = self@;
        let ghost k = (query@, limit);
        let ghost v = (now_secs, results@);
        proof {
            lemma_len(self.entries@);
        }
        if self.entries.len() >= CACHE_CAPACITY {
            let o = self.oldest_index();
            let ghost ok = key_of(self.entries@[o as int]);
            proof {
                lemma_index(self.entries@, o as int);
                assert forall|j: CacheKey| #[trigger] m0.contains_key(j) implies m0[ok].0 <= m0[j].0 by {
                    let a = index_for(self.entries@, j);
                    lemma_index(self.entries@, a);
                }
                assert(is_oldest(m0, ok));
                lemma_remove(self.entries@, o as int);
            }
            self.entries.remove(o);
            self.store(query, limit, results, now_secs);
            assert(self@ == m0.remove(ok).insert(k, v));
        } else {
            self.store(query, limit, results, now_secs);
        }
    }

    /// Inserts or replaces the answer for a key, with room to spare.
    fn store(&mut self, query: &str, limit: usize, results: Vec<OnlineSkillResult>, now_secs: u64)
        requires
            keys_unique(old(self).entries@),
            old(self).entries@.len() < CACHE_CAPACITY,
        ensures
            final(self).wf(),
            final(self)@ == old(self)@.insert((query@, limit), (now_secs, results@)),
    {
        let e = CacheEntry { query: query.to_string(), limit, stored_at: now_secs, results };
        assert(key_of(e) == (query@, limit));
        match self.find(query, limit) {
            Some(i) => {
                proof {
                    lemma_update(self.entries@, i as int, e);
                }
                self.entries.set(i, e);
            },
            None => {
                proof {
                    lemma_push(self.entries@, e);
                }
                self.entries.push(e);
            },
        }
    }

    fn find(&self, query: &str, limit: usize) -> (r: Option<usize>)
        ensures
            match r {
                Some(i) => i < self.entries@.len() && key_of(self.entries@[i as int]) == (query@, limit),
                None => !has_key(self.entries@, (query@, limit)),
            },
    {
        let mut i: usize = 0;
        while i < self.entries.len()
            invariant
                i <= self.entries@.len(),
                forall|j: int| 0 <= j < i ==> key_of(#[trigger] self.entries@[j]) != (query@, limit),
            decreases self.entries.len() - i,
        {
            let e = &self.entries[i];
            if e.limit == limit && str_eq(e.query.as_str(), query) {
                return Some(i);
            }
            i = i + 1;
        }
        None
    }
}

impl Default for SearchCache {
    fn default() -> (c: Self)
        ensures
            c.wf(),
            c@ == Map::<CacheKey, CacheSlot>::empty(),
    {
        let c = SearchCache { entries: Vec::new() };
        assert(c@ =~= Map::<CacheKey, CacheSlot>::empty());
        c
    }
}

} // verus!
