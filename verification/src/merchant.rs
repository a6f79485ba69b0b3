//! Per-merchant bookkeeping: remembered prices with a freshness window, the
//! transaction ledger, waypoint navigation with stuck detection, and the
//! bankruptcy grace counter.
//!
//! Prices and transactions are carried as opaque payloads (`P`, `T`): the
//! rules here depend only on ticks, ids and counts.
use vstd::prelude::*;
use crate::types::{CityId, Commodity};
use std::collections::VecDeque;

verus! {

broadcast use vstd::seq_lib::group_seq_properties;

// ── Price Memory ────────────────────────────────────────────────────────────

/// A single remembered price observation.
#[derive(Debug, Clone, Copy)]
pub struct PriceEntry<P> {
    pub price: P,
    /// Tick at which the price was observed.
    pub observed_tick: u32,
}

/// Key of a remembered price: the city and the commodity.
pub type PriceKey = (CityId, Commodity);

/// Ticks elapsed from `observed` to `now`, never negative.
pub open spec fn ticks_since(now: u32, observed: u32) -> int {
    if now >= observed {
        now - observed
    } else {
        0
    }
}

/// An observation made at `observed` is still fresh at `now` under `ttl`.
pub open spec fn is_fresh(now: u32, observed: u32, ttl: u32) -> bool {
    ticks_since(now, observed) <= ttl
}

/// Result of looking up `key` at `now` in a price map with freshness window `ttl`.
pub open spec fn lookup<P>(m: Map<PriceKey, PriceEntry<P>>, ttl: u32, key: PriceKey, now: u32) -> Option<P> {
    if m.dom().contains(key) && is_fresh(now, m[key].observed_tick, ttl) {
        Some(m[key].price)
    } else {
        None
    }
}

/// `mine` merged with `theirs`: every key of either map, taking their entry
/// where I have none or where theirs was observed strictly later.
pub open spec fn merged<P>(mine: Map<PriceKey, PriceEntry<P>>, theirs: Map<PriceKey, PriceEntry<P>>) -> Map<
    PriceKey,
    PriceEntry<P>,
> {
    Map::new(
        |k: PriceKey| mine.dom().contains(k) || theirs.dom().contains(k),
        |k: PriceKey|
            if theirs.dom().contains(k) && (!mine.dom().contains(k) || mine[k].observed_tick
                < theirs[k].observed_tick) {
                theirs[k]
            } else {
                mine[k]
            },
    )
}

/// `m` without the entries that are stale at `now`.
pub open spec fn pruned<P>(m: Map<PriceKey, PriceEntry<P>>, ttl: u32, now: u32) -> Map<PriceKey, PriceEntry<P>> {
    m.restrict(m.dom().filter(|k: PriceKey| is_fresh(now, m[k].observed_tick, ttl)))
}

/// Mathematical value of a price memory.
pub ghost struct PriceMemoryModel<P> {
    pub entries: Map<PriceKey, PriceEntry<P>>,
    pub ttl: u32,
}

/// Per-city, per-commodity last-known prices with a freshness window.
#[derive(Debug, Clone)]
pub struct PriceMemory<P> {
    entries: Vec<(CityId, Commodity, PriceEntry<P>)>,
    /// Number of ticks before an entry is considered stale.
    ttl: u32,
}

/// The map described by a list of entries whose keys are distinct.
pub open spec fn entries_map<P>(s: Seq<(CityId, Commodity, PriceEntry<P>)>) -> Map<PriceKey, PriceEntry<P>> {
    Map::new(
        |k: PriceKey| exists|i: int| 0 <= i < s.len() && (s[i].0, s[i].1) == k,
        |k: PriceKey| s[choose|i: int| 0 <= i < s.len() && (s[i].0, s[i].1) == k].2,
    )
}

/// No key occurs twice in the list.
pub open spec fn keys_distinct<P>(s: Seq<(CityId, Commodity, PriceEntry<P>)>) -> bool {
    forall|i: int, j: int| 0 <= i < j < s.len() ==> (s[i].0, s[i].1) != (s[j].0, s[j].1)
}

impl<P> View for PriceMemory<P> {
    type V = PriceMemoryModel<P>;

    closed spec fn view(&self) -> PriceMemoryModel<P> {
        PriceMemoryModel { entries: entries_map(self.entries@), ttl: self.ttl }
    }
}

proof fn lemma_entries_map_at<P>(s: Seq<(CityId, Commodity, PriceEntry<P>)>, i: int)
    requires
        keys_distinct(s),
        0 <= i < s.len(),
    ensures
        entries_map(s).dom().contains((s[i].0, s[i].1)),
        entries_map(s)[(s[i].0, s[i].1)] == s[i].2,
{
    let k = (s[i].0, s[i].1);
    assert(entries_map(s).dom().contains(k));
    let j = choose|j: int| 0 <= j < s.len() && (s[j].0, s[j].1) == k;
    assert(j == i);
}

impl<P: Copy> PriceMemory<P> {
    /// The memory's internal invariant: each key is stored once.
    pub closed spec fn wf(&self) -> bool {
        keys_distinct(self.entries@)
    }

    /// An empty memory whose entries stay fresh for `ttl` ticks.
    pub fn new(ttl: u32) -> (m: Self)
        ensures
            m.wf(),
            m@.entries == Map::<PriceKey, PriceEntry<P>>::empty(),
            m@.ttl == ttl,
    {
        let m = PriceMemory { entries: Vec::new(), ttl };
        assert(m@.entries =~= Map::<PriceKey, PriceEntry<P>>::empty());
        m
    }

    /// The freshness window in ticks.
    pub fn ttl(&self) -> (t: u32)
        ensures
            t == self@.ttl,
    {
        self.ttl
    }

    fn position(&self, city_id: CityId, commodity: Commodity) -> (r: Option<usize>)
        requires
            self.wf(),
        ensures
            match r {
                Some(i) => i < self.entries@.len() && self.entries@[i as int].0 == city_id
                    && self.entries@[i as int].1 == commodity,
                None => !self@.entries.dom().contains((city_id, commodity)),
            },
    {
        let mut i: usize = 0;
        while i < self.entries.len()
            invariant
                i <= self.entries.len(),
                forall|j: int| 0 <= j < i ==> (self.entries@[j].0, self.entries@[j].1) != (city_id, commodity),
            decreases self.entries.len() - i,
        {
            if self.entries[i].0 == city_id && self.entries[i].1 == commodity {
                return Some(i);
            }
            i += 1;
        }
        None
    }

    /// Record a price observation, replacing any earlier one for the same key.
    pub fn record(&mut self, city_id: CityId, commodity: Commodity, price: P, tick: u32)
        requires
            old(self).wf(),
        ensures
            final(self).wf(),
            final(self)@.ttl == old(self)@.ttl,
            final(self)@.entries == old(self)@.entries.insert(
                (city_id, commodity),
                PriceEntry { price, observed_tick: tick },
            ),
    {
        let entry = PriceEntry { price, observed_tick: tick };
        self.put(city_id, commodity, entry);
    }

    fn put(&mut self, city_id: CityId, commodity: Commodity, entry: PriceEntry<P>)
        requires
            old(self).wf(),
        ensures
            final(self).wf(),
            final(self).ttl == old(self).ttl,
            final(self)@.entries == old(self)@.entries.insert((city_id, commodity), entry),
    {
        let ghost old_s = self.entries@;
        let k = (city_id, commodity);
        match self.position(city_id, commodity) {
            Some(i) => {
                self.entries.set(i, (city_id, commodity, entry));
                proof {
                    let s = self.entries@;
                    assert(keys_distinct(s)) by {
                        assert forall|a: int, b: int| 0 <= a < b < s.len() implies (s[a].0, s[a].1) != (
                            s[b].0,
                            s[b].1,
                        ) by {
                            assert((s[a].0, s[a].1) == (old_s[a].0, old_s[a].1));
                            assert((s[b].0, s[b].1) == (old_s[b].0, old_s[b].1));
                        }
                    }
                    assert forall|key: PriceKey| entries_map(s).dom().contains(key) <==> old(
                        self,
                    )@.entries.insert(k, entry).dom().contains(key) by {
                        if entries_map(s).dom().contains(key) {
                            let j = choose|j: int| 0 <= j < s.len() && (s[j].0, s[j].1) == key;
                            if key != k {
                                assert((old_s[j].0, old_s[j].1) == key);
                            }
                        }
                        if old_s.len() > 0 && entries_map(old_s).dom().contains(key) {
                            let j = choose|j: int| 0 <= j < old_s.len() && (old_s[j].0, old_s[j].1) == key;
                            assert((s[j].0, s[j].1) == key);
                        }
                        if key == k {
                            assert((s[i as int].0, s[i as int].1) == key);
                        }
                    }
                    assert forall|key: PriceKey| #[trigger]
                        entries_map(s).dom().contains(key) implies entries_map(s)[key] == old(
                        self,
                    )@.entries.insert(k, entry)[key] by {
                        let j = choose|j: int| 0 <= j < s.len() && (s[j].0, s[j].1) == key;
                        lemma_entries_map_at(s, j);
                        if key != k {
                            assert(j != i);
                            lemma_entries_map_at(old_s, j);
                        }
                    }
                    assert(entries_map(s) =~= old(self)@.entries.insert(k, entry));
                }
            },
            None => {
                self.entries.push((city_id, commodity, entry));
                proof {
                    let s = self.entries@;
                    assert(keys_distinct(s)) by {
                        assert forall|a: int, b: int| 0 <= a < b < s.len() implies (s[a].0, s[a].1) != (
                            s[b].0,
                            s[b].1,
                        ) by {
                            if b == old_s.len() {
                                assert(s[a] == old_s[a]);
                                if (s[a].0, s[a].1) == k {
                                    assert(entries_map(old_s).dom().contains(k));
                                }
                            } else {
                                assert(s[a] == old_s[a] && s[b] == old_s[b]);
                            }
                        }
                    }
                    assert forall|key: PriceKey| entries_map(s).dom().contains(key) <==> old(
                        self,
                    )@.entries.insert(k, entry).dom().contains(key) by {
                        if entries_map(s).dom().contains(key) {
                            let j = choose|j: int| 0 <= j < s.len() && (s[j].0, s[j].1) == key;
                            if j < old_s.len() {
                                assert(old_s[j] == s[j]);
                            }
                        }
                        if entries_map(old_s).dom().contains(key) {
                            let j = choose|j: int| 0 <= j < old_s.len() && (old_s[j].0, old_s[j].1) == key;
                            assert(s[j] == old_s[j]);
                        }
                        if key == k {
                            assert((s[old_s.len() as int].0, s[old_s.len() as int].1) == key);
                        }
                    }
                    assert forall|key: PriceKey| #[trigger]
                        entries_map(s).dom().contains(key) implies entries_map(s)[key] == old(
                        self,
                    )@.entries.insert(k, entry)[key] by {
                        let j = choose|j: int| 0 <= j < s.len() && (s[j].0, s[j].1) == key;
                        lemma_entries_map_at(s, j);
                        if j < old_s.len() {
                            assert(s[j] == old_s[j]);
                            lemma_entries_map_at(old_s, j);
                        }
                    }
                    assert(entries_map(s) =~= old(self)@.entries.insert(k, entry));
                }
            },
        }
    }

    /// Look up a remembered price, returning `None` if missing or stale.
    pub fn get(&self, city_id: CityId, commodity: Commodity, current_tick: u32) -> (r: Option<P>)
        requires
            self.wf(),
        ensures
            r == lookup(self@.entries, self@.ttl, (city_id, commodity), current_tick),
    {
        match self.position(city_id, commodity) {
            Some(i) => {
                proof {
                    lemma_entries_map_at(self.entries@, i as int);
                }
                let entry = self.entries[i].2;
                if current_tick.saturating_sub(entry.observed_tick) > self.ttl {
                    None
                } else {
                    Some(entry.price)
                }
            },
            None => None,
        }
    }

    /// Merge another memory into this one: an entry of `other` is taken
    /// only where this memory has none for its key or has an older one.
    pub fn merge(&mut self, other: &PriceMemory<P>)
        requires
            old(self).wf(),
            other.wf(),
        ensures
            final(self).wf(),
            final(self)@.ttl == old(self)@.ttl,
            final(self)@.entries == merged(old(self)@.entries, other@.entries),
    {
        let ghost mine = self@.entries;
        let ghost theirs = other@.entries;
        let ghost os = other.entries@;
        let mut i: usize = 0;
        while i < other.entries.len()
            invariant
                i <= other.entries.len(),
                os == other.entries@,
                keys_distinct(os),
                theirs == entries_map(os),
                self.wf(),
                self.ttl == old(self).ttl,
                forall|k: PriceKey| #[trigger]
                    self@.entries.dom().contains(k) <==> (mine.dom().contains(k) || exists|j: int|
                        0 <= j < i && (os[j].0, os[j].1) == k),
                forall|k: PriceKey| #[trigger]
                    self@.entries.dom().contains(k) ==> self@.entries[k] == if (exists|j: int|
                        0 <= j < i && (os[j].0, os[j].1) == k) && (!mine.dom().contains(k)
                        || mine[k].observed_tick < theirs[k].observed_tick) {
                        theirs[k]
                    } else {
                        mine[k]
                    },
            decreases other.entries.len() - i,
        {
            let (city_id, commodity, entry) = other.entries[i];
            let ghost k = (city_id, commodity);
            proof {
                lemma_entries_map_at(os, i as int);
            }
            let dominated = match self.position(city_id, commodity) {
                Some(p) => {
                    proof {
                        lemma_entries_map_at(self.entries@, p as int);
                    }
                    self.entries[p].2.observed_tick < entry.observed_tick
                },
                None => true,
            };
            let ghost before = self@.entries;
            proof {
                // `k` has not been visited yet, so its current entry is mine (if any).
                assert(forall|j: int| 0 <= j < i ==> (os[j].0, os[j].1) != k);
                if before.dom().contains(k) {
                    assert(mine.dom().contains(k));
                    assert(before[k] == mine[k]);
                }
            }
            if dominated {
                self.put(city_id, commodity, entry);
            }
            proof {
                assert forall|kk: PriceKey| #[trigger]
                    self@.entries.dom().contains(kk) <==> (mine.dom().contains(kk) || exists|j: int|
                        0 <= j < i + 1 && (os[j].0, os[j].1) == kk) by {
                    if kk == k {
                        assert((os[i as int].0, os[i as int].1) == kk);
                    } else if exists|j: int| 0 <= j < i + 1 && (os[j].0, os[j].1) == kk {
                        let j = choose|j: int| 0 <= j < i + 1 && (os[j].0, os[j].1) == kk;
                        assert(j < i);
                    }
                }
                assert forall|kk: PriceKey| #[trigger]
                    self@.entries.dom().contains(kk) implies self@.entries[kk] == if (exists|j: int|
                        0 <= j < i + 1 && (os[j].0, os[j].1) == kk) && (!mine.dom().contains(kk)
                        || mine[kk].observed_tick < theirs[kk].observed_tick) {
                        theirs[kk]
                    } else {
                        mine[kk]
                    } by {
                    if kk == k {
                        assert((os[i as int].0, os[i as int].1) == kk);
                    } else if exists|j: int| 0 <= j < i + 1 && (os[j].0, os[j].1) == kk {
                        let j = choose|j: int| 0 <= j < i + 1 && (os[j].0, os[j].1) == kk;
                        assert(j < i);
                    }
                }
            }
            i += 1;
        }
        proof {
            assert forall|k: PriceKey| theirs.dom().contains(k) <==> exists|j: int|
                0 <= j < os.len() && (os[j].0, os[j].1) == k by {}
            assert(self@.entries =~= merged(mine, theirs));
        }
    }

    /// Remove all entries that are stale at `current_tick`.
    pub fn prune(&mut self, current_tick: u32)
        requires
            old(self).wf(),
        ensures
            final(self).wf(),
            final(self)@.ttl == old(self)@.ttl,
            final(self)@.entries == pruned(old(self)@.entries, old(self)@.ttl, current_tick),
    {
        let ghost old_s = self.entries@;
        let mut kept: Vec<(CityId, Commodity, PriceEntry<P>)> = Vec::new();
        let ghost mut origin: Seq<int> = Seq::empty();
        let mut i: usize = 0;
        while i < self.entries.len()
            invariant
                i <= self.entries.len(),
                self.entries@ == old_s,
                keys_distinct(old_s),
                kept@.len() == origin.len(),
                forall|a: int| 0 <= a < origin.len() ==> 0 <= #[trigger] origin[a] < i && kept@[a] == old_s[origin[a]],
                forall|a: int, b: int| 0 <= a < b < origin.len() ==> origin[a] < origin[b],
                forall|j: int|
                    0 <= j < i ==> (is_fresh(current_tick, old_s[j].2.observed_tick, self.ttl) <==> exists|a: int|
                        0 <= a < origin.len() && origin[a] == j),
            decreases self.entries.len() - i,
        {
            let e = self.entries[i];
            let ghost old_origin = origin;
            if current_tick.saturating_sub(e.2.observed_tick) <= self.ttl {
                kept.push(e);
                proof {
                    origin = origin.push(i as int);
                }
            }
            proof {
                assert forall|j: int|
                    0 <= j < i + 1 implies (is_fresh(current_tick, old_s[j].2.observed_tick, self.ttl)
                    <==> exists|a: int| 0 <= a < origin.len() && origin[a] == j) by {
                    if j == i && is_fresh(current_tick, old_s[j].2.observed_tick, self.ttl) {
                        assert(origin[origin.len() - 1] == j);
                    }
                    if j < i && is_fresh(current_tick, old_s[j].2.observed_tick, self.ttl) {
                        let a = choose|a: int| 0 <= a < old_origin.len() && old_origin[a] == j;
                        assert(origin[a] == j);
                    }
                }
            }
            i += 1;
        }
        let ghost ks = kept@;
        proof {
            assert(keys_distinct(ks)) by {
                assert forall|a: int, b: int| 0 <= a < b < ks.len() implies (ks[a].0, ks[a].1) != (
                    ks[b].0,
                    ks[b].1,
                ) by {
                    assert(origin[a] < origin[b]);
                }
            }
            let target = pruned(entries_map(old_s), self.ttl, current_tick);
            assert forall|k: PriceKey| entries_map(ks).dom().contains(k) <==> target.dom().contains(k) by {
                if entries_map(ks).dom().contains(k) {
                    let a = choose|a: int| 0 <= a < ks.len() && (ks[a].0, ks[a].1) == k;
                    lemma_entries_map_at(old_s, origin[a]);
                }
                if target.dom().contains(k) {
                    let j = choose|j: int| 0 <= j < old_s.len() && (old_s[j].0, old_s[j].1) == k;
                    lemma_entries_map_at(old_s, j);
                    let a = choose|a: int| 0 <= a < origin.len() && origin[a] == j;
                    assert((ks[a].0, ks[a].1) == k);
                }
            }
            assert forall|k: PriceKey| #[trigger] entries_map(ks).dom().contains(k) implies entries_map(ks)[k]
                == target[k] by {
                let a = choose|a: int| 0 <= a < ks.len() && (ks[a].0, ks[a].1) == k;
                lemma_entries_map_at(ks, a);
                lemma_entries_map_at(old_s, origin[a]);
            }
            assert(entries_map(ks) =~= target);
        }
        self.entries = kept;
    }

    /// The entries remembered for one city, regardless of staleness, or
    /// `None` when nothing is remembered for it.
    pub fn city_prices(&self, city_id: CityId) -> (r: Option<Vec<(Commodity, PriceEntry<P>)>>)
        requires
            self.wf(),
        ensures
            match r {
                None => forall|c: Commodity| !self@.entries.dom().contains((city_id, c)),
                Some(v) => v@.len() > 0 && (forall|c: Commodity|
                    self@.entries.dom().contains((city_id, c)) <==> exists|a: int|
                        0 <= a < v@.len() && v@[a].0 == c) && (forall|a: int|
                    0 <= a < v@.len() ==> self@.entries.dom().contains((city_id, v@[a].0))
                        && #[trigger] v@[a].1 == self@.entries[(city_id, v@[a].0)]) && (forall|a: int, b: int|
                    0 <= a < b < v@.len() ==> v@[a].0 != v@[b].0),
            },
    {
        let ghost s = self.entries@;
        let mut out: Vec<(Commodity, PriceEntry<P>)> = Vec::new();
        let ghost mut origin: Seq<int> = Seq::empty();
        let mut i: usize = 0;
        while i < self.entries.len()
            invariant
                i <= self.entries.len(),
                s == self.entries@,
                keys_distinct(s),
                out@.len() == origin.len(),
                forall|a: int|
                    0 <= a < origin.len() ==> 0 <= #[trigger] origin[a] < i && s[origin[a]].0 == city_id
                        && out@[a] == (s[origin[a]].1, s[origin[a]].2),
                forall|a: int, b: int| 0 <= a < b < origin.len() ==> origin[a] < origin[b],
                forall|j: int|
                    0 <= j < i && s[j].0 == city_id ==> exists|a: int| 0 <= a < origin.len() && origin[a] == j,
            decreases self.entries.len() - i,
        {
            let ghost old_origin = origin;
            if self.entries[i].0 == city_id {
                out.push((self.entries[i].1, self.entries[i].2));
                proof {
                    origin = origin.push(i as int);
                    assert(origin[origin.len() - 1] == i);
                }
            }
            proof {
                assert forall|j: int|
                    0 <= j < i + 1 && s[j].0 == city_id implies exists|a: int|
                    0 <= a < origin.len() && origin[a] == j by {
                    if j < i {
                        let a = choose|a: int| 0 <= a < old_origin.len() && old_origin[a] == j;
                        assert(origin[a] == j);
                    } else {
                        assert(origin[origin.len() - 1] == j);
                    }
                }
            }
            i += 1;
        }
        proof {
            assert forall|a: int| 0 <= a < out@.len() implies self@.entries.dom().contains((city_id, out@[a].0))
                && #[trigger] out@[a].1 == self@.entries[(city_id, out@[a].0)] by {
                lemma_entries_map_at(s, origin[a]);
            }
            assert forall|c: Commodity| self@.entries.dom().contains((city_id, c)) <==> exists|a: int|
                0 <= a < out@.len() && out@[a].0 == c by {
                if self@.entries.dom().contains((city_id, c)) {
                    let j = choose|j: int| 0 <= j < s.len() && (s[j].0, s[j].1) == (city_id, c);
                    let a = choose|a: int| 0 <= a < origin.len() && origin[a] == j;
                    assert(out@[a].0 == c);
                }
                if exists|a: int| 0 <= a < out@.len() && out@[a].0 == c {
                    let a = choose|a: int| 0 <= a < out@.len() && out@[a].0 == c;
                    lemma_entries_map_at(s, origin[a]);
                }
            }
            assert forall|a: int, b: int| 0 <= a < b < out@.len() implies out@[a].0 != out@[b].0 by {
                assert(origin[a] < origin[b]);
                assert((s[origin[a]].0, s[origin[a]].1) != (s[origin[b]].0, s[origin[b]].1));
            }
        }
        if out.len() == 0 {
            None
        } else {
            Some(out)
        }
    }

    /// A separate memory with the same entries and freshness window.
    pub fn duplicate(&self) -> (m: Self)
        requires
            self.wf(),
        ensures
            m.wf(),
            m@ == self@,
    {
        let mut entries: Vec<(CityId, Commodity, PriceEntry<P>)> = Vec::new();
        let mut i: usize = 0;
        while i < self.entries.len()
            invariant
                i <= self.entries@.len(),
                entries@ == self.entries@.take(i as int),
            decreases self.entries@.len() - i,
        {
            entries.push(self.entries[i]);
            i += 1;
            assert(entries@ =~= self.entries@.take(i as int));
        }
        assert(entries@ =~= self.entries@);
        PriceMemory { entries, ttl: self.ttl }
    }

    /// Every remembered entry as (city, commodity, entry), each key once.
    pub fn all_entries(&self) -> (r: &[(CityId, Commodity, PriceEntry<P>)])
        requires
            self.wf(),
        ensures
            keys_distinct(r@),
            entries_map(r@) == self@.entries,
    {
        self.entries.as_slice()
    }
}

/// A read returns what the last write stored while it is fresh, and is
/// unaffected by writes to other keys.
pub proof fn lemma_read_after_record<P>(
    m: Map<PriceKey, PriceEntry<P>>,
    ttl: u32,
    key: PriceKey,
    other: PriceKey,
    price: P,
    tick: u32,
    now: u32,
)
    ensures
        is_fresh(now, tick, ttl) ==> lookup(
            m.insert(key, PriceEntry { price, observed_tick: tick }),
            ttl,
            key,
            now,
        ) == Some(price),
        !is_fresh(now, tick, ttl) ==> lookup(
            m.insert(key, PriceEntry { price, observed_tick: tick }),
            ttl,
            key,
            now,
        ) is None,
        other != key ==> lookup(m.insert(key, PriceEntry { price, observed_tick: tick }), ttl, other, now)
            == lookup(m, ttl, other, now),
{
}

/// Pruning at `now` never changes what a lookup at `now` returns.
pub proof fn lemma_prune_preserves_lookup<P>(m: Map<PriceKey, PriceEntry<P>>, ttl: u32, key: PriceKey, now: u32)
    ensures
        lookup(pruned(m, ttl, now), ttl, key, now) == lookup(m, ttl, key, now),
{
}

/// A merge never loses a fresher observation: every key known to either
/// side is known afterwards, no older than on either side.
pub proof fn lemma_merge_keeps_newest<P>(
    mine: Map<PriceKey, PriceEntry<P>>,
    theirs: Map<PriceKey, PriceEntry<P>>,
    key: PriceKey,
)
    ensures
        mine.dom().contains(key) ==> merged(mine, theirs).dom().contains(key) && merged(
            mine,
            theirs,
        )[key].observed_tick >= mine[key].observed_tick,
        theirs.dom().contains(key) ==> merged(mine, theirs).dom().contains(key) && merged(
            mine,
            theirs,
        )[key].observed_tick >= theirs[key].observed_tick,
        !mine.dom().contains(key) && !theirs.dom().contains(key) ==> !merged(mine, theirs).dom().contains(key),
{
}

/// Merging a memory into itself changes nothing.
pub proof fn lemma_merge_idempotent<P>(m: Map<PriceKey, PriceEntry<P>>)
    ensures
        merged(m, m) == m,
{
    assert(merged(m, m) =~= m);
}

// ── Ledger ──────────────────────────────────────────────────────────────────

/// Maximum number of transactions kept in the ledger.
pub const LEDGER_CAP: usize = 50;

/// The most recent transactions of a merchant, oldest first.
#[derive(Debug, Clone)]
pub struct Ledger<T> {
    entries: VecDeque<T>,
}

impl<T> View for Ledger<T> {
    type V = Seq<T>;

    closed spec fn view(&self) -> Seq<T> {
        self.entries@
    }
}

impl<T> Ledger<T> {
    /// An empty ledger.
    pub fn new() -> (l: Self)
        ensures
            l@ == Seq::<T>::empty(),
    {
        Ledger { entries: VecDeque::new() }
    }

    /// Record a transaction, evicting the oldest if the ledger is full.
    pub fn record_transaction(&mut self, tx: T)
        ensures
            old(self)@.len() >= LEDGER_CAP ==> final(self)@ == old(self)@.drop_first().push(tx),
            old(self)@.len() < LEDGER_CAP ==> final(self)@ == old(self)@.push(tx),
    {
        if self.entries.len() >= LEDGER_CAP {
            self.entries.pop_front();
        }
        self.entries.push_back(tx);
    }

    /// Number of recorded transactions.
    pub fn len(&self) -> (n: usize)
        ensures
            n == self@.len(),
    {
        self.entries.len()
    }

    /// The transaction at position `i` (0 is the oldest kept).
    pub fn get(&self, i: usize) -> (t: &T)
        requires
            i < self@.len(),
        ensures
            *t == self@[i as int],
    {
        &self.entries[i]
    }
}

/// A ledger that never held more than `LEDGER_CAP` transactions keeps at
/// most that many, ending with the one just recorded.
pub proof fn lemma_ledger_bounded<T>(before: Seq<T>, tx: T)
    requires
        before.len() <= LEDGER_CAP,
    ensures
        ({
            let after = if before.len() >= LEDGER_CAP {
                before.drop_first().push(tx)
            } else {
                before.push(tx)
            };
            &&& after.len() <= LEDGER_CAP
            &&& after.last() == tx
        }),
{
}

// ── Waypoint navigation ─────────────────────────────────────────────────────

/// Number of ticks with no significant movement before a merchant is considered stuck.
pub const STUCK_THRESHOLD: u32 = 10;

/// Mathematical value of a navigation state.
pub ghost struct NavigationModel {
    pub waypoints: Seq<(u32, u32)>,
    pub target: Option<CityId>,
    pub stuck_ticks: u32,
}

/// Path-following state of a merchant: grid waypoints toward a target
/// city and a count of consecutive ticks without progress.
#[derive(Debug, Clone)]
pub struct Navigation {
    waypoints: VecDeque<(u32, u32)>,
    waypoint_target: Option<CityId>,
    stuck_ticks: u32,
}

impl View for Navigation {
    type V = NavigationModel;

    closed spec fn view(&self) -> NavigationModel {
        NavigationModel { waypoints: self.waypoints@, target: self.waypoint_target, stuck_ticks: self.stuck_ticks }
    }
}

impl Navigation {
    /// No waypoints, no target, not stuck.
    pub fn new() -> (n: Self)
        ensures
            n@.waypoints == Seq::<(u32, u32)>::empty(),
            n@.target is None,
            n@.stuck_ticks == 0,
    {
        Navigation { waypoints: VecDeque::new(), waypoint_target: None, stuck_ticks: 0 }
    }

    /// Replace the current waypoint queue with a new path toward `target`.
    pub fn set_waypoints(&mut self, target: CityId, path: Vec<(u32, u32)>)
        ensures
            final(self)@.waypoints == path@,
            final(self)@.target == Some(target),
            final(self)@.stuck_ticks == 0,
    {
        let mut q: VecDeque<(u32, u32)> = VecDeque::new();
        let mut i: usize = 0;
        while i < path.len()
            invariant
                i <= path.len(),
                q@ == path@.subrange(0, i as int),
            decreases path.len() - i,
        {
            q.push_back(path[i]);
            i += 1;
        }
        assert(path@.subrange(0, path@.len() as int) == path@);
        self.waypoints = q;
        self.waypoint_target = Some(target);
        self.stuck_ticks = 0;
    }

    /// Discard all waypoints and reset navigation state.
    pub fn clear_waypoints(&mut self)
        ensures
            final(self)@.waypoints == Seq::<(u32, u32)>::empty(),
            final(self)@.target is None,
            final(self)@.stuck_ticks == 0,
    {
        self.waypoints.clear();
        self.waypoint_target = None;
        self.stuck_ticks = 0;
    }

    /// Peek at the next waypoint without consuming it.
    pub fn next_waypoint(&self) -> (w: Option<(u32, u32)>)
        ensures
            self@.waypoints.len() == 0 ==> w is None,
            self@.waypoints.len() > 0 ==> w == Some(self@.waypoints[0]),
    {
        if self.waypoints.len() == 0 {
            None
        } else {
            Some(self.waypoints[0])
        }
    }

    /// Drop the next waypoint once it has been reached.
    pub fn pop_waypoint(&mut self)
        ensures
            final(self)@.waypoints == if old(self)@.waypoints.len() == 0 {
                old(self)@.waypoints
            } else {
                old(self)@.waypoints.drop_first()
            },
            final(self)@.target == old(self)@.target,
            final(self)@.stuck_ticks == old(self)@.stuck_ticks,
    {
        self.waypoints.pop_front();
    }

    /// The waypoint target city, if any.
    pub fn waypoint_target(&self) -> (t: Option<CityId>)
        ensures
            t == self@.target,
    {
        self.waypoint_target
    }

    /// Consecutive ticks without significant movement.
    pub fn stuck_ticks(&self) -> (n: u32)
        ensures
            n == self@.stuck_ticks,
    {
        self.stuck_ticks
    }

    /// Update stuck detection once per tick: `moved` says whether the
    /// merchant moved noticeably since the previous tick.
    pub fn update_stuck_detection(&mut self, moved: bool)
        requires
            !moved ==> old(self)@.stuck_ticks < u32::MAX,
        ensures
            final(self)@.stuck_ticks == if moved {
                0
            } else {
                old(self)@.stuck_ticks + 1
            },
            final(self)@.waypoints == old(self)@.waypoints,
            final(self)@.target == old(self)@.target,
    {
        if moved {
            self.stuck_ticks = 0;
        } else {
            self.stuck_ticks = self.stuck_ticks + 1;
        }
    }

    /// The merchant has been stuck for too long and needs a path recompute.
    pub fn is_stuck(&self) -> (b: bool)
        ensures
            b == (self@.stuck_ticks >= STUCK_THRESHOLD),
    {
        self.stuck_ticks >= STUCK_THRESHOLD
    }

    /// Whether waypoints should be recomputed: a target is wanted but no
    /// waypoints remain, the wanted target differs from the current one, or
    /// the merchant is stuck.
    pub fn needs_path_recompute(&self, desired_target: Option<CityId>) -> (b: bool)
        ensures
            b == ((self@.waypoints.len() == 0 && desired_target is Some) || desired_target != self@.target
                || self@.stuck_ticks >= STUCK_THRESHOLD),
    {
        if self.waypoints.len() == 0 && desired_target.is_some() {
            return true;
        }
        let same_target = match (desired_target, self.waypoint_target) {
            (Some(a), Some(b)) => a == b,
            (None, None) => true,
            _ => false,
        };
        if !same_target {
            return true;
        }
        self.is_stuck()
    }
}

// ── Bankruptcy ──────────────────────────────────────────────────────────────

/// Counts consecutive ticks spent with negative gold.
#[derive(Debug, Clone, Copy)]
pub struct BankruptcyTracker {
    negative_gold_ticks: u32,
}

/// Length of the run of negative-gold ticks at the end of `history`.
pub open spec fn negative_run(history: Seq<bool>) -> nat
    decreases history.len(),
{
    if history.len() == 0 {
        0
    } else if history.last() {
        negative_run(history.drop_last()) + 1
    } else {
        0
    }
}

impl BankruptcyTracker {
    /// No negative ticks seen yet.
    pub fn new() -> (t: Self)
        ensures
            t.negative_gold_ticks() == 0,
    {
        BankruptcyTracker { negative_gold_ticks: 0 }
    }

    /// Consecutive ticks with negative gold so far.
    pub closed spec fn negative_gold_ticks(&self) -> u32 {
        self.negative_gold_ticks
    }

    /// The current count of consecutive negative-gold ticks.
    pub fn negative_ticks(&self) -> (n: u32)
        ensures
            n == self.negative_gold_ticks(),
    {
        self.negative_gold_ticks
    }

    /// Tick the bankruptcy counter: it grows while gold is negative and
    /// resets otherwise. Returns `true` when the merchant goes bankrupt,
    /// i.e. the counter has reached `grace_ticks`.
    pub fn tick_bankruptcy(&mut self, gold_negative: bool, grace_ticks: u32) -> (bankrupt: bool)
        requires
            gold_negative ==> old(self).negative_gold_ticks() < u32::MAX,
        ensures
            final(self).negative_gold_ticks() == if gold_negative {
                old(self).negative_gold_ticks() + 1
            } else {
                0
            },
            bankrupt == (final(self).negative_gold_ticks() >= grace_ticks),
    {
        if gold_negative {
            self.negative_gold_ticks = self.negative_gold_ticks + 1;
        } else {
            self.negative_gold_ticks = 0;
        }
        self.negative_gold_ticks >= grace_ticks
    }
}

/// The counter follows the run of negative-gold ticks: a tick with negative
/// gold extends the run by one and any other tick ends it (the update
/// `tick_bankruptcy` makes), so a merchant goes bankrupt exactly when its
/// last `grace_ticks` ticks all had negative gold.
pub proof fn lemma_bankrupt_iff_negative_run(history: Seq<bool>, grace_ticks: u32)
    ensures
        forall|b: bool| #[trigger] negative_run(history.push(b)) == if b {
            negative_run(history) + 1
        } else {
            0
        },
        (negative_run(history) >= grace_ticks) <==> (grace_ticks <= history.len() && forall|i: int|
            history.len() - grace_ticks <= i < history.len() ==> #[trigger] history[i]),
{
    assert forall|b: bool| #[trigger] negative_run(history.push(b)) == if b {
        negative_run(history) + 1
    } else {
        0
    } by {
        assert(history.push(b).drop_last() =~= history);
    }
    lemma_run_characterisation(history, grace_ticks as nat);
}

proof fn lemma_run_characterisation(history: Seq<bool>, g: nat)
    ensures
        (negative_run(history) >= g) <==> (g <= history.len() && forall|i: int|
            history.len() - g <= i < history.len() ==> #[trigger] history[i]),
    decreases history.len(),
{
    if history.len() > 0 && g > 0 {
        let h = history.drop_last();
        lemma_run_characterisation(h, (g - 1) as nat);
        if history.last() {
            if g - 1 <= h.len() && forall|i: int| h.len() - (g - 1) <= i < h.len() ==> #[trigger] h[i] {
                assert forall|i: int| history.len() - g <= i < history.len() implies #[trigger] history[i] by {
                    if i < history.len() - 1 {
                        assert(history[i] == h[i]);
                    }
                }
            }
            if g <= history.len() && forall|i: int| history.len() - g <= i < history.len() ==> #[trigger] history[i] {
                assert forall|i: int| h.len() - (g - 1) <= i < h.len() implies #[trigger] h[i] by {
                    assert(history[i] == h[i]);
                }
            }
        } else {
            assert(!history[history.len() - 1]);
        }
    }
}

} // verus!
