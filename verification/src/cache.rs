//! Bounded least-recently-used cache of decoded tiles.
//!
//! The cache keeps, per tile, an opaque entry (the uploaded texture, on the
//! GPU side) and its byte size, in recency order. Inserting past the byte
//! budget evicts least-recently-used tiles until the budget holds again or
//! only one tile is left.

use vstd::prelude::*;
use crate::tile::{TileId, tile_contains, ancestor_spec, tiles_per_side, lemma_tiles_per_side_positive};
use vstd::arithmetic::div_mod::lemma_div_is_ordered_by_denominator;
use crate::resolve::nearest_ancestor_from;

verus! {

/// Snapshot of cache state.
#[derive(Debug, Clone, Copy)]
pub struct CacheStats {
    pub entries: usize,
    pub bytes_used: usize,
    pub budget_bytes: usize,
    pub hits: u64,
    pub misses: u64,
    pub inserts: u64,
    pub evictions: u64,
}

impl Default for CacheStats {
    fn default() -> (s: CacheStats)
        ensures
            s.entries == 0 && s.bytes_used == 0 && s.budget_bytes == 0 && s.hits == 0
                && s.misses == 0 && s.inserts == 0 && s.evictions == 0,
    {
        CacheStats {
            entries: 0,
            bytes_used: 0,
            budget_bytes: 0,
            hits: 0,
            misses: 0,
            inserts: 0,
            evictions: 0,
        }
    }
}

/// One cached tile.
pub struct CacheSlot<E> {
    pub id: TileId,
    pub entry: E,
    pub bytes: usize,
}

/// The cache: slots in recency order (least recently used first).
pub struct TextureCache<E> {
    slots: Vec<CacheSlot<E>>,
    bytes_used: usize,
    budget_bytes: usize,
    stat_hits: u64,
    stat_misses: u64,
    stat_inserts: u64,
    stat_evictions: u64,
}

// ---------------------------------------------------------------------------
// Model: the cached tiles with their sizes, least recently used first.

/// Total bytes of `s`.
pub open spec fn total_bytes(s: Seq<(TileId, usize)>) -> nat
    decreases s.len(),
{
    if s.len() == 0 {
        0
    } else {
        total_bytes(s.drop_last()) + s.last().1 as nat
    }
}

/// No tile occurs twice.
pub open spec fn distinct_ids(s: Seq<(TileId, usize)>) -> bool {
    forall|i: int, j: int| 0 <= i < j < s.len() ==> (#[trigger] s[i]).0 != (#[trigger] s[j]).0
}

/// `id` is cached.
pub open spec fn has_id(s: Seq<(TileId, usize)>, id: TileId) -> bool {
    exists|i: int| 0 <= i < s.len() && (#[trigger] s[i]).0 == id
}

/// Cached tiles, as a predicate.
pub open spec fn cached_in(s: Seq<(TileId, usize)>) -> spec_fn(TileId) -> bool {
    |t: TileId| has_id(s, t)
}

/// Mark `id` (at position `i`) most recently used.
pub open spec fn touched_at(s: Seq<(TileId, usize)>, i: int) -> Seq<(TileId, usize)> {
    s.remove(i).push(s[i])
}

/// Evict least-recently-used tiles while over `budget` and more than one
/// tile remains.
pub open spec fn evicted(s: Seq<(TileId, usize)>, budget: nat) -> Seq<(TileId, usize)>
    decreases s.len(),
{
    if total_bytes(s) > budget && s.len() > 1 {
        evicted(s.drop_first(), budget)
    } else {
        s
    }
}

/// The entries of `new_c` are those of `old_c` with the entry at recency
/// position `i` moved to the most-recently-used end.
pub open spec fn entries_touched<E>(old_c: &TextureCache<E>, new_c: &TextureCache<E>, i: int) -> bool {
    &&& new_c.entry_at(new_c.lru().len() - 1) == old_c.entry_at(i)
    &&& forall|j: int| 0 <= j < i ==> #[trigger] new_c.entry_at(j) == old_c.entry_at(j)
    &&& forall|j: int|
        i <= j < old_c.lru().len() - 1 ==> #[trigger] new_c.entry_at(j) == old_c.entry_at(j + 1)
}

/// The entries of `new_c` are those of `old_c` from recency position `k`
/// on: the `k` least recently used are gone, the others keep their entries
/// (where `old_c` has them).
pub open spec fn entries_shifted<E>(old_c: &TextureCache<E>, new_c: &TextureCache<E>, k: int) -> bool {
    forall|j: int|
        0 <= j < new_c.lru().len() && j + k < old_c.lru().len() ==> #[trigger] new_c.entry_at(j)
            == old_c.entry_at(j + k)
}

impl<E> TextureCache<E> {
    /// The cached tiles with their sizes, least recently used first.
    pub closed spec fn lru(&self) -> Seq<(TileId, usize)> {
        self.slots@.map_values(|c: CacheSlot<E>| (c.id, c.bytes))
    }

    /// The entry cached for the tile at recency position `i`.
    pub closed spec fn entry_at(&self, i: int) -> E {
        self.slots@[i].entry
    }

    pub closed spec fn budget(&self) -> nat {
        self.budget_bytes as nat
    }

    pub closed spec fn bytes(&self) -> nat {
        self.bytes_used as nat
    }

    pub closed spec fn hits(&self) -> nat {
        self.stat_hits as nat
    }

    pub closed spec fn misses(&self) -> nat {
        self.stat_misses as nat
    }

    pub closed spec fn inserts(&self) -> nat {
        self.stat_inserts as nat
    }

    pub closed spec fn evictions(&self) -> nat {
        self.stat_evictions as nat
    }

    /// Well-formedness: no tile is cached twice, and the byte count is the
    /// total of the cached tiles' sizes.
    pub closed spec fn wf(&self) -> bool {
        &&& distinct_ids(self.lru())
        &&& total_bytes(self.lru()) == self.bytes_used
    }

    /// An empty cache with the given byte budget.
    pub fn new(budget_bytes: usize) -> (c: TextureCache<E>)
        ensures
            c.wf(),
            c.lru() == Seq::<(TileId, usize)>::empty(),
            c.budget() == budget_bytes,
            c.bytes() == 0,
            c.hits() == 0 && c.misses() == 0 && c.inserts() == 0 && c.evictions() == 0,
    {
        let c = TextureCache {
            slots: Vec::new(),
            bytes_used: 0,
            budget_bytes,
            stat_hits: 0,
            stat_misses: 0,
            stat_inserts: 0,
            stat_evictions: 0,
        };
        assert(c.lru() =~= Seq::<(TileId, usize)>::empty());
        c
    }

    /// Snapshot of the counters.
    pub fn stats(&self) -> (s: CacheStats)
        requires
            self.wf(),
        ensures
            s.entries == self.lru().len(),
            s.bytes_used == self.bytes(),
            s.budget_bytes == self.budget(),
            s.hits == self.hits(),
            s.misses == self.misses(),
            s.inserts == self.inserts(),
            s.evictions == self.evictions(),
            s.bytes_used == total_bytes(self.lru()),
            distinct_ids(self.lru()),
    {
        CacheStats {
            entries: self.slots.len(),
            bytes_used: self.bytes_used,
            budget_bytes: self.budget_bytes,
            hits: self.stat_hits,
            misses: self.stat_misses,
            inserts: self.stat_inserts,
            evictions: self.stat_evictions,
        }
    }

    /// Position of `id` in recency order, if cached.
    fn find(&self, id: TileId) -> (r: Option<usize>)
        ensures
            match r {
                Some(i) => i < self.lru().len() && self.lru()[i as int].0 == id,
                None => !has_id(self.lru(), id),
            },
    {
        let mut i: usize = 0;
        while i < self.slots.len()
            invariant
                i <= self.slots@.len(),
                self.lru().len() == self.slots@.len(),
                forall|j: int| 0 <= j < i ==> (#[trigger] self.lru()[j]).0 != id,
            decreases self.slots.len() - i,
        {
            assert(self.lru()[i as int].0 == self.slots@[i as int].id);
            if self.slots[i].id == id {
                return Some(i);
            }
            i = i + 1;
        }
        None
    }

    /// `id` is cached.
    pub fn contains(&self, id: TileId) -> (b: bool)
        ensures
            b == has_id(self.lru(), id),
    {
        self.find(id).is_some()
    }

    /// Read-only lookup: does not change recency or counters.
    pub fn peek(&self, id: TileId) -> (r: Option<&E>)
        ensures
            match r {
                Some(e) => exists|i: int|
                    0 <= i < self.lru().len() && (#[trigger] self.lru()[i]).0 == id && *e
                        == self.entry_at(i),
                None => !has_id(self.lru(), id),
            },
    {
        match self.find(id) {
            Some(i) => Some(&self.slots[i].entry),
            None => None,
        }
    }

    /// Move the slot at `i` to the most-recently-used end.
    fn touch_at(&mut self, i: usize)
        requires
            old(self).wf(),
            i < old(self).lru().len(),
        ensures
            final(self).wf(),
            final(self).lru() == touched_at(old(self).lru(), i as int),
            entries_touched(old(self), final(self), i as int),
            final(self).budget() == old(self).budget(),
            final(self).bytes() == old(self).bytes(),
            final(self).hits() == old(self).hits(),
            final(self).misses() == old(self).misses(),
            final(self).inserts() == old(self).inserts(),
            final(self).evictions() == old(self).evictions(),
    {
        let ghost s = self.lru();
        let ghost old_slots = self.slots@;
        let slot = self.slots.remove(i);
        self.slots.push(slot);
        proof {
            assert(self.lru() =~= touched_at(s, i as int));
            lemma_touch_keeps(s, i as int);
        }
    }

    /// Mark `id` most recently used, if cached.
    pub fn touch(&mut self, id: TileId)
        requires
            old(self).wf(),
        ensures
            final(self).wf(),
            has_id(old(self).lru(), id) ==> exists|i: int|
                0 <= i < old(self).lru().len() && (#[trigger] old(self).lru()[i]).0 == id
                    && final(self).lru() == touched_at(old(self).lru(), i)
                    && entries_touched(old(self), final(self), i),
            !has_id(old(self).lru(), id) ==> final(self).lru() == old(self).lru()
                && entries_shifted(old(self), final(self), 0),
            final(self).budget() == old(self).budget(),
            final(self).bytes() == old(self).bytes(),
            final(self).hits() == old(self).hits(),
            final(self).misses() == old(self).misses(),
            final(self).inserts() == old(self).inserts(),
            final(self).evictions() == old(self).evictions(),
    {
        match self.find(id) {
            Some(i) => self.touch_at(i),
            None => {},
        }
    }

    /// Look `id` up, marking it most recently used; counts a hit or a miss.
    pub fn get(&mut self, id: TileId) -> (r: Option<&E>)
        requires
            old(self).wf(),
            old(self).hits() < u64::MAX,
            old(self).misses() < u64::MAX,
        ensures
            final(self).wf(),
            has_id(old(self).lru(), id) ==> {
                &&& exists|i: int|
                    0 <= i < old(self).lru().len() && (#[trigger] old(self).lru()[i]).0 == id
                        && final(self).lru() == touched_at(old(self).lru(), i)
                        && entries_touched(old(self), final(self), i)
                        && r == Some(&old(self).entry_at(i))
                &&& final(self).hits() == old(self).hits() + 1
                &&& final(self).misses() == old(self).misses()
            },
            !has_id(old(self).lru(), id) ==> {
                &&& r is None
                &&& final(self).lru() == old(self).lru()
                &&& entries_shifted(old(self), final(self), 0)
                &&& final(self).hits() == old(self).hits()
                &&& final(self).misses() == old(self).misses() + 1
            },
            final(self).budget() == old(self).budget(),
            final(self).inserts() == old(self).inserts(),
            final(self).evictions() == old(self).evictions(),
    {
        match self.find(id) {
            Some(i) => {
                self.touch_at(i);
                let ghost mid = *self;
                self.stat_hits = self.stat_hits + 1;
                proof {
                    assert forall|j: int| #[trigger] self.entry_at(j) == mid.entry_at(j) by {}
                    assert(entries_touched(old(self), self, i as int));
                    assert(0 <= i < old(self).lru().len() && old(self).lru()[i as int].0 == id
                        && self.lru() == touched_at(old(self).lru(), i as int)
                        && entries_touched(old(self), self, i as int));
                }
                let last = self.slots.len() - 1;
                Some(&self.slots[last].entry)
            },
            None => {
                self.stat_misses = self.stat_misses + 1;
                None
            },
        }
    }

    /// Walk up the pyramid to the nearest cached ancestor of `id`, marking
    /// it most recently used.
    pub fn nearest_ancestor(&mut self, id: TileId) -> (r: Option<TileId>)
        requires
            old(self).wf(),
        ensures
            final(self).wf(),
            r == nearest_ancestor_from(id, 1, cached_in(old(self).lru())),
            match r {
                Some(a) => exists|i: int|
                    0 <= i < old(self).lru().len() && (#[trigger] old(self).lru()[i]).0 == a
                        && final(self).lru() == touched_at(old(self).lru(), i)
                        && entries_touched(old(self), final(self), i),
                None => final(self).lru() == old(self).lru() && entries_shifted(old(self), final(self), 0),
            },
            final(self).budget() == old(self).budget(),
            final(self).hits() == old(self).hits(),
            final(self).misses() == old(self).misses(),
            final(self).inserts() == old(self).inserts(),
            final(self).evictions() == old(self).evictions(),
    {
        let ghost s = self.lru();
        let ghost r = cached_in(s);
        let mut k: u16 = 1;
        while k <= id.z as u16
            invariant
                1 <= k <= id.z + 1,
                self.lru() == s,
                r == cached_in(s),
                s == old(self).lru(),
                self.slots@ == old(self).slots@,
                self.wf(),
                self.budget() == old(self).budget(),
                self.hits() == old(self).hits(),
                self.misses() == old(self).misses(),
                self.inserts() == old(self).inserts(),
                self.evictions() == old(self).evictions(),
                nearest_ancestor_from(id, 1, r) == nearest_ancestor_from(id, k as nat, r),
            decreases id.z + 1 - k,
        {
            let a = match id.ancestor(k as u8) {
                Some(a) => a,
                None => {
                    return None;
                },
            };
            match self.find(a) {
                Some(i) => {
                    proof {
                        assert(has_id(s, a));
                        assert(r(a));
                        assert(a == ancestor_spec(id, k as nat));
                        assert(nearest_ancestor_from(id, k as nat, r) == Some(a));
                    }
                    self.touch_at(i);
                    proof {
                        assert(entries_touched(old(self), self, i as int));
                        assert(0 <= i < s.len() && s[i as int].0 == a && self.lru() == touched_at(s, i as int)
                            && entries_touched(old(self), self, i as int));
                    }
                    return Some(a);
                },
                None => {},
            }
            k = k + 1;
        }
        None
    }

    /// Cache `entry` for `id` (`bytes` large), marking it most recently
    /// used, then evict least-recently-used tiles while over budget and more
    /// than one tile remains. A tile already cached is only marked most
    /// recently used (the new entry is dropped).
    pub fn insert(&mut self, id: TileId, entry: E, bytes: usize)
        requires
            old(self).wf(),
            old(self).bytes() + bytes <= usize::MAX,
            old(self).inserts() < u64::MAX,
            old(self).evictions() + old(self).lru().len() < u64::MAX,
        ensures
            final(self).wf(),
            has_id(old(self).lru(), id) ==> {
                &&& exists|i: int|
                    0 <= i < old(self).lru().len() && (#[trigger] old(self).lru()[i]).0 == id
                        && final(self).lru() == touched_at(old(self).lru(), i)
                        && entries_touched(old(self), final(self), i)
                &&& final(self).inserts() == old(self).inserts()
                &&& final(self).evictions() == old(self).evictions()
            },
            !has_id(old(self).lru(), id) ==> {
                let grown = old(self).lru().push((id, bytes));
                &&& final(self).lru() == evicted(grown, old(self).budget())
                &&& final(self).entry_at(final(self).lru().len() - 1) == entry
                &&& entries_shifted(old(self), final(self), grown.len() - final(self).lru().len())
                &&& final(self).inserts() == old(self).inserts() + 1
                &&& final(self).evictions() == old(self).evictions() + grown.len()
                    - final(self).lru().len()
            },
            final(self).budget() == old(self).budget(),
            final(self).hits() == old(self).hits(),
            final(self).misses() == old(self).misses(),
    {
        match self.find(id) {
            Some(i) => {
                self.touch_at(i);
                return;
            },
            None => {},
        }
        let ghost s = self.lru();
        self.slots.push(CacheSlot { id, entry, bytes });
        proof {
            assert(self.lru() =~= s.push((id, bytes)));
            lemma_push_distinct(s, (id, bytes));
            assert(s.push((id, bytes)).drop_last() =~= s);
            assert(total_bytes(s.push((id, bytes))) == total_bytes(s) + bytes);
        }
        self.bytes_used = self.bytes_used + bytes;
        self.stat_inserts = self.stat_inserts + 1;
        let ghost pushed = *self;
        proof {
            assert forall|j: int| 0 <= j < old(self).lru().len() implies #[trigger] pushed.entry_at(j)
                == old(self).entry_at(j) by {}
        }
        self.evict_to_budget();
        proof {
            lemma_evicted_is_suffix(pushed.lru(), pushed.budget());
            let k = pushed.lru().len() - self.lru().len();
            assert(0 <= k);
            assert forall|j: int|
                0 <= j < self.lru().len() && j + k < old(self).lru().len() implies #[trigger] self.entry_at(j)
                == old(self).entry_at(j + k) by {
                assert(self.entry_at(j) == pushed.entry_at(j + k));
                assert(pushed.entry_at(j + k) == old(self).entry_at(j + k));
            }
        }
    }

    /// Evict least-recently-used tiles while over budget and more than one
    /// tile remains.
    fn evict_to_budget(&mut self)
        requires
            old(self).wf(),
            old(self).evictions() + old(self).lru().len() <= u64::MAX,
            old(self).lru().len() >= 1,
        ensures
            final(self).wf(),
            final(self).lru() == evicted(old(self).lru(), old(self).budget()),
            final(self).entry_at(final(self).lru().len() - 1) == old(self).entry_at(
                old(self).lru().len() - 1,
            ),
            entries_shifted(old(self), final(self), old(self).lru().len() - final(self).lru().len()),
            final(self).evictions() == old(self).evictions() + old(self).lru().len() - final(self).lru().len(),
            final(self).budget() == old(self).budget(),
            final(self).hits() == old(self).hits(),
            final(self).misses() == old(self).misses(),
            final(self).inserts() == old(self).inserts(),
    {
        let ghost s0 = self.lru();
        let ghost n0 = self.slots@.len();
        let ghost last_entry = self.entry_at(n0 - 1);
        while self.bytes_used > self.budget_bytes && self.slots.len() > 1
            invariant
                evicted(self.lru(), self.budget()) == evicted(s0, self.budget()),
                self.lru().len() >= 1,
                self.lru().len() <= n0,
                self.entry_at(self.lru().len() - 1) == last_entry,
                forall|j: int|
                    0 <= j < self.slots@.len() ==> (#[trigger] self.slots@[j]).entry
                        == old(self).slots@[j + n0 - self.slots@.len()].entry,
                self.slots@.len() == self.lru().len(),
                old(self).slots@.len() == n0,
                self.evictions() + self.lru().len() == old(self).evictions() + n0,
                n0 == s0.len(),
                self.budget() == old(self).budget(),
                self.hits() == old(self).hits(),
                self.misses() == old(self).misses(),
                self.inserts() == old(self).inserts(),
                self.wf(),
                old(self).evictions() + n0 <= u64::MAX,
            decreases self.slots@.len(),
        {
            let ghost s = self.lru();
            let ghost prev_slots = self.slots@;
            let victim = self.slots.remove(0);
            proof {
                assert forall|j: int| 0 <= j < self.slots@.len() implies (#[trigger] self.slots@[j]).entry
                    == old(self).slots@[j + n0 - self.slots@.len()].entry by {
                    assert(self.slots@[j] == prev_slots[j + 1]);
                    assert(prev_slots[j + 1].entry == old(self).slots@[(j + 1) + n0 - prev_slots.len()].entry);
                }
                assert(self.lru() =~= s.drop_first());
                lemma_total_drop_first(s);
                lemma_drop_first_distinct(s);
            }
            self.bytes_used = self.bytes_used - victim.bytes;
            self.stat_evictions = self.stat_evictions + 1;
            proof {
                assert(self.lru() == s.drop_first());
            }
        }
    }

    /// Cached tiles strictly inside `region` and at most `max_levels_deep`
    /// levels below it, in `(z, x, y)` order.
    pub fn covered_descendants(&self, region: TileId, max_levels_deep: u8) -> (out: Vec<TileId>)
        requires
            self.wf(),
        ensures
            tiles_strictly_sorted(out@),
            forall|t: TileId|
                out@.contains(t) <==> (has_id(self.lru(), t) && covered_by(region, max_levels_deep as nat, t)),
            forall|i: int|
                0 <= i < out@.len() ==> {
                    &&& region.z < (#[trigger] out@[i]).z <= region.z + max_levels_deep
                    &&& tile_contains(region, out@[i])
                    &&& has_id(self.lru(), out@[i])
                },
            !out@.contains(region),
    {
        let mut out: Vec<TileId> = Vec::new();
        let mut i: usize = 0;
        while i < self.slots.len()
            invariant
                i <= self.slots@.len(),
                self.lru().len() == self.slots@.len(),
                distinct_ids(self.lru()),
                tiles_strictly_sorted(out@),
                forall|t: TileId|
                    out@.contains(t) <==> (exists|j: int|
                        0 <= j < i && (#[trigger] self.lru()[j]).0 == t && covered_by(
                            region,
                            max_levels_deep as nat,
                            t,
                        )),
            decreases self.slots.len() - i,
        {
            let t = self.slots[i].id;
            proof {
                assert(self.lru()[i as int].0 == t);
            }
            let keep = if t.z <= region.z || t.z - region.z > max_levels_deep {
                false
            } else {
                match t.ancestor(t.z - region.z) {
                    Some(a) => a == region,
                    None => false,
                }
            };
            let ghost prev = out@;
            if keep {
                proof {
                    assert(!prev.contains(t)) by {
                        if prev.contains(t) {
                            let j = choose|j: int|
                                0 <= j < i && (#[trigger] self.lru()[j]).0 == t && covered_by(
                                    region,
                                    max_levels_deep as nat,
                                    t,
                                );
                        }
                    }
                }
                insert_sorted(&mut out, t);
            }
            proof {
                assert forall|u: TileId|
                    out@.contains(u) <==> (exists|j: int|
                        0 <= j < i + 1 && (#[trigger] self.lru()[j]).0 == u && covered_by(
                            region,
                            max_levels_deep as nat,
                            u,
                        )) by {
                    if u == t && keep {
                        assert(0 <= i < i + 1 && self.lru()[i as int].0 == u);
                    }
                    if exists|j: int|
                        0 <= j < i + 1 && (#[trigger] self.lru()[j]).0 == u && covered_by(
                            region,
                            max_levels_deep as nat,
                            u,
                        ) {
                        let j = choose|j: int|
                            0 <= j < i + 1 && (#[trigger] self.lru()[j]).0 == u && covered_by(
                                region,
                                max_levels_deep as nat,
                                u,
                            );
                        if j < i {
                            assert(prev.contains(u));
                        }
                    }
                }
            }
            i = i + 1;
        }
        proof {
            assert forall|t: TileId|
                out@.contains(t) <==> (has_id(self.lru(), t) && covered_by(region, max_levels_deep as nat, t)) by {
                if has_id(self.lru(), t) && covered_by(region, max_levels_deep as nat, t) {
                    let j = choose|j: int| 0 <= j < self.lru().len() && (#[trigger] self.lru()[j]).0 == t;
                    assert(0 <= j < i && self.lru()[j].0 == t);
                }
            }
        }
        proof {
            assert forall|k: int| 0 <= k < out@.len() implies {
                &&& region.z < (#[trigger] out@[k]).z <= region.z + max_levels_deep
                &&& tile_contains(region, out@[k])
                &&& has_id(self.lru(), out@[k])
            } by {
                assert(out@.contains(out@[k]));
                law_covered_means_strictly_inside(region, max_levels_deep as nat, out@[k]);
            }
            law_covered_means_strictly_inside(region, max_levels_deep as nat, region);
        }
        out
    }
}

/// A tile is reported as covered by `region`, `max_deep` levels down,
/// exactly when it lies inside `region` at a strictly deeper zoom, at most
/// `max_deep` levels below it. In particular `region` never covers itself.
pub proof fn law_covered_means_strictly_inside(region: TileId, max_deep: nat, t: TileId)
    ensures
        covered_by(region, max_deep, t) <==> (region.z < t.z && t.z <= region.z + max_deep && tile_contains(
            region,
            t,
        )),
        !covered_by(region, max_deep, region),
{
    if region.z < t.z {
        let k = (t.z - region.z) as nat;
        lemma_tiles_per_side_positive(k);
        lemma_div_is_ordered_by_denominator(t.x as int, 1, tiles_per_side(k) as int);
        lemma_div_is_ordered_by_denominator(t.y as int, 1, tiles_per_side(k) as int);
        assert(t.x as nat / 1 == t.x as nat);
        assert(t.y as nat / 1 == t.y as nat);
        let a = ancestor_spec(t, k);
        assert(a.x == t.x as nat / tiles_per_side(k));
        assert(a.y == t.y as nat / tiles_per_side(k));
    }
}

/// `t` lies strictly inside `region`, at most `max_deep` levels below it.
pub open spec fn covered_by(region: TileId, max_deep: nat, t: TileId) -> bool {
    &&& t.z > region.z
    &&& t.z - region.z <= max_deep
    &&& ancestor_spec(t, (t.z - region.z) as nat) == region
}

/// `(z, x, y)` lexicographic order.
pub open spec fn tile_less(a: TileId, b: TileId) -> bool {
    ||| a.z < b.z
    ||| (a.z == b.z && a.x < b.x)
    ||| (a.z == b.z && a.x == b.x && a.y < b.y)
}

pub open spec fn tiles_strictly_sorted(s: Seq<TileId>) -> bool {
    forall|i: int, j: int| 0 <= i < j < s.len() ==> tile_less(#[trigger] s[i], #[trigger] s[j])
}

fn tile_lt(a: TileId, b: TileId) -> (r: bool)
    ensures
        r == tile_less(a, b),
{
    a.z < b.z || (a.z == b.z && (a.x < b.x || (a.x == b.x && a.y < b.y)))
}

/// Insert `t` at its sorted position.
fn insert_sorted(v: &mut Vec<TileId>, t: TileId)
    requires
        tiles_strictly_sorted(old(v)@),
        !old(v)@.contains(t),
    ensures
        tiles_strictly_sorted(final(v)@),
        forall|u: TileId| final(v)@.contains(u) <==> (old(v)@.contains(u) || u == t),
{
    let mut i: usize = 0;
    while i < v.len() && tile_lt(v[i], t)
        invariant
            i <= v@.len(),
            forall|j: int| 0 <= j < i ==> tile_less(#[trigger] v@[j], t),
        decreases v.len() - i,
    {
        i = i + 1;
    }
    let ghost s = v@;
    v.insert(i, t);
    proof {
        assert forall|a: int, b: int| 0 <= a < b < v@.len() implies tile_less(#[trigger] v@[a], #[trigger] v@[b]) by {
            if a < i && b == i {
            } else if a < i && b > i {
                assert(v@[b] == s[b - 1]);
            } else if a == i {
                assert(v@[b] == s[b - 1]);
                assert(s[i as int] != t);
            } else if a > i {
                assert(v@[a] == s[a - 1]);
                assert(v@[b] == s[b - 1]);
            }
        }
        assert forall|u: TileId| v@.contains(u) <==> (s.contains(u) || u == t) by {
            if v@.contains(u) {
                let k = choose|k: int| 0 <= k < v@.len() && v@[k] == u;
                if k < i {
                    assert(s[k] == u);
                } else if k > i {
                    assert(s[k - 1] == u);
                }
            }
            if s.contains(u) {
                let k = choose|k: int| 0 <= k < s.len() && s[k] == u;
                if k < i {
                    assert(v@[k] == u);
                } else {
                    assert(v@[k + 1] == u);
                }
            }
            if u == t {
                assert(v@[i as int] == u);
            }
        }
    }
}

// ---------------------------------------------------------------------------
// Lemmas about the model.

proof fn lemma_total_drop_first(s: Seq<(TileId, usize)>)
    requires
        s.len() >= 1,
    ensures
        total_bytes(s) == s[0].1 + total_bytes(s.drop_first()),
    decreases s.len(),
{
    if s.len() == 1 {
        assert(s.drop_first() =~= Seq::<(TileId, usize)>::empty());
        assert(s.drop_last() =~= Seq::<(TileId, usize)>::empty());
    } else {
        lemma_total_drop_first(s.drop_last());
        assert(s.drop_last().drop_first() =~= s.drop_first().drop_last());
        assert(s.drop_first().last() == s.last());
    }
}

proof fn lemma_total_remove(s: Seq<(TileId, usize)>, i: int)
    requires
        0 <= i < s.len(),
    ensures
        total_bytes(s) == s[i].1 + total_bytes(s.remove(i)),
    decreases s.len(),
{
    if i == s.len() - 1 {
        assert(s.remove(i) =~= s.drop_last());
    } else {
        lemma_total_remove(s.drop_last(), i);
        assert(s.drop_last().remove(i) =~= s.remove(i).drop_last());
        assert(s.remove(i).last() == s.last());
    }
}

proof fn lemma_touch_keeps(s: Seq<(TileId, usize)>, i: int)
    requires
        0 <= i < s.len(),
        distinct_ids(s),
    ensures
        distinct_ids(touched_at(s, i)),
        total_bytes(touched_at(s, i)) == total_bytes(s),
        touched_at(s, i).len() == s.len(),
{
    let t = touched_at(s, i);
    lemma_total_remove(s, i);
    assert(t.drop_last() =~= s.remove(i));
    assert forall|a: int, b: int| 0 <= a < b < t.len() implies (#[trigger] t[a]).0 != (#[trigger] t[b]).0 by {
        let a2 = if a < i { a } else { a + 1 };
        let b2 = if b == t.len() - 1 { i } else if b < i { b } else { b + 1 };
        assert(t[a] == s[a2]);
        assert(t[b] == s[b2]);
        assert(a2 != b2);
    }
}

proof fn lemma_push_distinct(s: Seq<(TileId, usize)>, x: (TileId, usize))
    requires
        distinct_ids(s),
        !has_id(s, x.0),
    ensures
        distinct_ids(s.push(x)),
{
    let t = s.push(x);
    assert forall|a: int, b: int| 0 <= a < b < t.len() implies (#[trigger] t[a]).0 != (#[trigger] t[b]).0 by {
        assert(t[a] == s[a]);
        if b < s.len() {
            assert(t[b] == s[b]);
        }
    }
}

proof fn lemma_drop_first_distinct(s: Seq<(TileId, usize)>)
    requires
        distinct_ids(s),
        s.len() >= 1,
    ensures
        distinct_ids(s.drop_first()),
{
    let t = s.drop_first();
    assert forall|a: int, b: int| 0 <= a < b < t.len() implies (#[trigger] t[a]).0 != (#[trigger] t[b]).0 by {
        assert(t[a] == s[a + 1]);
        assert(t[b] == s[b + 1]);
    }
}

/// After eviction the byte budget holds, unless a single tile is left.
pub proof fn lemma_evicted_within_budget(s: Seq<(TileId, usize)>, budget: nat)
    ensures
        total_bytes(evicted(s, budget)) <= budget || evicted(s, budget).len() <= 1,
    decreases s.len(),
{
    if total_bytes(s) > budget && s.len() > 1 {
        lemma_evicted_within_budget(s.drop_first(), budget);
    }
}

/// Eviction removes a prefix: the least recently used tiles go first, and
/// the most recently used tile always stays.
pub proof fn lemma_evicted_is_suffix(s: Seq<(TileId, usize)>, budget: nat)
    requires
        s.len() >= 1,
    ensures
        evicted(s, budget).len() >= 1,
        evicted(s, budget).len() <= s.len(),
        evicted(s, budget) == s.subrange(s.len() - evicted(s, budget).len(), s.len() as int),
        evicted(s, budget).last() == s.last(),
    decreases s.len(),
{
    if total_bytes(s) > budget && s.len() > 1 {
        lemma_evicted_is_suffix(s.drop_first(), budget);
        let e = evicted(s, budget);
        assert(s.drop_first().subrange(s.drop_first().len() - e.len(), s.drop_first().len() as int)
            =~= s.subrange(s.len() - e.len(), s.len() as int));
    } else {
        assert(s.subrange(0, s.len() as int) =~= s);
    }
}

/// Eviction evicts no more than needed: dropping one tile fewer would leave
/// the cache over budget.
pub proof fn lemma_evicted_minimal(s: Seq<(TileId, usize)>, budget: nat)
    requires
        s.len() >= 1,
        evicted(s, budget).len() < s.len(),
    ensures
        total_bytes(s.subrange(s.len() - evicted(s, budget).len() - 1, s.len() as int)) > budget,
    decreases s.len(),
{
    let e = evicted(s, budget);
    assert(total_bytes(s) > budget && s.len() > 1);
    if evicted(s.drop_first(), budget).len() < s.drop_first().len() {
        lemma_evicted_minimal(s.drop_first(), budget);
        assert(s.drop_first().subrange(s.drop_first().len() - e.len() - 1, s.drop_first().len() as int)
            =~= s.subrange(s.len() - e.len() - 1, s.len() as int));
    } else {
        assert(s.subrange(s.len() - e.len() - 1, s.len() as int) =~= s);
    }
}

} // verus!
