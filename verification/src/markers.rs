//! Marker store: the pins the host drops on the map, their id assignment
//! (id 0 means "assign the next id") and their grouping under circle layers.
//!
//! The store is generic over what a marker carries besides its id; the
//! store's rules only read ids and groups.

use vstd::prelude::*;
use vstd::string::StringExecFns;
use crate::map::MarkerId;
use crate::names::str_equal;

verus! {

/// A stored marker: its id and what it carries.
pub struct MarkerEntry<M> {
    pub id: MarkerId,
    pub marker: M,
}

/// Owns the markers, their group membership and their id allocation.
///
/// - Ungrouped markers are host pins.
/// - Grouped markers are the instances of a circle layer; `group` is the
///   owning layer id.
pub struct MarkerManager<M> {
    markers: Vec<MarkerEntry<M>>,
    /// Owning group per grouped marker id.
    groups: Vec<(MarkerId, String)>,
    /// High-water mark for automatically assigned ids.
    next_id: u64,
}

/// The owning group of `id`, if any.
pub open spec fn group_of(groups: Seq<(MarkerId, Seq<char>)>, id: MarkerId) -> Option<Seq<char>> {
    if exists|k: int| 0 <= k < groups.len() && (#[trigger] groups[k]).0 == id {
        Some(groups[choose|k: int| 0 <= k < groups.len() && (#[trigger] groups[k]).0 == id].1)
    } else {
        None
    }
}

/// Group membership lists each marker id at most once.
pub open spec fn distinct_group_ids(groups: Seq<(MarkerId, Seq<char>)>) -> bool {
    forall|i: int, j: int| 0 <= i < j < groups.len() ==> (#[trigger] groups[i]).0 != (#[trigger] groups[j]).0
}

/// The markers in `s` whose group is `g` (`None`: ungrouped), in order.
pub open spec fn with_group<M>(
    s: Seq<MarkerEntry<M>>,
    groups: Seq<(MarkerId, Seq<char>)>,
    g: Option<Seq<char>>,
) -> Seq<MarkerEntry<M>> {
    s.filter(|e: MarkerEntry<M>| group_of(groups, e.id) == g)
}

/// The markers in `s` not owned by group `g`, in order.
pub open spec fn outside_group<M>(
    s: Seq<MarkerEntry<M>>,
    groups: Seq<(MarkerId, Seq<char>)>,
    g: Seq<char>,
) -> Seq<MarkerEntry<M>> {
    s.filter(|e: MarkerEntry<M>| group_of(groups, e.id) != Some(g))
}

/// Group entries not naming `g`.
pub open spec fn not_in_group(g: Seq<char>) -> spec_fn((MarkerId, Seq<char>)) -> bool {
    |q: (MarkerId, Seq<char>)| q.1 != g
}

/// The id a request resolves to, given the high-water mark.
pub open spec fn resolved_id(requested: MarkerId, next_id: nat) -> MarkerId {
    if requested.0 == 0 {
        MarkerId((next_id + 1) as u64)
    } else {
        requested
    }
}

/// The high-water mark after a request.
pub open spec fn next_mark(requested: MarkerId, next_id: nat) -> nat {
    if requested.0 == 0 {
        next_id + 1
    } else if requested.0 > next_id {
        requested.0 as nat
    } else {
        next_id
    }
}

/// `s` holds a marker with id `id`.
pub open spec fn has_marker<M>(s: Seq<MarkerEntry<M>>, id: MarkerId) -> bool {
    exists|i: int| 0 <= i < s.len() && (#[trigger] s[i]).id == id
}

/// Insert `e`, replacing the marker with the same id if there is one.
pub open spec fn upsert<M>(s: Seq<MarkerEntry<M>>, e: MarkerEntry<M>) -> Seq<MarkerEntry<M>> {
    if has_marker(s, e.id) {
        s.update(choose|i: int| 0 <= i < s.len() && (#[trigger] s[i]).id == e.id, e)
    } else {
        s.push(e)
    }
}

/// Take the marker with id `id` (if any) out of `s`.
pub open spec fn without_marker<M>(s: Seq<MarkerEntry<M>>, id: MarkerId) -> Seq<MarkerEntry<M>> {
    if has_marker(s, id) {
        s.remove(choose|i: int| 0 <= i < s.len() && (#[trigger] s[i]).id == id)
    } else {
        s
    }
}

/// Ids occur at most once.
pub open spec fn distinct_marker_ids<M>(s: Seq<MarkerEntry<M>>) -> bool {
    forall|i: int, j: int| 0 <= i < j < s.len() ==> (#[trigger] s[i]).id != (#[trigger] s[j]).id
}

proof fn lemma_group_at(groups: Seq<(MarkerId, Seq<char>)>, k: int)
    requires
        distinct_group_ids(groups),
        0 <= k < groups.len(),
    ensures
        group_of(groups, groups[k].0) == Some(groups[k].1),
{
    let id = groups[k].0;
    let c = choose|c: int| 0 <= c < groups.len() && (#[trigger] groups[c]).0 == id;
    if c != k {
        if c < k {
            assert(groups[c].0 != groups[k].0);
        } else {
            assert(groups[k].0 != groups[c].0);
        }
    }
}

proof fn lemma_unique_index<M>(s: Seq<MarkerEntry<M>>, i: int)
    requires
        distinct_marker_ids(s),
        0 <= i < s.len(),
    ensures
        (choose|k: int| 0 <= k < s.len() && (#[trigger] s[k]).id == s[i].id) == i,
{
    let k = choose|k: int| 0 <= k < s.len() && (#[trigger] s[k]).id == s[i].id;
    assert(0 <= i < s.len() && s[i].id == s[i].id);
    if k != i {
        if k < i {
            assert(s[k].id != s[i].id);
        } else {
            assert(s[i].id != s[k].id);
        }
    }
}

proof fn lemma_filter_push<A>(s: Seq<A>, x: A, p: spec_fn(A) -> bool)
    ensures
        s.push(x).filter(p) == if p(x) {
            s.filter(p).push(x)
        } else {
            s.filter(p)
        },
{
    s.lemma_filter_push(x, p);
}

impl<M> MarkerManager<M> {
    /// The stored markers, in insertion order.
    pub closed spec fn entries(&self) -> Seq<MarkerEntry<M>> {
        self.markers@
    }

    /// Group membership, as `(id, group)` pairs.
    pub closed spec fn group_pairs(&self) -> Seq<(MarkerId, Seq<char>)> {
        self.groups@.map_values(|p: (MarkerId, String)| (p.0, p.1@))
    }

    pub closed spec fn high_water(&self) -> nat {
        self.next_id as nat
    }

    /// Ids are distinct, nonzero and not above the high-water mark; group
    /// membership lists each id once.
    pub closed spec fn wf(&self) -> bool {
        &&& distinct_marker_ids(self.markers@)
        &&& forall|i: int|
            0 <= i < self.markers@.len() ==> (#[trigger] self.markers@[i]).id.0 != 0
                && self.markers@[i].id.0 <= self.next_id
        &&& distinct_group_ids(self.group_pairs())
    }

    /// A well-formed store holds each id at most once, and every stored id
    /// is nonzero and not above the high-water mark.
    pub proof fn lemma_wf_ids(&self)
        requires
            self.wf(),
        ensures
            distinct_marker_ids(self.entries()),
            forall|i: int|
                0 <= i < self.entries().len() ==> (#[trigger] self.entries()[i]).id.0 != 0
                    && self.entries()[i].id.0 <= self.high_water(),
    {
    }

    /// The high-water mark: the largest id assigned or added so far (0 for
    /// a fresh store). An id-0 request needs it below `u64::MAX`.
    pub fn high_water_mark(&self) -> (n: u64)
        ensures
            n == self.high_water(),
    {
        self.next_id
    }

    /// An empty store.
    pub fn new() -> (m: MarkerManager<M>)
        ensures
            m.wf(),
            distinct_marker_ids(m.entries()),
            m.entries() == Seq::<MarkerEntry<M>>::empty(),
            m.group_pairs() == Seq::<(MarkerId, Seq<char>)>::empty(),
            m.high_water() == 0,
    {
        let m = MarkerManager { markers: Vec::new(), groups: Vec::new(), next_id: 0 };
        assert(m.group_pairs() =~= Seq::<(MarkerId, Seq<char>)>::empty());
        m
    }

    /// Position of the marker `id`, if stored.
    fn marker_index(&self, id: MarkerId) -> (r: Option<usize>)
        ensures
            match r {
                Some(i) => i < self.entries().len() && self.entries()[i as int].id == id,
                None => !has_marker(self.entries(), id),
            },
    {
        let mut i: usize = 0;
        while i < self.markers.len()
            invariant
                i <= self.markers@.len(),
                forall|j: int| 0 <= j < i ==> (#[trigger] self.markers@[j]).id != id,
            decreases self.markers.len() - i,
        {
            if self.markers[i].id.0 == id.0 {
                return Some(i);
            }
            i = i + 1;
        }
        None
    }

    /// Position of the group entry of `id`, if any.
    fn group_index(&self, id: MarkerId) -> (r: Option<usize>)
        ensures
            match r {
                Some(k) => k < self.group_pairs().len() && self.group_pairs()[k as int].0 == id,
                None => forall|j: int|
                    0 <= j < self.group_pairs().len() ==> (#[trigger] self.group_pairs()[j]).0 != id,
            },
    {
        let mut k: usize = 0;
        while k < self.groups.len()
            invariant
                k <= self.groups@.len(),
                self.group_pairs().len() == self.groups@.len(),
                forall|j: int| 0 <= j < k ==> (#[trigger] self.group_pairs()[j]).0 != id,
            decreases self.groups.len() - k,
        {
            assert(self.group_pairs()[k as int] == (self.groups@[k as int].0, self.groups@[k as int].1@));
            if self.groups[k].0.0 == id.0 {
                return Some(k);
            }
            k = k + 1;
        }
        None
    }

    /// Marker `id` is owned by group `group`.
    fn in_group_of(&self, id: MarkerId, group: &str) -> (b: bool)
        requires
            distinct_group_ids(self.group_pairs()),
        ensures
            b == (group_of(self.group_pairs(), id) == Some(group@)),
    {
        match self.group_index(id) {
            Some(k) => {
                proof {
                    lemma_group_at(self.group_pairs(), k as int);
                    assert(self.group_pairs()[k as int].1 == self.groups@[k as int].1@);
                }
                str_equal(self.groups[k].1.as_str(), group)
            },
            None => false,
        }
    }

    /// Marker `id` is owned by some group.
    fn is_grouped(&self, id: MarkerId) -> (b: bool)
        ensures
            b == (group_of(self.group_pairs(), id) is Some),
    {
        self.group_index(id).is_some()
    }

    /// Insert or replace a marker. `MarkerId(0)` means "assign the next id";
    /// any other id is honoured and replaces an existing marker with that id
    /// (raising the high-water mark so later automatic ids cannot collide).
    /// Returns the resolved id.
    pub fn add(&mut self, requested: MarkerId, marker: M) -> (id: MarkerId)
        requires
            old(self).wf(),
            requested.0 == 0 ==> old(self).high_water() < u64::MAX,
        ensures
            final(self).wf(),
            distinct_marker_ids(final(self).entries()),
            id == resolved_id(requested, old(self).high_water()),
            final(self).high_water() == next_mark(requested, old(self).high_water()),
            final(self).entries() == upsert(old(self).entries(), MarkerEntry { id, marker }),
            final(self).group_pairs() == old(self).group_pairs(),
    {
        let id = if requested.0 == 0 {
            self.next_id = self.next_id + 1;
            MarkerId(self.next_id)
        } else {
            if requested.0 > self.next_id {
                self.next_id = requested.0;
            }
            requested
        };
        let ghost s = self.markers@;
        let e = MarkerEntry { id, marker };
        match self.marker_index(id) {
            Some(i) => {
                proof {
                    lemma_unique_index(s, i as int);
                }
                self.markers.set(i, e);
            },
            None => {
                self.markers.push(e);
            },
        }
        proof {
            let t = self.markers@;
            assert forall|a: int, b: int| 0 <= a < b < t.len() implies (#[trigger] t[a]).id != (
            #[trigger] t[b]).id by {
                if a < s.len() && b < s.len() && t[a] == s[a] && t[b] == s[b] {
                } else if b == s.len() {
                    assert(t[a] == s[a]);
                }
            }
        }
        id
    }

    /// Insert a marker owned by the circle layer `group`. Same id rules as
    /// [`Self::add`].
    pub fn add_to_group(&mut self, group: &str, requested: MarkerId, marker: M) -> (id: MarkerId)
        requires
            old(self).wf(),
            requested.0 == 0 ==> old(self).high_water() < u64::MAX,
        ensures
            final(self).wf(),
            distinct_marker_ids(final(self).entries()),
            id == resolved_id(requested, old(self).high_water()),
            final(self).high_water() == next_mark(requested, old(self).high_water()),
            final(self).entries() == upsert(old(self).entries(), MarkerEntry { id, marker }),
            forall|x: MarkerId|
                group_of(final(self).group_pairs(), x) == if x == id {
                    Some(group@)
                } else {
                    group_of(old(self).group_pairs(), x)
                },
    {
        let id = self.add(requested, marker);
        let ghost g0 = self.group_pairs();
        let owner = String::from_str(group);
        match self.group_index(id) {
            Some(k) => {
                self.groups.set(k, (id, owner));
                proof {
                    assert(self.group_pairs() =~= g0.update(k as int, (id, group@)));
                }
            },
            None => {
                self.groups.push((id, owner));
                proof {
                    assert(self.group_pairs() =~= g0.push((id, group@)));
                }
            },
        }
        proof {
            let g1 = self.group_pairs();
            assert(distinct_group_ids(g1)) by {
                assert forall|a: int, b: int| 0 <= a < b < g1.len() implies (#[trigger] g1[a]).0 != (#[trigger] g1[b]).0 by {
                    if a < g0.len() && b < g0.len() && g1[a] == g0[a] && g1[b] == g0[b] {
                    } else if b < g0.len() && g1[b] == g0[b] {
                        assert(g1[a].0 == id);
                    } else {
                        assert(g1[b].0 == id);
                        if a < g0.len() {
                            assert(g1[a] == g0[a]);
                        }
                    }
                }
            }
            assert forall|x: MarkerId|
                group_of(g1, x) == if x == id {
                    Some(group@)
                } else {
                    group_of(g0, x)
                } by {
                if x == id {
                    let k = if g1.len() > g0.len() { g0.len() as int } else {
                        choose|k: int| 0 <= k < g0.len() && (#[trigger] g0[k]).0 == id
                    };
                    assert(g1[k] == (id, group@));
                    lemma_group_at(g1, k);
                } else {
                    if exists|k: int| 0 <= k < g0.len() && (#[trigger] g0[k]).0 == x {
                        let k = choose|k: int| 0 <= k < g0.len() && (#[trigger] g0[k]).0 == x;
                        assert(g1[k] == g0[k]);
                        lemma_group_at(g0, k);
                        lemma_group_at(g1, k);
                    } else {
                        assert(!exists|k: int| 0 <= k < g1.len() && (#[trigger] g1[k]).0 == x) by {
                            if exists|k: int| 0 <= k < g1.len() && (#[trigger] g1[k]).0 == x {
                                let k = choose|k: int| 0 <= k < g1.len() && (#[trigger] g1[k]).0 == x;
                                if k < g0.len() && g1[k] == g0[k] {
                                }
                            }
                        }
                    }
                }
            }
        }
        id
    }

    /// Remove the marker `id` and its group membership.
    pub fn remove(&mut self, id: MarkerId)
        requires
            old(self).wf(),
        ensures
            final(self).wf(),
            distinct_marker_ids(final(self).entries()),
            final(self).entries() == without_marker(old(self).entries(), id),
            forall|x: MarkerId|
                group_of(final(self).group_pairs(), x) == if x == id {
                    None
                } else {
                    group_of(old(self).group_pairs(), x)
                },
            final(self).high_water() == old(self).high_water(),
    {
        let ghost s = self.markers@;
        let ghost g0 = self.group_pairs();
        match self.marker_index(id) {
            Some(i) => {
                proof {
                    lemma_unique_index(s, i as int);
                }
                let _gone = self.markers.remove(i);
                proof {
                    let t = self.markers@;
                    assert forall|a: int, b: int| 0 <= a < b < t.len() implies (#[trigger] t[a]).id != (
                    #[trigger] t[b]).id by {
                        let a2 = if a < i { a } else { a + 1 };
                        let b2 = if b < i { b } else { b + 1 };
                        assert(t[a] == s[a2]);
                        assert(t[b] == s[b2]);
                    }
                    assert forall|a: int| 0 <= a < t.len() implies (#[trigger] t[a]).id.0 != 0
                        && t[a].id.0 <= self.next_id by {
                        let a2 = if a < i { a } else { a + 1 };
                        assert(t[a] == s[a2]);
                    }
                }
            },
            None => {},
        }
        match self.group_index(id) {
            Some(k) => {
                let _gone = self.groups.remove(k);
                proof {
                    let g1 = self.group_pairs();
                    assert(g1 =~= g0.remove(k as int));
                    assert forall|a: int, b: int| 0 <= a < b < g1.len() implies (#[trigger] g1[a]).0 != (#[trigger] g1[b]).0 by {
                        let a2 = if a < k { a } else { a + 1 };
                        let b2 = if b < k { b } else { b + 1 };
                        assert(g1[a] == g0[a2]);
                        assert(g1[b] == g0[b2]);
                    }
                    assert forall|x: MarkerId|
                        group_of(g1, x) == if x == id {
                            None
                        } else {
                            group_of(g0, x)
                        } by {
                        if exists|j: int| 0 <= j < g1.len() && (#[trigger] g1[j]).0 == x {
                            let j = choose|j: int| 0 <= j < g1.len() && (#[trigger] g1[j]).0 == x;
                            let j2 = if j < k { j } else { j + 1 };
                            assert(g1[j] == g0[j2]);
                            if x == id {
                                assert(g0[k as int].0 == id);
                                assert(j2 != k);
                                if j2 < k {
                                    assert(g0[j2].0 != g0[k as int].0);
                                } else {
                                    assert(g0[k as int].0 != g0[j2].0);
                                }
                            } else {
                                lemma_group_at(g1, j);
                                lemma_group_at(g0, j2);
                            }
                        } else if x != id {
                            if exists|j: int| 0 <= j < g0.len() && (#[trigger] g0[j]).0 == x {
                                let j = choose|j: int| 0 <= j < g0.len() && (#[trigger] g0[j]).0 == x;
                                assert(j != k);
                                let j1 = if j < k { j } else { j - 1 };
                                assert(g1[j1] == g0[j]);
                            }
                        }
                    }
                }
            },
            None => {
                proof {
                    assert(!exists|j: int| 0 <= j < g0.len() && (#[trigger] g0[j]).0 == id);
                }
            },
        }
    }

    /// Remove every marker owned by the circle layer `group`, and the group.
    pub fn remove_group(&mut self, group: &str)
        requires
            old(self).wf(),
        ensures
            final(self).wf(),
            distinct_marker_ids(final(self).entries()),
            final(self).entries() == outside_group(old(self).entries(), old(self).group_pairs(), group@),
            forall|x: MarkerId|
                group_of(final(self).group_pairs(), x) == if group_of(old(self).group_pairs(), x)
                    == Some(group@) {
                    None
                } else {
                    group_of(old(self).group_pairs(), x)
                },
            final(self).high_water() == old(self).high_water(),
    {
        let ghost s = self.markers@;
        let ghost g0 = self.group_pairs();
        let ghost p = |e: MarkerEntry<M>| group_of(g0, e.id) != Some(group@);
        // Pop every marker off the back, keeping the survivors (reversed).
        let mut rest: Vec<MarkerEntry<M>> = Vec::new();
        std::mem::swap(&mut rest, &mut self.markers);
        let mut kept_rev: Vec<MarkerEntry<M>> = Vec::new();
        while rest.len() > 0
            invariant
                distinct_group_ids(self.group_pairs()),
                self.group_pairs() == g0,
                p == (|e: MarkerEntry<M>| group_of(g0, e.id) != Some(group@)),
                rest@.len() <= s.len(),
                rest@ == s.subrange(0, rest@.len() as int),
                s.filter(p) == rest@.filter(p) + kept_rev@.reverse(),
            decreases rest.len(),
        {
            let ghost before = rest@;
            let e = rest.pop().unwrap();
            proof {
                assert(before =~= rest@.push(e));
                lemma_filter_push(rest@, e, p);
                assert(rest@ =~= s.subrange(0, rest@.len() as int));
            }
            let ghost kr = kept_rev@;
            if !self.in_group_of(e.id, group) {
                kept_rev.push(e);
                proof {
                    assert(p(e));
                    assert(kept_rev@.reverse() =~= seq![e] + kr.reverse());
                    assert(rest@.filter(p).push(e) + kr.reverse() =~= rest@.filter(p) + kept_rev@.reverse());
                }
            } else {
                proof {
                    assert(!p(e));
                }
            }
        }
        proof {
            assert(rest@.filter(p) =~= Seq::<MarkerEntry<M>>::empty()) by {
                assert(rest@.len() == 0);
            }
        }
        let mut kept: Vec<MarkerEntry<M>> = Vec::new();
        while kept_rev.len() > 0
            invariant
                kept@ + kept_rev@.reverse() == s.filter(p),
            decreases kept_rev.len(),
        {
            let ghost before = kept_rev@;
            let e = kept_rev.pop().unwrap();
            let ghost k0 = kept@;
            kept.push(e);
            proof {
                assert(before =~= kept_rev@.push(e));
                assert(before.reverse() =~= seq![e] + kept_rev@.reverse());
                assert(kept@ + kept_rev@.reverse() =~= k0 + before.reverse());
            }
        }
        proof {
            assert(kept@ =~= s.filter(p));
            let t = kept@;
            assert forall|a: int, b: int| 0 <= a < b < t.len() implies (#[trigger] t[a]).id != (
            #[trigger] t[b]).id by {
                lemma_filter_distinct(s, p);
            }
            assert forall|a: int| 0 <= a < t.len() implies (#[trigger] t[a]).id.0 != 0
                && t[a].id.0 <= self.next_id by {
                assert(s.filter(p).contains(t[a]));
                s.lemma_filter_contains_rev(p, t[a]);
            }
        }
        self.markers = kept;
        // Drop the group's membership entries.
        let mut groups: Vec<(MarkerId, String)> = Vec::new();
        let mut k: usize = 0;
        while k < self.groups.len()
            invariant
                k <= self.groups@.len(),
                self.group_pairs() == g0,
                distinct_group_ids(g0),
                g0 == old(self).group_pairs(),
                s == old(self).entries(),
                p == (|e: MarkerEntry<M>| group_of(g0, e.id) != Some(group@)),
                self.markers@ == s.filter(p),
                self.next_id == old(self).next_id,
                distinct_marker_ids(self.markers@),
                forall|a: int|
                    0 <= a < self.markers@.len() ==> (#[trigger] self.markers@[a]).id.0 != 0
                        && self.markers@[a].id.0 <= self.next_id,
                groups@.map_values(|q: (MarkerId, String)| (q.0, q.1@)) == g0.subrange(0, k as int).filter(not_in_group(group@)),
            decreases self.groups.len() - k,
        {
            let ghost gs = groups@;
            assert(g0[k as int] == (self.groups@[k as int].0, self.groups@[k as int].1@));
            proof {
                assert(g0.subrange(0, k + 1) =~= g0.subrange(0, k as int).push(g0[k as int]));
                lemma_filter_push(g0.subrange(0, k as int), g0[k as int], not_in_group(group@));
            }
            if !str_equal(self.groups[k].1.as_str(), group) {
                let owner = self.groups[k].1.clone();
                groups.push((self.groups[k].0, owner));
                proof {
                    assert(groups@.map_values(|q: (MarkerId, String)| (q.0, q.1@)) =~= gs.map_values(|q: (MarkerId, String)| (q.0, q.1@)).push(g0[k as int]));
                }
            }
            k = k + 1;
        }
        self.groups = groups;
        proof {
            assert(g0.subrange(0, g0.len() as int) =~= g0);
            let fq = not_in_group(group@);
            let g1 = self.group_pairs();
            assert(g1 == g0.filter(fq));
            lemma_filter_group_pairs(g0, group@);
        }
    }

    /// Remove every marker and group.
    pub fn clear(&mut self)
        requires
            old(self).wf(),
        ensures
            final(self).wf(),
            distinct_marker_ids(final(self).entries()),
            final(self).entries() == Seq::<MarkerEntry<M>>::empty(),
            final(self).group_pairs() == Seq::<(MarkerId, Seq<char>)>::empty(),
            final(self).high_water() == old(self).high_water(),
    {
        self.markers.clear();
        self.groups.clear();
        proof {
            assert(self.group_pairs() =~= Seq::<(MarkerId, Seq<char>)>::empty());
        }
    }

    /// Every stored marker, in insertion order.
    pub fn all(&self) -> (r: &[MarkerEntry<M>])
        ensures
            r@ == self.entries(),
    {
        self.markers.as_slice()
    }

    /// The markers owned by circle layer `group`, in insertion order.
    pub fn in_group(&self, group: &str) -> (r: Vec<&MarkerEntry<M>>)
        requires
            self.wf(),
        ensures
            r@.map_values(|e: &MarkerEntry<M>| *e) == with_group(self.entries(), self.group_pairs(), Some(group@)),
    {
        let ghost s = self.markers@;
        let ghost p = |e: MarkerEntry<M>| group_of(self.group_pairs(), e.id) == Some(group@);
        let mut out: Vec<&MarkerEntry<M>> = Vec::new();
        let mut i: usize = 0;
        while i < self.markers.len()
            invariant
                i <= s.len(),
                s == self.markers@,
                distinct_group_ids(self.group_pairs()),
                p == (|e: MarkerEntry<M>| group_of(self.group_pairs(), e.id) == Some(group@)),
                out@.map_values(|e: &MarkerEntry<M>| *e) == s.subrange(0, i as int).filter(p),
            decreases self.markers.len() - i,
        {
            let ghost o = out@;
            proof {
                assert(s.subrange(0, i + 1) =~= s.subrange(0, i as int).push(s[i as int]));
                lemma_filter_push(s.subrange(0, i as int), s[i as int], p);
            }
            if self.in_group_of(self.markers[i].id, group) {
                out.push(&self.markers[i]);
                proof {
                    assert(out@.map_values(|e: &MarkerEntry<M>| *e) =~= o.map_values(|e: &MarkerEntry<M>| *e).push(s[i as int]));
                }
            }
            i = i + 1;
        }
        proof {
            assert(s.subrange(0, s.len() as int) =~= s);
        }
        out
    }

    /// Host markers (no owning layer), in insertion order.
    pub fn ungrouped(&self) -> (r: Vec<&MarkerEntry<M>>)
        ensures
            r@.map_values(|e: &MarkerEntry<M>| *e) == with_group(self.entries(), self.group_pairs(), None),
    {
        let ghost s = self.markers@;
        let ghost p = |e: MarkerEntry<M>| group_of(self.group_pairs(), e.id) == None::<Seq<char>>;
        let mut out: Vec<&MarkerEntry<M>> = Vec::new();
        let mut i: usize = 0;
        while i < self.markers.len()
            invariant
                i <= s.len(),
                s == self.markers@,
                p == (|e: MarkerEntry<M>| group_of(self.group_pairs(), e.id) == None::<Seq<char>>),
                out@.map_values(|e: &MarkerEntry<M>| *e) == s.subrange(0, i as int).filter(p),
            decreases self.markers.len() - i,
        {
            let ghost o = out@;
            proof {
                assert(s.subrange(0, i + 1) =~= s.subrange(0, i as int).push(s[i as int]));
                lemma_filter_push(s.subrange(0, i as int), s[i as int], p);
            }
            if !self.is_grouped(self.markers[i].id) {
                out.push(&self.markers[i]);
                proof {
                    assert(out@.map_values(|e: &MarkerEntry<M>| *e) =~= o.map_values(|e: &MarkerEntry<M>| *e).push(s[i as int]));
                }
            }
            i = i + 1;
        }
        proof {
            assert(s.subrange(0, s.len() as int) =~= s);
        }
        out
    }

    pub fn is_empty(&self) -> (b: bool)
        ensures
            b == (self.entries().len() == 0),
    {
        self.markers.len() == 0
    }

    pub fn len(&self) -> (n: usize)
        ensures
            n == self.entries().len(),
    {
        self.markers.len()
    }
}

proof fn lemma_filter_distinct<M>(s: Seq<MarkerEntry<M>>, p: spec_fn(MarkerEntry<M>) -> bool)
    requires
        distinct_marker_ids(s),
    ensures
        distinct_marker_ids(s.filter(p)),
    decreases s.len(),
{
    if s.len() > 0 {
        let t = s.drop_last();
        assert(distinct_marker_ids(t)) by {
            assert forall|a: int, b: int| 0 <= a < b < t.len() implies (#[trigger] t[a]).id != (#[trigger] t[b]).id by {
                assert(t[a] == s[a]);
                assert(t[b] == s[b]);
            }
        }
        lemma_filter_distinct(t, p);
        assert(s =~= t.push(s.last()));
        lemma_filter_push(t, s.last(), p);
        if p(s.last()) {
            let f = t.filter(p);
            let g = f.push(s.last());
            assert forall|a: int, b: int| 0 <= a < b < g.len() implies (#[trigger] g[a]).id != (#[trigger] g[b]).id by {
                if b == f.len() {
                    assert(f.contains(f[a]));
                    t.lemma_filter_contains_rev(p, f[a]);
                    let q = choose|q: int| 0 <= q < t.len() && t[q] == f[a];
                    assert(s[q] == f[a]);
                    assert(s[s.len() - 1] == s.last());
                } else {
                    assert(g[a] == f[a] && g[b] == f[b]);
                }
            }
        }
    }
}

/// An automatically assigned id is fresh: no stored marker has it, and it
/// exceeds every stored id.
pub proof fn law_auto_id_is_fresh<M>(m: MarkerManager<M>)
    requires
        m.wf(),
        m.high_water() < u64::MAX,
    ensures
        !has_marker(m.entries(), resolved_id(MarkerId(0), m.high_water())),
        forall|i: int|
            0 <= i < m.entries().len() ==> (#[trigger] m.entries()[i]).id.0 < resolved_id(
                MarkerId(0),
                m.high_water(),
            ).0,
{
    let id = resolved_id(MarkerId(0), m.high_water());
    if has_marker(m.entries(), id) {
        let i = choose|i: int| 0 <= i < m.entries().len() && (#[trigger] m.entries()[i]).id == id;
        assert(m.entries()[i].id.0 <= m.high_water());
    }
}

/// Every stored marker is either ungrouped or owned by exactly the group
/// its membership names: the host pins and each group's markers partition
/// the store.
pub proof fn law_groups_partition_the_store<M>(
    s: Seq<MarkerEntry<M>>,
    groups: Seq<(MarkerId, Seq<char>)>,
    i: int,
)
    requires
        0 <= i < s.len(),
    ensures
        match group_of(groups, s[i].id) {
            Some(g) => with_group(s, groups, Some(g)).contains(s[i]) && !with_group(s, groups, None).contains(s[i]),
            None => with_group(s, groups, None).contains(s[i]),
        },
        forall|g: Seq<char>|
            group_of(groups, s[i].id) != Some(g) ==> !#[trigger] with_group(s, groups, Some(g)).contains(s[i]),
{
    let g0 = group_of(groups, s[i].id);
    let p = |e: MarkerEntry<M>| group_of(groups, e.id) == g0;
    s.lemma_filter_contains(p, i);
    assert forall|g: Option<Seq<char>>| g != g0 implies !#[trigger] with_group(s, groups, g).contains(s[i]) by {
        let q = |e: MarkerEntry<M>| group_of(groups, e.id) == g;
        if s.filter(q).contains(s[i]) {
            let k = choose|k: int| 0 <= k < s.filter(q).len() && s.filter(q)[k] == s[i];
            s.lemma_filter_pred(q, k);
        }
    }
    assert forall|g: Seq<char>| g0 != Some(g) implies !#[trigger] with_group(s, groups, Some(g)).contains(s[i]) by {
        assert(!with_group(s, groups, Some(g)).contains(s[i]));
    }
    if g0 is Some {
        assert(!with_group(s, groups, None).contains(s[i]));
    }
}

proof fn lemma_filter_pairs_distinct(g: Seq<(MarkerId, Seq<char>)>, p: spec_fn((MarkerId, Seq<char>)) -> bool)
    requires
        distinct_group_ids(g),
    ensures
        distinct_group_ids(g.filter(p)),
    decreases g.len(),
{
    if g.len() > 0 {
        let t = g.drop_last();
        assert(distinct_group_ids(t)) by {
            assert forall|a: int, b: int| 0 <= a < b < t.len() implies (#[trigger] t[a]).0 != (#[trigger] t[b]).0 by {
                assert(t[a] == g[a]);
                assert(t[b] == g[b]);
            }
        }
        lemma_filter_pairs_distinct(t, p);
        assert(g =~= t.push(g.last()));
        lemma_filter_push(t, g.last(), p);
        if p(g.last()) {
            let f = t.filter(p);
            let h = f.push(g.last());
            assert forall|a: int, b: int| 0 <= a < b < h.len() implies (#[trigger] h[a]).0 != (#[trigger] h[b]).0 by {
                if b == f.len() {
                    assert(f.contains(f[a]));
                    t.lemma_filter_contains_rev(p, f[a]);
                    let q = choose|q: int| 0 <= q < t.len() && t[q] == f[a];
                    assert(g[q] == f[a]);
                    assert(g[g.len() - 1] == g.last());
                } else {
                    assert(h[a] == f[a] && h[b] == f[b]);
                }
            }
        }
    }
}

/// With each id listed once, `group_of` reads the unique pair.
proof fn lemma_group_of_pairs(g: Seq<(MarkerId, Seq<char>)>, x: MarkerId, v: Seq<char>)
    requires
        distinct_group_ids(g),
    ensures
        (group_of(g, x) == Some(v)) == g.contains((x, v)),
        (group_of(g, x) is None) == (forall|k: int| 0 <= k < g.len() ==> (#[trigger] g[k]).0 != x),
{
    if g.contains((x, v)) {
        let k = choose|k: int| 0 <= k < g.len() && g[k] == (x, v);
        lemma_group_at(g, k);
    }
    if group_of(g, x) == Some(v) {
        let k = choose|k: int| 0 <= k < g.len() && (#[trigger] g[k]).0 == x;
        lemma_group_at(g, k);
        assert(g[k] == (x, v));
    }
}

proof fn lemma_filter_group_pairs(g0: Seq<(MarkerId, Seq<char>)>, group: Seq<char>)
    requires
        distinct_group_ids(g0),
    ensures
        distinct_group_ids(g0.filter(not_in_group(group))),
        forall|x: MarkerId|
            group_of(g0.filter(not_in_group(group)), x) == if group_of(g0, x)
                == Some(group) {
                None
            } else {
                group_of(g0, x)
            },
{
    let fq = not_in_group(group);
    let f = g0.filter(fq);
    lemma_filter_pairs_distinct(g0, fq);
    assert forall|x: MarkerId|
        group_of(f, x) == if group_of(g0, x) == Some(group) {
            None
        } else {
            group_of(g0, x)
        } by {
        match group_of(g0, x) {
            Some(v) => {
                lemma_group_of_pairs(g0, x, v);
                if v == group {
                    assert forall|k: int| 0 <= k < f.len() implies (#[trigger] f[k]).0 != x by {
                        assert(f.contains(f[k]));
                        g0.lemma_filter_contains_rev(fq, f[k]);
                        assert(fq(f[k])) by {
                            g0.lemma_filter_pred(fq, k);
                        }
                        lemma_group_of_pairs(g0, x, f[k].1);
                    }
                    lemma_group_of_pairs(f, x, v);
                } else {
                    let k = choose|k: int| 0 <= k < g0.len() && g0[k] == (x, v);
                    g0.lemma_filter_contains(fq, k);
                    lemma_group_of_pairs(f, x, v);
                }
            },
            None => {
                lemma_group_of_pairs(g0, x, group);
                assert forall|k: int| 0 <= k < f.len() implies (#[trigger] f[k]).0 != x by {
                    assert(f.contains(f[k]));
                    g0.lemma_filter_contains_rev(fq, f[k]);
                    let q = choose|q: int| 0 <= q < g0.len() && g0[q] == f[k];
                    assert(g0[q].0 != x);
                }
                lemma_group_of_pairs(f, x, group);
            },
        }
    }
}

} // verus!
