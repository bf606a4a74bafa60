//! The ordered layer stack of a map: layers bottom-to-top, looked up by id,
//! shown or hidden, and the zoom ranges their tile sources serve (the input
//! of the camera's zoom lock).
//!
//! The stack is generic over what a layer carries besides its bookkeeping
//! (its GPU state in a renderer); the stack's rules only read ids, kinds,
//! visibility and source zoom ranges.

use vstd::prelude::*;
use crate::map::LayerKind;
use crate::names::str_equal;

verus! {

/// One layer of the stack.
pub struct LayerEntry<P> {
    pub id: String,
    pub kind: LayerKind,
    pub visible: bool,
    /// `[min_zoom, max_zoom]` served by the layer's own tile source; `None`
    /// for a layer without one (a hillshade reads the shared terrain, a
    /// custom layer draws on its own).
    pub source_zoom: Option<(u8, u8)>,
    pub payload: P,
}

impl<P> LayerEntry<P> {
    /// A visible raster layer whose source serves `source_zoom`.
    pub fn raster(id: String, source_zoom: (u8, u8), payload: P) -> (e: Self)
        ensures
            e.id == id,
            e.kind == LayerKind::Raster,
            e.visible,
            e.source_zoom == Some(source_zoom),
            e.payload == payload,
    {
        LayerEntry { id, kind: LayerKind::Raster, visible: true, source_zoom: Some(source_zoom), payload }
    }

    /// A visible vector layer whose source serves `source_zoom`.
    pub fn vector(id: String, source_zoom: (u8, u8), payload: P) -> (e: Self)
        ensures
            e.id == id,
            e.kind == LayerKind::Vector,
            e.visible,
            e.source_zoom == Some(source_zoom),
            e.payload == payload,
    {
        LayerEntry { id, kind: LayerKind::Vector, visible: true, source_zoom: Some(source_zoom), payload }
    }

    /// A visible hillshade layer (no source of its own).
    pub fn hillshade(id: String, payload: P) -> (e: Self)
        ensures
            e.id == id,
            e.kind == LayerKind::Hillshade,
            e.visible,
            e.source_zoom.is_none(),
            e.payload == payload,
    {
        LayerEntry { id, kind: LayerKind::Hillshade, visible: true, source_zoom: None, payload }
    }

    /// A visible custom layer (no source of its own).
    pub fn custom(id: String, payload: P) -> (e: Self)
        ensures
            e.id == id,
            e.kind == LayerKind::Custom,
            e.visible,
            e.source_zoom.is_none(),
            e.payload == payload,
    {
        LayerEntry { id, kind: LayerKind::Custom, visible: true, source_zoom: None, payload }
    }
}

/// Which kinds of layer a lookup by id considers.
#[derive(Debug, Clone, Copy, PartialEq, Eq, Structural)]
pub enum KindFilter {
    /// Every layer.
    Any,
    /// Layers of one kind only.
    Only(LayerKind),
    /// Every layer but custom ones (fade-in is a tile-layer setting).
    NotCustom,
}

pub open spec fn filter_admits(f: KindFilter, k: LayerKind) -> bool {
    match f {
        KindFilter::Any => true,
        KindFilter::Only(want) => k == want,
        KindFilter::NotCustom => k != LayerKind::Custom,
    }
}

impl KindFilter {
    /// The filter lets a layer of kind `kind` through.
    pub fn admits(self, kind: LayerKind) -> (b: bool)
        ensures
            b == filter_admits(self, kind),
    {
        match self {
            KindFilter::Any => true,
            KindFilter::Only(want) => want == kind,
            KindFilter::NotCustom => kind != LayerKind::Custom,
        }
    }
}

/// Layer `i` of `s` has id `id` and passes `f`.
pub open spec fn matches_at<P>(s: Seq<LayerEntry<P>>, id: Seq<char>, f: KindFilter, i: int) -> bool {
    0 <= i < s.len() && s[i].id@ == id && filter_admits(f, s[i].kind)
}

/// Layer `i` is the lowest layer of `s` that matches.
pub open spec fn is_first_match<P>(s: Seq<LayerEntry<P>>, id: Seq<char>, f: KindFilter, i: int) -> bool {
    &&& matches_at(s, id, f, i)
    &&& forall|j: int| 0 <= j < i ==> !#[trigger] matches_at(s, id, f, j)
}

/// The position of the lowest matching layer, if any layer matches.
pub open spec fn first_match<P>(s: Seq<LayerEntry<P>>, id: Seq<char>, f: KindFilter) -> Option<int> {
    if exists|i: int| is_first_match(s, id, f, i) {
        Some(choose|i: int| is_first_match(s, id, f, i))
    } else {
        None
    }
}

/// Some layer of `s` has id `id`.
pub open spec fn has_layer<P>(s: Seq<LayerEntry<P>>, id: Seq<char>) -> bool {
    exists|i: int| matches_at(s, id, KindFilter::Any, i)
}

/// The visibility of the lowest layer with id `id`.
pub open spec fn visibility_of<P>(s: Seq<LayerEntry<P>>, id: Seq<char>) -> Option<bool> {
    match first_match(s, id, KindFilter::Any) {
        Some(i) => Some(s[i].visible),
        None => None,
    }
}

/// `s` with the lowest layer of id `id` (if any) set to `visible`.
pub open spec fn with_visibility<P>(s: Seq<LayerEntry<P>>, id: Seq<char>, visible: bool) -> Seq<LayerEntry<P>> {
    match first_match(s, id, KindFilter::Any) {
        Some(i) => s.update(i, LayerEntry { visible: visible, ..s[i] }),
        None => s,
    }
}

/// Keeps the layers whose id is not `id`.
pub open spec fn keeps_other_ids<P>(id: Seq<char>) -> spec_fn(LayerEntry<P>) -> bool {
    |e: LayerEntry<P>| e.id@ != id
}

/// The source zoom range of a layer, if it has a source.
pub open spec fn source_zoom_of<P>() -> spec_fn(LayerEntry<P>) -> Option<(u8, u8)> {
    |e: LayerEntry<P>| e.source_zoom
}

/// `lo` is the smallest minimum and `hi` the largest maximum of `ranges`.
pub open spec fn is_zoom_union(ranges: Seq<(u8, u8)>, lo: u8, hi: u8) -> bool {
    &&& forall|i: int| 0 <= i < ranges.len() ==> lo <= (#[trigger] ranges[i]).0 && ranges[i].1 <= hi
    &&& exists|i: int| 0 <= i < ranges.len() && (#[trigger] ranges[i]).0 == lo
    &&& exists|i: int| 0 <= i < ranges.len() && (#[trigger] ranges[i]).1 == hi
}

/// If some layer matches, a lowest one does.
proof fn lemma_match_has_first<P>(s: Seq<LayerEntry<P>>, id: Seq<char>, f: KindFilter, j: int)
    requires
        matches_at(s, id, f, j),
    ensures
        exists|i: int| is_first_match(s, id, f, i),
    decreases j,
{
    if exists|k: int| 0 <= k < j && matches_at(s, id, f, k) {
        let k = choose|k: int| 0 <= k < j && matches_at(s, id, f, k);
        lemma_match_has_first(s, id, f, k);
    } else {
        assert(is_first_match(s, id, f, j));
    }
}

/// `first_match` names the lowest match, and is `None` exactly when nothing
/// matches.
pub proof fn lemma_first_match<P>(s: Seq<LayerEntry<P>>, id: Seq<char>, f: KindFilter)
    ensures
        forall|i: int| is_first_match(s, id, f, i) ==> first_match(s, id, f) == Some(i),
        first_match(s, id, f) is None <==> forall|j: int| !#[trigger] matches_at(s, id, f, j),
        first_match(s, id, f) matches Some(i) ==> is_first_match(s, id, f, i),
{
    if exists|i: int| is_first_match(s, id, f, i) {
        let c = choose|i: int| is_first_match(s, id, f, i);
        assert(is_first_match(s, id, f, c));
        assert(first_match(s, id, f) == Some(c));
    }
    assert forall|i: int| is_first_match(s, id, f, i) implies first_match(s, id, f) == Some(i) by {
        let c = choose|c: int| is_first_match(s, id, f, c);
        assert(is_first_match(s, id, f, c));
        if c < i {
            assert(!matches_at(s, id, f, c));
        } else if i < c {
            assert(!matches_at(s, id, f, i));
        }
    }
    if exists|j: int| matches_at(s, id, f, j) {
        let j = choose|j: int| matches_at(s, id, f, j);
        lemma_match_has_first(s, id, f, j);
    }
}

/// Two stacks with the same ids and kinds, position by position, have the
/// same lowest matches.
proof fn lemma_same_ids<P>(s: Seq<LayerEntry<P>>, t: Seq<LayerEntry<P>>, id: Seq<char>, f: KindFilter)
    requires
        s.len() == t.len(),
        forall|i: int| 0 <= i < s.len() ==> (#[trigger] s[i]).id@ == t[i].id@ && s[i].kind == t[i].kind,
    ensures
        first_match(s, id, f) == first_match(t, id, f),
{
    assert forall|i: int| #[trigger] matches_at(s, id, f, i) == matches_at(t, id, f, i) by {
        if 0 <= i < s.len() {
            assert(s[i].id@ == t[i].id@);
        }
    }
    lemma_first_match(s, id, f);
    lemma_first_match(t, id, f);
    match first_match(s, id, f) {
        Some(i) => {
            assert(is_first_match(s, id, f, i));
            assert forall|j: int| 0 <= j < i implies !#[trigger] matches_at(t, id, f, j) by {
                assert(!matches_at(s, id, f, j));
            }
            assert(matches_at(t, id, f, i) == matches_at(s, id, f, i));
            assert(is_first_match(t, id, f, i));
        },
        None => {
            assert forall|j: int| !#[trigger] matches_at(t, id, f, j) by {
                assert(!matches_at(s, id, f, j));
            }
        },
    }
}

/// Appending a layer on top leaves the lowest match of the layers below.
proof fn lemma_first_match_push<P>(s: Seq<LayerEntry<P>>, e: LayerEntry<P>, id: Seq<char>, f: KindFilter)
    ensures
        first_match(s.push(e), id, f) == if first_match(s, id, f) is Some {
            first_match(s, id, f)
        } else if e.id@ == id && filter_admits(f, e.kind) {
            Some(s.len() as int)
        } else {
            None::<int>
        },
{
    let t = s.push(e);
    assert forall|i: int| 0 <= i < s.len() implies #[trigger] matches_at(t, id, f, i) == matches_at(s, id, f, i) by {
        assert(t[i] == s[i]);
    }
    lemma_first_match(s, id, f);
    lemma_first_match(t, id, f);
    match first_match(s, id, f) {
        Some(i) => {
            assert(is_first_match(s, id, f, i));
            assert forall|j: int| 0 <= j < i implies !#[trigger] matches_at(t, id, f, j) by {
                assert(!matches_at(s, id, f, j));
            }
            assert(matches_at(t, id, f, i));
            assert(is_first_match(t, id, f, i));
        },
        None => {
            if e.id@ == id && filter_admits(f, e.kind) {
                assert(matches_at(t, id, f, s.len() as int));
                assert forall|j: int| 0 <= j < s.len() implies !#[trigger] matches_at(t, id, f, j) by {
                    assert(!matches_at(s, id, f, j));
                }
                assert(is_first_match(t, id, f, s.len() as int));
            } else {
                assert forall|j: int| !#[trigger] matches_at(t, id, f, j) by {
                    if 0 <= j < s.len() {
                        assert(!matches_at(s, id, f, j));
                    }
                }
            }
        },
    }
}

/// Setting the visibility of layer `id` is read back by a lookup of `id`
/// (and does nothing when no layer has that id).
pub proof fn law_visibility_reads_back<P>(s: Seq<LayerEntry<P>>, id: Seq<char>, visible: bool)
    ensures
        visibility_of(with_visibility(s, id, visible), id) == if has_layer(s, id) {
            Some(visible)
        } else {
            None
        },
        has_layer(with_visibility(s, id, visible), id) == has_layer(s, id),
{
    let t = with_visibility(s, id, visible);
    assert forall|i: int| 0 <= i < s.len() implies (#[trigger] s[i]).id@ == t[i].id@ && s[i].kind == t[i].kind by {
    }
    lemma_same_ids(s, t, id, KindFilter::Any);
    lemma_first_match(s, id, KindFilter::Any);
    lemma_first_match(t, id, KindFilter::Any);
    assert forall|i: int| #[trigger] matches_at(s, id, KindFilter::Any, i) == matches_at(t, id, KindFilter::Any, i) by {
    }
}

/// Setting the visibility of layer `id` leaves what every other id reads.
pub proof fn law_visibility_is_local<P>(s: Seq<LayerEntry<P>>, id: Seq<char>, other: Seq<char>, visible: bool)
    requires
        other != id,
    ensures
        visibility_of(with_visibility(s, id, visible), other) == visibility_of(s, other),
{
    let t = with_visibility(s, id, visible);
    assert forall|i: int| 0 <= i < s.len() implies (#[trigger] s[i]).id@ == t[i].id@ && s[i].kind == t[i].kind by {
    }
    lemma_same_ids(s, t, other, KindFilter::Any);
    lemma_first_match(s, other, KindFilter::Any);
}

/// Appending a layer: what a lookup of `x` reads.
proof fn lemma_visibility_push<P>(s: Seq<LayerEntry<P>>, e: LayerEntry<P>, x: Seq<char>)
    ensures
        visibility_of(s.push(e), x) == if has_layer(s, x) {
            visibility_of(s, x)
        } else if e.id@ == x {
            Some(e.visible)
        } else {
            None
        },
        has_layer(s.push(e), x) == (has_layer(s, x) || e.id@ == x),
{
    lemma_first_match_push(s, e, x, KindFilter::Any);
    lemma_first_match(s, x, KindFilter::Any);
    lemma_first_match(s.push(e), x, KindFilter::Any);
    if let Some(i) = first_match(s, x, KindFilter::Any) {
        assert(s.push(e)[i] == s[i]);
    }
}

/// Removing layer `id` removes every layer of that id, and leaves what
/// every other id reads.
pub proof fn law_remove_is_local<P>(s: Seq<LayerEntry<P>>, id: Seq<char>, other: Seq<char>)
    requires
        other != id,
    ensures
        !has_layer(s.filter(keeps_other_ids::<P>(id)), id),
        visibility_of(s.filter(keeps_other_ids::<P>(id)), other) == visibility_of(s, other),
        has_layer(s.filter(keeps_other_ids::<P>(id)), other) == has_layer(s, other),
    decreases s.len(),
{
    let p = keeps_other_ids::<P>(id);
    let t = s.filter(p);
    if s.len() == 0 {
        assert(t =~= s) by {
            s.lemma_filter_len(p);
        }
    } else {
        let r = s.drop_last();
        let e = s.last();
        law_remove_is_local(r, id, other);
        assert(r.push(e) =~= s);
        r.lemma_filter_push(e, p);
        lemma_visibility_push(r, e, other);
        lemma_visibility_push(r, e, id);
        if p(e) {
            lemma_visibility_push(r.filter(p), e, other);
            lemma_visibility_push(r.filter(p), e, id);
        }
    }
}

/// The ordered stack of layers, bottom to top.
pub struct LayerStack<P> {
    entries: Vec<LayerEntry<P>>,
}

impl<P> View for LayerStack<P> {
    type V = Seq<LayerEntry<P>>;

    closed spec fn view(&self) -> Seq<LayerEntry<P>> {
        self.entries@
    }
}

impl<P> LayerStack<P> {
    /// An empty stack.
    pub fn new() -> (s: Self)
        ensures
            s@ == Seq::<LayerEntry<P>>::empty(),
    {
        LayerStack { entries: Vec::new() }
    }

    /// Number of layers.
    pub fn len(&self) -> (n: usize)
        ensures
            n == self@.len(),
    {
        self.entries.len()
    }

    /// Put a layer on top of the stack.
    pub fn push(&mut self, entry: LayerEntry<P>)
        ensures
            final(self)@ == old(self)@.push(entry),
    {
        self.entries.push(entry);
    }

    /// The layer at position `i` (0 is the bottom).
    pub fn get(&self, i: usize) -> (e: &LayerEntry<P>)
        requires
            i < self@.len(),
        ensures
            *e == self@[i as int],
    {
        &self.entries[i]
    }

    /// Position of the lowest layer with id `id` that passes `filter`.
    ///
    /// `KindFilter::Only(LayerKind::Vector)` finds the vector layer whose
    /// style or source a caller reads or edits, `Only(LayerKind::Raster)`
    /// the raster layer whose source it reads, and `NotCustom` the layer a
    /// fade-in setting applies to.
    pub fn index_of(&self, id: &str, filter: KindFilter) -> (r: Option<usize>)
        ensures
            match r {
                Some(i) => first_match(self@, id@, filter) == Some(i as int),
                None => first_match(self@, id@, filter) is None,
            },
    {
        let ghost s = self@;
        proof {
            lemma_first_match(s, id@, filter);
        }
        let mut i: usize = 0;
        while i < self.entries.len()
            invariant
                s == self@,
                s == self.entries@,
                i <= s.len(),
                forall|j: int| 0 <= j < i ==> !#[trigger] matches_at(s, id@, filter, j),
                forall|k: int| is_first_match(s, id@, filter, k) ==> first_match(s, id@, filter) == Some(k),
                first_match(s, id@, filter) is None <==> forall|j: int| !#[trigger] matches_at(s, id@, filter, j),
            decreases self.entries.len() - i,
        {
            let e = &self.entries[i];
            if filter.admits(e.kind) && str_equal(e.id.as_str(), id) {
                assert(is_first_match(s, id@, filter, i as int));
                return Some(i);
            }
            i = i + 1;
        }
        proof {
            assert forall|j: int| !#[trigger] matches_at(s, id@, filter, j) by {
                if 0 <= j < i {
                }
            }
        }
        None
    }

    /// Some layer has id `id`.
    pub fn contains(&self, id: &str) -> (b: bool)
        ensures
            b == has_layer(self@, id@),
    {
        proof {
            lemma_first_match(self@, id@, KindFilter::Any);
        }
        self.index_of(id, KindFilter::Any).is_some()
    }

    /// The layer ids, bottom to top.
    pub fn ids(&self) -> (v: Vec<String>)
        ensures
            v@.len() == self@.len(),
            forall|i: int| 0 <= i < v@.len() ==> (#[trigger] v@[i])@ == self@[i].id@,
    {
        let mut v: Vec<String> = Vec::new();
        let mut i: usize = 0;
        while i < self.entries.len()
            invariant
                i <= self.entries@.len(),
                v@.len() == i,
                forall|k: int| 0 <= k < i ==> (#[trigger] v@[k])@ == self.entries@[k].id@,
            decreases self.entries.len() - i,
        {
            v.push(self.entries[i].id.clone());
            i = i + 1;
        }
        v
    }

    /// Remove every layer with id `id`, keeping the others in order.
    /// Returns whether the stack changed.
    pub fn remove(&mut self, id: &str) -> (changed: bool)
        ensures
            final(self)@ == old(self)@.filter(keeps_other_ids::<P>(id@)),
            changed == has_layer(old(self)@, id@),
    {
        let ghost s = self.entries@;
        let ghost p = keeps_other_ids::<P>(id@);
        let ghost mut j: int = 0;
        let mut i: usize = 0;
        let mut changed = false;
        while i < self.entries.len()
            invariant
                p == keeps_other_ids::<P>(id@),
                0 <= j <= s.len(),
                self.entries@ == s.subrange(0, j).filter(p) + s.subrange(j, s.len() as int),
                i == s.subrange(0, j).filter(p).len(),
                changed == exists|k: int| 0 <= k < j && (#[trigger] s[k]).id@ == id@,
            decreases self.entries.len() - i,
        {
            let ghost before = self.entries@;
            assert(before[i as int] == s[j]);
            assert(s.subrange(0, j + 1) =~= s.subrange(0, j).push(s[j]));
            proof {
                s.subrange(0, j).lemma_filter_push(s[j], p);
            }
            if str_equal(self.entries[i].id.as_str(), id) {
                let _gone = self.entries.remove(i);
                changed = true;
                assert(self.entries@ =~= s.subrange(0, j + 1).filter(p) + s.subrange(j + 1, s.len() as int));
            } else {
                assert(before =~= s.subrange(0, j + 1).filter(p) + s.subrange(j + 1, s.len() as int));
                i = i + 1;
            }
            proof {
                j = j + 1;
            }
        }
        proof {
            if j < s.len() {
                assert(self.entries@.len() > i);
            }
            assert(s.subrange(0, j) =~= s);
            assert(s.subrange(j, s.len() as int) =~= Seq::<LayerEntry<P>>::empty());
            assert(self.entries@ =~= s.filter(p));
            if changed {
                let k = choose|k: int| 0 <= k < j && (#[trigger] s[k]).id@ == id@;
                assert(matches_at(s, id@, KindFilter::Any, k));
            }
            if has_layer(s, id@) {
                let k = choose|k: int| matches_at(s, id@, KindFilter::Any, k);
                assert(s[k].id@ == id@);
            }
        }
        changed
    }

    /// The visibility of the lowest layer with id `id`; `None` if no layer
    /// has that id.
    pub fn visibility(&self, id: &str) -> (r: Option<bool>)
        ensures
            r == visibility_of(self@, id@),
    {
        match self.index_of(id, KindFilter::Any) {
            Some(i) => Some(self.entries[i].visible),
            None => None,
        }
    }

    /// Show or hide the lowest layer with id `id`. Returns whether a layer
    /// has that id.
    pub fn set_visibility(&mut self, id: &str, visible: bool) -> (found: bool)
        ensures
            final(self)@ == with_visibility(old(self)@, id@, visible),
            found == has_layer(old(self)@, id@),
    {
        proof {
            lemma_first_match(self@, id@, KindFilter::Any);
        }
        match self.index_of(id, KindFilter::Any) {
            Some(i) => {
                let ghost s = self.entries@;
                let mut e = self.entries.remove(i);
                e.visible = visible;
                self.entries.insert(i, e);
                assert(self.entries@ =~= s.update(i as int, LayerEntry { visible: visible, ..s[i as int] }));
                true
            },
            None => false,
        }
    }

    /// Position of the lowest visible layer (the one that clears the
    /// frame); `None` when the stack is empty or every layer is hidden.
    pub fn first_visible_index(&self) -> (r: Option<usize>)
        ensures
            match r {
                Some(i) => i < self@.len() && self@[i as int].visible
                    && forall|j: int| 0 <= j < i ==> !(#[trigger] self@[j]).visible,
                None => forall|j: int| 0 <= j < self@.len() ==> !(#[trigger] self@[j]).visible,
            },
    {
        let mut i: usize = 0;
        while i < self.entries.len()
            invariant
                i <= self.entries@.len(),
                forall|j: int| 0 <= j < i ==> !(#[trigger] self.entries@[j]).visible,
            decreases self.entries.len() - i,
        {
            if self.entries[i].visible {
                return Some(i);
            }
            i = i + 1;
        }
        None
    }

    /// The `(min_zoom, max_zoom)` of every layer that owns a tile source,
    /// bottom to top.
    pub fn source_ranges(&self) -> (v: Vec<(u8, u8)>)
        ensures
            v@ == self@.filter_map(source_zoom_of::<P>()),
    {
        let ghost s = self.entries@;
        let ghost f = source_zoom_of::<P>();
        let mut v: Vec<(u8, u8)> = Vec::new();
        let mut i: usize = 0;
        while i < self.entries.len()
            invariant
                s == self.entries@,
                f == source_zoom_of::<P>(),
                i <= s.len(),
                v@ == s.take(i as int).filter_map(f),
            decreases self.entries.len() - i,
        {
            proof {
                s.lemma_filter_map_take_succ(f, i as int);
            }
            match self.entries[i].source_zoom {
                Some(z) => {
                    v.push(z);
                    assert(v@ =~= s.take(i as int).filter_map(f) + seq![z]);
                },
                None => {
                    assert(s.take(i as int).filter_map(f) + Seq::<(u8, u8)>::empty() =~= s.take(i as int).filter_map(f));
                },
            }
            i = i + 1;
        }
        assert(s.take(i as int) =~= s);
        v
    }
}

/// The union of tile-source zoom ranges: the shallowest minimum and the
/// deepest maximum; `None` for no ranges.
pub fn source_zoom_union(ranges: &[(u8, u8)]) -> (r: Option<(u8, u8)>)
    ensures
        match r {
            None => ranges@.len() == 0,
            Some((lo, hi)) => is_zoom_union(ranges@, lo, hi),
        },
{
    if ranges.len() == 0 {
        return None;
    }
    let mut lo: u8 = ranges[0].0;
    let mut hi: u8 = ranges[0].1;
    let ghost mut lo_at: int = 0;
    let ghost mut hi_at: int = 0;
    let mut i: usize = 1;
    while i < ranges.len()
        invariant
            1 <= i <= ranges@.len(),
            forall|k: int| 0 <= k < i ==> lo <= (#[trigger] ranges@[k]).0 && ranges@[k].1 <= hi,
            0 <= lo_at < i,
            ranges@[lo_at].0 == lo,
            0 <= hi_at < i,
            ranges@[hi_at].1 == hi,
        decreases ranges.len() - i,
    {
        let (min_z, max_z) = ranges[i];
        if min_z < lo {
            lo = min_z;
            proof {
                lo_at = i as int;
            }
        }
        if max_z > hi {
            hi = max_z;
            proof {
                hi_at = i as int;
            }
        }
        i = i + 1;
    }
    assert(ranges@[lo_at].0 == lo);
    assert(ranges@[hi_at].1 == hi);
    Some((lo, hi))
}

} // verus!
