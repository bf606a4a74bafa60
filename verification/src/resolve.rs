//! Best-available coverage resolver (level-of-detail retention).
//!
//! Per ideal cell, answers: "what is the best-resolution *resident*
//! coverage that can be drawn right now?" Finer resident tiles are preferred
//! (children before the cell itself) so retained detail wins over a coarse
//! ideal; a coarse resident ancestor is used as a backdrop only where nothing
//! finer covers the whole cell.
//!
//! Residency is a caller-supplied predicate on tiles; the contracts below are
//! stated over the predicate it computes.

use vstd::prelude::*;
use crate::tile::{
    TileId, MAX_TILE_ZOOM, tile_contains, ancestor_spec, child_spec, children_spec, lemma_child_inside,
    lemma_contains_refl, lemma_contains_trans, lemma_descendant_in_child, lemma_children_disjoint,
    lemma_ancestor_contains,
};

verus! {

/// How many zoom levels of already-resident finer detail are retained below
/// the ideal cell.
pub const MAX_DOWN: u8 = 2;

/// One unit of resident coverage for an ideal cell, in draw order (coarse
/// backdrop first, finer detail on top).
#[derive(Debug, Clone, Copy, PartialEq, Eq, Structural)]
pub enum CellSource {
    /// Draw this tile over its own footprint: the ideal cell or a resident
    /// descendant of it.
    Whole(TileId),
    /// Draw resident `ancestor` stretched across `target`'s footprint as a
    /// coarse backdrop.
    AncestorPatch { ancestor: TileId, target: TileId },
}

// ---------------------------------------------------------------------------
// The residency predicate.

/// The residency predicate computed by `f` holds at `t`.
pub open spec fn holds_at<F: Fn(TileId) -> bool>(f: &F, t: TileId) -> bool {
    call_ensures(*f, (t,), true)
}

/// `f` can be called on every tile and answers each tile the same way every
/// time: it computes a predicate.
pub open spec fn is_tile_predicate<F: Fn(TileId) -> bool>(f: &F) -> bool {
    &&& forall|t: TileId| call_requires(*f, (t,))
    &&& forall|t: TileId, a: bool, b: bool|
        call_ensures(*f, (t,), a) && call_ensures(*f, (t,), b) ==> a == b
}

/// The predicate computed by `f`, as a spec function.
pub open spec fn predicate_of<F: Fn(TileId) -> bool>(f: &F) -> spec_fn(TileId) -> bool {
    |t: TileId| holds_at(f, t)
}

fn ask<F: Fn(TileId) -> bool>(f: &F, t: TileId) -> (b: bool)
    requires
        is_tile_predicate(f),
    ensures
        b == holds_at(f, t),
{
    f(t)
}

// ---------------------------------------------------------------------------
// Specifications.

/// Concatenation of the first `n` covers in `parts` (each assumed `Some`).
pub open spec fn concat_covers(parts: Seq<Option<Seq<TileId>>>, n: nat) -> Seq<TileId>
    decreases n,
{
    if n == 0 {
        Seq::empty()
    } else {
        concat_covers(parts, (n - 1) as nat) + parts[n - 1].unwrap()
    }
}

/// The first `n` covers in `parts` all exist.
pub open spec fn all_covered(parts: Seq<Option<Seq<TileId>>>, n: nat) -> bool {
    forall|i: int| 0 <= i < n ==> (#[trigger] parts[i]) is Some
}

/// The finest resident tiles fully covering `cell` using levels
/// `cell.z ..= cell.z + depth`, trying the children before the cell itself;
/// `None` when some part of the cell has no resident tile in that range.
pub open spec fn cover_spec(cell: TileId, depth: nat, r: spec_fn(TileId) -> bool) -> Option<
    Seq<TileId>,
>
    decreases depth,
{
    let own = if r(cell) {
        Some(seq![cell])
    } else {
        None
    };
    if depth > 0 && cell.z < MAX_TILE_ZOOM {
        let d = (depth - 1) as nat;
        let parts = seq![
            cover_spec(child_spec(cell, 0), d, r),
            cover_spec(child_spec(cell, 1), d, r),
            cover_spec(child_spec(cell, 2), d, r),
            cover_spec(child_spec(cell, 3), d, r),
        ];
        if all_covered(parts, 4) {
            Some(concat_covers(parts, 4))
        } else {
            own
        }
    } else {
        own
    }
}

/// The four children's covers of `cell` one level shallower in depth.
pub open spec fn child_covers(cell: TileId, depth: nat, r: spec_fn(TileId) -> bool) -> Seq<
    Option<Seq<TileId>>,
> {
    let d = (depth - 1) as nat;
    seq![
        cover_spec(child_spec(cell, 0), d, r),
        cover_spec(child_spec(cell, 1), d, r),
        cover_spec(child_spec(cell, 2), d, r),
        cover_spec(child_spec(cell, 3), d, r),
    ]
}

/// The finest resident tiles found within `cell` (partial coverage allowed),
/// each branch stopping at its first resident level, at most `depth` levels
/// down.
pub open spec fn collect_spec(cell: TileId, depth: nat, r: spec_fn(TileId) -> bool) -> Seq<
    TileId,
>
    decreases depth,
{
    if r(cell) {
        seq![cell]
    } else if depth == 0 || cell.z >= MAX_TILE_ZOOM {
        Seq::empty()
    } else {
        let d = (depth - 1) as nat;
        collect_spec(child_spec(cell, 0), d, r) + collect_spec(child_spec(cell, 1), d, r)
            + collect_spec(child_spec(cell, 2), d, r) + collect_spec(child_spec(cell, 3), d, r)
    }
}

/// The nearest resident ancestor of `t` at least `k` levels up, or `None`.
pub open spec fn nearest_ancestor_from(t: TileId, k: nat, r: spec_fn(TileId) -> bool) -> Option<
    TileId,
>
    decreases t.z + 1 - k,
{
    if k > t.z {
        None
    } else if r(ancestor_spec(t, k)) {
        Some(ancestor_spec(t, k))
    } else {
        nearest_ancestor_from(t, k + 1, r)
    }
}

/// Tiles drawn whole, in order.
pub open spec fn wholes(s: Seq<TileId>) -> Seq<CellSource> {
    s.map_values(|t: TileId| CellSource::Whole(t))
}

/// The best-available coverage of `ideal`: its finest full cover if one
/// exists; otherwise the nearest resident ancestor as a backdrop (if any)
/// followed by the partial finer detail found under the cell.
pub open spec fn resolve_spec(ideal: TileId, max_down: nat, r: spec_fn(TileId) -> bool) -> Seq<
    CellSource,
> {
    match cover_spec(ideal, max_down, r) {
        Some(s) => wholes(s),
        None => {
            let backdrop = match nearest_ancestor_from(ideal, 1, r) {
                Some(a) => seq![CellSource::AncestorPatch { ancestor: a, target: ideal }],
                None => Seq::empty(),
            };
            backdrop + wholes(collect_spec(ideal, max_down, r))
        },
    }
}

/// How many tiles of `s` contain `t`.
pub open spec fn covering_count(s: Seq<TileId>, t: TileId) -> nat
    decreases s.len(),
{
    if s.len() == 0 {
        0
    } else {
        covering_count(s.drop_last(), t) + if tile_contains(s.last(), t) {
            1nat
        } else {
            0nat
        }
    }
}

// ---------------------------------------------------------------------------
// Executable resolver.

/// Best-available resident coverage for `ideal`, in draw order.
pub fn resolve_cell<F: Fn(TileId) -> bool>(ideal: TileId, max_down: u8, resident: &F) -> (out: Vec<
    CellSource,
>)
    requires
        ideal.wf(),
        is_tile_predicate(resident),
    ensures
        out@ == resolve_spec(ideal, max_down as nat, predicate_of(resident)),
        resolution_is_sound(ideal, max_down as nat, predicate_of(resident), out@),
{
    let ghost r = predicate_of(resident);
    proof {
        lemma_resolve_sound(ideal, max_down as nat, r);
    }
    if let Some(tiles) = cover_finest(ideal, max_down, resident) {
        let mut out: Vec<CellSource> = Vec::new();
        let mut i: usize = 0;
        while i < tiles.len()
            invariant
                i <= tiles.len(),
                out@ == wholes(tiles@.subrange(0, i as int)),
            decreases tiles.len() - i,
        {
            out.push(CellSource::Whole(tiles[i]));
            proof {
                assert(tiles@.subrange(0, i + 1) =~= tiles@.subrange(0, i as int).push(tiles@[i as int]));
                assert(out@ =~= wholes(tiles@.subrange(0, i + 1)));
            }
            i = i + 1;
        }
        proof {
            assert(tiles@.subrange(0, tiles@.len() as int) =~= tiles@);
        }
        return out;
    }
    let mut out: Vec<CellSource> = Vec::new();
    if let Some(anc) = nearest_resident_ancestor(ideal, resident) {
        out.push(CellSource::AncestorPatch { ancestor: anc, target: ideal });
    }
    let ghost before = out@;
    collect_resident_descendants(ideal, max_down, resident, &mut out);
    proof {
        assert(out@ =~= before + wholes(collect_spec(ideal, max_down as nat, r)));
    }
    out
}

/// `Some(finest resident tiles fully covering cell)`, or `None` if some part
/// of `cell` has no resident tile within `cell.z ..= cell.z + depth`.
pub fn cover_finest<F: Fn(TileId) -> bool>(cell: TileId, depth: u8, resident: &F) -> (res: Option<
    Vec<TileId>,
>)
    requires
        cell.wf(),
        is_tile_predicate(resident),
    ensures
        match res {
            Some(v) => cover_spec(cell, depth as nat, predicate_of(resident)) == Some(v@),
            None => cover_spec(cell, depth as nat, predicate_of(resident)) is None,
        },
    decreases depth,
{
    let ghost r = predicate_of(resident);
    if depth > 0 {
        if let Some(children) = cell.children() {
            let ghost parts = child_covers(cell, depth as nat, r);
            let mut acc: Vec<TileId> = Vec::new();
            let mut all = true;
            let mut i: usize = 0;
            while i < 4 && all
                invariant
                    0 <= i <= 4,
                    cell.wf(),
                    cell.z < MAX_TILE_ZOOM,
                    depth > 0,
                    is_tile_predicate(resident),
                    r == predicate_of(resident),
                    children@ == children_spec(cell),
                    parts == child_covers(cell, depth as nat, r),
                    all ==> all_covered(parts, i as nat) && acc@ == concat_covers(parts, i as nat),
                    !all ==> !all_covered(parts, 4),
                decreases 4 - i,
            {
                proof {
                    lemma_child_inside(cell, i as int);
                }
                match cover_finest(children[i], depth - 1, resident) {
                    Some(v) => {
                        let mut v = v;
                        acc.append(&mut v);
                    },
                    None => {
                        all = false;
                    },
                }
                i = i + 1;
            }
            if all {
                proof {
                    assert(i == 4);
                }
                return Some(acc);
            }
        }
    }
    if ask(resident, cell) {
        Some(vec![cell])
    } else {
        None
    }
}

/// Push the finest resident tiles found within `cell` (partial coverage
/// allowed) onto `out`, stopping each branch at its first resident level.
pub fn collect_resident_descendants<F: Fn(TileId) -> bool>(
    cell: TileId,
    depth: u8,
    resident: &F,
    out: &mut Vec<CellSource>,
)
    requires
        cell.wf(),
        is_tile_predicate(resident),
    ensures
        final(out)@ == old(out)@ + wholes(collect_spec(cell, depth as nat, predicate_of(resident))),
    decreases depth,
{
    let ghost r = predicate_of(resident);
    let ghost start = out@;
    if ask(resident, cell) {
        out.push(CellSource::Whole(cell));
        proof {
            assert(wholes(seq![cell]) =~= seq![CellSource::Whole(cell)]);
        }
        return;
    }
    if depth == 0 {
        proof {
            assert(wholes(Seq::<TileId>::empty()) =~= Seq::<CellSource>::empty());
            assert(out@ =~= start + Seq::<CellSource>::empty());
        }
        return;
    }
    if let Some(children) = cell.children() {
        let ghost d = (depth - 1) as nat;
        let mut i: usize = 0;
        while i < 4
            invariant
                0 <= i <= 4,
                cell.wf(),
                cell.z < MAX_TILE_ZOOM,
                depth > 0,
                d == depth - 1,
                is_tile_predicate(resident),
                r == predicate_of(resident),
                children@ == children_spec(cell),
                out@ == start + wholes(collect_prefix(cell, d, r, i as nat)),
            decreases 4 - i,
        {
            proof {
                lemma_child_inside(cell, i as int);
            }
            collect_resident_descendants(children[i], depth - 1, resident, out);
            proof {
                lemma_wholes_concat(collect_prefix(cell, d, r, i as nat),
                    collect_spec(child_spec(cell, i as int), d, r));
                assert(out@ =~= start + wholes(collect_prefix(cell, d, r, (i + 1) as nat)));
            }
            i = i + 1;
        }
        proof {
            reveal_with_fuel(collect_prefix, 5);
            assert(collect_prefix(cell, d, r, 4) =~= collect_spec(cell, depth as nat, r));
        }
    } else {
        proof {
            assert(wholes(Seq::<TileId>::empty()) =~= Seq::<CellSource>::empty());
            assert(out@ =~= start + Seq::<CellSource>::empty());
        }
    }
}

/// Concatenation of the first `n` children's collections of `cell`.
pub open spec fn collect_prefix(cell: TileId, d: nat, r: spec_fn(TileId) -> bool, n: nat) -> Seq<
    TileId,
>
    decreases n,
{
    if n == 0 {
        Seq::empty()
    } else {
        collect_prefix(cell, d, r, (n - 1) as nat) + collect_spec(child_spec(cell, n - 1), d, r)
    }
}

/// Nearest resident ancestor of `ideal` (walking up), or `None`.
pub fn nearest_resident_ancestor<F: Fn(TileId) -> bool>(ideal: TileId, resident: &F) -> (res: Option<
    TileId,
>)
    requires
        is_tile_predicate(resident),
    ensures
        res == nearest_ancestor_from(ideal, 1, predicate_of(resident)),
{
    let ghost r = predicate_of(resident);
    let mut k: u16 = 1;
    while k <= ideal.z as u16
        invariant
            1 <= k <= ideal.z + 1,
            is_tile_predicate(resident),
            r == predicate_of(resident),
            nearest_ancestor_from(ideal, 1, r) == nearest_ancestor_from(ideal, k as nat, r),
        decreases ideal.z + 1 - k,
    {
        let a = match ideal.ancestor(k as u8) {
            Some(a) => a,
            None => {
                return None;
            },
        };
        if ask(resident, a) {
            return Some(a);
        }
        k = k + 1;
    }
    None
}

// ---------------------------------------------------------------------------
// Laws.

/// Every tile of `s` is resident, well formed, inside `cell` and at most
/// `depth` levels below it.
pub open spec fn tiles_sound(s: Seq<TileId>, cell: TileId, depth: nat, r: spec_fn(TileId) -> bool) -> bool {
    forall|i: int|
        0 <= i < s.len() ==> {
            &&& r(#[trigger] s[i])
            &&& s[i].wf()
            &&& tile_contains(cell, s[i])
            &&& s[i].z <= cell.z + depth
        }
}

/// What a resolution may draw: every whole tile is resident and lies inside
/// the ideal cell; an ancestor backdrop, if any, comes first, is resident,
/// targets the ideal cell and strictly contains it; and when the cell has a
/// full finer cover there is no backdrop at all.
pub open spec fn resolution_is_sound(
    ideal: TileId,
    max_down: nat,
    r: spec_fn(TileId) -> bool,
    out: Seq<CellSource>,
) -> bool {
    &&& forall|i: int|
        0 <= i < out.len() ==> match #[trigger] out[i] {
            CellSource::Whole(t) => r(t) && t.wf() && tile_contains(ideal, t) && t.z <= ideal.z
                + max_down,
            CellSource::AncestorPatch { ancestor, target } => {
                &&& i == 0
                &&& r(ancestor)
                &&& ancestor.wf()
                &&& target == ideal
                &&& tile_contains(ancestor, ideal)
                &&& ancestor.z < ideal.z
            },
        }
    &&& cover_spec(ideal, max_down, r) is Some ==> forall|i: int|
        0 <= i < out.len() ==> (#[trigger] out[i]) is Whole
}

proof fn lemma_wholes_concat(a: Seq<TileId>, b: Seq<TileId>)
    ensures
        wholes(a + b) == wholes(a) + wholes(b),
{
    assert(wholes(a + b) =~= wholes(a) + wholes(b));
}

proof fn lemma_concat_covers_sound(
    parts: Seq<Option<Seq<TileId>>>,
    n: nat,
    cell: TileId,
    depth: nat,
    r: spec_fn(TileId) -> bool,
)
    requires
        n <= parts.len(),
        all_covered(parts, n),
        forall|i: int| 0 <= i < n ==> tiles_sound((#[trigger] parts[i]).unwrap(), cell, depth, r),
    ensures
        tiles_sound(concat_covers(parts, n), cell, depth, r),
    decreases n,
{
    if n > 0 {
        lemma_concat_covers_sound(parts, (n - 1) as nat, cell, depth, r);
        let a = concat_covers(parts, (n - 1) as nat);
        let b = parts[n - 1].unwrap();
        assert(tiles_sound(b, cell, depth, r));
        assert forall|i: int| 0 <= i < (a + b).len() implies {
            &&& r(#[trigger] (a + b)[i])
            &&& (a + b)[i].wf()
            &&& tile_contains(cell, (a + b)[i])
            &&& (a + b)[i].z <= cell.z + depth
        } by {
            if i < a.len() {
                assert((a + b)[i] == a[i]);
            } else {
                assert((a + b)[i] == b[i - a.len()]);
            }
        }
    }
}

/// A full cover consists of resident, well-formed tiles inside the cell, at
/// most `depth` levels below it.
pub proof fn lemma_cover_sound(cell: TileId, depth: nat, r: spec_fn(TileId) -> bool)
    requires
        cell.wf(),
        cover_spec(cell, depth, r) is Some,
    ensures
        tiles_sound(cover_spec(cell, depth, r).unwrap(), cell, depth, r),
    decreases depth,
{
    lemma_contains_refl(cell);
    if depth > 0 && cell.z < MAX_TILE_ZOOM {
        let d = (depth - 1) as nat;
        let parts = child_covers(cell, depth, r);
        if all_covered(parts, 4) {
            assert forall|i: int| 0 <= i < 4 implies tiles_sound(
                (#[trigger] parts[i]).unwrap(),
                cell,
                depth,
                r,
            ) by {
                lemma_child_inside(cell, i);
                let c = child_spec(cell, i);
                lemma_cover_sound(c, d, r);
                let s = parts[i].unwrap();
                assert(tiles_sound(s, c, d, r));
                assert forall|j: int| 0 <= j < s.len() implies tile_contains(cell, #[trigger] s[j]) by {
                    lemma_contains_trans(cell, c, s[j]);
                }
            }
            lemma_concat_covers_sound(parts, 4, cell, depth, r);
        }
    }
}

proof fn lemma_count_concat(a: Seq<TileId>, b: Seq<TileId>, t: TileId)
    ensures
        covering_count(a + b, t) == covering_count(a, t) + covering_count(b, t),
    decreases b.len(),
{
    if b.len() == 0 {
        assert(a + b =~= a);
    } else {
        lemma_count_concat(a, b.drop_last(), t);
        assert((a + b).drop_last() =~= a + b.drop_last());
        assert((a + b).last() == b.last());
    }
}

proof fn lemma_count_none(s: Seq<TileId>, t: TileId)
    requires
        forall|i: int| 0 <= i < s.len() ==> !tile_contains(#[trigger] s[i], t),
    ensures
        covering_count(s, t) == 0,
    decreases s.len(),
{
    if s.len() > 0 {
        lemma_count_none(s.drop_last(), t);
        assert(s.last() == s[s.len() - 1]);
    }
}

proof fn lemma_count_single(a: TileId, t: TileId)
    ensures
        covering_count(seq![a], t) == if tile_contains(a, t) {
            1nat
        } else {
            0nat
        },
{
    reveal_with_fuel(covering_count, 2);
    assert(seq![a].drop_last() =~= Seq::<TileId>::empty());
}

/// Covering count of a concatenation of the first `n` covers, given the
/// count of each part.
proof fn lemma_count_concat_covers(parts: Seq<Option<Seq<TileId>>>, n: nat, t: TileId, k: int)
    requires
        n <= parts.len(),
        all_covered(parts, n),
        0 <= k < parts.len(),
        forall|i: int|
            0 <= i < n ==> covering_count((#[trigger] parts[i]).unwrap(), t) == if i == k {
                1nat
            } else {
                0nat
            },
    ensures
        covering_count(concat_covers(parts, n), t) == if k < n {
            1nat
        } else {
            0nat
        },
    decreases n,
{
    if n == 0 {
    } else {
        lemma_count_concat_covers(parts, (n - 1) as nat, t, k);
        lemma_count_concat(concat_covers(parts, (n - 1) as nat), parts[n - 1].unwrap(), t);
    }
}

/// A full cover partitions the cell: every well-formed tile inside the cell
/// that is at least as deep as the cover's deepest level (`cell.z + depth`,
/// or the deepest zoom) lies inside exactly one tile of the cover.
pub proof fn lemma_cover_partitions(cell: TileId, depth: nat, r: spec_fn(TileId) -> bool, t: TileId)
    requires
        cell.wf(),
        t.wf(),
        cover_spec(cell, depth, r) is Some,
        tile_contains(cell, t),
        t.z >= cell.z + depth || t.z == MAX_TILE_ZOOM,
    ensures
        covering_count(cover_spec(cell, depth, r).unwrap(), t) == 1,
    decreases depth,
{
    if depth > 0 && cell.z < MAX_TILE_ZOOM && all_covered(child_covers(cell, depth, r), 4) {
        let d = (depth - 1) as nat;
        let parts = child_covers(cell, depth, r);
        assert(t.z > cell.z);
        let k = lemma_descendant_in_child(cell, t);
        assert forall|i: int| 0 <= i < 4 implies covering_count((#[trigger] parts[i]).unwrap(), t)
            == if i == k {
            1nat
        } else {
            0nat
        } by {
            lemma_child_inside(cell, i);
            let c = child_spec(cell, i);
            let s = parts[i].unwrap();
            if i == k {
                lemma_cover_partitions(c, d, r, t);
            } else {
                lemma_cover_sound(c, d, r);
                assert forall|j: int| 0 <= j < s.len() implies !tile_contains(#[trigger] s[j], t) by {
                    if tile_contains(s[j], t) {
                        lemma_contains_trans(c, s[j], t);
                        lemma_children_disjoint(cell, k, i, t);
                    }
                }
                lemma_count_none(s, t);
            }
        }
        lemma_count_concat_covers(parts, 4, t, k);
    } else {
        lemma_count_single(cell, t);
    }
}

/// Every tile collected under `cell` is resident, well formed, inside the
/// cell and at most `depth` levels below it.
pub proof fn lemma_collect_sound(cell: TileId, depth: nat, r: spec_fn(TileId) -> bool)
    requires
        cell.wf(),
    ensures
        tiles_sound(collect_spec(cell, depth, r), cell, depth, r),
    decreases depth,
{
    lemma_contains_refl(cell);
    if !r(cell) && depth > 0 && cell.z < MAX_TILE_ZOOM {
        let d = (depth - 1) as nat;
        let parts = seq![
            Some(collect_spec(child_spec(cell, 0), d, r)),
            Some(collect_spec(child_spec(cell, 1), d, r)),
            Some(collect_spec(child_spec(cell, 2), d, r)),
            Some(collect_spec(child_spec(cell, 3), d, r)),
        ];
        assert forall|i: int| 0 <= i < 4 implies tiles_sound(
            (#[trigger] parts[i]).unwrap(),
            cell,
            depth,
            r,
        ) by {
            lemma_child_inside(cell, i);
            let c = child_spec(cell, i);
            lemma_collect_sound(c, d, r);
            let s = parts[i].unwrap();
            assert forall|j: int| 0 <= j < s.len() implies tile_contains(cell, #[trigger] s[j]) by {
                lemma_contains_trans(cell, c, s[j]);
            }
        }
        lemma_concat_covers_sound(parts, 4, cell, depth, r);
        reveal_with_fuel(concat_covers, 5);
        assert(concat_covers(parts, 4) =~= collect_spec(cell, depth, r));
    }
}

/// The nearest resident ancestor found from level `k` up is resident, well
/// formed, strictly above the tile, contains it, and no resident ancestor
/// lies between `k` and it.
pub proof fn lemma_nearest_ancestor_sound(t: TileId, k: nat, r: spec_fn(TileId) -> bool)
    requires
        t.wf(),
        k >= 1,
    ensures
        match nearest_ancestor_from(t, k, r) {
            Some(a) => {
                &&& r(a)
                &&& a.wf()
                &&& tile_contains(a, t)
                &&& a.z < t.z
                &&& forall|j: nat| k <= j < t.z - a.z ==> !r(#[trigger] ancestor_spec(t, j))
            },
            None => forall|j: nat| k <= j <= t.z ==> !r(#[trigger] ancestor_spec(t, j)),
        },
    decreases t.z + 1 - k,
{
    if k <= t.z {
        lemma_ancestor_contains(t, k);
        if !r(ancestor_spec(t, k)) {
            lemma_nearest_ancestor_sound(t, k + 1, r);
        }
    }
}

/// Resolution only draws resident coverage of the cell (see
/// [`resolution_is_sound`]).
pub proof fn lemma_resolve_sound(ideal: TileId, max_down: nat, r: spec_fn(TileId) -> bool)
    requires
        ideal.wf(),
    ensures
        resolution_is_sound(ideal, max_down, r, resolve_spec(ideal, max_down, r)),
{
    let out = resolve_spec(ideal, max_down, r);
    match cover_spec(ideal, max_down, r) {
        Some(s) => {
            lemma_cover_sound(ideal, max_down, r);
            assert forall|i: int| 0 <= i < out.len() implies match #[trigger] out[i] {
                CellSource::Whole(t) => r(t) && t.wf() && tile_contains(ideal, t) && t.z <= ideal.z
                    + max_down,
                CellSource::AncestorPatch { .. } => false,
            } by {
                assert(out[i] == CellSource::Whole(s[i]));
            }
        },
        None => {
            lemma_collect_sound(ideal, max_down, r);
            lemma_nearest_ancestor_sound(ideal, 1, r);
            let c = collect_spec(ideal, max_down, r);
            let backdrop = match nearest_ancestor_from(ideal, 1, r) {
                Some(a) => seq![CellSource::AncestorPatch { ancestor: a, target: ideal }],
                None => Seq::<CellSource>::empty(),
            };
            assert(out == backdrop + wholes(c));
            assert forall|i: int| 0 <= i < out.len() implies match #[trigger] out[i] {
                CellSource::Whole(t) => r(t) && t.wf() && tile_contains(ideal, t) && t.z <= ideal.z
                    + max_down,
                CellSource::AncestorPatch { ancestor, target } => {
                    &&& i == 0
                    &&& r(ancestor)
                    &&& ancestor.wf()
                    &&& target == ideal
                    &&& tile_contains(ancestor, ideal)
                    &&& ancestor.z < ideal.z
                },
            } by {
                if i < backdrop.len() {
                    assert(out[i] == backdrop[i]);
                } else {
                    assert(out[i] == CellSource::Whole(c[i - backdrop.len()]));
                }
            }
        },
    }
}

} // verus!
