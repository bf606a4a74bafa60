//! Web-Mercator quadtree tile addressing.
//!
//! A tile `(z, x, y)` covers the square `[x, x+1) × [y, y+1)` of the
//! `2^z × 2^z` grid at zoom `z`. Its four children at `z + 1` split that
//! square in two along each axis; its ancestor `k` levels up is found by
//! dividing both coordinates by `2^k`.

use vstd::prelude::*;
use vstd::arithmetic::div_mod::{lemma_div_denominator, lemma_fundamental_div_mod, lemma_div_is_ordered};
use vstd::arithmetic::mul::lemma_mul_strictly_positive;

verus! {

/// Deepest zoom level the tile pyramid represents.
pub const MAX_TILE_ZOOM: u8 = 24;

/// `2^z`: the number of tiles along each side of the grid at zoom `z`.
pub open spec fn tiles_per_side(z: nat) -> nat
    decreases z,
{
    if z == 0 {
        1
    } else {
        2 * tiles_per_side((z - 1) as nat)
    }
}

/// A tile of the quadtree: zoom `z`, column `x`, row `y`.
#[derive(Debug, Clone, Copy, PartialEq, Eq, Structural, Hash)]
pub struct TileId {
    pub z: u8,
    pub x: u32,
    pub y: u32,
}

/// `outer` is `inner` or one of its ancestors: `inner`'s square lies inside
/// `outer`'s.
pub open spec fn tile_contains(outer: TileId, inner: TileId) -> bool {
    let k = (inner.z - outer.z) as nat;
    &&& outer.z <= inner.z
    &&& inner.x as nat / tiles_per_side(k) == outer.x
    &&& inner.y as nat / tiles_per_side(k) == outer.y
}

/// The ancestor of `t` that lies `k` levels above it (`k <= t.z`).
pub open spec fn ancestor_spec(t: TileId, k: nat) -> TileId {
    TileId {
        z: (t.z - k) as u8,
        x: (t.x as nat / tiles_per_side(k)) as u32,
        y: (t.y as nat / tiles_per_side(k)) as u32,
    }
}

/// The `i`-th child of `t` (`0 <= i < 4`): west/east by `i % 2`,
/// north/south by `i / 2`.
pub open spec fn child_spec(t: TileId, i: int) -> TileId {
    TileId {
        z: (t.z + 1) as u8,
        x: (2 * t.x + i % 2) as u32,
        y: (2 * t.y + i / 2) as u32,
    }
}

/// The four children of `t` in the order west-north, east-north,
/// west-south, east-south.
pub open spec fn children_spec(t: TileId) -> Seq<TileId> {
    seq![child_spec(t, 0), child_spec(t, 1), child_spec(t, 2), child_spec(t, 3)]
}

impl TileId {
    /// The tile lies inside the pyramid: `z <= MAX_TILE_ZOOM`, `x, y < 2^z`.
    pub open spec fn wf(self) -> bool {
        &&& self.z <= MAX_TILE_ZOOM
        &&& self.x < tiles_per_side(self.z as nat)
        &&& self.y < tiles_per_side(self.z as nat)
    }

    pub fn new(z: u8, x: u32, y: u32) -> (t: TileId)
        ensures
            t.z == z,
            t.x == x,
            t.y == y,
    {
        TileId { z, x, y }
    }

    /// The four children one level deeper, or `None` at the deepest zoom.
    pub fn children(&self) -> (r: Option<[TileId; 4]>)
        requires
            self.wf(),
        ensures
            self.z < MAX_TILE_ZOOM ==> r is Some && r.unwrap()@ == children_spec(*self),
            self.z >= MAX_TILE_ZOOM ==> r is None,
    {
        if self.z >= MAX_TILE_ZOOM {
            return None;
        }
        proof {
            lemma_tiles_per_side_bound(self.z as nat);
        }
        let z = self.z + 1;
        let x = 2 * self.x;
        let y = 2 * self.y;
        let kids = [
            TileId { z, x, y },
            TileId { z, x: x + 1, y },
            TileId { z, x, y: y + 1 },
            TileId { z, x: x + 1, y: y + 1 },
        ];
        assert(kids@ =~= children_spec(*self));
        Some(kids)
    }

    /// The ancestor `k` levels up, or `None` when `k` exceeds the zoom.
    /// `ancestor(0)` is the tile itself.
    pub fn ancestor(&self, k: u8) -> (r: Option<TileId>)
        ensures
            k <= self.z ==> r == Some(ancestor_spec(*self, k as nat)),
            k > self.z ==> r is None,
    {
        if k > self.z {
            return None;
        }
        let mut x = self.x;
        let mut y = self.y;
        let mut i: u8 = 0;
        proof {
            lemma_tiles_per_side_small();
        }
        while i < k
            invariant
                i <= k,
                x as nat == self.x as nat / tiles_per_side(i as nat),
                y as nat == self.y as nat / tiles_per_side(i as nat),
            decreases k - i,
        {
            proof {
                lemma_tiles_per_side_positive(i as nat);
                lemma_div_denominator(self.x as int, tiles_per_side(i as nat) as int, 2);
                lemma_div_denominator(self.y as int, tiles_per_side(i as nat) as int, 2);
                assert(tiles_per_side((i + 1) as nat) == tiles_per_side(i as nat) * 2);
            }
            x = x / 2;
            y = y / 2;
            i = i + 1;
        }
        Some(TileId { z: self.z - k, x, y })
    }
}

// ---------------------------------------------------------------------------
// Arithmetic facts about the grid size.

/// `2^0 == 1` and `2^1 == 2`.
pub proof fn lemma_tiles_per_side_small()
    ensures
        tiles_per_side(0) == 1,
        tiles_per_side(1) == 2,
{
    reveal_with_fuel(tiles_per_side, 2);
}

/// Every level has at least one tile per side.
pub proof fn lemma_tiles_per_side_positive(z: nat)
    ensures
        tiles_per_side(z) >= 1,
    decreases z,
{
    if z > 0 {
        lemma_tiles_per_side_positive((z - 1) as nat);
    }
}

/// `2^(a + b) == 2^a * 2^b`.
pub proof fn lemma_tiles_per_side_add(a: nat, b: nat)
    ensures
        tiles_per_side(a + b) == tiles_per_side(a) * tiles_per_side(b),
    decreases a,
{
    if a > 0 {
        lemma_tiles_per_side_add((a - 1) as nat, b);
        let p = tiles_per_side((a - 1) as nat);
        let q = tiles_per_side(b);
        assert(tiles_per_side(a + b) == 2 * tiles_per_side((a - 1 + b) as nat));
        assert(tiles_per_side(a) == 2 * p);
        assert(2 * (p * q) == (2 * p) * q) by (nonlinear_arith);
    } else {
        lemma_tiles_per_side_small();
    }
}

/// `2^z` is monotone in `z`.
pub proof fn lemma_tiles_per_side_monotone(a: nat, b: nat)
    requires
        a <= b,
    ensures
        tiles_per_side(a) <= tiles_per_side(b),
    decreases b,
{
    if a < b {
        lemma_tiles_per_side_monotone(a, (b - 1) as nat);
        lemma_tiles_per_side_positive((b - 1) as nat);
    }
}

/// Every coordinate of a well-formed tile, and of its children, fits in a
/// `u32` with room to spare.
pub proof fn lemma_tiles_per_side_bound(z: nat)
    requires
        z <= MAX_TILE_ZOOM,
    ensures
        tiles_per_side(z) <= 0x100_0000,
{
    lemma_tiles_per_side_monotone(z, 24);
    reveal_with_fuel(tiles_per_side, 25);
    assert(tiles_per_side(24) == 0x100_0000);
}

// ---------------------------------------------------------------------------
// Quadtree containment.

/// Every tile contains itself.
pub proof fn lemma_contains_refl(t: TileId)
    ensures
        tile_contains(t, t),
{
    lemma_tiles_per_side_small();
    assert((t.z - t.z) as nat == 0);
    assert(t.x as nat / 1 == t.x as nat);
    assert(t.y as nat / 1 == t.y as nat);
}

/// Containment is transitive.
pub proof fn lemma_contains_trans(a: TileId, b: TileId, c: TileId)
    requires
        tile_contains(a, b),
        tile_contains(b, c),
    ensures
        tile_contains(a, c),
{
    let m = (c.z - b.z) as nat;
    let n = (b.z - a.z) as nat;
    lemma_tiles_per_side_positive(m);
    lemma_tiles_per_side_positive(n);
    lemma_div_denominator(c.x as int, tiles_per_side(m) as int, tiles_per_side(n) as int);
    lemma_div_denominator(c.y as int, tiles_per_side(m) as int, tiles_per_side(n) as int);
    lemma_tiles_per_side_add(m, n);
    assert(m + n == (c.z - a.z) as nat);
}

/// Each child lies inside its parent, is well formed, and sits one level
/// deeper.
pub proof fn lemma_child_inside(t: TileId, i: int)
    requires
        t.wf(),
        t.z < MAX_TILE_ZOOM,
        0 <= i < 4,
    ensures
        tile_contains(t, child_spec(t, i)),
        child_spec(t, i).wf(),
        child_spec(t, i).z == t.z + 1,
{
    lemma_tiles_per_side_bound(t.z as nat);
    let c = child_spec(t, i);
    lemma_tiles_per_side_small();
    assert(c.x == 2 * t.x + i % 2);
    assert(c.y == 2 * t.y + i / 2);
    assert((2 * t.x + i % 2) / 2 == t.x);
    assert((2 * t.y + i / 2) / 2 == t.y);
    assert(tiles_per_side((t.z + 1) as nat) == 2 * tiles_per_side(t.z as nat));
}

/// Two tiles at the same level that contain a common tile are the same tile.
pub proof fn lemma_same_level_unique(a: TileId, b: TileId, t: TileId)
    requires
        tile_contains(a, t),
        tile_contains(b, t),
        a.z == b.z,
    ensures
        a == b,
{
}

/// A tile contained in a strictly coarser tile `p` lies inside exactly the
/// child of `p` given by its ancestor one level below `p`.
pub proof fn lemma_descendant_in_child(p: TileId, t: TileId) -> (i: int)
    requires
        p.wf(),
        t.wf(),
        tile_contains(p, t),
        t.z > p.z,
    ensures
        0 <= i < 4,
        tile_contains(child_spec(p, i), t),
{
    let k = (t.z - p.z - 1) as nat;
    lemma_tiles_per_side_positive(k);
    let ax = t.x as int / tiles_per_side(k) as int;
    let ay = t.y as int / tiles_per_side(k) as int;
    lemma_div_denominator(t.x as int, tiles_per_side(k) as int, 2);
    lemma_div_denominator(t.y as int, tiles_per_side(k) as int, 2);
    lemma_tiles_per_side_add(k, 1);
    lemma_tiles_per_side_small();
    assert(tiles_per_side(k + 1) == tiles_per_side(k) * 2);
    assert(ax / 2 == p.x);
    assert(ay / 2 == p.y);
    lemma_fundamental_div_mod(ax, 2);
    lemma_fundamental_div_mod(ay, 2);
    let i = (ax % 2) + 2 * (ay % 2);
    assert(i % 2 == ax % 2);
    assert(i / 2 == ay % 2);
    let c = child_spec(p, i);
    lemma_tiles_per_side_bound(p.z as nat);
    assert(p.z < MAX_TILE_ZOOM);
    assert(c.x == 2 * p.x + ax % 2);
    assert(c.y == 2 * p.y + ay % 2);
    assert(c.z == p.z + 1);
    assert((t.z - c.z) as nat == k);
    i
}

/// Distinct children of a tile share no descendant.
pub proof fn lemma_children_disjoint(p: TileId, i: int, j: int, t: TileId)
    requires
        p.wf(),
        p.z < MAX_TILE_ZOOM,
        0 <= i < 4,
        0 <= j < 4,
        i != j,
        tile_contains(child_spec(p, i), t),
    ensures
        !tile_contains(child_spec(p, j), t),
{
    lemma_tiles_per_side_bound(p.z as nat);
    if tile_contains(child_spec(p, j), t) {
        lemma_same_level_unique(child_spec(p, i), child_spec(p, j), t);
        assert(child_spec(p, i).x == 2 * p.x + i % 2);
        assert(child_spec(p, j).x == 2 * p.x + j % 2);
        assert(child_spec(p, i).y == 2 * p.y + i / 2);
        assert(child_spec(p, j).y == 2 * p.y + j / 2);
    }
}

/// The ancestor `k` levels up is well formed and contains the tile.
pub proof fn lemma_ancestor_contains(t: TileId, k: nat)
    requires
        t.wf(),
        k <= t.z,
    ensures
        tile_contains(ancestor_spec(t, k), t),
        ancestor_spec(t, k).wf(),
        ancestor_spec(t, k).z == t.z - k,
{
    let a = ancestor_spec(t, k);
    let m = (t.z - k) as nat;
    lemma_tiles_per_side_positive(k);
    lemma_tiles_per_side_positive(m);
    lemma_tiles_per_side_add(m, k);
    assert(m + k == t.z as nat);
    // x / 2^k < 2^m because x < 2^m * 2^k.
    lemma_div_is_ordered(t.x as int, (tiles_per_side(m) * tiles_per_side(k) - 1) as int,
        tiles_per_side(k) as int);
    lemma_div_is_ordered(t.y as int, (tiles_per_side(m) * tiles_per_side(k) - 1) as int,
        tiles_per_side(k) as int);
    lemma_bound_div(tiles_per_side(m) as int, tiles_per_side(k) as int);
    assert(a.x as int == t.x as int / tiles_per_side(k) as int);
    assert(a.y as int == t.y as int / tiles_per_side(k) as int);
}

proof fn lemma_bound_div(m: int, k: int)
    requires
        m >= 1,
        k >= 1,
    ensures
        (m * k - 1) / k == m - 1,
{
    lemma_mul_strictly_positive(m, k);
    lemma_fundamental_div_mod(m * k - 1, k);
    assert((m * k - 1) / k == m - 1) by (nonlinear_arith)
        requires
            m >= 1,
            k >= 1,
            m * k - 1 == k * ((m * k - 1) / k) + (m * k - 1) % k,
            0 <= (m * k - 1) % k < k,
    ;
}

} // verus!
