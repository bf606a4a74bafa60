//! Framebuffer probes on a rendered frame (RGBA8, row-major, top-left
//! origin): single numbers a test can assert.
//!
//! Each probe takes an `is_background` predicate (sky / empty-tile clear) so
//! the caller defines what "not ground" means for the scene under test.

use vstd::prelude::*;
use vstd::arithmetic::mul::{lemma_mul_inequality, lemma_mul_is_distributive_add_other_way};

verus! {

broadcast use vstd::array::group_array_axioms;

/// The four bytes of pixel `(x, y)` of a `w`-wide RGBA image.
pub open spec fn pixel(rgba: Seq<u8>, w: int, x: int, y: int) -> Seq<u8> {
    let i = (y * w + x) * 4;
    rgba.subrange(i, i + 4)
}

/// The background predicate that `f` computes, on a pixel's bytes.
pub open spec fn background_of<F: Fn([u8; 4]) -> bool>(f: &F) -> spec_fn(Seq<u8>) -> bool {
    |s: Seq<u8>| exists|px: [u8; 4]| px@ == s && call_ensures(*f, (px,), true)
}

/// `f` can be called on every pixel and answers each pixel the same way
/// every time: it computes a predicate.
pub open spec fn is_pixel_predicate<F: Fn([u8; 4]) -> bool>(f: &F) -> bool {
    &&& forall|px: [u8; 4]| call_requires(*f, (px,))
    &&& forall|px: [u8; 4], a: bool, b: bool|
        call_ensures(*f, (px,), a) && call_ensures(*f, (px,), b) ==> a == b
}

/// `(x, y)` lies inside a `w × h` frame.
pub open spec fn in_frame(w: int, h: int, x: int, y: int) -> bool {
    0 <= x < w && 0 <= y < h
}

/// Displacement of `s` steps in direction `d` (`-1`, `0` or `1`).
pub open spec fn offset(d: int, s: int) -> int {
    if d < 0 {
        -s
    } else if d > 0 {
        s
    } else {
        0
    }
}

/// The position `s` steps from `(x, y)` in direction `(dx, dy)` is inside
/// the frame.
pub open spec fn step_in_frame(w: int, h: int, x: int, y: int, dx: int, dy: int, s: int) -> bool {
    in_frame(w, h, x + offset(dx, s), y + offset(dy, s))
}

/// The pixel `s` steps from `(x, y)` in direction `(dx, dy)`.
pub open spec fn step_pixel(rgba: Seq<u8>, w: int, x: int, y: int, dx: int, dy: int, s: int) -> Seq<u8> {
    pixel(rgba, w, x + offset(dx, s), y + offset(dy, s))
}

/// Walking from `(x, y)` in direction `(dx, dy)`, some step `1..=reach`
/// reaches a ground pixel without leaving the frame.
pub open spec fn ground_within(
    bg: spec_fn(Seq<u8>) -> bool,
    rgba: Seq<u8>,
    w: int,
    h: int,
    reach: int,
    x: int,
    y: int,
    dx: int,
    dy: int,
) -> bool {
    exists|s: int|
        1 <= s <= reach && step_in_frame(w, h, x, y, dx, dy, s) && !bg(
            #[trigger] step_pixel(rgba, w, x, y, dx, dy, s),
        )
}

/// Pixel `(x, y)` is background enclosed by ground on all four sides within
/// `reach` pixels.
pub open spec fn is_hole(
    bg: spec_fn(Seq<u8>) -> bool,
    rgba: Seq<u8>,
    w: int,
    h: int,
    reach: int,
    x: int,
    y: int,
) -> bool {
    &&& bg(pixel(rgba, w, x, y))
    &&& ground_within(bg, rgba, w, h, reach, x, y, -1, 0)
    &&& ground_within(bg, rgba, w, h, reach, x, y, 1, 0)
    &&& ground_within(bg, rgba, w, h, reach, x, y, 0, -1)
    &&& ground_within(bg, rgba, w, h, reach, x, y, 0, 1)
}

/// Holes among the first `n` pixels of row `y`.
pub open spec fn row_holes(
    bg: spec_fn(Seq<u8>) -> bool,
    rgba: Seq<u8>,
    w: int,
    h: int,
    reach: int,
    y: int,
    n: int,
) -> nat
    decreases n,
{
    if n <= 0 {
        0
    } else {
        row_holes(bg, rgba, w, h, reach, y, n - 1) + if is_hole(bg, rgba, w, h, reach, n - 1, y) {
            1nat
        } else {
            0nat
        }
    }
}

/// Holes in the first `rows` rows.
pub open spec fn frame_holes(
    bg: spec_fn(Seq<u8>) -> bool,
    rgba: Seq<u8>,
    w: int,
    h: int,
    reach: int,
    rows: int,
) -> nat
    decreases rows,
{
    if rows <= 0 {
        0
    } else {
        frame_holes(bg, rgba, w, h, reach, rows - 1) + row_holes(bg, rgba, w, h, reach, rows - 1, w)
    }
}

/// Pixels of row `y`, among its first `n`, that `bg` calls background
/// (`want_bg`) or ground (`!want_bg`).
pub open spec fn row_count(bg: spec_fn(Seq<u8>) -> bool, rgba: Seq<u8>, w: int, y: int, n: int, want_bg: bool) -> nat
    decreases n,
{
    if n <= 0 {
        0
    } else {
        row_count(bg, rgba, w, y, n - 1, want_bg) + if bg(pixel(rgba, w, n - 1, y)) == want_bg {
            1nat
        } else {
            0nat
        }
    }
}

/// Ground pixels in rows `y0 .. y` of a `w`-wide frame.
pub open spec fn band_ground(bg: spec_fn(Seq<u8>) -> bool, rgba: Seq<u8>, w: int, y0: int, y: int) -> nat
    decreases y - y0,
{
    if y <= y0 {
        0
    } else {
        band_ground(bg, rgba, w, y0, y - 1) + row_count(bg, rgba, w, y - 1, w, false)
    }
}

/// The steps a walk takes: `reach`, or none when `reach` exceeds the signed
/// range (the walk's step counter is signed).
pub open spec fn effective_reach(reach: usize) -> int {
    if reach <= isize::MAX {
        reach as int
    } else {
        0
    }
}

/// What `sky_holes` counts: nothing for an empty frame or a zero reach,
/// otherwise the holes of the whole frame.
pub open spec fn hole_count(bg: spec_fn(Seq<u8>) -> bool, rgba: Seq<u8>, w: usize, h: usize, reach: usize) -> nat {
    if w == 0 || h == 0 || reach == 0 {
        0
    } else {
        frame_holes(bg, rgba, w as int, h as int, effective_reach(reach), h as int)
    }
}

/// A hole within a reach is still a hole within a longer reach.
proof fn lemma_hole_monotone(
    bg: spec_fn(Seq<u8>) -> bool,
    rgba: Seq<u8>,
    w: int,
    h: int,
    r1: int,
    r2: int,
    x: int,
    y: int,
)
    requires
        r1 <= r2,
        is_hole(bg, rgba, w, h, r1, x, y),
    ensures
        is_hole(bg, rgba, w, h, r2, x, y),
{
    assert forall|dx: int, dy: int|
        ground_within(bg, rgba, w, h, r1, x, y, dx, dy) implies ground_within(bg, rgba, w, h, r2, x, y, dx, dy) by {
        let s = choose|s: int|
            1 <= s <= r1 && step_in_frame(w, h, x, y, dx, dy, s) && !bg(
                #[trigger] step_pixel(rgba, w, x, y, dx, dy, s),
            );
        assert(1 <= s <= r2);
    }
}

proof fn lemma_row_holes_monotone(
    bg: spec_fn(Seq<u8>) -> bool,
    rgba: Seq<u8>,
    w: int,
    h: int,
    r1: int,
    r2: int,
    y: int,
    n: int,
)
    requires
        r1 <= r2,
    ensures
        row_holes(bg, rgba, w, h, r1, y, n) <= row_holes(bg, rgba, w, h, r2, y, n),
    decreases n,
{
    if n > 0 {
        lemma_row_holes_monotone(bg, rgba, w, h, r1, r2, y, n - 1);
        if is_hole(bg, rgba, w, h, r1, n - 1, y) {
            lemma_hole_monotone(bg, rgba, w, h, r1, r2, n - 1, y);
        }
    }
}

proof fn lemma_frame_holes_monotone(
    bg: spec_fn(Seq<u8>) -> bool,
    rgba: Seq<u8>,
    w: int,
    h: int,
    r1: int,
    r2: int,
    rows: int,
)
    requires
        r1 <= r2,
    ensures
        frame_holes(bg, rgba, w, h, r1, rows) <= frame_holes(bg, rgba, w, h, r2, rows),
    decreases rows,
{
    if rows > 0 {
        lemma_frame_holes_monotone(bg, rgba, w, h, r1, r2, rows - 1);
        lemma_row_holes_monotone(bg, rgba, w, h, r1, r2, rows - 1, w);
    }
}

/// A longer reach finds at least as many holes: every search for enclosing
/// ground only widens.
pub proof fn law_sky_holes_monotone_in_reach(
    bg: spec_fn(Seq<u8>) -> bool,
    rgba: Seq<u8>,
    w: usize,
    h: usize,
    r1: usize,
    r2: usize,
)
    requires
        r1 <= r2 <= isize::MAX,
    ensures
        hole_count(bg, rgba, w, h, r1) <= hole_count(bg, rgba, w, h, r2),
{
    if w != 0 && h != 0 && r1 != 0 {
        lemma_frame_holes_monotone(bg, rgba, w as int, h as int, r1 as int, r2 as int, h as int);
    }
}

/// Pixels `(x, y)` with `0 <= x < n` of row `y` for which `p` holds.
pub open spec fn pixels_in_row(y: int, n: int, p: spec_fn(int, int) -> bool) -> nat
    decreases n,
{
    if n <= 0 {
        0
    } else {
        pixels_in_row(y, n - 1, p) + if p(n - 1, y) {
            1nat
        } else {
            0nat
        }
    }
}

/// Pixels of the first `rows` rows of a `w`-wide frame for which `p` holds.
pub open spec fn pixels_where(w: int, rows: int, p: spec_fn(int, int) -> bool) -> nat
    decreases rows,
{
    if rows <= 0 {
        0
    } else {
        pixels_where(w, rows - 1, p) + pixels_in_row(rows - 1, w, p)
    }
}

/// Background pixels with ground within `reach` pixels to their left, to
/// their right, above and below, inside the frame.
spec fn enclosed(bg: spec_fn(Seq<u8>) -> bool, rgba: Seq<u8>, w: int, h: int, reach: int) -> spec_fn(int, int) -> bool {
    |x: int, y: int|
        bg(pixel(rgba, w, x, y)) && (exists|nx: int|
            x - reach <= nx < x && 0 <= nx && !bg(#[trigger] pixel(rgba, w, nx, y))) && (exists|nx: int|
            x < nx <= x + reach && nx < w && !bg(#[trigger] pixel(rgba, w, nx, y))) && (exists|ny: int|
            y - reach <= ny < y && 0 <= ny && !bg(#[trigger] pixel(rgba, w, x, ny))) && (exists|ny: int|
            y < ny <= y + reach && ny < h && !bg(#[trigger] pixel(rgba, w, x, ny)))
}

proof fn lemma_hole_is_enclosed(bg: spec_fn(Seq<u8>) -> bool, rgba: Seq<u8>, w: int, h: int, reach: int, x: int, y: int)
    requires
        in_frame(w, h, x, y),
    ensures
        is_hole(bg, rgba, w, h, reach, x, y) == enclosed(bg, rgba, w, h, reach)(x, y),
{
    // left
    if ground_within(bg, rgba, w, h, reach, x, y, -1, 0) {
        let s = choose|s: int|
            1 <= s <= reach && step_in_frame(w, h, x, y, -1, 0, s) && !bg(#[trigger] step_pixel(rgba, w, x, y, -1, 0, s));
        assert(step_pixel(rgba, w, x, y, -1, 0, s) == pixel(rgba, w, x - s, y));
        assert(!bg(pixel(rgba, w, x - s, y)));
    }
    if exists|nx: int| x - reach <= nx < x && 0 <= nx && !bg(#[trigger] pixel(rgba, w, nx, y)) {
        let nx = choose|nx: int| x - reach <= nx < x && 0 <= nx && !bg(#[trigger] pixel(rgba, w, nx, y));
        let s = x - nx;
        assert(step_pixel(rgba, w, x, y, -1, 0, s) == pixel(rgba, w, nx, y));
        assert(step_in_frame(w, h, x, y, -1, 0, s));
    }
    // right
    if ground_within(bg, rgba, w, h, reach, x, y, 1, 0) {
        let s = choose|s: int|
            1 <= s <= reach && step_in_frame(w, h, x, y, 1, 0, s) && !bg(#[trigger] step_pixel(rgba, w, x, y, 1, 0, s));
        assert(step_pixel(rgba, w, x, y, 1, 0, s) == pixel(rgba, w, x + s, y));
        assert(!bg(pixel(rgba, w, x + s, y)));
    }
    if exists|nx: int| x < nx <= x + reach && nx < w && !bg(#[trigger] pixel(rgba, w, nx, y)) {
        let nx = choose|nx: int| x < nx <= x + reach && nx < w && !bg(#[trigger] pixel(rgba, w, nx, y));
        let s = nx - x;
        assert(step_pixel(rgba, w, x, y, 1, 0, s) == pixel(rgba, w, nx, y));
        assert(step_in_frame(w, h, x, y, 1, 0, s));
    }
    // up
    if ground_within(bg, rgba, w, h, reach, x, y, 0, -1) {
        let s = choose|s: int|
            1 <= s <= reach && step_in_frame(w, h, x, y, 0, -1, s) && !bg(#[trigger] step_pixel(rgba, w, x, y, 0, -1, s));
        assert(step_pixel(rgba, w, x, y, 0, -1, s) == pixel(rgba, w, x, y - s));
        assert(!bg(pixel(rgba, w, x, y - s)));
    }
    if exists|ny: int| y - reach <= ny < y && 0 <= ny && !bg(#[trigger] pixel(rgba, w, x, ny)) {
        let ny = choose|ny: int| y - reach <= ny < y && 0 <= ny && !bg(#[trigger] pixel(rgba, w, x, ny));
        let s = y - ny;
        assert(step_pixel(rgba, w, x, y, 0, -1, s) == pixel(rgba, w, x, ny));
        assert(step_in_frame(w, h, x, y, 0, -1, s));
    }
    // down
    if ground_within(bg, rgba, w, h, reach, x, y, 0, 1) {
        let s = choose|s: int|
            1 <= s <= reach && step_in_frame(w, h, x, y, 0, 1, s) && !bg(#[trigger] step_pixel(rgba, w, x, y, 0, 1, s));
        assert(step_pixel(rgba, w, x, y, 0, 1, s) == pixel(rgba, w, x, y + s));
        assert(!bg(pixel(rgba, w, x, y + s)));
    }
    if exists|ny: int| y < ny <= y + reach && ny < h && !bg(#[trigger] pixel(rgba, w, x, ny)) {
        let ny = choose|ny: int| y < ny <= y + reach && ny < h && !bg(#[trigger] pixel(rgba, w, x, ny));
        let s = ny - y;
        assert(step_pixel(rgba, w, x, y, 0, 1, s) == pixel(rgba, w, x, ny));
        assert(step_in_frame(w, h, x, y, 0, 1, s));
    }
}

proof fn lemma_row_holes_enclosed(bg: spec_fn(Seq<u8>) -> bool, rgba: Seq<u8>, w: int, h: int, reach: int, y: int, n: int)
    requires
        0 <= y < h,
        n <= w,
    ensures
        row_holes(bg, rgba, w, h, reach, y, n) == pixels_in_row(y, n, enclosed(bg, rgba, w, h, reach)),
    decreases n,
{
    if n > 0 {
        lemma_row_holes_enclosed(bg, rgba, w, h, reach, y, n - 1);
        lemma_hole_is_enclosed(bg, rgba, w, h, reach, n - 1, y);
    }
}

proof fn lemma_frame_holes_enclosed(bg: spec_fn(Seq<u8>) -> bool, rgba: Seq<u8>, w: int, h: int, reach: int, rows: int)
    requires
        rows <= h,
    ensures
        frame_holes(bg, rgba, w, h, reach, rows) == pixels_where(w, rows, enclosed(bg, rgba, w, h, reach)),
    decreases rows,
{
    if rows > 0 {
        lemma_frame_holes_enclosed(bg, rgba, w, h, reach, rows - 1);
        lemma_row_holes_enclosed(bg, rgba, w, h, reach, rows - 1, w);
    }
}

/// `sky_holes` counts exactly the background pixels that have ground within
/// `reach` pixels in each of the four directions (left, right, above and
/// below, inside the frame). A background pixel with only background (or
/// the frame's edge) above it within reach, such as open sky above the
/// horizon, is not counted. Nothing is counted for an empty frame or a zero
/// reach.
pub proof fn law_sky_holes_counts_enclosed_background(
    bg: spec_fn(Seq<u8>) -> bool,
    rgba: Seq<u8>,
    w: usize,
    h: usize,
    reach: usize,
)
    requires
        reach <= isize::MAX,
    ensures
        hole_count(bg, rgba, w, h, reach) == if w == 0 || h == 0 || reach == 0 {
            0
        } else {
            pixels_where(
                w as int,
                h as int,
                |x: int, y: int|
                    bg(pixel(rgba, w as int, x, y)) && (exists|nx: int|
                        x - reach <= nx < x && 0 <= nx && !bg(#[trigger] pixel(rgba, w as int, nx, y)))
                        && (exists|nx: int|
                        x < nx <= x + reach && nx < w && !bg(#[trigger] pixel(rgba, w as int, nx, y)))
                        && (exists|ny: int|
                        y - reach <= ny < y && 0 <= ny && !bg(#[trigger] pixel(rgba, w as int, x, ny)))
                        && (exists|ny: int|
                        y < ny <= y + reach && ny < h && !bg(#[trigger] pixel(rgba, w as int, x, ny))),
            )
        },
{
    if w != 0 && h != 0 && reach != 0 {
        lemma_frame_holes_enclosed(bg, rgba, w as int, h as int, reach as int, h as int);
        let p = |x: int, y: int|
            bg(pixel(rgba, w as int, x, y)) && (exists|nx: int|
                x - reach <= nx < x && 0 <= nx && !bg(#[trigger] pixel(rgba, w as int, nx, y)))
                && (exists|nx: int|
                x < nx <= x + reach && nx < w && !bg(#[trigger] pixel(rgba, w as int, nx, y)))
                && (exists|ny: int|
                y - reach <= ny < y && 0 <= ny && !bg(#[trigger] pixel(rgba, w as int, x, ny)))
                && (exists|ny: int|
                y < ny <= y + reach && ny < h && !bg(#[trigger] pixel(rgba, w as int, x, ny)));
        assert(enclosed(bg, rgba, w as int, h as int, reach as int) =~= p);
    }
}

/// A background pixel with nothing but background (or the frame's edge)
/// above it within `reach` is not a hole: open sky is not a crack.
pub proof fn law_open_sky_above_is_not_a_hole(
    bg: spec_fn(Seq<u8>) -> bool,
    rgba: Seq<u8>,
    w: int,
    h: int,
    reach: int,
    x: int,
    y: int,
)
    requires
        in_frame(w, h, x, y),
        forall|ny: int| y - reach <= ny < y && 0 <= ny ==> bg(#[trigger] pixel(rgba, w, x, ny)),
    ensures
        !is_hole(bg, rgba, w, h, reach, x, y),
{
    lemma_hole_is_enclosed(bg, rgba, w, h, reach, x, y);
}

/// The frame's bytes cover `w × h` pixels and their byte count fits.
pub open spec fn frame_fits(rgba: Seq<u8>, w: int, h: int) -> bool {
    &&& w * h * 4 <= usize::MAX
    &&& w * h * 4 <= rgba.len()
}

proof fn lemma_index_bounds(w: int, h: int, x: int, y: int)
    requires
        in_frame(w, h, x, y),
    ensures
        0 <= y * w,
        y * w + x < w * h,
        (y * w + x) * 4 + 4 <= w * h * 4,
{
    lemma_mul_inequality(y, h - 1, w);
    lemma_mul_is_distributive_add_other_way(w, h - 1, 1);
    assert(0 <= y * w) by (nonlinear_arith)
        requires
            0 <= y,
            0 <= w,
    ;
    assert((h - 1) * w + w == h * w) by (nonlinear_arith);
    assert(h * w == w * h) by (nonlinear_arith);
    assert((y * w + x) * 4 + 4 <= w * h * 4) by (nonlinear_arith)
        requires
            y * w + x < w * h,
    ;
}

/// The four bytes of pixel `(x, y)`.
pub fn at(rgba: &[u8], w: usize, x: usize, y: usize) -> (px: [u8; 4])
    requires
        (y * w + x) * 4 + 4 <= rgba@.len(),
    ensures
        px@ == pixel(rgba@, w as int, x as int, y as int),
{
    let n = rgba.len();
    assert(y * w <= (y * w + x) * 4 + 4) by (nonlinear_arith)
        requires
            0 <= y,
            0 <= w,
            0 <= x,
    ;
    let i = (y * w + x) * 4;
    let px = [rgba[i], rgba[i + 1], rgba[i + 2], rgba[i + 3]];
    assert(px@ =~= pixel(rgba@, w as int, x as int, y as int));
    px
}

fn is_bg<F: Fn([u8; 4]) -> bool>(f: &F, px: [u8; 4]) -> (b: bool)
    requires
        is_pixel_predicate(f),
    ensures
        b == background_of(f)(px@),
{
    let b = f(px);
    proof {
        if !b {
            if background_of(f)(px@) {
                let q = choose|q: [u8; 4]| q@ == px@ && call_ensures(*f, (q,), true);
                assert(q == px);
            }
        }
    }
    b
}

/// Walk from `(x, y)` in direction `(dx, dy)` looking for ground.
fn ground_within_exec<F: Fn([u8; 4]) -> bool>(
    rgba: &[u8],
    w: usize,
    h: usize,
    reach: usize,
    x: usize,
    y: usize,
    dx: i8,
    dy: i8,
    is_background: &F,
) -> (b: bool)
    requires
        is_pixel_predicate(is_background),
        frame_fits(rgba@, w as int, h as int),
        in_frame(w as int, h as int, x as int, y as int),
        -1 <= dx <= 1,
        -1 <= dy <= 1,
    ensures
        b == ground_within(
            background_of(is_background),
            rgba@,
            w as int,
            h as int,
            effective_reach(reach),
            x as int,
            y as int,
            dx as int,
            dy as int,
        ),
{
    let ghost bg = background_of(is_background);
    let ghost r = effective_reach(reach);
    let limit: usize = if reach <= isize::MAX as usize {
        reach
    } else {
        0
    };
    let mut step: usize = 1;
    while step <= limit
        invariant
            is_pixel_predicate(is_background),
            bg == background_of(is_background),
            frame_fits(rgba@, w as int, h as int),
            in_frame(w as int, h as int, x as int, y as int),
            -1 <= dx <= 1,
            -1 <= dy <= 1,
            limit == r,
            r == effective_reach(reach),
            limit <= isize::MAX,
            1 <= step,
            step <= limit + 1,
            forall|s: int| 1 <= s < step ==> #[trigger] step_in_frame(w as int, h as int, x as int, y as int, dx as int, dy as int, s),
            forall|s: int|
                1 <= s < step ==> bg(#[trigger] step_pixel(rgba@, w as int, x as int, y as int, dx as int, dy as int, s)),
        decreases limit + 1 - step,
    {
        // The position `step` steps away, if it is inside the frame.
        let nx: Option<usize> = if dx < 0 {
            if step > x {
                None
            } else {
                Some(x - step)
            }
        } else if dx > 0 {
            if step >= w - x {
                None
            } else {
                Some(x + step)
            }
        } else {
            Some(x)
        };
        let ny: Option<usize> = if dy < 0 {
            if step > y {
                None
            } else {
                Some(y - step)
            }
        } else if dy > 0 {
            if step >= h - y {
                None
            } else {
                Some(y + step)
            }
        } else {
            Some(y)
        };
        match (nx, ny) {
            (Some(px), Some(py)) => {
                proof {
                    assert(px == x + offset(dx as int, step as int));
                    assert(py == y + offset(dy as int, step as int));
                    lemma_index_bounds(w as int, h as int, px as int, py as int);
                }
                let p = at(rgba, w, px, py);
                if !is_bg(is_background, p) {
                    proof {
                        assert(step_in_frame(w as int, h as int, x as int, y as int, dx as int, dy as int, step as int));
                        assert(!bg(step_pixel(rgba@, w as int, x as int, y as int, dx as int, dy as int, step as int)));
                        assert(1 <= step <= r);
                        assert(ground_within(bg, rgba@, w as int, h as int, r, x as int, y as int, dx as int, dy as int));
                    }
                    return true;
                }
            },
            _ => {
                proof {
                    assert(!step_in_frame(w as int, h as int, x as int, y as int, dx as int, dy as int, step as int));
                    lemma_out_of_frame_stays_out(w as int, h as int, x as int, y as int, dx as int,
                        dy as int, step as int);
                    assert(!ground_within(bg, rgba@, w as int, h as int, r, x as int, y as int,
                        dx as int, dy as int)) by {
                        if ground_within(bg, rgba@, w as int, h as int, r, x as int, y as int,
                            dx as int, dy as int) {
                            let s = choose|s: int|
                                1 <= s <= r && step_in_frame(w as int, h as int, x as int, y as int, dx as int, dy as int, s)
                                    && !bg(#[trigger] step_pixel(rgba@, w as int, x as int, y as int, dx as int, dy as int, s));
                            if s >= step {
                            }
                        }
                    }
                }
                return false;
            },
        }
        step = step + 1;
    }
    proof {
        assert(!ground_within(bg, rgba@, w as int, h as int, r, x as int, y as int, dx as int,
            dy as int)) by {
            if ground_within(bg, rgba@, w as int, h as int, r, x as int, y as int, dx as int,
                dy as int) {
                let s = choose|s: int|
                    1 <= s <= r && step_in_frame(w as int, h as int, x as int, y as int, dx as int, dy as int, s) && !bg(
                        #[trigger] step_pixel(rgba@, w as int, x as int, y as int, dx as int, dy as int, s),
                    );
                assert(s < step);
            }
        }
    }
    false
}

/// Once a walk leaves the frame it stays out.
proof fn lemma_out_of_frame_stays_out(w: int, h: int, x: int, y: int, dx: int, dy: int, step: int)
    requires
        in_frame(w, h, x, y),
        -1 <= dx <= 1,
        -1 <= dy <= 1,
        step >= 1,
        !step_in_frame(w, h, x, y, dx, dy, step),
    ensures
        forall|s: int| s >= step ==> !#[trigger] step_in_frame(w, h, x, y, dx, dy, s),
{
    assert forall|s: int| s >= step implies !#[trigger] step_in_frame(w, h, x, y, dx, dy, s) by {
    }
}

/// Background (`want_bg`) or ground (`!want_bg`) pixels in row `y`.
fn count_row<F: Fn([u8; 4]) -> bool>(
    rgba: &[u8],
    w: usize,
    h: usize,
    y: usize,
    want_bg: bool,
    is_background: &F,
) -> (n: usize)
    requires
        is_pixel_predicate(is_background),
        frame_fits(rgba@, w as int, h as int),
        y < h,
    ensures
        n == row_count(background_of(is_background), rgba@, w as int, y as int, w as int, want_bg),
        n <= w,
{
    let ghost bg = background_of(is_background);
    let mut n: usize = 0;
    let mut x: usize = 0;
    while x < w
        invariant
            is_pixel_predicate(is_background),
            bg == background_of(is_background),
            frame_fits(rgba@, w as int, h as int),
            y < h,
            x <= w,
            n == row_count(bg, rgba@, w as int, y as int, x as int, want_bg),
            n <= x,
        decreases w - x,
    {
        proof {
            lemma_index_bounds(w as int, h as int, x as int, y as int);
        }
        let p = at(rgba, w, x, y);
        if is_bg(is_background, p) == want_bg {
            n = n + 1;
        }
        x = x + 1;
    }
    n
}

/// Background pixels in row `y` of the frame: a row that is mostly
/// background marks where a bottom-up scan has reached open sky.
pub fn row_background_count<F: Fn([u8; 4]) -> bool>(
    rgba: &[u8],
    w: usize,
    h: usize,
    y: usize,
    is_background: F,
) -> (n: usize)
    requires
        is_pixel_predicate(&is_background),
        frame_fits(rgba@, w as int, h as int),
        y < h,
    ensures
        n == row_count(background_of(&is_background), rgba@, w as int, y as int, w as int, true),
{
    count_row(rgba, w, h, y, true, &is_background)
}

/// Ground (not background) pixels in rows `y0 .. h` of the frame: the
/// numerator of the ground coverage of the frame's lower band, whose
/// denominator is `(h - y0) * w`.
pub fn band_ground_pixels<F: Fn([u8; 4]) -> bool>(
    rgba: &[u8],
    w: usize,
    h: usize,
    y0: usize,
    is_background: F,
) -> (n: usize)
    requires
        is_pixel_predicate(&is_background),
        frame_fits(rgba@, w as int, h as int),
    ensures
        n == band_ground(background_of(&is_background), rgba@, w as int, y0 as int, h as int),
{
    let ghost bg = background_of(&is_background);
    if y0 >= h {
        return 0;
    }
    let mut n: usize = 0;
    let mut y: usize = y0;
    while y < h
        invariant
            is_pixel_predicate(&is_background),
            bg == background_of(&is_background),
            frame_fits(rgba@, w as int, h as int),
            y0 <= y <= h,
            n == band_ground(bg, rgba@, w as int, y0 as int, y as int),
            n <= (y - y0) * w,
        decreases h - y,
    {
        let k = count_row(rgba, w, h, y, false, &is_background);
        proof {
            assert((y + 1 - y0) * w == (y - y0) * w + w) by (nonlinear_arith);
            assert((y + 1 - y0) * w <= h * w) by (nonlinear_arith)
                requires
                    y + 1 <= h,
                    y0 >= 0,
                    w >= 0,
            ;
            assert(h * w <= w * h * 4) by (nonlinear_arith)
                requires
                    h >= 0,
                    w >= 0,
            ;
        }
        n = n + k;
        y = y + 1;
    }
    n
}

/// Count of background pixels enclosed by ground on all four sides within
/// `reach` pixels: holes in the terrain, which is what a mixed-LOD crack
/// looks like. Open sky above the horizon is not counted (it is not bounded
/// by ground above). `> 0` means cracks.
pub fn sky_holes<F: Fn([u8; 4]) -> bool>(
    rgba: &[u8],
    w: usize,
    h: usize,
    reach: usize,
    is_background: F,
) -> (holes: usize)
    requires
        w > 0 && h > 0 && reach > 0 ==> is_pixel_predicate(&is_background),
        w > 0 && h > 0 && reach > 0 ==> frame_fits(rgba@, w as int, h as int),
    ensures
        holes == hole_count(background_of(&is_background), rgba@, w, h, reach),
        w > 0 && h > 0 && 0 < reach <= isize::MAX ==> holes == pixels_where(
            w as int,
            h as int,
            |x: int, y: int|
                background_of(&is_background)(pixel(rgba@, w as int, x, y)) && (exists|nx: int|
                    x - reach <= nx < x && 0 <= nx && !background_of(&is_background)(
                        #[trigger] pixel(rgba@, w as int, nx, y),
                    )) && (exists|nx: int|
                    x < nx <= x + reach && nx < w && !background_of(&is_background)(
                        #[trigger] pixel(rgba@, w as int, nx, y),
                    )) && (exists|ny: int|
                    y - reach <= ny < y && 0 <= ny && !background_of(&is_background)(
                        #[trigger] pixel(rgba@, w as int, x, ny),
                    )) && (exists|ny: int|
                    y < ny <= y + reach && ny < h && !background_of(&is_background)(
                        #[trigger] pixel(rgba@, w as int, x, ny),
                    )),
        ),
{
    proof {
        if reach <= isize::MAX {
            law_sky_holes_counts_enclosed_background(background_of(&is_background), rgba@, w, h, reach);
        }
    }
    if w == 0 || h == 0 || reach == 0 {
        return 0;
    }
    let ghost bg = background_of(&is_background);
    let ghost r = effective_reach(reach);
    let mut holes: usize = 0;
    let mut y: usize = 0;
    while y < h
        invariant
            is_pixel_predicate(&is_background),
            bg == background_of(&is_background),
            r == effective_reach(reach),
            frame_fits(rgba@, w as int, h as int),
            w > 0,
            h > 0,
            y <= h,
            holes == frame_holes(bg, rgba@, w as int, h as int, r, y as int),
            holes <= y * w,
        decreases h - y,
    {
        let mut x: usize = 0;
        let ghost base = holes;
        while x < w
            invariant
                is_pixel_predicate(&is_background),
                bg == background_of(&is_background),
                r == effective_reach(reach),
                frame_fits(rgba@, w as int, h as int),
                w > 0,
                y < h,
                x <= w,
                base == frame_holes(bg, rgba@, w as int, h as int, r, y as int),
                base <= y * w,
                holes == base + row_holes(bg, rgba@, w as int, h as int, r, y as int, x as int),
                holes <= y * w + x,
            decreases w - x,
        {
            proof {
                lemma_index_bounds(w as int, h as int, x as int, y as int);
            }
            let p = at(rgba, w, x, y);
            if is_bg(&is_background, p) && ground_within_exec(rgba, w, h, reach, x, y, -1, 0,
                &is_background) && ground_within_exec(rgba, w, h, reach, x, y, 1, 0, &is_background)
                && ground_within_exec(rgba, w, h, reach, x, y, 0, -1, &is_background)
                && ground_within_exec(rgba, w, h, reach, x, y, 0, 1, &is_background) {
                holes = holes + 1;
            }
            x = x + 1;
        }
        proof {
            assert((y + 1) * w == y * w + w) by (nonlinear_arith);
        }
        y = y + 1;
    }
    holes
}

} // verus!
