//! Pixel canvas for the Skew-T diagram: Bresenham lines, spans and a 5x7 font.
//!
//! Colour blending is the caller's: every drawing call takes the per-channel
//! `blend(src, dst, alpha)` function that mixes a colour channel onto a pixel.

use vstd::prelude::*;

use crate::text::chars_of;

verus! {

/// Diagram background colour.
pub const COL_BG: [u8; 4] = [10, 10, 20, 255];

/// An RGBA canvas, row by row, 4 bytes per pixel.
pub struct Canvas {
    pub pixels: Vec<u8>,
    pub w: u32,
    pub h: u32,
}

/// The four bytes of pixel `p`.
pub open spec fn px(s: Seq<u8>, p: int) -> (u8, u8, u8, u8) {
    (s[4 * p], s[4 * p + 1], s[4 * p + 2], s[4 * p + 3])
}

/// Pixel `p` of `n` is colour `col` blended onto pixel `p` of `o`: each colour channel
/// is a result of `blend(col channel, old channel, col alpha)`, and alpha is opaque.
pub open spec fn blended_px<B: Fn(u8, u8, u8) -> u8>(blend: B, col: [u8; 4], o: Seq<u8>, n: Seq<u8>, p: int) -> bool {
    &&& call_ensures(blend, (col[0], o[4 * p], col[3]), n[4 * p])
    &&& call_ensures(blend, (col[1], o[4 * p + 1], col[3]), n[4 * p + 1])
    &&& call_ensures(blend, (col[2], o[4 * p + 2], col[3]), n[4 * p + 2])
    &&& n[4 * p + 3] == 255
}

/// Pixel `p` of `n` is `col` blended onto pixel `p` of `o` if `cover(p)`, and equal to
/// pixel `p` of `o` otherwise.
pub open spec fn painted_at<B: Fn(u8, u8, u8) -> u8>(
    blend: B,
    col: [u8; 4],
    o: Seq<u8>,
    n: Seq<u8>,
    cover: spec_fn(int) -> bool,
    p: int,
) -> bool {
    if cover(p) {
        blended_px(blend, col, o, n, p)
    } else {
        px(n, p) == px(o, p)
    }
}

/// `n` is `o` with colour `col` blended onto exactly the pixels `p < npx` where
/// `cover(p)` holds; every other pixel is unchanged.
pub open spec fn painted<B: Fn(u8, u8, u8) -> u8>(
    blend: B,
    col: [u8; 4],
    npx: int,
    o: Seq<u8>,
    n: Seq<u8>,
    cover: spec_fn(int) -> bool,
) -> bool {
    &&& n.len() == o.len()
    &&& o.len() == 4 * npx
    &&& forall|p: int| 0 <= p < npx ==> #[trigger] painted_at(blend, col, o, n, cover, p)
}

/// All `blend` calls are allowed.
pub open spec fn total<B: Fn(u8, u8, u8) -> u8>(blend: B) -> bool {
    forall|s: u8, d: u8, a: u8| call_requires(blend, (s, d, a))
}

/// The pixel index of on-canvas point (`x`, `y`), or -1 off the canvas.
pub open spec fn pixel_at(w: int, h: int, x: int, y: int) -> int {
    if 0 <= x < w && 0 <= y < h { y * w + x } else { -1 }
}

/// Painting two disjoint pixel sets one after the other paints their union.
pub proof fn lemma_paint_union<B: Fn(u8, u8, u8) -> u8>(
    blend: B,
    col: [u8; 4],
    npx: int,
    o: Seq<u8>,
    m: Seq<u8>,
    n: Seq<u8>,
    c1: spec_fn(int) -> bool,
    c2: spec_fn(int) -> bool,
    c3: spec_fn(int) -> bool,
)
    requires
        painted(blend, col, npx, o, m, c1),
        painted(blend, col, npx, m, n, c2),
        forall|p: int| 0 <= p < npx ==> !(#[trigger] c1(p) && c2(p)),
        forall|p: int| 0 <= p < npx ==> #[trigger] c3(p) == (c1(p) || c2(p)),
    ensures
        painted(blend, col, npx, o, n, c3),
{
    assert forall|p: int| 0 <= p < npx implies #[trigger] painted_at(blend, col, o, n, c3, p) by {
        assert(painted_at(blend, col, o, m, c1, p));
        assert(painted_at(blend, col, m, n, c2, p));
        assert(c3(p) == (c1(p) || c2(p)));
        assert(!(c1(p) && c2(p)));
    }
}

/// Painting nothing leaves the canvas as it is.
pub proof fn lemma_paint_nothing<B: Fn(u8, u8, u8) -> u8>(
    blend: B,
    col: [u8; 4],
    npx: int,
    o: Seq<u8>,
    c: spec_fn(int) -> bool,
)
    requires
        o.len() == 4 * npx,
        forall|p: int| 0 <= p < npx ==> !#[trigger] c(p),
    ensures
        painted(blend, col, npx, o, o, c),
{
    assert forall|p: int| 0 <= p < npx implies #[trigger] painted_at(blend, col, o, o, c, p) by {
        assert(!c(p));
    }
}

// ── Bresenham lines ─────────────────────────────────────────────────

pub open spec fn iabs(v: int) -> int {
    if v < 0 { -v } else { v }
}

pub open spec fn imax(a: int, b: int) -> int {
    if a >= b { a } else { b }
}

/// Unit step from `a` towards `b` (`-1` when `a == b`).
pub open spec fn step_dir(a: int, b: int) -> int {
    if a < b { 1 } else { -1 }
}

/// `i` steps from `a` in the direction of `b`.
pub open spec fn along(a: int, b: int, i: int) -> int {
    if a < b { a + i } else { a - i }
}

/// Position and error term (x, y, err) of the Bresenham walk from (`x0`, `y0`) towards
/// (`x1`, `y1`) after `k` steps.
pub open spec fn line_state(x0: int, y0: int, x1: int, y1: int, k: nat) -> (int, int, int)
    decreases k,
{
    let dx = iabs(x1 - x0);
    let dy = -iabs(y1 - y0);
    if k == 0 {
        (x0, y0, dx + dy)
    } else {
        let prev = line_state(x0, y0, x1, y1, (k - 1) as nat);
        let e2 = 2 * prev.2;
        let (cx, err) = if e2 >= dy { (prev.0 + step_dir(x0, x1), prev.2 + dy) } else { (prev.0, prev.2) };
        if e2 <= dx {
            (cx, prev.1 + step_dir(y0, y1), err + dx)
        } else {
            (cx, prev.1, err)
        }
    }
}

/// Number of steps of the line: the larger of the horizontal and vertical extents.
pub open spec fn line_steps(x0: int, y0: int, x1: int, y1: int) -> nat {
    imax(iabs(x1 - x0), iabs(y1 - y0)) as nat
}

/// The `k`-th point of the line.
pub open spec fn line_point(x0: int, y0: int, x1: int, y1: int, k: nat) -> (int, int) {
    let s = line_state(x0, y0, x1, y1, k);
    (s.0, s.1)
}

/// Pixel `p` lies on the line from (`x0`, `y0`) to (`x1`, `y1`).
pub open spec fn line_covers(w: int, h: int, x0: int, y0: int, x1: int, y1: int, p: int) -> bool {
    exists|k: nat| k <= line_steps(x0, y0, x1, y1) && #[trigger] pixel_at(
        w,
        h,
        line_point(x0, y0, x1, y1, k).0,
        line_point(x0, y0, x1, y1, k).1,
    ) == p
}

/// The walk after `k <= line_steps` steps: `i` steps along x and `j` along y, with the
/// scaled distance `2 (j DX - i DY)` from the ideal line at most the number of steps,
/// and the major coordinate advanced by exactly `k`.
pub proof fn lemma_line_state(x0: int, y0: int, x1: int, y1: int, k: nat)
    requires
        k <= line_steps(x0, y0, x1, y1),
    ensures
        ({
            let dxa = iabs(x1 - x0);
            let dya = iabs(y1 - y0);
            let m = imax(dxa, dya);
            let s = line_state(x0, y0, x1, y1, k);
            let i = iabs(s.0 - x0);
            let j = iabs(s.1 - y0);
            &&& 0 <= i <= dxa
            &&& 0 <= j <= dya
            &&& s.0 == along(x0, x1, i)
            &&& s.1 == along(y0, y1, j)
            &&& s.2 == dxa - dya + (j * dxa - i * dya)
            &&& -m <= 2 * (j * dxa - i * dya) <= m
            &&& dxa >= dya ==> i == k
            &&& dxa < dya ==> j == k
        }),
    decreases k,
{
    let dxa = iabs(x1 - x0);
    let dya = iabs(y1 - y0);
    let m = imax(dxa, dya);
    if k > 0 {
        lemma_line_state(x0, y0, x1, y1, (k - 1) as nat);
        let p = line_state(x0, y0, x1, y1, (k - 1) as nat);
        let i = iabs(p.0 - x0);
        let j = iabs(p.1 - y0);
        let e = j * dxa - i * dya;
        let xs = 2 * p.2 >= -dya;
        let ys = 2 * p.2 <= dxa;
        let ni = if xs { i + 1 } else { i };
        let nj = if ys { j + 1 } else { j };
        assert((j + 1) * dxa == j * dxa + dxa) by (nonlinear_arith);
        assert((i + 1) * dya == i * dya + dya) by (nonlinear_arith);
        if dxa >= dya {
            assert(xs);
            assert(i < dxa);
            if ys && j == dya {
                assert(e >= dya) by (nonlinear_arith)
                    requires e == j * dxa - i * dya, j == dya, dxa - i >= 1, dya >= 0;
                assert(false);
            }
        } else {
            assert(ys);
            assert(j < dya);
            if xs && i == dxa {
                assert(e <= -dxa) by (nonlinear_arith)
                    requires e == j * dxa - i * dya, i == dxa, dya - j >= 1, dxa >= 0;
                assert(false);
            }
        }
        let s = line_state(x0, y0, x1, y1, k);
        assert(s.0 == along(x0, x1, ni));
        assert(s.1 == along(y0, y1, nj));
        assert(iabs(s.0 - x0) == ni);
        assert(iabs(s.1 - y0) == nj);
        assert(nj * dxa - ni * dya == e + (if ys { dxa } else { 0 }) - (if xs { dya } else { 0 }));
    }
}

/// `v` is a value of `i32`.
pub open spec fn fits_i32(v: int) -> bool {
    i32::MIN <= v <= i32::MAX
}

/// The arithmetic of the walk stays within `i32`: both extents, every error term,
/// twice the error term before each step, and the error term after an x step.
pub open spec fn line_fits_i32(x0: int, y0: int, x1: int, y1: int) -> bool {
    let dx = iabs(x1 - x0);
    let dy = -iabs(y1 - y0);
    let steps = line_steps(x0, y0, x1, y1);
    &&& dx <= i32::MAX
    &&& -dy <= i32::MAX
    &&& forall|k: nat| k <= steps ==> fits_i32(#[trigger] line_state(x0, y0, x1, y1, k).2)
    &&& forall|k: nat| k < steps ==> fits_i32(2 * #[trigger] line_state(x0, y0, x1, y1, k).2)
        && (2 * line_state(x0, y0, x1, y1, k).2 >= dy ==> fits_i32(line_state(x0, y0, x1, y1, k).2 + dy))
}

/// Whether the walk from (`x0`, `y0`) to (`x1`, `y1`) keeps its arithmetic within
/// `i32` (`line_fits_i32`); it retraces the walk's error terms.
pub fn line_fits(x0: i32, y0: i32, x1: i32, y1: i32) -> (b: bool)
    ensures
        b == line_fits_i32(x0 as int, y0 as int, x1 as int, y1 as int),
{
    let ghost (gx0, gy0, gx1, gy1) = (x0 as int, y0 as int, x1 as int, y1 as int);
    let dx: i64 = if x1 >= x0 { x1 as i64 - x0 as i64 } else { x0 as i64 - x1 as i64 };
    let dya: i64 = if y1 >= y0 { y1 as i64 - y0 as i64 } else { y0 as i64 - y1 as i64 };
    if dx > 0x7fff_ffff || dya > 0x7fff_ffff {
        return false;
    }
    let dy: i64 = -dya;
    let steps: i64 = if dx >= dya { dx } else { dya };
    let ghost gsteps = line_steps(gx0, gy0, gx1, gy1);
    let mut err: i64 = dx + dy;
    let mut k: i64 = 0;
    loop
        invariant
            gx0 == x0 as int,
            gy0 == y0 as int,
            gx1 == x1 as int,
            gy1 == y1 as int,
            dx == iabs(gx1 - gx0),
            dy == -iabs(gy1 - gy0),
            dx <= i32::MAX,
            -dy <= i32::MAX,
            steps == gsteps,
            gsteps == line_steps(gx0, gy0, gx1, gy1),
            0 <= k <= steps,
            err == line_state(gx0, gy0, gx1, gy1, k as nat).2,
            forall|j: nat| j < k ==> fits_i32(#[trigger] line_state(gx0, gy0, gx1, gy1, j).2),
            forall|j: nat| j < k ==> fits_i32(2 * #[trigger] line_state(gx0, gy0, gx1, gy1, j).2)
                && (2 * line_state(gx0, gy0, gx1, gy1, j).2 >= dy ==> fits_i32(line_state(gx0, gy0, gx1, gy1, j).2 + dy)),
        decreases steps - k,
    {
        proof {
            lemma_line_state(gx0, gy0, gx1, gy1, k as nat);
        }
        if err < -0x8000_0000 || err > 0x7fff_ffff {
            proof {
                let kk = k as nat;
                assert(kk <= gsteps && !fits_i32(line_state(gx0, gy0, gx1, gy1, kk).2));
            }
            return false;
        }
        if k == steps {
            proof {
                assert forall|j: nat| j <= gsteps implies fits_i32(#[trigger] line_state(gx0, gy0, gx1, gy1, j).2) by {
                    if j < k {
                    }
                }
            }
            return true;
        }
        let e2 = 2 * err;
        if e2 < -0x8000_0000 || e2 > 0x7fff_ffff {
            proof {
                let kk = k as nat;
                assert(kk < gsteps && !fits_i32(2 * line_state(gx0, gy0, gx1, gy1, kk).2));
            }
            return false;
        }
        let mut next = err;
        if e2 >= dy {
            next = err + dy;
            if next < -0x8000_0000 {
                proof {
                    let kk = k as nat;
                    assert(kk < gsteps && 2 * line_state(gx0, gy0, gx1, gy1, kk).2 >= dy
                        && !fits_i32(line_state(gx0, gy0, gx1, gy1, kk).2 + dy));
                }
                return false;
            }
        }
        if e2 <= dx {
            next = next + dx;
        }
        proof {
            assert(line_state(gx0, gy0, gx1, gy1, (k + 1) as nat).2 == next);
        }
        err = next;
        k = k + 1;
    }
}

/// The walk is at its end point exactly after `line_steps` steps.
pub proof fn lemma_line_end(x0: int, y0: int, x1: int, y1: int, k: nat)
    requires
        k <= line_steps(x0, y0, x1, y1),
    ensures
        (line_point(x0, y0, x1, y1, k) == (x1, y1)) <==> k == line_steps(x0, y0, x1, y1),
{
    lemma_line_state(x0, y0, x1, y1, k);
    let dxa = iabs(x1 - x0);
    let dya = iabs(y1 - y0);
    let s = line_state(x0, y0, x1, y1, k);
    let i = iabs(s.0 - x0);
    let j = iabs(s.1 - y0);
    if k == line_steps(x0, y0, x1, y1) {
        if dxa >= dya {
            if j < dya {
                assert(j * dxa - i * dya <= -dxa) by (nonlinear_arith)
                    requires i == dxa, dya - j >= 1, dxa >= 0;
            }
        } else {
            if i < dxa {
                assert(j * dxa - i * dya >= dya) by (nonlinear_arith)
                    requires j == dya, dxa - i >= 1, dya >= 0;
            }
        }
    }
}

/// Distinct steps of the walk visit distinct points.
pub proof fn lemma_line_distinct(x0: int, y0: int, x1: int, y1: int, a: nat, b: nat)
    requires
        a < b <= line_steps(x0, y0, x1, y1),
    ensures
        line_point(x0, y0, x1, y1, a) != line_point(x0, y0, x1, y1, b),
{
    lemma_line_state(x0, y0, x1, y1, a);
    lemma_line_state(x0, y0, x1, y1, b);
}

/// A line starts at its first end point and stops at its second.
pub proof fn law_line_endpoints(x0: int, y0: int, x1: int, y1: int)
    ensures
        line_point(x0, y0, x1, y1, 0) == (x0, y0),
        line_point(x0, y0, x1, y1, line_steps(x0, y0, x1, y1)) == (x1, y1),
{
    lemma_line_end(x0, y0, x1, y1, line_steps(x0, y0, x1, y1));
}

/// Consecutive points of a line are distinct 8-neighbours: each coordinate moves
/// by at most one pixel.
pub proof fn law_line_connected(x0: int, y0: int, x1: int, y1: int, k: nat)
    requires
        k < line_steps(x0, y0, x1, y1),
    ensures
        line_point(x0, y0, x1, y1, k) != line_point(x0, y0, x1, y1, k + 1),
        iabs(line_point(x0, y0, x1, y1, k + 1).0 - line_point(x0, y0, x1, y1, k).0) <= 1,
        iabs(line_point(x0, y0, x1, y1, k + 1).1 - line_point(x0, y0, x1, y1, k).1) <= 1,
{
    lemma_line_distinct(x0, y0, x1, y1, k, k + 1);
}

/// Every point of a line lies within half a pixel of the ideal segment, measured
/// along the minor axis: twice the cross product of (point - start) with
/// (end - start) is at most the number of steps.
pub proof fn law_line_close(x0: int, y0: int, x1: int, y1: int, k: nat)
    requires
        k <= line_steps(x0, y0, x1, y1),
    ensures
        ({
            let (x, y) = line_point(x0, y0, x1, y1, k);
            iabs(2 * ((y - y0) * (x1 - x0) - (x - x0) * (y1 - y0))) <= line_steps(x0, y0, x1, y1)
        }),
{
    lemma_line_state(x0, y0, x1, y1, k);
    let dxa = iabs(x1 - x0);
    let dya = iabs(y1 - y0);
    let (x, y) = line_point(x0, y0, x1, y1, k);
    let i = iabs(x - x0);
    let j = iabs(y - y0);
    let e = j * dxa - i * dya;
    let cross = (y - y0) * (x1 - x0) - (x - x0) * (y1 - y0);
    if x0 < x1 {
        if y0 < y1 {
            assert(cross == e) by (nonlinear_arith)
                requires x - x0 == i, y - y0 == j, x1 - x0 == dxa, y1 - y0 == dya, cross == (y - y0) * (x1 - x0) - (x - x0) * (y1 - y0), e == j * dxa - i * dya;
        } else {
            assert(cross == -e) by (nonlinear_arith)
                requires x - x0 == i, y - y0 == -j, x1 - x0 == dxa, y1 - y0 == -dya, cross == (y - y0) * (x1 - x0) - (x - x0) * (y1 - y0), e == j * dxa - i * dya;
        }
    } else {
        if y0 < y1 {
            assert(cross == -e) by (nonlinear_arith)
                requires x - x0 == -i, y - y0 == j, x1 - x0 == -dxa, y1 - y0 == dya, cross == (y - y0) * (x1 - x0) - (x - x0) * (y1 - y0), e == j * dxa - i * dya;
        } else {
            assert(cross == e) by (nonlinear_arith)
                requires x - x0 == -i, y - y0 == -j, x1 - x0 == -dxa, y1 - y0 == -dya, cross == (y - y0) * (x1 - x0) - (x - x0) * (y1 - y0), e == j * dxa - i * dya;
        }
    }
}

/// Distinct on-canvas points have distinct pixel indices.
pub proof fn lemma_pixel_at_injective(w: int, h: int, x: int, y: int, x2: int, y2: int)
    requires
        pixel_at(w, h, x, y) >= 0,
        pixel_at(w, h, x, y) == pixel_at(w, h, x2, y2),
    ensures
        x == x2 && y == y2,
{
    if 0 <= x2 < w && 0 <= y2 < h {
        if y < y2 {
            assert(y * w + x < y2 * w + x2) by (nonlinear_arith)
                requires y < y2, 0 <= x < w, 0 <= x2;
        } else if y > y2 {
            assert(y * w + x > y2 * w + x2) by (nonlinear_arith)
                requires y > y2, 0 <= x2 < w, 0 <= x;
        }
    }
}

/// Painting depends on the covered pixels only, not on how they are described.
pub proof fn lemma_paint_same_cover<B: Fn(u8, u8, u8) -> u8>(
    blend: B,
    col: [u8; 4],
    npx: int,
    o: Seq<u8>,
    n: Seq<u8>,
    c1: spec_fn(int) -> bool,
    c2: spec_fn(int) -> bool,
)
    requires
        painted(blend, col, npx, o, n, c1),
        forall|p: int| 0 <= p < npx ==> #[trigger] c1(p) == c2(p),
    ensures
        painted(blend, col, npx, o, n, c2),
{
    assert forall|p: int| 0 <= p < npx implies #[trigger] painted_at(blend, col, o, n, c2, p) by {
        assert(c1(p) == c2(p));
        assert(painted_at(blend, col, o, n, c1, p));
    }
}

/// Painting `cover` and then one more pixel `q` outside it paints both.
pub proof fn lemma_paint_extend<B: Fn(u8, u8, u8) -> u8>(
    blend: B,
    col: [u8; 4],
    npx: int,
    o: Seq<u8>,
    m: Seq<u8>,
    n: Seq<u8>,
    cover: spec_fn(int) -> bool,
    q: int,
    cover2: spec_fn(int) -> bool,
)
    requires
        painted(blend, col, npx, o, m, cover),
        painted(blend, col, npx, m, n, |p: int| p == q),
        !cover(q),
        forall|p: int| #[trigger] cover2(p) == (cover(p) || p == q),
    ensures
        painted(blend, col, npx, o, n, cover2),
{
    assert forall|p: int| 0 <= p < npx implies #[trigger] painted_at(blend, col, o, n, cover2, p) by {
        assert(painted_at(blend, col, o, m, cover, p));
        assert(painted_at(blend, col, m, n, |p: int| p == q, p));
        assert(cover2(p) == (cover(p) || p == q));
    }
}

/// Pixel `p` lies in row `y` between columns `xl` and `xr` inclusive.
pub open spec fn span_covers(w: int, h: int, y: int, xl: int, xr: int, p: int) -> bool {
    exists|x: int| xl <= x <= xr && #[trigger] pixel_at(w, h, x, y) == p
}

// ── Text ────────────────────────────────────────────────────────────

/// The 5x7 glyph of `ch`: seven rows, top first, the leftmost column in bit 4.
/// Lower-case letters share the upper-case glyphs; unknown characters are blank.
pub open spec fn glyph(ch: char) -> Seq<u8> {
    match ch {
        '0' => seq![0b01110, 0b10001, 0b10011, 0b10101, 0b11001, 0b10001, 0b01110],
        '1' => seq![0b00100, 0b01100, 0b00100, 0b00100, 0b00100, 0b00100, 0b01110],
        '2' => seq![0b01110, 0b10001, 0b00001, 0b00110, 0b01000, 0b10000, 0b11111],
        '3' => seq![0b01110, 0b10001, 0b00001, 0b00110, 0b00001, 0b10001, 0b01110],
        '4' => seq![0b00010, 0b00110, 0b01010, 0b10010, 0b11111, 0b00010, 0b00010],
        '5' => seq![0b11111, 0b10000, 0b11110, 0b00001, 0b00001, 0b10001, 0b01110],
        '6' => seq![0b01110, 0b10000, 0b11110, 0b10001, 0b10001, 0b10001, 0b01110],
        '7' => seq![0b11111, 0b00001, 0b00010, 0b00100, 0b01000, 0b01000, 0b01000],
        '8' => seq![0b01110, 0b10001, 0b10001, 0b01110, 0b10001, 0b10001, 0b01110],
        '9' => seq![0b01110, 0b10001, 0b10001, 0b01111, 0b00001, 0b00010, 0b01100],
        'A' | 'a' => seq![0b01110, 0b10001, 0b10001, 0b11111, 0b10001, 0b10001, 0b10001],
        'B' | 'b' => seq![0b11110, 0b10001, 0b10001, 0b11110, 0b10001, 0b10001, 0b11110],
        'C' | 'c' => seq![0b01110, 0b10001, 0b10000, 0b10000, 0b10000, 0b10001, 0b01110],
        'D' | 'd' => seq![0b11110, 0b10001, 0b10001, 0b10001, 0b10001, 0b10001, 0b11110],
        'E' | 'e' => seq![0b11111, 0b10000, 0b10000, 0b11110, 0b10000, 0b10000, 0b11111],
        'F' | 'f' => seq![0b11111, 0b10000, 0b10000, 0b11110, 0b10000, 0b10000, 0b10000],
        'G' | 'g' => seq![0b01110, 0b10001, 0b10000, 0b10111, 0b10001, 0b10001, 0b01110],
        'H' | 'h' => seq![0b10001, 0b10001, 0b10001, 0b11111, 0b10001, 0b10001, 0b10001],
        'I' | 'i' => seq![0b01110, 0b00100, 0b00100, 0b00100, 0b00100, 0b00100, 0b01110],
        'J' | 'j' => seq![0b00111, 0b00010, 0b00010, 0b00010, 0b00010, 0b10010, 0b01100],
        'K' | 'k' => seq![0b10001, 0b10010, 0b10100, 0b11000, 0b10100, 0b10010, 0b10001],
        'L' | 'l' => seq![0b10000, 0b10000, 0b10000, 0b10000, 0b10000, 0b10000, 0b11111],
        'M' | 'm' => seq![0b10001, 0b11011, 0b10101, 0b10101, 0b10001, 0b10001, 0b10001],
        'N' | 'n' => seq![0b10001, 0b11001, 0b10101, 0b10011, 0b10001, 0b10001, 0b10001],
        'O' | 'o' => seq![0b01110, 0b10001, 0b10001, 0b10001, 0b10001, 0b10001, 0b01110],
        'P' | 'p' => seq![0b11110, 0b10001, 0b10001, 0b11110, 0b10000, 0b10000, 0b10000],
        'Q' | 'q' => seq![0b01110, 0b10001, 0b10001, 0b10001, 0b10101, 0b10010, 0b01101],
        'R' | 'r' => seq![0b11110, 0b10001, 0b10001, 0b11110, 0b10100, 0b10010, 0b10001],
        'S' | 's' => seq![0b01110, 0b10001, 0b10000, 0b01110, 0b00001, 0b10001, 0b01110],
        'T' | 't' => seq![0b11111, 0b00100, 0b00100, 0b00100, 0b00100, 0b00100, 0b00100],
        'U' | 'u' => seq![0b10001, 0b10001, 0b10001, 0b10001, 0b10001, 0b10001, 0b01110],
        'V' | 'v' => seq![0b10001, 0b10001, 0b10001, 0b10001, 0b01010, 0b01010, 0b00100],
        'W' | 'w' => seq![0b10001, 0b10001, 0b10001, 0b10101, 0b10101, 0b11011, 0b10001],
        'X' | 'x' => seq![0b10001, 0b10001, 0b01010, 0b00100, 0b01010, 0b10001, 0b10001],
        'Y' | 'y' => seq![0b10001, 0b10001, 0b01010, 0b00100, 0b00100, 0b00100, 0b00100],
        'Z' | 'z' => seq![0b11111, 0b00001, 0b00010, 0b00100, 0b01000, 0b10000, 0b11111],
        ' ' => seq![0, 0, 0, 0, 0, 0, 0],
        ':' => seq![0b00000, 0b00100, 0b00000, 0b00000, 0b00100, 0b00000, 0b00000],
        '.' => seq![0b00000, 0b00000, 0b00000, 0b00000, 0b00000, 0b00000, 0b00100],
        '-' => seq![0b00000, 0b00000, 0b00000, 0b11111, 0b00000, 0b00000, 0b00000],
        '/' => seq![0b00001, 0b00010, 0b00010, 0b00100, 0b01000, 0b01000, 0b10000],
        ',' => seq![0b00000, 0b00000, 0b00000, 0b00000, 0b00000, 0b00100, 0b01000],
        _ => seq![0u8, 0, 0, 0, 0, 0, 0],
    }
}

/// A glyph row with ink in both its leftmost and rightmost columns.
pub open spec fn both_edges(row: u8) -> bool {
    row >= 16 && row % 2 == 1
}

/// The decimal digits.
pub open spec fn is_digit(ch: char) -> bool {
    '0' <= ch && ch <= '9'
}

/// The shapes of the digits: a bowl closed on both sides in the upper half (rows 1
/// and 2) belongs to 0, 8 and 9 only, one in the lower half (rows 4 and 5) to 0, 6
/// and 8 only; so a 6 is open at the top and a 9 at the bottom. Every glyph has
/// seven rows of five columns, and the ten digits have ten different glyphs.
pub proof fn law_digit_shapes(d: char, e: char)
    ensures
        glyph(d).len() == 7,
        forall|r: int| 0 <= r < 7 ==> #[trigger] glyph(d)[r] < 32,
        is_digit(d) ==> ((both_edges(glyph(d)[1]) && both_edges(glyph(d)[2])) <==> (d == '0' || d == '8' || d == '9')),
        is_digit(d) ==> ((both_edges(glyph(d)[4]) && both_edges(glyph(d)[5])) <==> (d == '0' || d == '6' || d == '8')),
        is_digit(d) && is_digit(e) && d != e ==> glyph(d) != glyph(e),
{
    assert(is_digit(d) ==> d == '0' || d == '1' || d == '2' || d == '3' || d == '4' || d == '5' || d == '6' || d == '7' || d == '8' || d == '9') by {
        if is_digit(d) {
            assert(('0' as u32) <= (d as u32) <= ('9' as u32));
        }
    };
    assert(is_digit(e) ==> e == '0' || e == '1' || e == '2' || e == '3' || e == '4' || e == '5' || e == '6' || e == '7' || e == '8' || e == '9') by {
        if is_digit(e) {
            assert(('0' as u32) <= (e as u32) <= ('9' as u32));
        }
    };
    if is_digit(d) && is_digit(e) && d != e {
        if glyph(d) == glyph(e) {
            assert(glyph(d)[0] == glyph(e)[0]);
            assert(glyph(d)[1] == glyph(e)[1]);
            assert(glyph(d)[2] == glyph(e)[2]);
            assert(glyph(d)[3] == glyph(e)[3]);
            assert(glyph(d)[4] == glyph(e)[4]);
            assert(glyph(d)[6] == glyph(e)[6]);
        }
    }
}

/// The 5x7 bitmap of `ch` (see `glyph`).
pub fn char_bitmap(ch: char) -> (r: [u8; 7])
    ensures
        r@ == glyph(ch),
{
    let r: [u8; 7] = match ch {
        '0' => [0b01110, 0b10001, 0b10011, 0b10101, 0b11001, 0b10001, 0b01110],
        '1' => [0b00100, 0b01100, 0b00100, 0b00100, 0b00100, 0b00100, 0b01110],
        '2' => [0b01110, 0b10001, 0b00001, 0b00110, 0b01000, 0b10000, 0b11111],
        '3' => [0b01110, 0b10001, 0b00001, 0b00110, 0b00001, 0b10001, 0b01110],
        '4' => [0b00010, 0b00110, 0b01010, 0b10010, 0b11111, 0b00010, 0b00010],
        '5' => [0b11111, 0b10000, 0b11110, 0b00001, 0b00001, 0b10001, 0b01110],
        '6' => [0b01110, 0b10000, 0b11110, 0b10001, 0b10001, 0b10001, 0b01110],
        '7' => [0b11111, 0b00001, 0b00010, 0b00100, 0b01000, 0b01000, 0b01000],
        '8' => [0b01110, 0b10001, 0b10001, 0b01110, 0b10001, 0b10001, 0b01110],
        '9' => [0b01110, 0b10001, 0b10001, 0b01111, 0b00001, 0b00010, 0b01100],
        'A' | 'a' => [0b01110, 0b10001, 0b10001, 0b11111, 0b10001, 0b10001, 0b10001],
        'B' | 'b' => [0b11110, 0b10001, 0b10001, 0b11110, 0b10001, 0b10001, 0b11110],
        'C' | 'c' => [0b01110, 0b10001, 0b10000, 0b10000, 0b10000, 0b10001, 0b01110],
        'D' | 'd' => [0b11110, 0b10001, 0b10001, 0b10001, 0b10001, 0b10001, 0b11110],
        'E' | 'e' => [0b11111, 0b10000, 0b10000, 0b11110, 0b10000, 0b10000, 0b11111],
        'F' | 'f' => [0b11111, 0b10000, 0b10000, 0b11110, 0b10000, 0b10000, 0b10000],
        'G' | 'g' => [0b01110, 0b10001, 0b10000, 0b10111, 0b10001, 0b10001, 0b01110],
        'H' | 'h' => [0b10001, 0b10001, 0b10001, 0b11111, 0b10001, 0b10001, 0b10001],
        'I' | 'i' => [0b01110, 0b00100, 0b00100, 0b00100, 0b00100, 0b00100, 0b01110],
        'J' | 'j' => [0b00111, 0b00010, 0b00010, 0b00010, 0b00010, 0b10010, 0b01100],
        'K' | 'k' => [0b10001, 0b10010, 0b10100, 0b11000, 0b10100, 0b10010, 0b10001],
        'L' | 'l' => [0b10000, 0b10000, 0b10000, 0b10000, 0b10000, 0b10000, 0b11111],
        'M' | 'm' => [0b10001, 0b11011, 0b10101, 0b10101, 0b10001, 0b10001, 0b10001],
        'N' | 'n' => [0b10001, 0b11001, 0b10101, 0b10011, 0b10001, 0b10001, 0b10001],
        'O' | 'o' => [0b01110, 0b10001, 0b10001, 0b10001, 0b10001, 0b10001, 0b01110],
        'P' | 'p' => [0b11110, 0b10001, 0b10001, 0b11110, 0b10000, 0b10000, 0b10000],
        'Q' | 'q' => [0b01110, 0b10001, 0b10001, 0b10001, 0b10101, 0b10010, 0b01101],
        'R' | 'r' => [0b11110, 0b10001, 0b10001, 0b11110, 0b10100, 0b10010, 0b10001],
        'S' | 's' => [0b01110, 0b10001, 0b10000, 0b01110, 0b00001, 0b10001, 0b01110],
        'T' | 't' => [0b11111, 0b00100, 0b00100, 0b00100, 0b00100, 0b00100, 0b00100],
        'U' | 'u' => [0b10001, 0b10001, 0b10001, 0b10001, 0b10001, 0b10001, 0b01110],
        'V' | 'v' => [0b10001, 0b10001, 0b10001, 0b10001, 0b01010, 0b01010, 0b00100],
        'W' | 'w' => [0b10001, 0b10001, 0b10001, 0b10101, 0b10101, 0b11011, 0b10001],
        'X' | 'x' => [0b10001, 0b10001, 0b01010, 0b00100, 0b01010, 0b10001, 0b10001],
        'Y' | 'y' => [0b10001, 0b10001, 0b01010, 0b00100, 0b00100, 0b00100, 0b00100],
        'Z' | 'z' => [0b11111, 0b00001, 0b00010, 0b00100, 0b01000, 0b10000, 0b11111],
        ' ' => [0, 0, 0, 0, 0, 0, 0],
        ':' => [0b00000, 0b00100, 0b00000, 0b00000, 0b00100, 0b00000, 0b00000],
        '.' => [0b00000, 0b00000, 0b00000, 0b00000, 0b00000, 0b00000, 0b00100],
        '-' => [0b00000, 0b00000, 0b00000, 0b11111, 0b00000, 0b00000, 0b00000],
        '/' => [0b00001, 0b00010, 0b00010, 0b00100, 0b01000, 0b01000, 0b10000],
        ',' => [0b00000, 0b00000, 0b00000, 0b00000, 0b00000, 0b00100, 0b01000],
        _ => [0; 7],
    };
    assert(r@ =~= glyph(ch));
    r
}

/// Column `c` (0 = left) of row `row` of the glyph of `ch` is set.
pub open spec fn glyph_on(ch: char, row: int, c: int) -> bool {
    0 <= row < 7 && 0 <= c < 5 && (glyph(ch)[row] & (1u8 << ((4 - c) as u8))) != 0u8
}

/// Pixel `p` is a set dot of the glyph of `ch` drawn with its top-left at (`x`, `y`).
pub open spec fn char_covers(w: int, h: int, ch: char, x: int, y: int, p: int) -> bool {
    exists|row: int, c: int| glyph_on(ch, row, c) && #[trigger] pixel_at(w, h, x + c, y + row) == p
}

/// Pixel `p` is a set dot of one of the glyphs of `t`, laid out 6 pixels apart
/// from (`x`, `y`).
pub open spec fn text_covers(w: int, h: int, t: Seq<char>, x: int, y: int, p: int) -> bool {
    exists|i: int| 0 <= i < t.len() && #[trigger] char_covers(w, h, t[i], x + 6 * i, y, p)
}

/// The pixels of a box, as a pixel set.
pub open spec fn box_cover(w: int, h: int, y0: int, y1: int, xl: int, xr: int) -> spec_fn(int) -> bool {
    |p: int| box_covers(w, h, y0, y1, xl, xr, p)
}

/// The set dots of a text, as a pixel set.
pub open spec fn text_cover(w: int, h: int, t: Seq<char>, x: int, y: int) -> spec_fn(int) -> bool {
    |p: int| text_covers(w, h, t, x, y, p)
}

/// Pixel `p` lies in the rows `y0 <= y < y1`, columns `xl..=xr`.
pub open spec fn box_covers(w: int, h: int, y0: int, y1: int, xl: int, xr: int, p: int) -> bool {
    exists|y: int| y0 <= y < y1 && #[trigger] span_covers(w, h, y, xl, xr, p)
}

impl Canvas {
    /// Pixel buffer matches the dimensions, whose byte count fits a `u32`.
    pub open spec fn wf(&self) -> bool {
        &&& self.pixels@.len() == 4 * (self.w * self.h)
        &&& self.w * self.h * 4 <= u32::MAX
    }

    pub open spec fn npx(&self) -> int {
        self.w * self.h
    }

    /// A canvas with a pixel row has a width that fits an `i32`, and one with a
    /// pixel column a height that does.
    proof fn lemma_dims_fit(&self)
        requires
            self.wf(),
        ensures
            self.h > 0 ==> self.w <= i32::MAX,
            self.w > 0 ==> self.h <= i32::MAX,
    {
        let (w, h) = (self.w as int, self.h as int);
        if h > 0 {
            assert(w <= w * h) by (nonlinear_arith)
                requires h > 0, w >= 0;
        }
        if w > 0 {
            assert(h <= w * h) by (nonlinear_arith)
                requires w > 0, h >= 0;
        }
    }

    /// A `w` x `h` canvas filled with the background colour.
    pub fn new(w: u32, h: u32) -> (r: Self)
        requires
            w * h * 4 <= u32::MAX,
        ensures
            r.wf(),
            r.w == w,
            r.h == h,
            forall|p: int| 0 <= p < w * h ==> #[trigger] px(r.pixels@, p) == (COL_BG[0], COL_BG[1], COL_BG[2], COL_BG[3]),
    {
        let n = (w * h) as usize;
        let mut pixels: Vec<u8> = Vec::new();
        let mut i: usize = 0;
        while i < n
            invariant
                i <= n,
                n == w * h,
                n * 4 <= u32::MAX,
                pixels@.len() == 4 * i,
                forall|p: int| 0 <= p < i ==> #[trigger] px(pixels@, p) == (10u8, 10u8, 20u8, 255u8),
            decreases n - i,
        {
            let ghost before = pixels@;
            pixels.push(COL_BG[0]);
            pixels.push(COL_BG[1]);
            pixels.push(COL_BG[2]);
            pixels.push(COL_BG[3]);
            proof {
                assert forall|p: int| 0 <= p < i + 1 implies #[trigger] px(pixels@, p) == (10u8, 10u8, 20u8, 255u8) by {
                    if p < i {
                        assert(px(before, p) == (10u8, 10u8, 20u8, 255u8));
                        assert(4 * p + 3 < 4 * i);
                    }
                }
            }
            i = i + 1;
        }
        Canvas { pixels, w, h }
    }

    /// Blend `col` onto pixel (`x`, `y`); points off the canvas are ignored.
    pub fn put_pixel_blend<B: Fn(u8, u8, u8) -> u8>(&mut self, x: i32, y: i32, col: [u8; 4], blend: &B)
        requires
            old(self).wf(),
            total(*blend),
        ensures
            final(self).wf(),
            final(self).w == old(self).w,
            final(self).h == old(self).h,
            painted(*blend, col, old(self).npx(), old(self).pixels@, final(self).pixels@,
                |p: int| p == pixel_at(old(self).w as int, old(self).h as int, x as int, y as int)),
    {
        let ghost cover = |p: int| p == pixel_at(self.w as int, self.h as int, x as int, y as int);
        if x < 0 || y < 0 || x as u32 >= self.w || y as u32 >= self.h {
            assert forall|q: int| 0 <= q < self.w * self.h implies #[trigger] painted_at(*blend, col, self.pixels@, self.pixels@, cover, q) by {
                assert(!cover(q));
            }
            return;
        }
        proof {
            assert(0 <= y * self.w + x < self.w * self.h) by (nonlinear_arith)
                requires 0 <= x < self.w, 0 <= y < self.h;
        }
        let p = (y as u32 * self.w + x as u32) as usize;
        let idx = p * 4;
        let ghost o = self.pixels@;
        let r = blend(col[0], self.pixels[idx], col[3]);
        self.pixels.set(idx, r);
        let g = blend(col[1], self.pixels[idx + 1], col[3]);
        self.pixels.set(idx + 1, g);
        let b = blend(col[2], self.pixels[idx + 2], col[3]);
        self.pixels.set(idx + 2, b);
        self.pixels.set(idx + 3, 255);
        proof {
            let n = self.pixels@;
            assert forall|q: int| 0 <= q < self.w * self.h implies #[trigger] painted_at(*blend, col, o, n, cover, q) by {
                if q != p {
                    assert(4 * q + 3 < 4 * p || 4 * q > 4 * p + 3);
                } else {
                    assert(cover(q));
                }
            }
        }
    }
    /// Bresenham line from (`x0`, `y0`) to (`x1`, `y1`), both ends included.
    pub fn draw_line<B: Fn(u8, u8, u8) -> u8>(&mut self, x0: i32, y0: i32, x1: i32, y1: i32, col: [u8; 4], blend: &B)
        requires
            old(self).wf(),
            total(*blend),
            line_fits_i32(x0 as int, y0 as int, x1 as int, y1 as int),
        ensures
            final(self).wf(),
            final(self).w == old(self).w,
            final(self).h == old(self).h,
            painted(*blend, col, old(self).npx(), old(self).pixels@, final(self).pixels@,
                |p: int| line_covers(old(self).w as int, old(self).h as int, x0 as int, y0 as int, x1 as int, y1 as int, p)),
    {
        let ghost w = self.w as int;
        let ghost h = self.h as int;
        let ghost (gx0, gy0, gx1, gy1) = (x0 as int, y0 as int, x1 as int, y1 as int);
        let ghost steps = line_steps(gx0, gy0, gx1, gy1);
        let ghost o = self.pixels@;
        let dx = if x1 >= x0 { x1 - x0 } else { x0 - x1 };
        let dy = -(if y1 >= y0 { y1 - y0 } else { y0 - y1 });
        let sx: i32 = if x0 < x1 { 1 } else { -1 };
        let sy: i32 = if y0 < y1 { 1 } else { -1 };
        let mut err = dx + dy;
        let mut cx = x0;
        let mut cy = y0;
        let ghost mut k: nat = 0;
        proof {
            lemma_line_state(gx0, gy0, gx1, gy1, 0);
            assert(painted(*blend, col, w * h, o, self.pixels@, |p: int| exists|m: nat| m < k && #[trigger] pixel_at(w, h, line_point(gx0, gy0, gx1, gy1, m).0, line_point(gx0, gy0, gx1, gy1, m).1) == p));
        }
        loop
            invariant_except_break
                self.wf(),
                self.w == w,
                self.h == h,
                total(*blend),
                gx0 == x0 as int,
                gy0 == y0 as int,
                gx1 == x1 as int,
                gy1 == y1 as int,
                dx == iabs(gx1 - gx0),
                dy == -iabs(gy1 - gy0),
                sx == step_dir(gx0, gx1),
                sy == step_dir(gy0, gy1),
                line_fits_i32(gx0, gy0, gx1, gy1),
                steps == line_steps(gx0, gy0, gx1, gy1),
                k <= steps,
                (cx as int, cy as int, err as int) == line_state(gx0, gy0, gx1, gy1, k),
                painted(*blend, col, w * h, o, self.pixels@, |p: int| exists|m: nat| m < k && #[trigger] pixel_at(w, h, line_point(gx0, gy0, gx1, gy1, m).0, line_point(gx0, gy0, gx1, gy1, m).1) == p),
            ensures
                self.wf(),
                self.w == w,
                self.h == h,
                painted(*blend, col, w * h, o, self.pixels@, |p: int| line_covers(w, h, gx0, gy0, gx1, gy1, p)),
            decreases steps - k,
        {
            let ghost before = self.pixels@;
            let ghost q = pixel_at(w, h, cx as int, cy as int);
            proof {
                lemma_line_state(gx0, gy0, gx1, gy1, k);
                lemma_line_end(gx0, gy0, gx1, gy1, k);
                if q >= 0 {
                    assert forall|m: nat| m < k implies #[trigger] pixel_at(w, h, line_point(gx0, gy0, gx1, gy1, m).0, line_point(gx0, gy0, gx1, gy1, m).1) != q by {
                        let pm = line_point(gx0, gy0, gx1, gy1, m);
                        if pixel_at(w, h, pm.0, pm.1) == q {
                            lemma_pixel_at_injective(w, h, cx as int, cy as int, pm.0, pm.1);
                            lemma_line_distinct(gx0, gy0, gx1, gy1, m, k);
                        }
                    }
                }
            }
            self.put_pixel_blend(cx, cy, col, blend);
            proof {
                let cover_k = |p: int| exists|m: nat| m < k && #[trigger] pixel_at(w, h, line_point(gx0, gy0, gx1, gy1, m).0, line_point(gx0, gy0, gx1, gy1, m).1) == p;
                let cover_k1 = |p: int| exists|m: nat| m < k + 1 && #[trigger] pixel_at(w, h, line_point(gx0, gy0, gx1, gy1, m).0, line_point(gx0, gy0, gx1, gy1, m).1) == p;
                assert forall|p: int| #[trigger] cover_k1(p) == (cover_k(p) || p == q) by {
                    if cover_k1(p) && !(p == q) {
                        let m = choose|m: nat| m < k + 1 && #[trigger] pixel_at(w, h, line_point(gx0, gy0, gx1, gy1, m).0, line_point(gx0, gy0, gx1, gy1, m).1) == p;
                        assert(m != k);
                    }
                    if p == q {
                        assert(pixel_at(w, h, line_point(gx0, gy0, gx1, gy1, k).0, line_point(gx0, gy0, gx1, gy1, k).1) == p);
                    }
                }
                if q < 0 {
                    assert forall|p: int| 0 <= p < w * h implies #[trigger] painted_at(*blend, col, o, self.pixels@, cover_k1, p) by {
                        assert(painted_at(*blend, col, o, before, cover_k, p));
                        assert(painted_at(*blend, col, before, self.pixels@, |p: int| p == q, p));
                        assert(cover_k1(p) == cover_k(p));
                    }
                } else {
                    lemma_paint_extend(*blend, col, w * h, o, before, self.pixels@, cover_k, q, cover_k1);
                }
            }
            if cx == x1 && cy == y1 {
                proof {
                    assert(line_point(gx0, gy0, gx1, gy1, k) == (gx1, gy1));
                    assert(k == steps);
                    assert forall|p: int| #[trigger] line_covers(w, h, gx0, gy0, gx1, gy1, p) == (exists|m: nat| m < k + 1 && #[trigger] pixel_at(w, h, line_point(gx0, gy0, gx1, gy1, m).0, line_point(gx0, gy0, gx1, gy1, m).1) == p) by {
                        if line_covers(w, h, gx0, gy0, gx1, gy1, p) {
                            let m = choose|m: nat| m <= line_steps(gx0, gy0, gx1, gy1) && #[trigger] pixel_at(w, h, line_point(gx0, gy0, gx1, gy1, m).0, line_point(gx0, gy0, gx1, gy1, m).1) == p;
                            assert(m < k + 1);
                        }
                    }
                    let cover_k1 = |p: int| exists|m: nat| m < k + 1 && #[trigger] pixel_at(w, h, line_point(gx0, gy0, gx1, gy1, m).0, line_point(gx0, gy0, gx1, gy1, m).1) == p;
                    lemma_paint_same_cover(*blend, col, w * h, o, self.pixels@, cover_k1,
                        |p: int| line_covers(w, h, gx0, gy0, gx1, gy1, p));
                }
                break;
            }
            proof {
                lemma_line_state(gx0, gy0, gx1, gy1, k + 1);
                assert(k < steps);
                assert(fits_i32(line_state(gx0, gy0, gx1, gy1, k).2));
                assert(fits_i32(line_state(gx0, gy0, gx1, gy1, (k + 1) as nat).2));
            }
            let e2 = 2 * err;
            if e2 >= dy {
                err += dy;
                cx += sx;
            }
            if e2 <= dx {
                err += dx;
                cy += sy;
            }
            proof {
                k = k + 1;
            }
        }
    }

    /// Fill row `y` from column `x_left` to `x_right` inclusive, clipped to the canvas.
    pub fn fill_span<B: Fn(u8, u8, u8) -> u8>(&mut self, y: i32, x_left: i32, x_right: i32, col: [u8; 4], blend: &B)
        requires
            old(self).wf(),
            total(*blend),
        ensures
            final(self).wf(),
            final(self).w == old(self).w,
            final(self).h == old(self).h,
            painted(*blend, col, old(self).npx(), old(self).pixels@, final(self).pixels@,
                |p: int| span_covers(old(self).w as int, old(self).h as int, y as int, x_left as int, x_right as int, p)),
    {
        let ghost w = self.w as int;
        let ghost h = self.h as int;
        let ghost o = self.pixels@;
        let ghost cover = |p: int| span_covers(w, h, y as int, x_left as int, x_right as int, p);
        if y < 0 || y as u32 >= self.h {
            proof {
                assert forall|p: int| 0 <= p < w * h implies !#[trigger] cover(p) by {
                    if cover(p) {
                        let x = choose|x: int| x_left <= x <= x_right && #[trigger] pixel_at(w, h, x, y as int) == p;
                    }
                }
                lemma_paint_nothing(*blend, col, w * h, o, cover);
            }
            return;
        }
        proof {
            self.lemma_dims_fit();
        }
        let l = if x_left > 0 { x_left } else { 0 };
        let r = if x_right < self.w as i32 - 1 { x_right } else { self.w as i32 - 1 };
        let mut x = l;
        proof {
            lemma_paint_nothing(*blend, col, w * h, o, |p: int| exists|x2: int| l <= x2 < x && #[trigger] pixel_at(w, h, x2, y as int) == p);
        }
        while x <= r
            invariant
                self.wf(),
                self.w == w,
                self.h == h,
                total(*blend),
                0 <= y < h,
                w <= i32::MAX,
                0 <= l,
                r < w,
                l <= x,
                x <= r + 1 || x == l,
                painted(*blend, col, w * h, o, self.pixels@, |p: int| exists|x2: int| l <= x2 < x && #[trigger] pixel_at(w, h, x2, y as int) == p),
            decreases r + 1 - x,
        {
            let ghost before = self.pixels@;
            let ghost q = pixel_at(w, h, x as int, y as int);
            let ghost c0 = |p: int| exists|x2: int| l <= x2 < x && #[trigger] pixel_at(w, h, x2, y as int) == p;
            let ghost c1 = |p: int| exists|x2: int| l <= x2 < x + 1 && #[trigger] pixel_at(w, h, x2, y as int) == p;
            proof {
                assert(q >= 0) by (nonlinear_arith)
                    requires q == pixel_at(w, h, x as int, y as int), 0 <= x < w, 0 <= y < h;
                if c0(q) {
                    let x2 = choose|x2: int| l <= x2 < x && #[trigger] pixel_at(w, h, x2, y as int) == q;
                    lemma_pixel_at_injective(w, h, x as int, y as int, x2, y as int);
                }
                assert forall|p: int| 0 <= p < w * h implies #[trigger] c1(p) == (c0(p) || p == q) by {
                    if c1(p) && p != q {
                        let x2 = choose|x2: int| l <= x2 < x + 1 && #[trigger] pixel_at(w, h, x2, y as int) == p;
                        assert(x2 != x);
                    }
                }
            }
            self.put_pixel_blend(x, y, col, blend);
            proof {
                lemma_paint_extend(*blend, col, w * h, o, before, self.pixels@, c0, q, c1);
            }
            x = x + 1;
        }
        proof {
            let done = |p: int| exists|x2: int| l <= x2 < x && #[trigger] pixel_at(w, h, x2, y as int) == p;
            assert forall|p: int| 0 <= p < w * h implies #[trigger] done(p) == cover(p) by {
                if cover(p) {
                    let x2 = choose|x2: int| x_left <= x2 <= x_right && #[trigger] pixel_at(w, h, x2, y as int) == p;
                    assert(l <= x2 < x);
                }
                if done(p) {
                    let x2 = choose|x2: int| l <= x2 < x && #[trigger] pixel_at(w, h, x2, y as int) == p;
                    assert(x_left <= x2 <= x_right);
                }
            }
            lemma_paint_same_cover(*blend, col, w * h, o, self.pixels@, done, cover);
        }
    }

    /// Draw the 5x7 glyph of `ch` with its top-left corner at (`px`, `py`).
    pub fn draw_char<B: Fn(u8, u8, u8) -> u8>(&mut self, ch: char, px: i32, py: i32, col: [u8; 4], blend: &B)
        requires
            old(self).wf(),
            total(*blend),
            px <= i32::MAX - 4,
            py <= i32::MAX - 6,
        ensures
            final(self).wf(),
            final(self).w == old(self).w,
            final(self).h == old(self).h,
            painted(*blend, col, old(self).npx(), old(self).pixels@, final(self).pixels@,
                |p: int| char_covers(old(self).w as int, old(self).h as int, ch, px as int, py as int, p)),
    {
        let ghost w = self.w as int;
        let ghost h = self.h as int;
        let ghost o = self.pixels@;
        let bitmap = char_bitmap(ch);
        let mut row: usize = 0;
        proof {
            lemma_paint_nothing(*blend, col, w * h, o, |p: int| exists|r: int, c: int|
                glyph_on(ch, r, c) && (r < row || (r == row && c < 0)) && #[trigger] pixel_at(w, h, px + c, py + r) == p);
        }
        while row < 7
            invariant
                self.wf(),
                self.w == w,
                self.h == h,
                total(*blend),
                bitmap@ == glyph(ch),
                px <= i32::MAX - 4,
                py <= i32::MAX - 6,
                row <= 7,
                painted(*blend, col, w * h, o, self.pixels@, |p: int| exists|r: int, c: int|
                    glyph_on(ch, r, c) && (r < row || (r == row && c < 0)) && #[trigger] pixel_at(w, h, px + c, py + r) == p),
            decreases 7 - row,
        {
            let bits = bitmap[row];
            let mut col_idx: i32 = 0;
            while col_idx < 5
                invariant
                    self.wf(),
                    self.w == w,
                    self.h == h,
                    total(*blend),
                    bitmap@ == glyph(ch),
                    bits == glyph(ch)[row as int],
                    px <= i32::MAX - 4,
                    py <= i32::MAX - 6,
                    row < 7,
                    0 <= col_idx <= 5,
                    painted(*blend, col, w * h, o, self.pixels@, |p: int| exists|r: int, c: int|
                        glyph_on(ch, r, c) && (r < row || (r == row && c < col_idx)) && #[trigger] pixel_at(w, h, px + c, py + r) == p),
                decreases 5 - col_idx,
            {
                let ghost c0 = |p: int| exists|r: int, c: int|
                    glyph_on(ch, r, c) && (r < row || (r == row && c < col_idx)) && #[trigger] pixel_at(w, h, px + c, py + r) == p;
                let ghost c1 = |p: int| exists|r: int, c: int|
                    glyph_on(ch, r, c) && (r < row || (r == row && c < col_idx + 1)) && #[trigger] pixel_at(w, h, px + c, py + r) == p;
                if bits & (1u8 << ((4 - col_idx) as u8)) != 0 {
                    let ghost before = self.pixels@;
                    let ghost q = pixel_at(w, h, px + col_idx, py + row);
                    proof {
                        assert(glyph_on(ch, row as int, col_idx as int));
                        if q >= 0 && c0(q) {
                            let (r, c) = choose|r: int, c: int|
                                glyph_on(ch, r, c) && (r < row || (r == row && c < col_idx)) && #[trigger] pixel_at(w, h, px + c, py + r) == q;
                            lemma_pixel_at_injective(w, h, px + col_idx, py + row, px + c, py + r);
                        }
                        assert forall|p: int| 0 <= p < w * h implies #[trigger] c1(p) == (c0(p) || p == q) by {
                            if c1(p) && !c0(p) {
                                let (r, c) = choose|r: int, c: int|
                                    glyph_on(ch, r, c) && (r < row || (r == row && c < col_idx + 1)) && #[trigger] pixel_at(w, h, px + c, py + r) == p;
                                assert(r == row && c == col_idx);
                            }
                            if p == q {
                                assert(pixel_at(w, h, px + col_idx, py + row) == p);
                            }
                        }
                    }
                    self.put_pixel_blend(px + col_idx, py + row as i32, col, blend);
                    proof {
                        if q >= 0 {
                            lemma_paint_extend(*blend, col, w * h, o, before, self.pixels@, c0, q, c1);
                        } else {
                            assert forall|p: int| 0 <= p < w * h implies #[trigger] painted_at(*blend, col, o, self.pixels@, c1, p) by {
                                assert(painted_at(*blend, col, o, before, c0, p));
                                assert(painted_at(*blend, col, before, self.pixels@, |p: int| p == q, p));
                                assert(c1(p) == (c0(p) || p == q));
                            }
                        }
                    }
                } else {
                    proof {
                        assert forall|p: int| 0 <= p < w * h implies #[trigger] c1(p) == c0(p) by {
                            if c1(p) && !c0(p) {
                                let (r, c) = choose|r: int, c: int|
                                    glyph_on(ch, r, c) && (r < row || (r == row && c < col_idx + 1)) && #[trigger] pixel_at(w, h, px + c, py + r) == p;
                                assert(r == row && c == col_idx);
                            }
                        }
                        lemma_paint_same_cover(*blend, col, w * h, o, self.pixels@, c0, c1);
                    }
                }
                col_idx = col_idx + 1;
            }
            proof {
                let c0 = |p: int| exists|r: int, c: int|
                    glyph_on(ch, r, c) && (r < row || (r == row && c < 5)) && #[trigger] pixel_at(w, h, px + c, py + r) == p;
                let c1 = |p: int| exists|r: int, c: int|
                    glyph_on(ch, r, c) && (r < row + 1 || (r == row + 1 && c < 0)) && #[trigger] pixel_at(w, h, px + c, py + r) == p;
                assert forall|p: int| 0 <= p < w * h implies #[trigger] c0(p) == c1(p) by {
                    if c1(p) {
                        let (r, c) = choose|r: int, c: int|
                            glyph_on(ch, r, c) && (r < row + 1 || (r == row + 1 && c < 0)) && #[trigger] pixel_at(w, h, px + c, py + r) == p;
                        assert(c0(p));
                    }
                }
                lemma_paint_same_cover(*blend, col, w * h, o, self.pixels@, c0, c1);
            }
            row = row + 1;
        }
        proof {
            let done = |p: int| exists|r: int, c: int|
                glyph_on(ch, r, c) && (r < 7 || (r == 7 && c < 0)) && #[trigger] pixel_at(w, h, px + c, py + r) == p;
            assert forall|p: int| 0 <= p < w * h implies #[trigger] done(p) == char_covers(w, h, ch, px as int, py as int, p) by {
                if char_covers(w, h, ch, px as int, py as int, p) {
                    let (r, c) = choose|r: int, c: int| glyph_on(ch, r, c) && #[trigger] pixel_at(w, h, px + c, py + r) == p;
                    assert(done(p));
                }
            }
            lemma_paint_same_cover(*blend, col, w * h, o, self.pixels@, done,
                |p: int| char_covers(w, h, ch, px as int, py as int, p));
        }
    }

    /// Draw `text` with its first glyph's top-left at (`px`, `py`), one glyph every
    /// 6 pixels.
    pub fn draw_text<B: Fn(u8, u8, u8) -> u8>(&mut self, text: &str, px: i32, py: i32, col: [u8; 4], blend: &B)
        requires
            old(self).wf(),
            total(*blend),
            6 * text@.len() <= i32::MAX,
            px + 6 * text@.len() <= i32::MAX,
            py <= i32::MAX - 6,
        ensures
            final(self).wf(),
            final(self).w == old(self).w,
            final(self).h == old(self).h,
            painted(*blend, col, old(self).npx(), old(self).pixels@, final(self).pixels@,
                |p: int| text_covers(old(self).w as int, old(self).h as int, text@, px as int, py as int, p)),
    {
        let ghost w = self.w as int;
        let ghost h = self.h as int;
        let ghost o = self.pixels@;
        let chars = chars_of(text);
        let ghost t = chars@;
        let mut i: usize = 0;
        proof {
            lemma_paint_nothing(*blend, col, w * h, o, |p: int| exists|j: int| 0 <= j < i && #[trigger] char_covers(w, h, t[j], px + 6 * j, py as int, p));
        }
        while i < chars.len()
            invariant
                self.wf(),
                self.w == w,
                self.h == h,
                total(*blend),
                chars@ == t,
                t == text@,
                6 * t.len() <= i32::MAX,
                px + 6 * t.len() <= i32::MAX,
                py <= i32::MAX - 6,
                i <= t.len(),
                painted(*blend, col, w * h, o, self.pixels@, |p: int| exists|j: int| 0 <= j < i && #[trigger] char_covers(w, h, t[j], px + 6 * j, py as int, p)),
            decreases t.len() - i,
        {
            let ghost before = self.pixels@;
            let ghost c0 = |p: int| exists|j: int| 0 <= j < i && #[trigger] char_covers(w, h, t[j], px + 6 * j, py as int, p);
            let ghost c1 = |p: int| exists|j: int| 0 <= j < i + 1 && #[trigger] char_covers(w, h, t[j], px + 6 * j, py as int, p);
            let ghost cc = |p: int| char_covers(w, h, t[i as int], px + 6 * i, py as int, p);
            let x = px + i as i32 * 6;
            self.draw_char(chars[i], x, py, col, blend);
            proof {
                assert forall|p: int| 0 <= p < w * h implies !(#[trigger] c0(p) && cc(p)) by {
                    if c0(p) && cc(p) {
                        let j = choose|j: int| 0 <= j < i && #[trigger] char_covers(w, h, t[j], px + 6 * j, py as int, p);
                        let (r1, k1) = choose|r: int, c: int| glyph_on(t[j], r, c) && #[trigger] pixel_at(w, h, px + 6 * j + c, py + r) == p;
                        let (r2, k2) = choose|r: int, c: int| glyph_on(t[i as int], r, c) && #[trigger] pixel_at(w, h, px + 6 * i + c, py + r) == p;
                        lemma_pixel_at_injective(w, h, px + 6 * j + k1, py + r1, px + 6 * i + k2, py + r2);
                    }
                }
                assert forall|p: int| 0 <= p < w * h implies #[trigger] c1(p) == (c0(p) || cc(p)) by {
                    if c1(p) && !c0(p) {
                        let j = choose|j: int| 0 <= j < i + 1 && #[trigger] char_covers(w, h, t[j], px + 6 * j, py as int, p);
                        assert(j == i);
                    }
                    if cc(p) {
                        assert(char_covers(w, h, t[i as int], px + 6 * i, py as int, p));
                    }
                }
                lemma_paint_union(*blend, col, w * h, o, before, self.pixels@, c0, cc, c1);
            }
            i = i + 1;
        }
        proof {
            let done = |p: int| exists|j: int| 0 <= j < i && #[trigger] char_covers(w, h, t[j], px + 6 * j, py as int, p);
            assert forall|p: int| 0 <= p < w * h implies #[trigger] done(p) == text_covers(w, h, text@, px as int, py as int, p) by {
            }
            lemma_paint_same_cover(*blend, col, w * h, o, self.pixels@, done,
                |p: int| text_covers(w, h, text@, px as int, py as int, p));
        }
    }

    /// Draw `text` in `fg` over a `bg` box: the box spans rows `py - 1 .. py + 10` and
    /// columns `px - 2 ..= px + 6 * (byte length) + 4`, and is filled first.
    pub fn draw_text_box<B: Fn(u8, u8, u8) -> u8>(&mut self, text: &str, px: i32, py: i32, fg: [u8; 4], bg: [u8; 4], blend: &B)
        requires
            old(self).wf(),
            total(*blend),
            px - 2 >= i32::MIN,
            py - 1 >= i32::MIN,
            py + 10 <= i32::MAX,
            6 * text.len() + 4 <= i32::MAX,
            px + 6 * text.len() + 4 <= i32::MAX,
            6 * text@.len() <= i32::MAX,
            px + 6 * text@.len() <= i32::MAX,
        ensures
            final(self).wf(),
            final(self).w == old(self).w,
            final(self).h == old(self).h,
            exists|mid: Seq<u8>|
                #[trigger] painted(*blend, bg, old(self).npx(), old(self).pixels@, mid,
                    box_cover(old(self).w as int, old(self).h as int, py - 1, py + 10, px - 2,
                        px + 6 * text.len() + 4))
                && painted(*blend, fg, old(self).npx(), mid, final(self).pixels@,
                    text_cover(old(self).w as int, old(self).h as int, text@, px as int, py as int)),
    {
        let ghost w = self.w as int;
        let ghost h = self.h as int;
        let ghost o = self.pixels@;
        let tw = text.len() as i32 * 6 + 4;
        let th: i32 = 10;
        let mut y = py - 1;
        proof {
            lemma_paint_nothing(*blend, bg, w * h, o, |p: int| exists|y2: int| py - 1 <= y2 < y && #[trigger] span_covers(w, h, y2, px - 2, px + tw, p));
        }
        while y < py + th
            invariant
                self.wf(),
                self.w == w,
                self.h == h,
                total(*blend),
                th == 10,
                py - 1 <= y <= py + 10,
                py + 10 <= i32::MAX,
                px - 2 >= i32::MIN,
                px + tw <= i32::MAX,
                tw == 6 * text.len() + 4,
                painted(*blend, bg, w * h, o, self.pixels@, |p: int| exists|y2: int| py - 1 <= y2 < y && #[trigger] span_covers(w, h, y2, px - 2, px + tw, p)),
            decreases py + 10 - y,
        {
            let ghost before = self.pixels@;
            let ghost c0 = |p: int| exists|y2: int| py - 1 <= y2 < y && #[trigger] span_covers(w, h, y2, px - 2, px + tw, p);
            let ghost c1 = |p: int| exists|y2: int| py - 1 <= y2 < y + 1 && #[trigger] span_covers(w, h, y2, px - 2, px + tw, p);
            let ghost cs = |p: int| span_covers(w, h, y as int, px - 2, px + tw, p);
            self.fill_span(y, px - 2, px + tw, bg, blend);
            proof {
                assert forall|p: int| 0 <= p < w * h implies !(#[trigger] c0(p) && cs(p)) by {
                    if c0(p) && cs(p) {
                        let y2 = choose|y2: int| py - 1 <= y2 < y && #[trigger] span_covers(w, h, y2, px - 2, px + tw, p);
                        let x1 = choose|x: int| px - 2 <= x <= px + tw && #[trigger] pixel_at(w, h, x, y2) == p;
                        let x2 = choose|x: int| px - 2 <= x <= px + tw && #[trigger] pixel_at(w, h, x, y as int) == p;
                        lemma_pixel_at_injective(w, h, x1, y2, x2, y as int);
                    }
                }
                assert forall|p: int| 0 <= p < w * h implies #[trigger] c1(p) == (c0(p) || cs(p)) by {
                    if c1(p) && !c0(p) {
                        let y2 = choose|y2: int| py - 1 <= y2 < y + 1 && #[trigger] span_covers(w, h, y2, px - 2, px + tw, p);
                        assert(y2 == y);
                    }
                    if cs(p) {
                        assert(span_covers(w, h, y as int, px - 2, px + tw, p));
                    }
                }
                lemma_paint_union(*blend, bg, w * h, o, before, self.pixels@, c0, cs, c1);
            }
            y = y + 1;
        }
        let ghost mid = self.pixels@;
        proof {
            let done = |p: int| exists|y2: int| py - 1 <= y2 < y && #[trigger] span_covers(w, h, y2, px - 2, px + tw, p);
            let bx = box_cover(w, h, py - 1, py + 10, px - 2, px + 6 * text.len() + 4);
            assert forall|p: int| 0 <= p < w * h implies #[trigger] done(p) == bx(p) by {
            }
            lemma_paint_same_cover(*blend, bg, w * h, o, mid, done, bx);
        }
        self.draw_text(text, px, py, fg, blend);
        proof {
            lemma_paint_same_cover(*blend, fg, w * h, mid, self.pixels@,
                |p: int| text_covers(w, h, text@, px as int, py as int, p), text_cover(w, h, text@, px as int, py as int));
            assert(painted(*blend, bg, w * h, o, mid, box_cover(w, h, py - 1, py + 10, px - 2, px + 6 * text.len() + 4)));
            assert(old(self).npx() == w * h);
            assert(painted(*blend, bg, old(self).npx(), old(self).pixels@, mid,
                box_cover(old(self).w as int, old(self).h as int, py - 1, py + 10, px - 2, px + 6 * text.len() + 4)));
            assert(painted(*blend, fg, old(self).npx(), mid, self.pixels@,
                text_cover(old(self).w as int, old(self).h as int, text@, px as int, py as int)));
        }
    }
}

} // verus!
