//! The pixel sets that the drawing operations paint, as spec-level geometry.
//!
//! Every shape here is described by a membership predicate over integer
//! pixel coordinates; the drawing operations in [`crate::engine`] promise to
//! paint exactly these sets (clipped to the surface pixel by pixel).

use vstd::prelude::*;

verus! {

/// Whether `v` lies in the half-open span between `a` and `b`: the smaller
/// endpoint is included, the larger is excluded, whichever order they come in.
pub open spec fn span_contains(v: int, a: int, b: int) -> bool {
    if a <= b {
        a <= v < b
    } else {
        b <= v < a
    }
}

/// The pixels of a vertical segment at column `x`, spanning the half-open
/// range between `ya` and `yb`.
pub open spec fn vline_contains(px: int, py: int, x: int, ya: int, yb: int) -> bool {
    px == x && span_contains(py, ya, yb)
}

/// The pixels of a horizontal segment at row `y`, spanning the half-open
/// range between `xa` and `xb`.
pub open spec fn hline_contains(px: int, py: int, xa: int, xb: int, y: int) -> bool {
    py == y && span_contains(px, xa, xb)
}

/// One step of the general-case line stepping from (x, y) with error term
/// `err`: x moves one pixel toward the target while the error is above
/// -dx, y moves while it is below dy, and the error picks up the other
/// axis's difference for each move.  Returns the next (x, y, err).
pub open spec fn line_step(
    x: int,
    y: int,
    err: int,
    dx: int,
    dy: int,
    sx: int,
    sy: int,
) -> (int, int, int) {
    let (xn, e1) = if err > -dx {
        (x + sx, err - dy)
    } else {
        (x, err)
    };
    let (yn, en) = if err < dy {
        (y + sy, e1 + dx)
    } else {
        (y, e1)
    };
    (xn, yn, en)
}

/// The pixels the general-case stepping plots from state (x, y, err): the
/// current pixel, and, until the target (x2, y2) is reached or `fuel`
/// further steps are spent, everything the stepping plots after it.
pub open spec fn line_chain_contains(
    px: int,
    py: int,
    x: int,
    y: int,
    err: int,
    x2: int,
    y2: int,
    dx: int,
    dy: int,
    sx: int,
    sy: int,
    fuel: int,
) -> bool
    decreases fuel,
{
    (px == x && py == y) || if (x == x2 && y == y2) || fuel <= 0 {
        false
    } else {
        let (xn, yn, en) = line_step(x, y, err, dx, dy, sx, sy);
        line_chain_contains(px, py, xn, yn, en, x2, y2, dx, dy, sx, sy, fuel - 1)
    }
}

/// The whole pixel set of a drawn line: the half-open column of a vertical
/// line, the half-open row of a horizontal one, and for any other line the
/// chain of the error-accumulator stepping from (x1, y1) toward (x2, y2),
/// whose error starts at dx/2 when the line is shallow and at -(dy/2) when
/// it is steep, and which runs until the target is reached, always within
/// dx + dy steps.
pub open spec fn line_contains(px: int, py: int, x1: int, y1: int, x2: int, y2: int) -> bool {
    if x1 == x2 {
        vline_contains(px, py, x1, y1, y2)
    } else if y1 == y2 {
        hline_contains(px, py, x1, x2, y1)
    } else {
        let dx = if x2 > x1 {
            x2 - x1
        } else {
            x1 - x2
        };
        let dy = if y2 > y1 {
            y2 - y1
        } else {
            y1 - y2
        };
        let sx: int = if x1 < x2 {
            1
        } else {
            -1
        };
        let sy: int = if y1 < y2 {
            1
        } else {
            -1
        };
        let err = if dx > dy {
            dx / 2
        } else {
            -(dy / 2)
        };
        line_chain_contains(px, py, x1, y1, err, x2, y2, dx, dy, sx, sy, dx + dy)
    }
}

/// The pixels of the filled rectangle at (x, y) with extent (w, h): each
/// dimension covers the half-open range from its origin coordinate.
pub open spec fn rect_contains(px: int, py: int, x: int, y: int, w: int, h: int) -> bool {
    x <= px < x + w && y <= py < y + h
}

/// The pixels of the rectangle outline at (x, y) with extent (w, h): the
/// four half-open edge segments drawn top, right, bottom, left.
pub open spec fn rect_outline_contains(px: int, py: int, x: int, y: int, w: int, h: int) -> bool {
    ||| hline_contains(px, py, x, x + w, y)
    ||| vline_contains(px, py, x + w, y, y + h)
    ||| hline_contains(px, py, x, x + w, y + h)
    ||| vline_contains(px, py, x, y, y + h)
}

/// `p / q` rounded half away from zero, for a positive denominator: the
/// rounding the triangle fill applies to its interpolated edge positions.
pub open spec fn rdiv(p: int, q: int) -> int
    recommends
        q >= 1,
{
    if p >= 0 {
        (2 * p + q) / (2 * q)
    } else {
        -((2 * (-p) + q) / (2 * q))
    }
}

/// An interpolated offset never leaves the side it interpolates: for
/// `0 <= k <= q`, the rounded value of `k * d / q` lies between 0 and `d`.
pub proof fn lemma_rdiv_in_range(d: int, k: int, q: int)
    requires
        1 <= q,
        0 <= k <= q,
    ensures
        d >= 0 ==> 0 <= rdiv(k * d, q) <= d,
        d < 0 ==> d <= rdiv(k * d, q) <= 0,
{
    if d >= 0 {
        lemma_rdiv_scaled_bounds(d, k, q);
    } else {
        lemma_rdiv_scaled_bounds(-d, k, q);
        assert(k * -d == -(k * d)) by (nonlinear_arith);
        if k * d == 0 {
            vstd::arithmetic::div_mod::lemma_basic_div(q, 2 * q);
        }
    }
}

/// The nonnegative core of [`lemma_rdiv_in_range`].
proof fn lemma_rdiv_scaled_bounds(d: int, k: int, q: int)
    requires
        1 <= q,
        0 <= k <= q,
        0 <= d,
    ensures
        0 <= rdiv(k * d, q) <= d,
{
    let p = k * d;
    vstd::arithmetic::mul::lemma_mul_nonnegative(k, d);
    vstd::arithmetic::div_mod::lemma_div_pos_is_pos(2 * p + q, 2 * q);
    assert(2 * p + q <= 2 * q * d + q) by (nonlinear_arith)
        requires
            0 <= k <= q,
            0 <= d,
            p == k * d,
    ;
    vstd::arithmetic::div_mod::lemma_div_is_ordered(2 * p + q, 2 * q * d + q, 2 * q);
    assert((2 * q * d + q) / (2 * q) == d) by {
        vstd::arithmetic::div_mod::lemma_hoist_over_denominator(q, d, (2 * q) as nat);
        assert(q + d * (2 * q) == 2 * q * d + q) by (nonlinear_arith);
        vstd::arithmetic::div_mod::lemma_basic_div(q, 2 * q);
    }
}

/// The column where a triangle edge stands on scanline k of q: the exact
/// accumulated position `xa + k * (xl - xa) / q`, written over the common
/// denominator as `(xa * (q - k) + xl * k) / q`, rounded half away from
/// zero.  The absolute position is rounded, not the offset from `xa`: the
/// two differ on half-way ties.
pub open spec fn edge_x(xa: int, xl: int, k: int, q: int) -> int
    recommends
        q >= 1,
{
    rdiv(xa * (q - k) + xl * k, q)
}

/// A quotient between two integer multiples of its denominator rounds to a
/// value between the two multipliers.
proof fn lemma_rdiv_between(p: int, q: int, lo: int, hi: int)
    requires
        1 <= q,
        q * lo <= p,
        p <= q * hi,
    ensures
        lo <= rdiv(p, q) <= hi,
{
    if p >= 0 {
        vstd::arithmetic::div_mod::lemma_div_pos_is_pos(2 * p + q, 2 * q);
        assert(0 <= hi) by (nonlinear_arith)
            requires
                1 <= q,
                0 <= p,
                p <= q * hi,
        ;
        vstd::arithmetic::div_mod::lemma_div_is_ordered(2 * p + q, 2 * (q * hi) + q, 2 * q);
        lemma_div2q_at_multiple(hi, q);
        if lo > 0 {
            vstd::arithmetic::div_mod::lemma_div_is_ordered(2 * (q * lo) + q, 2 * p + q, 2 * q);
            lemma_div2q_at_multiple(lo, q);
        }
    } else {
        let pp = -p;
        vstd::arithmetic::div_mod::lemma_div_pos_is_pos(2 * pp + q, 2 * q);
        assert(lo < 0) by (nonlinear_arith)
            requires
                1 <= q,
                q * lo <= p,
                p < 0,
        ;
        assert(q * (-lo) == -(q * lo)) by (nonlinear_arith);
        vstd::arithmetic::div_mod::lemma_div_is_ordered(2 * pp + q, 2 * (q * (-lo)) + q, 2 * q);
        lemma_div2q_at_multiple(-lo, q);
        if hi < 0 {
            assert(q * (-hi) == -(q * hi)) by (nonlinear_arith);
            vstd::arithmetic::div_mod::lemma_div_is_ordered(2 * (q * (-hi)) + q, 2 * pp + q, 2 * q);
            lemma_div2q_at_multiple(-hi, q);
        }
    }
}

/// A multiple of the denominator, pushed half a denominator up, divides
/// back to its multiplier.
proof fn lemma_div2q_at_multiple(c: int, q: int)
    requires
        1 <= q,
        0 <= c,
    ensures
        (2 * (q * c) + q) / (2 * q) == c,
{
    vstd::arithmetic::div_mod::lemma_hoist_over_denominator(q, c, (2 * q) as nat);
    assert(q + c * (2 * q) == 2 * (q * c) + q) by (nonlinear_arith);
    vstd::arithmetic::div_mod::lemma_basic_div(q, 2 * q);
}

/// An edge column never leaves the closed range between the apex column and
/// the base column it interpolates toward.
pub proof fn lemma_edge_x_in_range(xa: int, xl: int, k: int, q: int)
    requires
        1 <= q,
        0 <= k <= q,
    ensures
        xa <= xl ==> xa <= edge_x(xa, xl, k, q) <= xl,
        xl < xa ==> xl <= edge_x(xa, xl, k, q) <= xa,
{
    let p = xa * (q - k) + xl * k;
    if xa <= xl {
        assert(q * xa <= p && p <= q * xl) by (nonlinear_arith)
            requires
                0 <= k <= q,
                xa <= xl,
                p == xa * (q - k) + xl * k,
        ;
        lemma_rdiv_between(p, q, xa, xl);
    } else {
        assert(q * xl <= p && p <= q * xa) by (nonlinear_arith)
            requires
                0 <= k <= q,
                xl < xa,
                p == xa * (q - k) + xl * k,
        ;
        lemma_rdiv_between(p, q, xl, xa);
    }
}

/// Rounding half away from zero keeps order: a larger numerator never
/// rounds below a smaller one over the same positive denominator.
proof fn lemma_rdiv_monotone(p1: int, p2: int, q: int)
    requires
        1 <= q,
        p1 <= p2,
    ensures
        rdiv(p1, q) <= rdiv(p2, q),
{
    if 0 <= p1 {
        vstd::arithmetic::div_mod::lemma_div_is_ordered(2 * p1 + q, 2 * p2 + q, 2 * q);
    } else if p2 < 0 {
        vstd::arithmetic::div_mod::lemma_div_is_ordered(2 * (-p2) + q, 2 * (-p1) + q, 2 * q);
    } else {
        vstd::arithmetic::div_mod::lemma_div_pos_is_pos(2 * (-p1) + q, 2 * q);
        vstd::arithmetic::div_mod::lemma_div_pos_is_pos(2 * p2 + q, 2 * q);
    }
}

/// The spans of a filled flat-bottom triangle widen monotonically from the
/// apex to the base, when the apex stands horizontally between the two base
/// endpoints: every pixel of a scanline also belongs to the scanline below,
/// so each row's filled width is at least the width of the row above.
pub proof fn lemma_flat_bottom_widens(
    px: int,
    py: int,
    xa: int,
    ya: int,
    xl: int,
    xr: int,
    yb: int,
)
    requires
        xl <= xa <= xr,
        py < yb,
        flat_bottom_contains(px, py, xa, ya, xl, xr, yb),
    ensures
        flat_bottom_contains(px, py + 1, xa, ya, xl, xr, yb),
{
    let q = yb - ya;
    let k = py - ya;
    lemma_edge_x_in_range(xa, xl, k, q);
    lemma_edge_x_in_range(xa, xr, k, q);
    lemma_edge_x_in_range(xa, xl, k + 1, q);
    lemma_edge_x_in_range(xa, xr, k + 1, q);
    assert(xa * (q - (k + 1)) + xl * (k + 1) == xa * (q - k) + xl * k + (xl - xa))
        by (nonlinear_arith);
    assert(xa * (q - (k + 1)) + xr * (k + 1) == xa * (q - k) + xr * k + (xr - xa))
        by (nonlinear_arith);
    lemma_rdiv_monotone(xa * (q - (k + 1)) + xl * (k + 1), xa * (q - k) + xl * k, q);
    lemma_rdiv_monotone(xa * (q - k) + xr * k, xa * (q - (k + 1)) + xr * (k + 1), q);
}

/// A product of values inside the given magnitudes stays inside the product
/// of the magnitudes.
pub proof fn lemma_mul_magnitude(a: int, b: int, m: int, n: int)
    by (nonlinear_arith)
    requires
        0 <= a <= m,
        -n <= b <= n,
        0 <= n,
    ensures
        -(m * n) <= a * b <= m * n,
{
}

/// The three vertices ordered by ascending y, by the three pairwise
/// conditional swaps the fill applies: swap the first pair when y1 > y2,
/// then the outer pair when y1 > y3, then the last pair when y2 > y3.
pub open spec fn sort_tri(
    x1: int,
    y1: int,
    x2: int,
    y2: int,
    x3: int,
    y3: int,
) -> (int, int, int, int, int, int) {
    let (x1, y1, x2, y2) = if y1 > y2 {
        (x2, y2, x1, y1)
    } else {
        (x1, y1, x2, y2)
    };
    let (x1, y1, x3, y3) = if y1 > y3 {
        (x3, y3, x1, y1)
    } else {
        (x1, y1, x3, y3)
    };
    let (x2, y2, x3, y3) = if y2 > y3 {
        (x3, y3, x2, y2)
    } else {
        (x2, y2, x3, y3)
    };
    (x1, y1, x2, y2, x3, y3)
}

/// The pixels of a filled flat-bottom triangle: apex (xa, ya) on top, base
/// endpoints at columns xl and xr on row yb.  Each scanline spans the
/// half-open range between the two accumulated edge positions, each rounded
/// half away from zero as an absolute column; a triangle whose apex sits on
/// the base row covers nothing.
pub open spec fn flat_bottom_contains(
    px: int,
    py: int,
    xa: int,
    ya: int,
    xl: int,
    xr: int,
    yb: int,
) -> bool {
    &&& ya < yb
    &&& ya <= py <= yb
    &&& ({
        let q = yb - ya;
        let k = py - ya;
        let xs = edge_x(xa, xl, k, q);
        let xe = edge_x(xa, xr, k, q);
        span_contains(px, xs, xe)
    })
}

/// The pixels of a filled flat-top triangle: base endpoints at columns xl
/// and xr on row yt, apex (xa, ya) below.  Scanlines interpolate from the
/// apex upward, rounding the absolute accumulated column; a triangle whose
/// apex sits on the base row covers nothing.
pub open spec fn flat_top_contains(
    px: int,
    py: int,
    xl: int,
    xr: int,
    yt: int,
    xa: int,
    ya: int,
) -> bool {
    &&& yt < ya
    &&& yt <= py <= ya
    &&& ({
        let q = ya - yt;
        let m = ya - py;
        let xs = edge_x(xa, xl, m, q);
        let xe = edge_x(xa, xr, m, q);
        span_contains(px, xs, xe)
    })
}

/// The pixels of a filled triangle with the given vertices: the vertices
/// are sorted by ascending y; a flat-bottom or flat-top triangle is filled
/// directly, and any other triangle splits at the middle vertex's row into
/// a flat-bottom and a flat-top part, at the interpolated column x4 on the
/// long edge.
pub open spec fn fill_triangle_contains(
    px: int,
    py: int,
    x1: int,
    y1: int,
    x2: int,
    y2: int,
    x3: int,
    y3: int,
) -> bool {
    let (sx1, sy1, sx2, sy2, sx3, sy3) = sort_tri(x1, y1, x2, y2, x3, y3);
    if sy2 == sy3 {
        flat_bottom_contains(px, py, sx1, sy1, sx2, sx3, sy2)
    } else if sy1 == sy2 {
        flat_top_contains(px, py, sx1, sx2, sy1, sx3, sy3)
    } else {
        let x4 = sx1 + rdiv((sy2 - sy1) * (sx3 - sx1), sy3 - sy1);
        flat_bottom_contains(px, py, sx1, sy1, sx2, x4, sy2) || flat_top_contains(
            px,
            py,
            sx2,
            x4,
            sy2,
            sx3,
            sy3,
        )
    }
}

/// `p / q` rounded half away from zero, as executable arithmetic; the
/// bounds admit any product of a 33-bit count with a 33-bit difference.
pub(crate) fn round_div(p: i128, q: i128) -> (r: i128)
    requires
        1 <= q <= 0x1_0000_0000,
        -0x1_0000_0000_0000_0000 <= p <= 0x1_0000_0000_0000_0000,
    ensures
        r as int == rdiv(p as int, q as int),
{
    let two_q = 2 * (q as u128);
    if p >= 0 {
        let n = 2 * (p as u128) + (q as u128);
        proof {
            vstd::arithmetic::div_mod::lemma_div_nonincreasing(n as int, two_q as int);
            vstd::arithmetic::div_mod::lemma_div_pos_is_pos(n as int, two_q as int);
        }
        (n / two_q) as i128
    } else {
        let m = (-p) as u128;
        let n = 2 * m + (q as u128);
        proof {
            vstd::arithmetic::div_mod::lemma_div_nonincreasing(n as int, two_q as int);
            vstd::arithmetic::div_mod::lemma_div_pos_is_pos(n as int, two_q as int);
        }
        -((n / two_q) as i128)
    }
}

/// The eight symmetric points that one midpoint circle step (x0, y0) plots
/// around the center (xc, yc).
pub open spec fn circle_step_point(
    px: int,
    py: int,
    xc: int,
    yc: int,
    x0: int,
    y0: int,
) -> bool {
    ||| (px == xc + x0 && py == yc - y0)
    ||| (px == xc + y0 && py == yc - x0)
    ||| (px == xc + y0 && py == yc + x0)
    ||| (px == xc + x0 && py == yc + y0)
    ||| (px == xc - x0 && py == yc - y0)
    ||| (px == xc - y0 && py == yc - x0)
    ||| (px == xc - y0 && py == yc + x0)
    ||| (px == xc - x0 && py == yc + y0)
}

/// The pixels of the whole midpoint circle outline around (xc, yc), from
/// recurrence state (x0, y0) with decision variable d onward: the eight
/// symmetric points of every state the recurrence passes through while
/// y0 >= x0, stepping right when d is negative and diagonally otherwise.
pub open spec fn ring_contains(
    px: int,
    py: int,
    xc: int,
    yc: int,
    x0: int,
    y0: int,
    d: int,
) -> bool
    decreases y0 - x0 + 2,
{
    if y0 < x0 {
        false
    } else {
        circle_step_point(px, py, xc, yc, x0, y0) || if d < 0 {
            ring_contains(px, py, xc, yc, x0 + 1, y0, d + 4 * x0 + 6)
        } else {
            ring_contains(px, py, xc, yc, x0 + 1, y0 - 1, d + 4 * ((x0 + 1) - (y0 - 1)) + 10)
        }
    }
}

/// The circle outline is 8-way symmetric about its center: reflecting a
/// pixel across the vertical or the horizontal axis through the center, or
/// swapping its two offsets from the center, lands on the outline again.
pub proof fn lemma_ring_symmetric(px: int, py: int, xc: int, yc: int, x0: int, y0: int, d: int)
    ensures
        ring_contains(px, py, xc, yc, x0, y0, d) == ring_contains(
            2 * xc - px,
            py,
            xc,
            yc,
            x0,
            y0,
            d,
        ),
        ring_contains(px, py, xc, yc, x0, y0, d) == ring_contains(
            px,
            2 * yc - py,
            xc,
            yc,
            x0,
            y0,
            d,
        ),
        ring_contains(px, py, xc, yc, x0, y0, d) == ring_contains(
            xc + (py - yc),
            yc + (px - xc),
            xc,
            yc,
            x0,
            y0,
            d,
        ),
    decreases y0 - x0 + 2,
{
    if y0 >= x0 {
        if d < 0 {
            lemma_ring_symmetric(px, py, xc, yc, x0 + 1, y0, d + 4 * x0 + 6);
        } else {
            lemma_ring_symmetric(px, py, xc, yc, x0 + 1, y0 - 1, d + 4 * ((x0 + 1) - (y0 - 1)) + 10);
        }
    }
}

/// The four horizontal chords that one step (x0, y0) of the filled circle
/// draws around (xc, yc): the rows y0 away from the center spanning x0 to
/// each side, and the rows x0 away spanning y0 to each side, each half-open
/// on the right like every horizontal line.
pub open spec fn disc_chords_contains(
    px: int,
    py: int,
    xc: int,
    yc: int,
    x0: int,
    y0: int,
) -> bool {
    ||| hline_contains(px, py, xc - x0, xc + x0, yc - y0)
    ||| hline_contains(px, py, xc - y0, xc + y0, yc - x0)
    ||| hline_contains(px, py, xc - x0, xc + x0, yc + y0)
    ||| hline_contains(px, py, xc - y0, xc + y0, yc + x0)
}

/// The pixels of the filled midpoint circle around (xc, yc), from
/// recurrence state (x0, y0) with decision variable d onward: the four
/// chords of every state the recurrence passes through while y0 >= x0.
pub open spec fn disc_contains(
    px: int,
    py: int,
    xc: int,
    yc: int,
    x0: int,
    y0: int,
    d: int,
) -> bool
    decreases y0 - x0 + 2,
{
    if y0 < x0 {
        false
    } else {
        disc_chords_contains(px, py, xc, yc, x0, y0) || if d < 0 {
            disc_contains(px, py, xc, yc, x0 + 1, y0, d + 4 * x0 + 6)
        } else {
            disc_contains(px, py, xc, yc, x0 + 1, y0 - 1, d + 4 * ((x0 + 1) - (y0 - 1)) + 10)
        }
    }
}

/// Every pixel of the filled circle lies in the square of half-width r
/// around the center, as long as the recurrence state stays within the
/// radius.
pub proof fn lemma_disc_in_box(px: int, py: int, xc: int, yc: int, x0: int, y0: int, d: int, r: int)
    requires
        0 <= x0,
        y0 <= r,
        disc_contains(px, py, xc, yc, x0, y0, d),
    ensures
        xc - r <= px <= xc + r,
        yc - r <= py <= yc + r,
    decreases y0 - x0 + 2,
{
    if y0 >= x0 && !disc_chords_contains(px, py, xc, yc, x0, y0) {
        if d < 0 {
            lemma_disc_in_box(px, py, xc, yc, x0 + 1, y0, d + 4 * x0 + 6, r);
        } else {
            lemma_disc_in_box(
                px,
                py,
                xc,
                yc,
                x0 + 1,
                y0 - 1,
                d + 4 * ((x0 + 1) - (y0 - 1)) + 10,
                r,
            );
        }
    }
}

} // verus!
