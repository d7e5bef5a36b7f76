//! Engine state: the drawing surface, the rasterizer that paints shapes into
//! it, and the frame-cadence bookkeeping that a windowed shell drives.

use vstd::prelude::*;

use crate::color::{pack, Color};
use crate::raster::{
    circle_step_point,
    fill_triangle_contains,
    flat_bottom_contains,
    flat_top_contains,
    hline_contains,
    line_chain_contains,
    line_contains,
    line_step,
    ring_contains,
    disc_chords_contains,
    disc_contains,
    lemma_disc_in_box,
    edge_x,
    lemma_edge_x_in_range,
    lemma_mul_magnitude,
    lemma_rdiv_in_range,
    rect_contains,
    rect_outline_contains,
    round_div,
    sort_tri,
    vline_contains,
};
use crate::rendertarget::{lemma_pixel_index, RenderTarget};

verus! {

/// One second, in the microseconds the frame timer counts.
pub const SECOND_MICROS: u64 = 1_000_000;

/// The defining relation of the midpoint circle stepping: after any number
/// of steps from (0, r) with decision variable 3 - 2r, the decision variable
/// is this polynomial in the current offsets and the radius.
spec fn circle_d(x0: int, y0: int, rr: int) -> int {
    2 * x0 * x0 + 4 * x0 + 2 * y0 * y0 - 10 * y0 + 3 + 8 * rr - 2 * rr * rr
}

/// Stepping right keeps the defining relation of the decision variable.
proof fn lemma_circle_step_right(d: int, x0: int, y0: int, rr: int)
    by (nonlinear_arith)
    requires
        d == circle_d(x0, y0, rr),
    ensures
        d + 4 * x0 + 6 == circle_d(x0 + 1, y0, rr),
{
}

/// Stepping right and up keeps the defining relation of the decision
/// variable.
proof fn lemma_circle_step_diag(d: int, x0: int, y0: int, rr: int)
    by (nonlinear_arith)
    requires
        d == circle_d(x0, y0, rr),
    ensures
        d + 4 * ((x0 + 1) - (y0 - 1)) + 10 == circle_d(x0 + 1, y0 - 1, rr),
{
}

/// The decision variable stays far from the 128-bit range while the offsets
/// stay near the radius.
proof fn lemma_circle_d_bound(d: int, x0: int, y0: int, rr: int)
    by (nonlinear_arith)
    requires
        d == circle_d(x0, y0, rr),
        0 <= x0 <= rr + 2,
        -2 <= y0 <= rr,
        1 <= rr <= 0x8000_0000,
    ensures
        -0x10_0000_0000_0000_0000_0000 <= d <= 0x10_0000_0000_0000_0000_0000,
{
}

/// Engine state: the drawing surface plus frame-cadence bookkeeping.
///
/// The shell that owns the host window drives one tick at a time: it calls
/// the drawing operations while handling the update callback, then
/// [`RainCore::frame_tick`] with the elapsed time, and
/// [`RainCore::apply_window_state`] with what the window reported.
pub struct RainCore {
    /// Sets if the application should exit when the escape key is pressed.
    pub exit_on_esc: bool,
    /// Whether the main loop keeps running; cleared by [`RainCore::exit`] and
    /// by [`RainCore::apply_window_state`], observed at iteration boundaries.
    pub active: bool,
    /// The surface every drawing operation paints into.
    pub render_target: RenderTarget,
    /// The running 1-second timer behind the frame-rate count, microseconds.
    pub frame_timer_micros: u64,
    /// The frames counted since the timer last reached a second.
    pub frame_count: u32,
}

impl RainCore {
    /// The engine is well formed when its surface is.
    pub open spec fn wf(&self) -> bool {
        self.render_target.wf()
    }

    /// Everything but the stored pixels is the same in `pre` and `post`:
    /// the surface dimensions, the activity flag and the frame bookkeeping.
    /// Drawing operations change nothing else.
    pub open spec fn same_but_pixels(pre: &RainCore, post: &RainCore) -> bool {
        &&& post.exit_on_esc == pre.exit_on_esc
        &&& post.active == pre.active
        &&& post.frame_timer_micros == pre.frame_timer_micros
        &&& post.frame_count == pre.frame_count
        &&& post.render_target.width == pre.render_target.width
        &&& post.render_target.height == pre.render_target.height
        &&& post.render_target.data@.len() == pre.render_target.data@.len()
    }

    /// Every stored pixel of `post` either kept its value from `pre` or was
    /// overwritten with the packed value of `c`: a drawing operation paints
    /// with its own color and touches nothing else.
    pub open spec fn only_paints(pre: &RainCore, post: &RainCore, c: Color) -> bool {
        forall|i: int|
            0 <= i < pre.render_target.data@.len()
                ==> post.render_target.data@[i] == pre.render_target.data@[i]
                    || post.render_target.data@[i] == pack(c)
    }

    /// The drawing operation turned exactly the pixels of `shape` into the
    /// packed value of `c` and left every other pixel of the surface as it
    /// was; pixels of `shape` that fall off the surface are dropped.
    pub open spec fn paints_set(
        pre: &RainCore,
        post: &RainCore,
        c: Color,
        shape: spec_fn(int, int) -> bool,
    ) -> bool {
        forall|px: int, py: int|
            pre.render_target.in_bounds(px, py)
                ==> post.render_target.data@[#[trigger] pre.render_target.idx(px, py)] == if shape(
                px,
                py,
            ) {
                pack(c)
            } else {
                pre.render_target.data@[pre.render_target.idx(px, py)]
            }
    }

    /// One bounds-checked pixel write extends a painted set by one pixel:
    /// if `mid` shows `pre` with exactly `s_mid` painted in `c`, and `post`
    /// is `mid` with the write of `c` at (x, y) applied (dropped when off
    /// the surface), then `post` shows `pre` with exactly `s_post` painted,
    /// where `s_post` is `s_mid` plus the pixel (x, y).
    proof fn lemma_paint_step(
        pre: &RainCore,
        mid: &RainCore,
        post: &RainCore,
        c: Color,
        s_mid: spec_fn(int, int) -> bool,
        x: int,
        y: int,
        s_post: spec_fn(int, int) -> bool,
    )
        requires
            pre.wf(),
            mid.render_target.width == pre.render_target.width,
            mid.render_target.height == pre.render_target.height,
            mid.render_target.data@.len() == pre.render_target.data@.len(),
            Self::paints_set(pre, mid, c, s_mid),
            pre.render_target.in_bounds(x, y) ==> post.render_target.data@
                == mid.render_target.data@.update(pre.render_target.idx(x, y), pack(c)),
            !pre.render_target.in_bounds(x, y) ==> post.render_target == mid.render_target,
            forall|px: int, py: int| #[trigger]
                s_post(px, py) == (s_mid(px, py) || (px == x && py == y)),
        ensures
            Self::paints_set(pre, post, c, s_post),
    {
        let w = pre.render_target.width as int;
        let h = pre.render_target.height as int;
        assert forall|px: int, py: int| pre.render_target.in_bounds(px, py) implies
            post.render_target.data@[pre.render_target.idx(px, py)] == (if s_post(px, py) {
                pack(c)
            } else {
                pre.render_target.data@[pre.render_target.idx(px, py)]
            }) by {
            lemma_pixel_index(w, h, px, py);
            assert(mid.render_target.data@[pre.render_target.idx(px, py)] == if s_mid(px, py) {
                pack(c)
            } else {
                pre.render_target.data@[pre.render_target.idx(px, py)]
            });
            if pre.render_target.in_bounds(x, y) {
                lemma_pixel_index(w, h, x, y);
            }
        }
    }

    /// Whether the engine is still running; the shell loops while this holds.
    pub fn is_active(&self) -> (r: bool)
        ensures
            r == self.active,
    {
        self.active
    }

    /// Initializes the engine state with a fresh surface of the given
    /// dimensions, active and with the frame timer a full second in, so the
    /// first completed tick reports a frame rate immediately.
    ///
    /// Set `exit_on_esc` to true if the application should close when escape
    /// is pressed.
    pub fn init(width: usize, height: usize, exit_on_esc: bool) -> (core: RainCore)
        requires
            width * height <= usize::MAX,
            width <= i32::MAX,
            height <= i32::MAX,
        ensures
            core.wf(),
            core.exit_on_esc == exit_on_esc,
            core.active,
            core.render_target.width == width,
            core.render_target.height == height,
            core.frame_timer_micros == SECOND_MICROS,
            core.frame_count == 0,
            forall|i: int|
                0 <= i < core.render_target.data@.len() ==> core.render_target.data@[i] == 0u32,
    {
        RainCore {
            exit_on_esc,
            active: true,
            render_target: RenderTarget::new(width, height),
            frame_timer_micros: SECOND_MICROS,
            frame_count: 0,
        }
    }

    /// Stops the main loop: the shell observes the flag at the next iteration
    /// boundary, so the current tick still completes.
    pub fn exit(&mut self)
        ensures
            *final(self) == (RainCore { active: false, ..*old(self) }),
    {
        self.active = false;
    }

    /// Accounts one completed frame: accumulates the elapsed time into the
    /// running 1-second timer and bumps the frame counter.  When the timer
    /// reaches a second it is reset keeping the remainder, the counter is
    /// reset, and the counted frame rate is returned so the shell can show it.
    /// Both the timer and the counter saturate rather than wrap.
    pub fn frame_tick(&mut self, elapsed_micros: u64) -> (fps: Option<u32>)
        ensures
            final(self).exit_on_esc == old(self).exit_on_esc,
            final(self).active == old(self).active,
            final(self).render_target == old(self).render_target,
            ({
                let t = old(self).frame_timer_micros as int + elapsed_micros as int;
                let accumulated = if t <= u64::MAX as int {
                    t
                } else {
                    u64::MAX as int
                };
                let counted = if old(self).frame_count as int + 1 <= u32::MAX as int {
                    old(self).frame_count as int + 1
                } else {
                    u32::MAX as int
                };
                if accumulated >= SECOND_MICROS {
                    &&& fps == Some(counted as u32)
                    &&& final(self).frame_timer_micros == accumulated - SECOND_MICROS
                    &&& final(self).frame_count == 0
                } else {
                    &&& fps is None
                    &&& final(self).frame_timer_micros == accumulated
                    &&& final(self).frame_count == counted
                }
            }),
    {
        self.frame_timer_micros = self.frame_timer_micros.saturating_add(elapsed_micros);
        self.frame_count = if self.frame_count < u32::MAX {
            self.frame_count + 1
        } else {
            self.frame_count
        };
        if self.frame_timer_micros >= SECOND_MICROS {
            self.frame_timer_micros = self.frame_timer_micros - SECOND_MICROS;
            let fps = self.frame_count;
            self.frame_count = 0;
            Some(fps)
        } else {
            None
        }
    }

    /// Applies what the host window reported at the end of a tick: the engine
    /// stays active only while the window is open, and, when exit-on-escape
    /// is enabled, only while escape is not down.
    pub fn apply_window_state(&mut self, window_open: bool, escape_down: bool)
        ensures
            final(self).active == (old(self).active && window_open && !(old(self).exit_on_esc
                && escape_down)),
            final(self).exit_on_esc == old(self).exit_on_esc,
            final(self).render_target == old(self).render_target,
            final(self).frame_timer_micros == old(self).frame_timer_micros,
            final(self).frame_count == old(self).frame_count,
    {
        if !window_open {
            self.active = false;
        }
        if self.exit_on_esc && escape_down {
            self.active = false;
        }
    }

    /// Clears the screen with the provided color.
    pub fn clear(&mut self, color: Color)
        requires
            old(self).wf(),
        ensures
            final(self).wf(),
            Self::same_but_pixels(old(self), final(self)),
            forall|i: int|
                0 <= i < final(self).render_target.data@.len()
                    ==> final(self).render_target.data@[i] == pack(color),
    {
        self.render_target.clear(color);
    }

    /// Draws a pixel if the location is in bounds.
    pub fn draw(&mut self, x: i32, y: i32, color: Color)
        requires
            old(self).wf(),
        ensures
            final(self).wf(),
            Self::same_but_pixels(old(self), final(self)),
            Self::only_paints(old(self), final(self), color),
            old(self).render_target.in_bounds(x as int, y as int)
                ==> final(self).render_target.data@ == old(self).render_target.data@.update(
                old(self).render_target.idx(x as int, y as int),
                pack(color),
            ),
            !old(self).render_target.in_bounds(x as int, y as int)
                ==> final(self).render_target == old(self).render_target,
    {
        self.render_target.set_pixel(x, y, color);
    }

    /// Draws a line from `(x1, y1)` to `(x2, y2)`.
    ///
    /// A vertical or horizontal line covers the half-open range between its
    /// endpoints: the pixel nearest the larger coordinate is left out.  Any
    /// other line is stepped from (x1, y1) toward (x2, y2) with integer
    /// error-accumulator stepping, one pixel per step.
    pub fn draw_line(&mut self, x1: i32, y1: i32, x2: i32, y2: i32, color: Color)
        requires
            old(self).wf(),
        ensures
            final(self).wf(),
            Self::same_but_pixels(old(self), final(self)),
            Self::only_paints(old(self), final(self), color),
            Self::paints_set(
                old(self),
                final(self),
                color,
                (|px: int, py: int| line_contains(
                    px,
                    py,
                    x1 as int,
                    y1 as int,
                    x2 as int,
                    y2 as int,
                )),
            ),
    {
        // vertical line
        if x1 == x2 {
            let (ya, yb) = if y2 < y1 {
                (y2, y1)
            } else {
                (y1, y2)
            };
            let mut y = ya;
            while y < yb
                invariant
                    ya <= y <= yb,
                    self.wf(),
                    Self::same_but_pixels(old(self), self),
                    Self::only_paints(old(self), self, color),
                    Self::paints_set(
                        old(self),
                        self,
                        color,
                        (|px: int, py: int| px == x1 as int && ya <= py < y),
                    ),
                decreases yb - y,
            {
                let ghost mid = *self;
                self.draw(x1, y, color);
                proof {
                    Self::lemma_paint_step(
                        old(self),
                        &mid,
                        self,
                        color,
                        (|px: int, py: int| px == x1 as int && ya <= py < y),
                        x1 as int,
                        y as int,
                        (|px: int, py: int| px == x1 as int && ya <= py < y + 1),
                    );
                }
                y = y + 1;
            }
            return;
        }
        // horizontal line
        if y1 == y2 {
            let (xa, xb) = if x2 < x1 {
                (x2, x1)
            } else {
                (x1, x2)
            };
            let mut x = xa;
            while x < xb
                invariant
                    xa <= x <= xb,
                    self.wf(),
                    Self::same_but_pixels(old(self), self),
                    Self::only_paints(old(self), self, color),
                    Self::paints_set(
                        old(self),
                        self,
                        color,
                        (|px: int, py: int| xa <= px < x && py == y1 as int),
                    ),
                decreases xb - x,
            {
                let ghost mid = *self;
                self.draw(x, y1, color);
                proof {
                    Self::lemma_paint_step(
                        old(self),
                        &mid,
                        self,
                        color,
                        (|px: int, py: int| xa <= px < x && py == y1 as int),
                        x as int,
                        y1 as int,
                        (|px: int, py: int| xa <= px < x + 1 && py == y1 as int),
                    );
                }
                x = x + 1;
            }
            return;
        }
        // general case: integer error-accumulator stepping.  The error term
        // starts at dx/2 when the line is shallow and at -dy/2 when it is
        // steep; each step plots the current pixel, then moves x and/or y
        // one pixel toward the far endpoint.  The stepping reaches the far
        // endpoint well within dx + dy steps, which also bounds the loop;
        // the plotted chain is pinned pixel for pixel by the painted-set
        // clause over `line_chain_contains`.
        let dx: i64 = if x2 > x1 {
            x2 as i64 - x1 as i64
        } else {
            x1 as i64 - x2 as i64
        };
        let dy: i64 = if y2 > y1 {
            y2 as i64 - y1 as i64
        } else {
            y1 as i64 - y2 as i64
        };
        let sx: i64 = if x1 < x2 {
            1
        } else {
            -1
        };
        let sy: i64 = if y1 < y2 {
            1
        } else {
            -1
        };
        let mut err: i64 = if dx > dy {
            dx / 2
        } else {
            -(dy / 2)
        };
        let mut x = x1 as i64;
        let mut y = y1 as i64;
        let fuel = dx + dy;
        let mut n: i64 = 0;
        let ghost mut shape: spec_fn(int, int) -> bool = (|px: int, py: int| px == x1 as int
            && py == y1 as int);
        self.render_target.set_pixel_wide(x, y, color);
        proof {
            Self::lemma_paint_step(
                old(self),
                old(self),
                self,
                color,
                (|px: int, py: int| false),
                x1 as int,
                y1 as int,
                shape,
            );
        }
        while !(x == x2 as i64 && y == y2 as i64) && n < fuel
            invariant
                1 <= dx <= 0x1_0000_0000,
                1 <= dy <= 0x1_0000_0000,
                0 <= n <= fuel == dx + dy,
                x1 as int - n <= x <= x1 as int + n,
                y1 as int - n <= y <= y1 as int + n,
                -(dx + dy) <= err <= dx + dy,
                self.wf(),
                Self::same_but_pixels(old(self), self),
                Self::only_paints(old(self), self, color),
                Self::paints_set(old(self), self, color, shape),
                shape(x as int, y as int),
                forall|px: int, py: int|
                    line_contains(px, py, x1 as int, y1 as int, x2 as int, y2 as int) == (shape(
                        px,
                        py,
                    ) || line_chain_contains(
                        px,
                        py,
                        x as int,
                        y as int,
                        err as int,
                        x2 as int,
                        y2 as int,
                        dx as int,
                        dy as int,
                        sx as int,
                        sy as int,
                        fuel - n,
                    )),
            decreases fuel - n,
        {
            let ghost grem = fuel - n;
            let ghost gx = x as int;
            let ghost gy = y as int;
            let ghost gerr = err as int;
            n = n + 1;
            let e2 = err;
            if e2 > -dx {
                err = err - dy;
                x = x + sx;
            }
            if e2 < dy {
                err = err + dx;
                y = y + sy;
            }
            proof {
                assert(line_step(gx, gy, gerr, dx as int, dy as int, sx as int, sy as int) == (
                x as int,
                y as int,
                err as int,
                ));
            }
            let ghost mid = *self;
            let ghost prev_shape = shape;
            proof {
                shape = |px: int, py: int| prev_shape(px, py) || (px == x as int && py
                    == y as int);
            }
            self.render_target.set_pixel_wide(x, y, color);
            proof {
                Self::lemma_paint_step(
                    old(self),
                    &mid,
                    self,
                    color,
                    prev_shape,
                    x as int,
                    y as int,
                    shape,
                );
                assert forall|px: int, py: int|
                    line_contains(px, py, x1 as int, y1 as int, x2 as int, y2 as int) == (shape(
                        px,
                        py,
                    ) || line_chain_contains(
                        px,
                        py,
                        x as int,
                        y as int,
                        err as int,
                        x2 as int,
                        y2 as int,
                        dx as int,
                        dy as int,
                        sx as int,
                        sy as int,
                        fuel - n,
                    )) by {
                    assert(grem - 1 == fuel - n);
                    assert(line_chain_contains(
                        px,
                        py,
                        gx,
                        gy,
                        gerr,
                        x2 as int,
                        y2 as int,
                        dx as int,
                        dy as int,
                        sx as int,
                        sy as int,
                        grem,
                    ) == ((px == gx && py == gy) || line_chain_contains(
                        px,
                        py,
                        x as int,
                        y as int,
                        err as int,
                        x2 as int,
                        y2 as int,
                        dx as int,
                        dy as int,
                        sx as int,
                        sy as int,
                        grem - 1,
                    )));
                }
            }
        }
        proof {
            assert forall|px: int, py: int| old(self).render_target.in_bounds(px, py) implies
                self.render_target.data@[old(self).render_target.idx(px, py)] == (
                if line_contains(px, py, x1 as int, y1 as int, x2 as int, y2 as int) {
                    pack(color)
                } else {
                    old(self).render_target.data@[old(self).render_target.idx(px, py)]
                }) by {
                assert(line_chain_contains(
                    px,
                    py,
                    x as int,
                    y as int,
                    err as int,
                    x2 as int,
                    y2 as int,
                    dx as int,
                    dy as int,
                    sx as int,
                    sy as int,
                    fuel - n,
                ) == (px == x as int && py == y as int));
            }
        }
    }

    /// Draws a circle at `(x, y)` with radius `r` by 8-way symmetric
    /// midpoint stepping; a radius of zero or less draws nothing.
    pub fn draw_circle(&mut self, x: i32, y: i32, r: i32, color: Color)
        requires
            old(self).wf(),
        ensures
            final(self).wf(),
            Self::same_but_pixels(old(self), final(self)),
            Self::only_paints(old(self), final(self), color),
            r <= 0 ==> *final(self) == *old(self),
            r >= 1 ==> Self::paints_set(
                old(self),
                final(self),
                color,
                (|px: int, py: int| ring_contains(
                    px,
                    py,
                    x as int,
                    y as int,
                    0,
                    r as int,
                    3 - 2 * (r as int),
                )),
            ),
    {
        if r <= 0 {
            return;
        }
        let xc = x as i64;
        let yc = y as i64;
        let rr = r as i64;
        let mut x0: i64 = 0;
        let mut y0: i64 = rr;
        let mut d: i128 = 3 - 2 * (rr as i128);
        let ghost d0 = 3 - 2 * (rr as int);
        let ghost mut shape: spec_fn(int, int) -> bool = (|px: int, py: int| false);
        while y0 >= x0
            invariant
                1 <= rr <= 0x8000_0000,
                0 <= x0 <= y0 + 2,
                -2 <= y0 <= rr,
                d == circle_d(x0 as int, y0 as int, rr as int),
                self.wf(),
                Self::same_but_pixels(old(self), self),
                Self::only_paints(old(self), self, color),
                Self::paints_set(old(self), self, color, shape),
                forall|px: int, py: int|
                    ring_contains(px, py, xc as int, yc as int, 0, rr as int, d0) == (shape(
                        px,
                        py,
                    ) || ring_contains(
                        px,
                        py,
                        xc as int,
                        yc as int,
                        x0 as int,
                        y0 as int,
                        d as int,
                    )),
            decreases y0 - x0 + 2,
        {
            let ghost gx0 = x0 as int;
            let ghost gy0 = y0 as int;
            let ghost gd = d as int;
            let ghost mid = *self;
            let ghost prev_shape = shape;
            proof {
                shape = |px: int, py: int| prev_shape(px, py) || circle_step_point(
                    px,
                    py,
                    xc as int,
                    yc as int,
                    gx0,
                    gy0,
                );
            }
            self.render_target.plot_circle_points(xc, yc, x0, y0, color);
            proof {
                assert forall|px: int, py: int|
                    old(self).render_target.in_bounds(px, py) implies
                    self.render_target.data@[old(self).render_target.idx(px, py)] == (if shape(
                        px,
                        py,
                    ) {
                        pack(color)
                    } else {
                        old(self).render_target.data@[old(self).render_target.idx(px, py)]
                    }) by {
                    let i = old(self).render_target.idx(px, py);
                    assert(mid.render_target.idx(px, py) == i);
                    assert(mid.render_target.in_bounds(px, py));
                    assert(self.render_target.data@[i] == if circle_step_point(
                        px,
                        py,
                        xc as int,
                        yc as int,
                        gx0,
                        gy0,
                    ) {
                        pack(color)
                    } else {
                        mid.render_target.data@[i]
                    });
                }
            }
            if d < 0 {
                proof {
                    lemma_circle_d_bound(d as int, x0 as int, y0 as int, rr as int);
                    lemma_circle_step_right(d as int, x0 as int, y0 as int, rr as int);
                }
                d = d + 4 * (x0 as i128) + 6;
                x0 = x0 + 1;
            } else {
                proof {
                    lemma_circle_d_bound(d as int, x0 as int, y0 as int, rr as int);
                    lemma_circle_step_diag(d as int, x0 as int, y0 as int, rr as int);
                }
                x0 = x0 + 1;
                y0 = y0 - 1;
                d = d + 4 * ((x0 - y0) as i128) + 10;
            }
            proof {
                assert forall|px: int, py: int|
                    ring_contains(px, py, xc as int, yc as int, 0, rr as int, d0) == (shape(
                        px,
                        py,
                    ) || ring_contains(
                        px,
                        py,
                        xc as int,
                        yc as int,
                        x0 as int,
                        y0 as int,
                        d as int,
                    )) by {
                    assert(ring_contains(px, py, xc as int, yc as int, gx0, gy0, gd) == (
                    circle_step_point(px, py, xc as int, yc as int, gx0, gy0) || ring_contains(
                        px,
                        py,
                        xc as int,
                        yc as int,
                        x0 as int,
                        y0 as int,
                        d as int,
                    )));
                }
            }
        }
        proof {
            assert forall|px: int, py: int| old(self).render_target.in_bounds(px, py) implies
                self.render_target.data@[old(self).render_target.idx(px, py)] == (
                if ring_contains(px, py, x as int, y as int, 0, r as int, 3 - 2 * (r as int)) {
                    pack(color)
                } else {
                    old(self).render_target.data@[old(self).render_target.idx(px, py)]
                }) by {
                assert(!ring_contains(
                    px,
                    py,
                    xc as int,
                    yc as int,
                    x0 as int,
                    y0 as int,
                    d as int,
                ));
            }
        }
    }

    /// Draws a filled in circle at `(x, y)` with radius `r`: the same
    /// midpoint stepping as [`Self::draw_circle`], but each step draws four
    /// horizontal chords between the symmetric extents instead of eight
    /// points, so the disc comes out solid.  A radius of zero or less draws
    /// nothing, and nothing outside the square of half-width `r` around the
    /// center is touched.
    pub fn fill_circle(&mut self, x: i32, y: i32, r: i32, color: Color)
        requires
            old(self).wf(),
            r >= 1 ==> i32::MIN <= x as int - r && x as int + r <= i32::MAX,
            r >= 1 ==> i32::MIN <= y as int - r && y as int + r <= i32::MAX,
        ensures
            final(self).wf(),
            Self::same_but_pixels(old(self), final(self)),
            Self::only_paints(old(self), final(self), color),
            r <= 0 ==> *final(self) == *old(self),
            r >= 1 ==> Self::paints_set(
                old(self),
                final(self),
                color,
                (|px: int, py: int| disc_contains(
                    px,
                    py,
                    x as int,
                    y as int,
                    0,
                    r as int,
                    3 - 2 * (r as int),
                )),
            ),
            r >= 1 ==> forall|px: int, py: int|
                old(self).render_target.in_bounds(px, py) && !(x as int - r <= px <= x as int + r
                    && y as int - r <= py <= y as int + r)
                    ==> final(self).render_target.data@[old(self).render_target.idx(px, py)]
                    == old(self).render_target.data@[old(self).render_target.idx(px, py)],
    {
        if r <= 0 {
            return;
        }
        let mut x0: i64 = 0;
        let mut y0: i64 = r as i64;
        let mut d: i128 = 3 - 2 * (r as i128);
        let ghost d0 = 3 - 2 * (r as int);
        let ghost mut shape: spec_fn(int, int) -> bool = (|px: int, py: int| false);
        while y0 >= x0
            invariant
                1 <= r,
                i32::MIN <= x as int - r && x as int + r <= i32::MAX,
                i32::MIN <= y as int - r && y as int + r <= i32::MAX,
                0 <= x0 <= y0 + 2,
                -2 <= y0 <= r,
                d == circle_d(x0 as int, y0 as int, r as int),
                self.wf(),
                Self::same_but_pixels(old(self), self),
                Self::only_paints(old(self), self, color),
                Self::paints_set(old(self), self, color, shape),
                forall|px: int, py: int|
                    disc_contains(px, py, x as int, y as int, 0, r as int, d0) == (shape(px, py)
                        || disc_contains(
                        px,
                        py,
                        x as int,
                        y as int,
                        x0 as int,
                        y0 as int,
                        d as int,
                    )),
            decreases y0 - x0 + 2,
        {
            let ghost gx0 = x0 as int;
            let ghost gy0 = y0 as int;
            let ghost gd = d as int;
            let left_near = (x as i64 - x0) as i32;
            let right_near = (x as i64 + x0) as i32;
            let left_far = (x as i64 - y0) as i32;
            let right_far = (x as i64 + y0) as i32;
            let row_up_near = (y as i64 - x0) as i32;
            let row_down_near = (y as i64 + x0) as i32;
            let row_up_far = (y as i64 - y0) as i32;
            let row_down_far = (y as i64 + y0) as i32;
            let ghost prev_shape = shape;
            proof {
                shape = |px: int, py: int| prev_shape(px, py) || disc_chords_contains(
                    px,
                    py,
                    x as int,
                    y as int,
                    gx0,
                    gy0,
                );
            }
            let ghost c0 = *self;
            self.draw_line(left_near, row_up_far, right_near, row_up_far, color);
            let ghost c1 = *self;
            self.draw_line(left_far, row_up_near, right_far, row_up_near, color);
            let ghost c2 = *self;
            self.draw_line(left_near, row_down_far, right_near, row_down_far, color);
            let ghost c3 = *self;
            self.draw_line(left_far, row_down_near, right_far, row_down_near, color);
            proof {
                assert forall|px: int, py: int|
                    old(self).render_target.in_bounds(px, py) implies
                    self.render_target.data@[old(self).render_target.idx(px, py)] == (if shape(
                        px,
                        py,
                    ) {
                        pack(color)
                    } else {
                        old(self).render_target.data@[old(self).render_target.idx(px, py)]
                    }) by {
                    let i = old(self).render_target.idx(px, py);
                    assert(c0.render_target.idx(px, py) == i);
                    assert(c1.render_target.idx(px, py) == i);
                    assert(c2.render_target.idx(px, py) == i);
                    assert(c3.render_target.idx(px, py) == i);
                    assert(line_contains(
                        px,
                        py,
                        left_near as int,
                        row_up_far as int,
                        right_near as int,
                        row_up_far as int,
                    ) == hline_contains(
                        px,
                        py,
                        x as int - gx0,
                        x as int + gx0,
                        y as int - gy0,
                    ));
                    assert(line_contains(
                        px,
                        py,
                        left_far as int,
                        row_up_near as int,
                        right_far as int,
                        row_up_near as int,
                    ) == hline_contains(
                        px,
                        py,
                        x as int - gy0,
                        x as int + gy0,
                        y as int - gx0,
                    ));
                    assert(line_contains(
                        px,
                        py,
                        left_near as int,
                        row_down_far as int,
                        right_near as int,
                        row_down_far as int,
                    ) == hline_contains(
                        px,
                        py,
                        x as int - gx0,
                        x as int + gx0,
                        y as int + gy0,
                    ));
                    assert(line_contains(
                        px,
                        py,
                        left_far as int,
                        row_down_near as int,
                        right_far as int,
                        row_down_near as int,
                    ) == hline_contains(
                        px,
                        py,
                        x as int - gy0,
                        x as int + gy0,
                        y as int + gx0,
                    ));
                    assert(c1.render_target.data@[i] == if line_contains(
                        px,
                        py,
                        left_near as int,
                        row_up_far as int,
                        right_near as int,
                        row_up_far as int,
                    ) {
                        pack(color)
                    } else {
                        c0.render_target.data@[i]
                    });
                    assert(c2.render_target.data@[i] == if line_contains(
                        px,
                        py,
                        left_far as int,
                        row_up_near as int,
                        right_far as int,
                        row_up_near as int,
                    ) {
                        pack(color)
                    } else {
                        c1.render_target.data@[i]
                    });
                    assert(c3.render_target.data@[i] == if line_contains(
                        px,
                        py,
                        left_near as int,
                        row_down_far as int,
                        right_near as int,
                        row_down_far as int,
                    ) {
                        pack(color)
                    } else {
                        c2.render_target.data@[i]
                    });
                    assert(self.render_target.data@[i] == if line_contains(
                        px,
                        py,
                        left_far as int,
                        row_down_near as int,
                        right_far as int,
                        row_down_near as int,
                    ) {
                        pack(color)
                    } else {
                        c3.render_target.data@[i]
                    });
                }
            }
            if d < 0 {
                proof {
                    lemma_circle_d_bound(d as int, x0 as int, y0 as int, r as int);
                    lemma_circle_step_right(d as int, x0 as int, y0 as int, r as int);
                }
                d = d + 4 * (x0 as i128) + 6;
                x0 = x0 + 1;
            } else {
                proof {
                    lemma_circle_d_bound(d as int, x0 as int, y0 as int, r as int);
                    lemma_circle_step_diag(d as int, x0 as int, y0 as int, r as int);
                }
                x0 = x0 + 1;
                y0 = y0 - 1;
                d = d + 4 * ((x0 - y0) as i128) + 10;
            }
            proof {
                assert forall|px: int, py: int|
                    disc_contains(px, py, x as int, y as int, 0, r as int, d0) == (shape(px, py)
                        || disc_contains(
                        px,
                        py,
                        x as int,
                        y as int,
                        x0 as int,
                        y0 as int,
                        d as int,
                    )) by {
                    assert(disc_contains(px, py, x as int, y as int, gx0, gy0, gd) == (
                    disc_chords_contains(px, py, x as int, y as int, gx0, gy0) || disc_contains(
                        px,
                        py,
                        x as int,
                        y as int,
                        x0 as int,
                        y0 as int,
                        d as int,
                    )));
                }
            }
        }
        proof {
            assert forall|px: int, py: int| old(self).render_target.in_bounds(px, py) implies
                self.render_target.data@[old(self).render_target.idx(px, py)] == (
                if disc_contains(px, py, x as int, y as int, 0, r as int, 3 - 2 * (r as int)) {
                    pack(color)
                } else {
                    old(self).render_target.data@[old(self).render_target.idx(px, py)]
                }) by {
                assert(!disc_contains(
                    px,
                    py,
                    x as int,
                    y as int,
                    x0 as int,
                    y0 as int,
                    d as int,
                ));
            }
            assert forall|px: int, py: int|
                old(self).render_target.in_bounds(px, py) && !(x as int - r <= px <= x as int + r
                    && y as int - r <= py <= y as int + r) implies
                self.render_target.data@[old(self).render_target.idx(px, py)] == old(
                self).render_target.data@[old(self).render_target.idx(px, py)] by {
                if disc_contains(px, py, x as int, y as int, 0, r as int, 3 - 2 * (r as int)) {
                    lemma_disc_in_box(
                        px,
                        py,
                        x as int,
                        y as int,
                        0,
                        r as int,
                        3 - 2 * (r as int),
                        r as int,
                    );
                }
            }
        }
    }

    /// Draws a rectangle outline at `(x, y)` with the specified dimensions:
    /// four half-open edge segments drawn top, right, bottom, left.
    pub fn draw_rect(&mut self, x: i32, y: i32, width: i32, height: i32, color: Color)
        requires
            old(self).wf(),
            i32::MIN <= x as int + width as int <= i32::MAX,
            i32::MIN <= y as int + height as int <= i32::MAX,
        ensures
            final(self).wf(),
            Self::same_but_pixels(old(self), final(self)),
            Self::only_paints(old(self), final(self), color),
            Self::paints_set(
                old(self),
                final(self),
                color,
                (|px: int, py: int| rect_outline_contains(
                    px,
                    py,
                    x as int,
                    y as int,
                    width as int,
                    height as int,
                )),
            ),
    {
        let ghost c0 = *self;
        self.draw_line(x, y, x + width, y, color);
        let ghost c1 = *self;
        self.draw_line(x + width, y, x + width, y + height, color);
        let ghost c2 = *self;
        self.draw_line(x + width, y + height, x, y + height, color);
        let ghost c3 = *self;
        self.draw_line(x, y + height, x, y, color);
        proof {
            assert forall|px: int, py: int| old(self).render_target.in_bounds(px, py) implies
                self.render_target.data@[old(self).render_target.idx(px, py)] == (
                if rect_outline_contains(px, py, x as int, y as int, width as int, height as int) {
                    pack(color)
                } else {
                    old(self).render_target.data@[old(self).render_target.idx(px, py)]
                }) by {
                let i = old(self).render_target.idx(px, py);
                assert(c0.render_target.idx(px, py) == i);
                assert(c1.render_target.idx(px, py) == i);
                assert(c2.render_target.idx(px, py) == i);
                assert(c3.render_target.idx(px, py) == i);
                assert(c1.render_target.data@[i] == if hline_contains(
                    px,
                    py,
                    x as int,
                    x as int + width as int,
                    y as int,
                ) {
                    pack(color)
                } else {
                    c0.render_target.data@[i]
                });
                assert(c2.render_target.data@[i] == if vline_contains(
                    px,
                    py,
                    x as int + width as int,
                    y as int,
                    y as int + height as int,
                ) {
                    pack(color)
                } else {
                    c1.render_target.data@[i]
                });
                assert(c3.render_target.data@[i] == if hline_contains(
                    px,
                    py,
                    x as int,
                    x as int + width as int,
                    y as int + height as int,
                ) {
                    pack(color)
                } else {
                    c2.render_target.data@[i]
                });
                assert(self.render_target.data@[i] == if vline_contains(
                    px,
                    py,
                    x as int,
                    y as int,
                    y as int + height as int,
                ) {
                    pack(color)
                } else {
                    c3.render_target.data@[i]
                });
            }
        }
    }

    /// Draws a filled in rectangle at `(x, y)` with the specified
    /// dimensions: every pixel with x in `[x, x + width)` and y in
    /// `[y, y + height)`, written cell by cell.
    pub fn fill_rect(&mut self, x: i32, y: i32, width: i32, height: i32, color: Color)
        requires
            old(self).wf(),
        ensures
            final(self).wf(),
            Self::same_but_pixels(old(self), final(self)),
            Self::only_paints(old(self), final(self), color),
            Self::paints_set(
                old(self),
                final(self),
                color,
                (|px: int, py: int| rect_contains(
                    px,
                    py,
                    x as int,
                    y as int,
                    width as int,
                    height as int,
                )),
            ),
    {
        let x_max: i64 = x as i64 + width as i64;
        let y_max: i64 = y as i64 + height as i64;
        let mut i: i64 = x as i64;
        while i < x_max
            invariant
                x as int <= i,
                i <= x_max || i == x as int,
                self.wf(),
                Self::same_but_pixels(old(self), self),
                Self::only_paints(old(self), self, color),
                Self::paints_set(
                    old(self),
                    self,
                    color,
                    (|px: int, py: int| x as int <= px < i && y as int <= py < y as int
                        + height as int),
                ),
            decreases x_max - i,
        {
            let mut j: i64 = y as i64;
            while j < y_max
                invariant
                    y as int <= j,
                    j <= y_max || j == y as int,
                    x as int <= i < x_max,
                    self.wf(),
                    Self::same_but_pixels(old(self), self),
                    Self::only_paints(old(self), self, color),
                    Self::paints_set(
                        old(self),
                        self,
                        color,
                        (|px: int, py: int| (x as int <= px < i && y as int <= py < y as int
                            + height as int) || (px == i && y as int <= py < j)),
                    ),
                decreases y_max - j,
            {
                let ghost mid = *self;
                self.render_target.set_pixel_wide(i, j, color);
                proof {
                    Self::lemma_paint_step(
                        old(self),
                        &mid,
                        self,
                        color,
                        (|px: int, py: int| (x as int <= px < i && y as int <= py < y as int
                            + height as int) || (px == i && y as int <= py < j)),
                        i as int,
                        j as int,
                        (|px: int, py: int| (x as int <= px < i && y as int <= py < y as int
                            + height as int) || (px == i && y as int <= py < j + 1)),
                    );
                }
                j = j + 1;
            }
            i = i + 1;
        }
    }

    /// Fills a flat-bottom triangle: apex `(x1, y1)` on top, base endpoints
    /// `(x2, y2)` and `(x3, y3)` sharing the base row.  Each scanline from
    /// the apex row to the base row spans the half-open range between the
    /// two interpolated, rounded edge positions.
    fn fill_triangle_bottom(
        &mut self,
        x1: i32,
        y1: i32,
        x2: i32,
        y2: i32,
        x3: i32,
        y3: i32,
        color: Color,
    )
        requires
            old(self).wf(),
            y1 <= y2,
            y2 == y3,
        ensures
            final(self).wf(),
            Self::same_but_pixels(old(self), final(self)),
            Self::only_paints(old(self), final(self), color),
            Self::paints_set(
                old(self),
                final(self),
                color,
                (|px: int, py: int| flat_bottom_contains(
                    px,
                    py,
                    x1 as int,
                    y1 as int,
                    x2 as int,
                    x3 as int,
                    y2 as int,
                )),
            ),
    {
        if y1 == y2 {
            // the apex sits on the base row: every scanline span is empty
            return;
        }
        let q: i64 = y2 as i64 - y1 as i64;
        let mut py: i64 = y1 as i64;
        while py <= y2 as i64
            invariant
                y1 as int <= py <= y2 as int + 1,
                q == y2 as int - y1 as int,
                1 <= q <= 0x1_0000_0000,
                self.wf(),
                Self::same_but_pixels(old(self), self),
                Self::only_paints(old(self), self, color),
                Self::paints_set(
                    old(self),
                    self,
                    color,
                    (|px2: int, py2: int| py2 < py && flat_bottom_contains(
                        px2,
                        py2,
                        x1 as int,
                        y1 as int,
                        x2 as int,
                        x3 as int,
                        y2 as int,
                    )),
                ),
            decreases y2 as int - py + 1,
        {
            let k: i64 = py - y1 as i64;
            proof {
                lemma_mul_magnitude((q - k) as int, x1 as int, 0x1_0000_0000, 0x8000_0000);
                lemma_mul_magnitude(k as int, x2 as int, 0x1_0000_0000, 0x8000_0000);
                lemma_mul_magnitude(k as int, x3 as int, 0x1_0000_0000, 0x8000_0000);
                assert(((q - k) as int) * (x1 as int) == (x1 as int) * ((q - k) as int))
                    by (nonlinear_arith);
                assert((k as int) * (x2 as int) == (x2 as int) * (k as int)) by (nonlinear_arith);
                assert((k as int) * (x3 as int) == (x3 as int) * (k as int)) by (nonlinear_arith);
                lemma_edge_x_in_range(x1 as int, x2 as int, k as int, q as int);
                lemma_edge_x_in_range(x1 as int, x3 as int, k as int, q as int);
            }
            let apex_part: i128 = (x1 as i128) * ((q - k) as i128);
            let xs = round_div(apex_part + (x2 as i128) * (k as i128), q as i128) as i32;
            let xe = round_div(apex_part + (x3 as i128) * (k as i128), q as i128) as i32;
            proof {
                assert(xs as int == edge_x(x1 as int, x2 as int, k as int, q as int));
                assert(xe as int == edge_x(x1 as int, x3 as int, k as int, q as int));
            }
            let ghost mid = *self;
            self.draw_line(xs, py as i32, xe, py as i32, color);
            proof {
                assert forall|px2: int, py2: int|
                    old(self).render_target.in_bounds(px2, py2) implies
                    self.render_target.data@[old(self).render_target.idx(px2, py2)] == (if py2
                        < py + 1 && flat_bottom_contains(
                        px2,
                        py2,
                        x1 as int,
                        y1 as int,
                        x2 as int,
                        x3 as int,
                        y2 as int,
                    ) {
                        pack(color)
                    } else {
                        old(self).render_target.data@[old(self).render_target.idx(px2, py2)]
                    }) by {
                    let i = old(self).render_target.idx(px2, py2);
                    assert(mid.render_target.idx(px2, py2) == i);
                    if xs == xe {
                        assert(self.render_target.data@[i] == if vline_contains(
                            px2,
                            py2,
                            xs as int,
                            py as int,
                            py as int,
                        ) {
                            pack(color)
                        } else {
                            mid.render_target.data@[i]
                        });
                    } else {
                        assert(self.render_target.data@[i] == if hline_contains(
                            px2,
                            py2,
                            xs as int,
                            xe as int,
                            py as int,
                        ) {
                            pack(color)
                        } else {
                            mid.render_target.data@[i]
                        });
                    }
                }
            }
            py = py + 1;
        }
    }

    /// Fills a flat-top triangle: base endpoints `(x1, y1)` and `(x2, y2)`
    /// sharing the top row, apex `(x3, y3)` below.  Scanlines run from the
    /// apex row up to the base row, interpolating both edges from the apex.
    fn fill_triangle_top(
        &mut self,
        x1: i32,
        y1: i32,
        x2: i32,
        y2: i32,
        x3: i32,
        y3: i32,
        color: Color,
    )
        requires
            old(self).wf(),
            y1 == y2,
            y1 <= y3,
        ensures
            final(self).wf(),
            Self::same_but_pixels(old(self), final(self)),
            Self::only_paints(old(self), final(self), color),
            Self::paints_set(
                old(self),
                final(self),
                color,
                (|px: int, py: int| flat_top_contains(
                    px,
                    py,
                    x1 as int,
                    x2 as int,
                    y1 as int,
                    x3 as int,
                    y3 as int,
                )),
            ),
    {
        if y1 == y3 {
            // the apex sits on the base row: every scanline span is empty
            return;
        }
        let q: i64 = y3 as i64 - y1 as i64;
        let mut py: i64 = y3 as i64;
        while py >= y1 as i64
            invariant
                y1 as int - 1 <= py <= y3 as int,
                q == y3 as int - y1 as int,
                1 <= q <= 0x1_0000_0000,
                self.wf(),
                Self::same_but_pixels(old(self), self),
                Self::only_paints(old(self), self, color),
                Self::paints_set(
                    old(self),
                    self,
                    color,
                    (|px2: int, py2: int| py2 > py && flat_top_contains(
                        px2,
                        py2,
                        x1 as int,
                        x2 as int,
                        y1 as int,
                        x3 as int,
                        y3 as int,
                    )),
                ),
            decreases py - y1 as int + 1,
        {
            let m: i64 = y3 as i64 - py;
            proof {
                lemma_mul_magnitude((q - m) as int, x3 as int, 0x1_0000_0000, 0x8000_0000);
                lemma_mul_magnitude(m as int, x1 as int, 0x1_0000_0000, 0x8000_0000);
                lemma_mul_magnitude(m as int, x2 as int, 0x1_0000_0000, 0x8000_0000);
                assert(((q - m) as int) * (x3 as int) == (x3 as int) * ((q - m) as int))
                    by (nonlinear_arith);
                assert((m as int) * (x1 as int) == (x1 as int) * (m as int)) by (nonlinear_arith);
                assert((m as int) * (x2 as int) == (x2 as int) * (m as int)) by (nonlinear_arith);
                lemma_edge_x_in_range(x3 as int, x1 as int, m as int, q as int);
                lemma_edge_x_in_range(x3 as int, x2 as int, m as int, q as int);
            }
            let apex_part: i128 = (x3 as i128) * ((q - m) as i128);
            let xs = round_div(apex_part + (x1 as i128) * (m as i128), q as i128) as i32;
            let xe = round_div(apex_part + (x2 as i128) * (m as i128), q as i128) as i32;
            proof {
                assert(xs as int == edge_x(x3 as int, x1 as int, m as int, q as int));
                assert(xe as int == edge_x(x3 as int, x2 as int, m as int, q as int));
            }
            let ghost mid = *self;
            self.draw_line(xs, py as i32, xe, py as i32, color);
            proof {
                assert forall|px2: int, py2: int|
                    old(self).render_target.in_bounds(px2, py2) implies
                    self.render_target.data@[old(self).render_target.idx(px2, py2)] == (if py2
                        > py - 1 && flat_top_contains(
                        px2,
                        py2,
                        x1 as int,
                        x2 as int,
                        y1 as int,
                        x3 as int,
                        y3 as int,
                    ) {
                        pack(color)
                    } else {
                        old(self).render_target.data@[old(self).render_target.idx(px2, py2)]
                    }) by {
                    let i = old(self).render_target.idx(px2, py2);
                    assert(mid.render_target.idx(px2, py2) == i);
                    if xs == xe {
                        assert(self.render_target.data@[i] == if vline_contains(
                            px2,
                            py2,
                            xs as int,
                            py as int,
                            py as int,
                        ) {
                            pack(color)
                        } else {
                            mid.render_target.data@[i]
                        });
                    } else {
                        assert(self.render_target.data@[i] == if hline_contains(
                            px2,
                            py2,
                            xs as int,
                            xe as int,
                            py as int,
                        ) {
                            pack(color)
                        } else {
                            mid.render_target.data@[i]
                        });
                    }
                }
            }
            py = py - 1;
        }
    }

    /// Fills a triangle with vertices `(x1, y1)`, `(x2, y2)` and `(x3, y3)`:
    /// the vertices are sorted by ascending y; a flat-bottom or flat-top
    /// triangle is filled by scanlines directly, and any other triangle is
    /// split at the middle vertex's row into a flat-bottom and a flat-top
    /// part meeting at the interpolated column on the long edge.
    pub fn fill_triangle(
        &mut self,
        x1: i32,
        y1: i32,
        x2: i32,
        y2: i32,
        x3: i32,
        y3: i32,
        color: Color,
    )
        requires
            old(self).wf(),
        ensures
            final(self).wf(),
            Self::same_but_pixels(old(self), final(self)),
            Self::only_paints(old(self), final(self), color),
            Self::paints_set(
                old(self),
                final(self),
                color,
                (|px: int, py: int| fill_triangle_contains(
                    px,
                    py,
                    x1 as int,
                    y1 as int,
                    x2 as int,
                    y2 as int,
                    x3 as int,
                    y3 as int,
                )),
            ),
    {
        // sort the vertices by ascending y
        let (ax1, ay1, ax2, ay2) = if y1 > y2 {
            (x2, y2, x1, y1)
        } else {
            (x1, y1, x2, y2)
        };
        let (bx1, by1, bx3, by3) = if ay1 > y3 {
            (x3, y3, ax1, ay1)
        } else {
            (ax1, ay1, x3, y3)
        };
        let (cx2, cy2, cx3, cy3) = if ay2 > by3 {
            (bx3, by3, ax2, ay2)
        } else {
            (ax2, ay2, bx3, by3)
        };
        proof {
            assert(sort_tri(x1 as int, y1 as int, x2 as int, y2 as int, x3 as int, y3 as int)
                == (bx1 as int, by1 as int, cx2 as int, cy2 as int, cx3 as int, cy3 as int));
        }
        if cy2 == cy3 {
            // flat bottom triangle
            self.fill_triangle_bottom(bx1, by1, cx2, cy2, cx3, cy3, color);
        } else if by1 == cy2 {
            // flat top triangle
            self.fill_triangle_top(bx1, by1, cx2, cy2, cx3, cy3, color);
        } else {
            // split the triangle at the middle vertex's row and fill both
            // halves; the split column sits on the edge from the topmost to
            // the bottommost vertex, interpolated and rounded the same way
            // as every scanline
            let qs: i64 = cy3 as i64 - by1 as i64;
            let ks: i64 = cy2 as i64 - by1 as i64;
            let dxs: i64 = cx3 as i64 - bx1 as i64;
            proof {
                lemma_mul_magnitude(ks as int, dxs as int, 0x1_0000_0000, 0x1_0000_0000);
                lemma_rdiv_in_range(dxs as int, ks as int, qs as int);
            }
            let x4 = (bx1 as i128 + round_div((ks as i128) * (dxs as i128), qs as i128)) as i32;
            self.fill_triangle_bottom(bx1, by1, cx2, cy2, x4, cy2, color);
            let ghost mid = *self;
            self.fill_triangle_top(cx2, cy2, x4, cy2, cx3, cy3, color);
            proof {
                assert forall|px: int, py: int|
                    old(self).render_target.in_bounds(px, py) implies
                    self.render_target.data@[old(self).render_target.idx(px, py)] == (
                    if fill_triangle_contains(
                        px,
                        py,
                        x1 as int,
                        y1 as int,
                        x2 as int,
                        y2 as int,
                        x3 as int,
                        y3 as int,
                    ) {
                        pack(color)
                    } else {
                        old(self).render_target.data@[old(self).render_target.idx(px, py)]
                    }) by {
                    let i = old(self).render_target.idx(px, py);
                    assert(mid.render_target.idx(px, py) == i);
                }
            }
        }
    }

    /// Draws a triangle outline with vertices `(x1, y1)`, `(x2, y2)` and
    /// `(x3, y3)`: one line per edge, drawn p1 to p2, p2 to p3, p3 to p1.
    /// The painted set is exactly the union of the three edge lines.
    pub fn draw_triangle(
        &mut self,
        x1: i32,
        y1: i32,
        x2: i32,
        y2: i32,
        x3: i32,
        y3: i32,
        color: Color,
    )
        requires
            old(self).wf(),
        ensures
            final(self).wf(),
            Self::same_but_pixels(old(self), final(self)),
            Self::only_paints(old(self), final(self), color),
            Self::paints_set(
                old(self),
                final(self),
                color,
                (|px: int, py: int| {
                    ||| line_contains(px, py, x1 as int, y1 as int, x2 as int, y2 as int)
                    ||| line_contains(px, py, x2 as int, y2 as int, x3 as int, y3 as int)
                    ||| line_contains(px, py, x3 as int, y3 as int, x1 as int, y1 as int)
                }),
            ),
    {
        let ghost c0 = *self;
        self.draw_line(x1, y1, x2, y2, color);
        let ghost c1 = *self;
        self.draw_line(x2, y2, x3, y3, color);
        let ghost c2 = *self;
        self.draw_line(x3, y3, x1, y1, color);
        proof {
            assert forall|px: int, py: int| old(self).render_target.in_bounds(px, py) implies
                self.render_target.data@[old(self).render_target.idx(px, py)] == (
                if line_contains(px, py, x1 as int, y1 as int, x2 as int, y2 as int)
                    || line_contains(px, py, x2 as int, y2 as int, x3 as int, y3 as int)
                    || line_contains(px, py, x3 as int, y3 as int, x1 as int, y1 as int) {
                    pack(color)
                } else {
                    old(self).render_target.data@[old(self).render_target.idx(px, py)]
                }) by {
                let i = old(self).render_target.idx(px, py);
                assert(c0.render_target.idx(px, py) == i);
                assert(c1.render_target.idx(px, py) == i);
                assert(c2.render_target.idx(px, py) == i);
                assert(c1.render_target.data@[i] == if line_contains(
                    px,
                    py,
                    x1 as int,
                    y1 as int,
                    x2 as int,
                    y2 as int,
                ) {
                    pack(color)
                } else {
                    c0.render_target.data@[i]
                });
                assert(c2.render_target.data@[i] == if line_contains(
                    px,
                    py,
                    x2 as int,
                    y2 as int,
                    x3 as int,
                    y3 as int,
                ) {
                    pack(color)
                } else {
                    c1.render_target.data@[i]
                });
                assert(self.render_target.data@[i] == if line_contains(
                    px,
                    py,
                    x3 as int,
                    y3 as int,
                    x1 as int,
                    y1 as int,
                ) {
                    pack(color)
                } else {
                    c2.render_target.data@[i]
                });
            }
        }
    }
}

} // verus!
