//! The frame buffer: a flat, row-major surface of packed pixels.

use vstd::prelude::*;

use crate::color::{lemma_unpack_pack, pack, unpack, Color};
use crate::raster::circle_step_point;

verus! {

/// A pixel surface with a fixed width and height.  The storage is a flat,
/// row-major sequence of packed pixel values whose length is always exactly
/// `width * height`; (0, 0) is the top-left corner, x grows rightward and
/// y grows downward.
pub struct RenderTarget {
    /// Width of the surface in pixels; fixed at construction.
    pub width: usize,
    /// Height of the surface in pixels; fixed at construction.
    pub height: usize,
    /// The packed pixels, row by row.
    pub data: Vec<u32>,
}

/// The storage index of the pixel at (x, y) on a surface of width `w`.
pub open spec fn pixel_index(w: int, x: int, y: int) -> int {
    x + y * w
}

/// Row-major order sends distinct in-bounds coordinates to distinct indices,
/// and every index it produces lies inside the storage.
pub proof fn lemma_pixel_index(w: int, h: int, x: int, y: int)
    by (nonlinear_arith)
    requires
        0 <= x < w,
        0 <= y < h,
    ensures
        0 <= pixel_index(w, x, y) < w * h,
        forall|x2: int, y2: int|
            0 <= x2 < w && 0 <= y2 < h && pixel_index(w, x2, y2) == pixel_index(w, x, y)
                ==> x2 == x && y2 == y,
{
}

/// Every element of `post` either kept its value from `pre` or was
/// overwritten with the packed value of `c`.
pub open spec fn writes_only(pre: Seq<u32>, post: Seq<u32>, c: Color) -> bool {
    &&& post.len() == pre.len()
    &&& forall|i: int| 0 <= i < pre.len() ==> post[i] == pre[i] || post[i] == pack(c)
}

impl RenderTarget {
    /// The surface is well formed: the storage length matches the dimensions,
    /// and each dimension fits the signed 32-bit coordinate range.
    pub open spec fn wf(&self) -> bool {
        &&& self.data@.len() == self.width * self.height
        &&& self.width * self.height <= usize::MAX
        &&& self.width <= i32::MAX
        &&& self.height <= i32::MAX
    }

    /// Whether (x, y) lies on the surface.
    pub open spec fn in_bounds(&self, x: int, y: int) -> bool {
        0 <= x < self.width && 0 <= y < self.height
    }

    /// The storage index of (x, y).
    pub open spec fn idx(&self, x: int, y: int) -> int {
        pixel_index(self.width as int, x, y)
    }

    /// The color stored at (x, y), or nothing when (x, y) is off the surface.
    pub open spec fn pixel_at(&self, x: int, y: int) -> Option<Color> {
        if self.in_bounds(x, y) {
            Some(unpack(self.data@[self.idx(x, y)]))
        } else {
            None
        }
    }

    /// The two surfaces have the same dimensions.
    pub open spec fn same_dims(&self, other: &RenderTarget) -> bool {
        self.width == other.width && self.height == other.height
    }

    /// Allocates a surface of the given dimensions with every pixel set to
    /// the packed value of transparent black, which is 0.
    pub fn new(width: usize, height: usize) -> (target: RenderTarget)
        requires
            width * height <= usize::MAX,
            width <= i32::MAX,
            height <= i32::MAX,
        ensures
            target.wf(),
            target.width == width,
            target.height == height,
            forall|i: int| 0 <= i < target.data@.len() ==> target.data@[i] == 0u32,
    {
        RenderTarget { width, height, data: vec![0u32; width * height] }
    }

    /// Overwrites every pixel of the surface with the packed value of `color`.
    pub fn clear(&mut self, color: Color)
        requires
            old(self).wf(),
        ensures
            final(self).wf(),
            old(self).same_dims(final(self)),
            final(self).data@.len() == old(self).data@.len(),
            forall|i: int|
                0 <= i < final(self).data@.len() ==> final(self).data@[i] == pack(color),
    {
        let v = color.to_u32();
        let n = self.data.len();
        for i in 0..n
            invariant
                self.data@.len() == n,
                self.width == old(self).width,
                self.height == old(self).height,
                forall|j: int| 0 <= j < i ==> self.data@[j] == pack(color),
        {
            self.data.set(i, v);
        }
    }

    /// Writes the packed value of `color` at (x, y) when (x, y) is on the
    /// surface; off-surface writes are silently dropped.
    pub fn set_pixel(&mut self, x: i32, y: i32, color: Color)
        requires
            old(self).wf(),
        ensures
            final(self).wf(),
            old(self).same_dims(final(self)),
            writes_only(old(self).data@, final(self).data@, color),
            old(self).in_bounds(x as int, y as int) ==> final(self).data@
                == old(self).data@.update(old(self).idx(x as int, y as int), pack(color)),
            !old(self).in_bounds(x as int, y as int) ==> *final(self) == *old(self),
            forall|px: int, py: int|
                final(self).pixel_at(px, py) == if px == x && py == y
                    && old(self).in_bounds(px, py) {
                    Some(color)
                } else {
                    old(self).pixel_at(px, py)
                },
    {
        self.set_pixel_wide(x as i64, y as i64, color);
        proof {
            lemma_unpack_pack(color);
            let w = self.width as int;
            let h = self.height as int;
            assert forall|px: int, py: int|
                self.pixel_at(px, py) == if px == x && py == y && old(self).in_bounds(px, py) {
                    Some(color)
                } else {
                    old(self).pixel_at(px, py)
                } by {
                if old(self).in_bounds(x as int, y as int) {
                    lemma_pixel_index(w, h, x as int, y as int);
                }
                if old(self).in_bounds(px, py) {
                    lemma_pixel_index(w, h, px, py);
                }
            }
        }
    }

    /// The same write as [`Self::set_pixel`], for coordinates that may have
    /// left the 32-bit range during stepping; such coordinates are always off
    /// the surface and are dropped like any other out-of-bounds write.
    pub(crate) fn set_pixel_wide(&mut self, x: i64, y: i64, color: Color)
        requires
            old(self).wf(),
        ensures
            final(self).wf(),
            old(self).same_dims(final(self)),
            writes_only(old(self).data@, final(self).data@, color),
            old(self).in_bounds(x as int, y as int) ==> final(self).data@
                == old(self).data@.update(old(self).idx(x as int, y as int), pack(color)),
            !old(self).in_bounds(x as int, y as int) ==> *final(self) == *old(self),
    {
        if x >= 0 && x < self.width as i64 && y >= 0 && y < self.height as i64 {
            proof {
                lemma_pixel_index(self.width as int, self.height as int, x as int, y as int);
            }
            let i = (x as usize) + (y as usize) * self.width;
            let v = color.to_u32();
            self.data.set(i, v);
        }
    }

    /// Writes the packed value of `color` at all eight symmetric points of
    /// the midpoint circle step (x0, y0) around the center (xc, yc), each
    /// clipped like any other pixel write.
    pub(crate) fn plot_circle_points(&mut self, xc: i64, yc: i64, x0: i64, y0: i64, color: Color)
        requires
            old(self).wf(),
            -0x2_0000_0000 <= xc <= 0x2_0000_0000,
            -0x2_0000_0000 <= yc <= 0x2_0000_0000,
            -0x2_0000_0000 <= x0 <= 0x2_0000_0000,
            -0x2_0000_0000 <= y0 <= 0x2_0000_0000,
        ensures
            final(self).wf(),
            old(self).same_dims(final(self)),
            writes_only(old(self).data@, final(self).data@, color),
            forall|px: int, py: int|
                old(self).in_bounds(px, py) ==> final(self).data@[old(self).idx(px, py)]
                    == if circle_step_point(px, py, xc as int, yc as int, x0 as int, y0 as int) {
                    pack(color)
                } else {
                    old(self).data@[old(self).idx(px, py)]
                },
    {
        let ghost w = self.width as int;
        let ghost h = self.height as int;
        let ghost c0 = *self;
        self.set_pixel_wide(xc + x0, yc - y0, color);
        let ghost c1 = *self;
        self.set_pixel_wide(xc + y0, yc - x0, color);
        let ghost c2 = *self;
        self.set_pixel_wide(xc + y0, yc + x0, color);
        let ghost c3 = *self;
        self.set_pixel_wide(xc + x0, yc + y0, color);
        let ghost c4 = *self;
        self.set_pixel_wide(xc - x0, yc - y0, color);
        let ghost c5 = *self;
        self.set_pixel_wide(xc - y0, yc - x0, color);
        let ghost c6 = *self;
        self.set_pixel_wide(xc - y0, yc + x0, color);
        let ghost c7 = *self;
        self.set_pixel_wide(xc - x0, yc + y0, color);
        proof {
            assert forall|px: int, py: int| old(self).in_bounds(px, py) implies self.data@[old(
                self,
            ).idx(px, py)] == (if circle_step_point(
                px,
                py,
                xc as int,
                yc as int,
                x0 as int,
                y0 as int,
            ) {
                pack(color)
            } else {
                old(self).data@[old(self).idx(px, py)]
            }) by {
                lemma_pixel_index(w, h, px, py);
                let i = old(self).idx(px, py);
                if old(self).in_bounds(xc + x0, yc - y0) {
                    lemma_pixel_index(w, h, xc + x0, yc - y0);
                }
                if old(self).in_bounds(xc + y0, yc - x0) {
                    lemma_pixel_index(w, h, xc + y0, yc - x0);
                }
                if old(self).in_bounds(xc + y0, yc + x0) {
                    lemma_pixel_index(w, h, xc + y0, yc + x0);
                }
                if old(self).in_bounds(xc + x0, yc + y0) {
                    lemma_pixel_index(w, h, xc + x0, yc + y0);
                }
                if old(self).in_bounds(xc - x0, yc - y0) {
                    lemma_pixel_index(w, h, xc - x0, yc - y0);
                }
                if old(self).in_bounds(xc - y0, yc - x0) {
                    lemma_pixel_index(w, h, xc - y0, yc - x0);
                }
                if old(self).in_bounds(xc - y0, yc + x0) {
                    lemma_pixel_index(w, h, xc - y0, yc + x0);
                }
                if old(self).in_bounds(xc - x0, yc + y0) {
                    lemma_pixel_index(w, h, xc - x0, yc + y0);
                }
                assert(c1.data@[i] == if px == xc + x0 && py == yc - y0 {
                    pack(color)
                } else {
                    c0.data@[i]
                });
                assert(c2.data@[i] == if px == xc + y0 && py == yc - x0 {
                    pack(color)
                } else {
                    c1.data@[i]
                });
                assert(c3.data@[i] == if px == xc + y0 && py == yc + x0 {
                    pack(color)
                } else {
                    c2.data@[i]
                });
                assert(c4.data@[i] == if px == xc + x0 && py == yc + y0 {
                    pack(color)
                } else {
                    c3.data@[i]
                });
                assert(c5.data@[i] == if px == xc - x0 && py == yc - y0 {
                    pack(color)
                } else {
                    c4.data@[i]
                });
                assert(c6.data@[i] == if px == xc - y0 && py == yc - x0 {
                    pack(color)
                } else {
                    c5.data@[i]
                });
                assert(c7.data@[i] == if px == xc - y0 && py == yc + x0 {
                    pack(color)
                } else {
                    c6.data@[i]
                });
                assert(self.data@[i] == if px == xc - x0 && py == yc + y0 {
                    pack(color)
                } else {
                    c7.data@[i]
                });
            }
        }
    }

    /// Reads the color at (x, y), or returns nothing when (x, y) is off the
    /// surface.
    pub fn get_pixel(&self, x: i32, y: i32) -> (c: Option<Color>)
        requires
            self.wf(),
        ensures
            c == self.pixel_at(x as int, y as int),
    {
        if x >= 0 && (x as usize) < self.width && y >= 0 && (y as usize) < self.height {
            proof {
                lemma_pixel_index(self.width as int, self.height as int, x as int, y as int);
            }
            let i = (x as usize) + (y as usize) * self.width;
            Some(Color::from_u32(self.data[i]))
        } else {
            None
        }
    }
}

/// The bounds law of the surface: writing `c` at an in-bounds coordinate
/// and reading the same coordinate back yields exactly `c`, and reading any
/// off-surface coordinate yields nothing, whatever the stored pixels.
///
/// `before` and `after` are related exactly as [`RenderTarget::set_pixel`]
/// leaves its surface: the one stored value updated when (x, y) is on the
/// surface, nothing changed when it is not.
pub proof fn lemma_bounds_invariant(
    before: RenderTarget,
    after: RenderTarget,
    x: int,
    y: int,
    c: Color,
)
    requires
        before.wf(),
        after.width == before.width,
        after.height == before.height,
        before.in_bounds(x, y) ==> after.data@ == before.data@.update(
            before.idx(x, y),
            pack(c),
        ),
        !before.in_bounds(x, y) ==> after == before,
    ensures
        before.in_bounds(x, y) ==> after.pixel_at(x, y) == Some(c),
        forall|px: int, py: int| !before.in_bounds(px, py) ==> after.pixel_at(px, py) is None,
{
    lemma_unpack_pack(c);
    if before.in_bounds(x, y) {
        lemma_pixel_index(before.width as int, before.height as int, x, y);
    }
}

} // verus!
