//! The raster canvas: a fixed-size grayscale bitmap with draw/clear
//! primitives.
//!
//! The buffer holds one intensity per pixel in row-major order, row 0 at the
//! visual top. All access is bounds-checked with a defined boundary policy:
//! out-of-range writes are silently dropped and out-of-range reads return 0.
//! The brush stamps a filled disc whose radius scales with the logical node
//! size, flipping the vertical axis because drawing coordinates grow upward
//! while buffer rows grow downward; when the backing texture is an integer
//! `scale` factor larger than the logical node, each logical pixel expands
//! into a `scale x scale` block of texture pixels.

use vstd::arithmetic::div_mod::lemma_fundamental_div_mod;
use vstd::prelude::*;

use crate::input::StrokePoint;

verus! {

/// Magnitude bound on block base coordinates handed to the stamping loop;
/// large enough for any point coordinate times any texture scale.
const STAMP_COORD_LIMIT: i128 = 0x1_0000_0000_0000_0000_0000_0000;

/// Brush radius for a logical node size: 1.3 * node / 28 / 2, rounded to the
/// nearest whole pixel.
pub open spec fn stamp_radius(node_w: int) -> int {
    (13 * node_w + 280) / 560
}

/// Texture pixels per logical pixel: the integer ratio of the texture width
/// to the logical node width, 0 for a degenerate node.
pub open spec fn stamp_scale(node_w: int, tex_w: int) -> int {
    if node_w <= 0 {
        0
    } else {
        tex_w / node_w
    }
}

/// Disc membership of a logical offset: strictly closer to the center than
/// the radius.
pub open spec fn in_disc(r: int, i: int, j: int) -> bool {
    -r <= i <= r && -r <= j <= r && i * i + j * j < r * r
}

/// The `s x s` texture block of the logical pixel at disc offset `(i, j)`
/// from `p`, after flipping the vertical axis against the node height.
pub open spec fn block_covers(
    p: StrokePoint,
    node_h: int,
    s: int,
    i: int,
    j: int,
    x: int,
    y: int,
) -> bool {
    (p.x + i) * s <= x < (p.x + i) * s + s && (node_h - (p.y + j)) * s <= y < (node_h - (p.y + j))
        * s + s
}

/// Whether the texture pixel `(x, y)` is touched by the brush stamp at `p`.
pub open spec fn stamp_covers(
    p: StrokePoint,
    node_w: int,
    node_h: int,
    tex_w: int,
    x: int,
    y: int,
) -> bool {
    exists|i: int, j: int|
        #[trigger] in_disc(stamp_radius(node_w), i, j) && block_covers(
            p,
            node_h,
            stamp_scale(node_w, tex_w),
            i,
            j,
            x,
            y,
        )
}

/// Like `stamp_covers`, restricted to the disc offsets that precede
/// `(ci, cj)` in row-major processing order.
spec fn stamp_covers_upto(
    p: StrokePoint,
    node_w: int,
    node_h: int,
    tex_w: int,
    ci: int,
    cj: int,
    x: int,
    y: int,
) -> bool {
    exists|i: int, j: int|
        #[trigger] in_disc(stamp_radius(node_w), i, j) && (i < ci || (i == ci && j < cj))
            && block_covers(p, node_h, stamp_scale(node_w, tex_w), i, j, x, y)
}

/// Before the first disc offset nothing is processed.
proof fn lemma_upto_start(p: StrokePoint, nw: int, nh: int, tw: int, x: int, y: int)
    ensures
        !stamp_covers_upto(p, nw, nh, tw, -stamp_radius(nw), -stamp_radius(nw), x, y),
{
    let r = stamp_radius(nw);
    if stamp_covers_upto(p, nw, nh, tw, -r, -r, x, y) {
        let (i, j) = choose|i: int, j: int|
            #[trigger] in_disc(stamp_radius(nw), i, j) && (i < -r || (i == -r && j < -r))
                && block_covers(p, nh, stamp_scale(nw, tw), i, j, x, y);
        assert(false);
    }
}

/// Processing one more disc offset adds exactly its block, when the offset
/// lies in the disc.
proof fn lemma_upto_step(
    p: StrokePoint,
    nw: int,
    nh: int,
    tw: int,
    ci: int,
    cj: int,
    x: int,
    y: int,
)
    ensures
        stamp_covers_upto(p, nw, nh, tw, ci, cj + 1, x, y) == (stamp_covers_upto(
            p,
            nw,
            nh,
            tw,
            ci,
            cj,
            x,
            y,
        ) || (in_disc(stamp_radius(nw), ci, cj) && block_covers(
            p,
            nh,
            stamp_scale(nw, tw),
            ci,
            cj,
            x,
            y,
        ))),
{
    let r = stamp_radius(nw);
    let s = stamp_scale(nw, tw);
    if stamp_covers_upto(p, nw, nh, tw, ci, cj + 1, x, y) {
        let (i, j) = choose|i: int, j: int|
            #[trigger] in_disc(stamp_radius(nw), i, j) && (i < ci || (i == ci && j < cj + 1))
                && block_covers(p, nh, stamp_scale(nw, tw), i, j, x, y);
        if i < ci || (i == ci && j < cj) {
            assert(stamp_covers_upto(p, nw, nh, tw, ci, cj, x, y));
        } else {
            assert(i == ci && j == cj);
        }
    }
    if stamp_covers_upto(p, nw, nh, tw, ci, cj, x, y) {
        let (i, j) = choose|i: int, j: int|
            #[trigger] in_disc(stamp_radius(nw), i, j) && (i < ci || (i == ci && j < cj))
                && block_covers(p, nh, stamp_scale(nw, tw), i, j, x, y);
        assert(i < ci || (i == ci && j < cj + 1));
        assert(stamp_covers_upto(p, nw, nh, tw, ci, cj + 1, x, y));
    }
    if in_disc(r, ci, cj) && block_covers(p, nh, s, ci, cj, x, y) {
        assert(ci < ci || (ci == ci && cj < cj + 1));
        assert(stamp_covers_upto(p, nw, nh, tw, ci, cj + 1, x, y));
    }
}

/// Finishing a row is the same as standing at the start of the next row.
proof fn lemma_upto_row_end(p: StrokePoint, nw: int, nh: int, tw: int, ci: int, x: int, y: int)
    ensures
        stamp_covers_upto(p, nw, nh, tw, ci, stamp_radius(nw) + 1, x, y) == stamp_covers_upto(
            p,
            nw,
            nh,
            tw,
            ci + 1,
            -stamp_radius(nw),
            x,
            y,
        ),
{
    let r = stamp_radius(nw);
    if stamp_covers_upto(p, nw, nh, tw, ci, r + 1, x, y) {
        let (i, j) = choose|i: int, j: int|
            #[trigger] in_disc(stamp_radius(nw), i, j) && (i < ci || (i == ci && j < r + 1))
                && block_covers(p, nh, stamp_scale(nw, tw), i, j, x, y);
        assert(i < ci + 1 || (i == ci + 1 && j < -r));
        assert(stamp_covers_upto(p, nw, nh, tw, ci + 1, -r, x, y));
    }
    if stamp_covers_upto(p, nw, nh, tw, ci + 1, -r, x, y) {
        let (i, j) = choose|i: int, j: int|
            #[trigger] in_disc(stamp_radius(nw), i, j) && (i < ci + 1 || (i == ci + 1 && j < -r))
                && block_covers(p, nh, stamp_scale(nw, tw), i, j, x, y);
        assert(i < ci || (i == ci && j < r + 1));
        assert(stamp_covers_upto(p, nw, nh, tw, ci, r + 1, x, y));
    }
}

/// Once every row is processed the partial cover is the full stamp cover.
proof fn lemma_upto_complete(p: StrokePoint, nw: int, nh: int, tw: int, x: int, y: int)
    ensures
        stamp_covers_upto(
            p,
            nw,
            nh,
            tw,
            stamp_radius(nw) + 1,
            -stamp_radius(nw),
            x,
            y,
        ) == stamp_covers(p, nw, nh, tw, x, y),
{
    let r = stamp_radius(nw);
    if stamp_covers_upto(p, nw, nh, tw, r + 1, -r, x, y) {
        let (i, j) = choose|i: int, j: int|
            #[trigger] in_disc(stamp_radius(nw), i, j) && (i < r + 1 || (i == r + 1 && j < -r))
                && block_covers(p, nh, stamp_scale(nw, tw), i, j, x, y);
        assert(stamp_covers(p, nw, nh, tw, x, y));
    }
    if stamp_covers(p, nw, nh, tw, x, y) {
        let (i, j) = choose|i: int, j: int|
            #[trigger] in_disc(stamp_radius(nw), i, j) && block_covers(
                p,
                nh,
                stamp_scale(nw, tw),
                i,
                j,
                x,
                y,
            );
        assert(i < r + 1 || (i == r + 1 && j < -r));
        assert(stamp_covers_upto(p, nw, nh, tw, r + 1, -r, x, y));
    }
}

/// A grayscale bitmap of `width x height` intensities in 0..=255.
pub struct RasterCanvas {
    width: u32,
    height: u32,
    buf: Vec<u8>,
}

/// Index arithmetic for a row-major buffer: an in-range coordinate pair maps
/// into the buffer, and the map is injective.
proof fn lemma_row_major_bound(w: int, h: int, x: int, y: int)
    by (nonlinear_arith)
    requires
        0 <= x < w,
        0 <= y < h,
    ensures
        0 <= y * w + x < w * h,
        y * w <= w * h,
{
}

proof fn lemma_row_major_injective(w: int, x1: int, y1: int, x2: int, y2: int)
    by (nonlinear_arith)
    requires
        0 <= x1 < w,
        0 <= x2 < w,
        y1 * w + x1 == y2 * w + x2,
    ensures
        x1 == x2,
        y1 == y2,
{
}

impl RasterCanvas {
    /// Width of the backing buffer in pixels.
    pub closed spec fn spec_width(self) -> int {
        self.width as int
    }

    /// Height of the backing buffer in pixels.
    pub closed spec fn spec_height(self) -> int {
        self.height as int
    }

    /// The raw buffer contents, row-major, row 0 at the top.
    pub closed spec fn pixels(self) -> Seq<u8> {
        self.buf@
    }

    /// The buffer length always matches the dimensions.
    pub open spec fn wf(self) -> bool {
        self.pixels().len() == self.spec_width() * self.spec_height()
    }

    /// Whether a coordinate pair addresses a pixel of the buffer.
    pub open spec fn in_bounds(self, x: int, y: int) -> bool {
        0 <= x < self.spec_width() && 0 <= y < self.spec_height()
    }

    /// The intensity at a coordinate pair, 0 outside the buffer.
    pub open spec fn pix(self, x: int, y: int) -> u8 {
        if self.in_bounds(x, y) {
            self.pixels()[y * self.spec_width() + x]
        } else {
            0
        }
    }

    /// Every pixel of the canvas is 0.
    pub open spec fn is_blank(self) -> bool {
        forall|x: int, y: int| self.pix(x, y) == 0
    }

    /// Builds a blank canvas of the given dimensions.
    pub fn new(width: u32, height: u32) -> (c: RasterCanvas)
        requires
            width * height <= usize::MAX,
        ensures
            c.wf(),
            c.spec_width() == width,
            c.spec_height() == height,
            c.is_blank(),
    {
        let n: usize = (width as usize) * (height as usize);
        let mut buf: Vec<u8> = Vec::new();
        let mut k: usize = 0;
        while k < n
            invariant
                buf@.len() == k,
                k <= n,
                forall|m: int| 0 <= m < k ==> buf@[m] == 0,
            decreases n - k,
        {
            buf.push(0);
            k = k + 1;
        }
        let c = RasterCanvas { width, height, buf };
        proof {
            assert forall|x: int, y: int| c.pix(x, y) == 0 by {
                if c.in_bounds(x, y) {
                    lemma_row_major_bound(c.spec_width(), c.spec_height(), x, y);
                }
            }
        }
        c
    }

    /// Exec view of the width.
    pub fn width(&self) -> (w: u32)
        ensures
            w == self.spec_width(),
    {
        self.width
    }

    /// Exec view of the height.
    pub fn height(&self) -> (h: u32)
        ensures
            h == self.spec_height(),
    {
        self.height
    }

    /// Reads one pixel; out-of-range coordinates read as 0.
    pub fn get_pixel(&self, x: i64, y: i64) -> (v: u8)
        requires
            self.wf(),
        ensures
            v == self.pix(x as int, y as int),
    {
        if x < 0 || y < 0 || x >= self.width as i64 || y >= self.height as i64 {
            return 0;
        }
        proof {
            lemma_row_major_bound(self.spec_width(), self.spec_height(), x as int, y as int);
        }
        let _len: usize = self.buf.len();
        let idx: usize = (y as usize) * (self.width as usize) + (x as usize);
        self.buf[idx]
    }

    /// Writes one pixel; out-of-range coordinates are silently dropped and
    /// every other pixel keeps its value.
    pub fn set_pixel(&mut self, x: i64, y: i64, value: u8)
        requires
            old(self).wf(),
        ensures
            final(self).wf(),
            final(self).spec_width() == old(self).spec_width(),
            final(self).spec_height() == old(self).spec_height(),
            forall|xi: int, yi: int|
                final(self).pix(xi, yi) == (if xi == x as int && yi == y as int
                    && old(self).in_bounds(x as int, y as int) {
                    value
                } else {
                    old(self).pix(xi, yi)
                }),
    {
        if x < 0 || y < 0 || x >= self.width as i64 || y >= self.height as i64 {
            return;
        }
        proof {
            lemma_row_major_bound(self.spec_width(), self.spec_height(), x as int, y as int);
        }
        let _len: usize = self.buf.len();
        let idx: usize = (y as usize) * (self.width as usize) + (x as usize);
        self.buf.set(idx, value);
        proof {
            let w = self.spec_width();
            let h = self.spec_height();
            assert forall|xi: int, yi: int|
                self.pix(xi, yi) == (if xi == x as int && yi == y as int && old(self).in_bounds(
                    x as int,
                    y as int,
                ) {
                    value
                } else {
                    old(self).pix(xi, yi)
                }) by {
                if self.in_bounds(xi, yi) {
                    lemma_row_major_bound(w, h, xi, yi);
                    if yi * w + xi == (y as int) * w + x as int {
                        lemma_row_major_injective(w, x as int, y as int, xi, yi);
                    }
                }
            }
        }
    }

    /// Saturates the `s x s` block of texture pixels whose corner is
    /// `(bx, by)`; pixels outside the buffer are dropped.
    fn stamp_block(&mut self, bx: i128, by: i128, s: u64)
        requires
            old(self).wf(),
            -STAMP_COORD_LIMIT <= bx <= STAMP_COORD_LIMIT,
            -STAMP_COORD_LIMIT <= by <= STAMP_COORD_LIMIT,
        ensures
            final(self).wf(),
            final(self).spec_width() == old(self).spec_width(),
            final(self).spec_height() == old(self).spec_height(),
            forall|x: int, y: int|
                final(self).pix(x, y) == (if old(self).in_bounds(x, y) && bx <= x < bx + s && by
                    <= y < by + s {
                    255u8
                } else {
                    old(self).pix(x, y)
                }),
    {
        let mut di: u64 = 0;
        while di < s
            invariant
                di <= s,
                self.wf(),
                self.spec_width() == old(self).spec_width(),
                self.spec_height() == old(self).spec_height(),
                -STAMP_COORD_LIMIT <= bx <= STAMP_COORD_LIMIT,
                -STAMP_COORD_LIMIT <= by <= STAMP_COORD_LIMIT,
                forall|x: int, y: int|
                    self.pix(x, y) == (if old(self).in_bounds(x, y) && bx <= x < bx + s && by <= y
                        < by + s && x < bx + di {
                        255u8
                    } else {
                        old(self).pix(x, y)
                    }),
            decreases s - di,
        {
            let mut dj: u64 = 0;
            while dj < s
                invariant
                    dj <= s,
                    di < s,
                    self.wf(),
                    self.spec_width() == old(self).spec_width(),
                    self.spec_height() == old(self).spec_height(),
                    -STAMP_COORD_LIMIT <= bx <= STAMP_COORD_LIMIT,
                    -STAMP_COORD_LIMIT <= by <= STAMP_COORD_LIMIT,
                    forall|x: int, y: int|
                        self.pix(x, y) == (if old(self).in_bounds(x, y) && bx <= x < bx + s && by
                            <= y < by + s && (x < bx + di || (x == bx + di && y < by + dj)) {
                            255u8
                        } else {
                            old(self).pix(x, y)
                        }),
                decreases s - dj,
            {
                let cx: i128 = bx + di as i128;
                let cy: i128 = by + dj as i128;
                if 0 <= cx && cx < self.width as i128 && 0 <= cy && cy < self.height as i128 {
                    self.set_pixel(cx as i64, cy as i64, 255);
                }
                dj = dj + 1;
            }
            di = di + 1;
        }
    }

    /// Stamps the brush at `p`: every logical pixel strictly inside the disc
    /// of radius `stamp_radius(node_width)` around `p` is expanded into a
    /// `scale x scale` block of saturated texture pixels, with the vertical
    /// axis flipped against `node_height`.
    pub fn draw(&mut self, p: StrokePoint, node_width: u32, node_height: u32)
        requires
            old(self).wf(),
        ensures
            final(self).wf(),
            final(self).spec_width() == old(self).spec_width(),
            final(self).spec_height() == old(self).spec_height(),
            forall|x: int, y: int|
                final(self).pix(x, y) == (if old(self).in_bounds(x, y) && stamp_covers(
                    p,
                    node_width as int,
                    node_height as int,
                    old(self).spec_width(),
                    x,
                    y,
                ) {
                    255u8
                } else {
                    old(self).pix(x, y)
                }),
    {
        let ghost nw: int = node_width as int;
        let ghost nh: int = node_height as int;
        let ghost tw: int = self.spec_width();
        let radius64: u64 = (13 * (node_width as u64) + 280) / 560;
        let radius: i64 = radius64 as i64;
        assert(radius == stamp_radius(nw));
        let scale: u64 = if node_width == 0 {
            0
        } else {
            (self.width / node_width) as u64
        };
        assert(scale == stamp_scale(nw, tw));
        proof {
            assert forall|x: int, y: int|
                self.pix(x, y) == (if old(self).in_bounds(x, y) && stamp_covers_upto(
                    p,
                    nw,
                    nh,
                    tw,
                    -radius as int,
                    -radius as int,
                    x,
                    y,
                ) {
                    255u8
                } else {
                    old(self).pix(x, y)
                }) by {
                lemma_upto_start(p, nw, nh, tw, x, y);
            }
        }
        let mut i: i64 = -radius;
        while i <= radius
            invariant
                -radius <= i <= radius + 1,
                nw == node_width as int,
                nh == node_height as int,
                0 <= radius < 0x10000000,
                radius == stamp_radius(nw),
                0 <= scale <= 0x1_0000_0000,
                scale == stamp_scale(nw, tw),
                self.wf(),
                self.spec_width() == old(self).spec_width(),
                self.spec_height() == old(self).spec_height(),
                tw == old(self).spec_width(),
                forall|x: int, y: int|
                    self.pix(x, y) == (if old(self).in_bounds(x, y) && stamp_covers_upto(
                        p,
                        nw,
                        nh,
                        tw,
                        i as int,
                        -radius as int,
                        x,
                        y,
                    ) {
                        255u8
                    } else {
                        old(self).pix(x, y)
                    }),
            decreases radius + 1 - i,
        {
            let mut j: i64 = -radius;
            while j <= radius
                invariant
                    -radius <= i <= radius,
                    -radius <= j <= radius + 1,
                    nw == node_width as int,
                    nh == node_height as int,
                    0 <= radius < 0x10000000,
                    radius == stamp_radius(nw),
                    0 <= scale <= 0x1_0000_0000,
                    scale == stamp_scale(nw, tw),
                    self.wf(),
                    self.spec_width() == old(self).spec_width(),
                    self.spec_height() == old(self).spec_height(),
                    tw == old(self).spec_width(),
                    forall|x: int, y: int|
                        self.pix(x, y) == (if old(self).in_bounds(x, y) && stamp_covers_upto(
                            p,
                            nw,
                            nh,
                            tw,
                            i as int,
                            j as int,
                            x,
                            y,
                        ) {
                            255u8
                        } else {
                            old(self).pix(x, y)
                        }),
                decreases radius + 1 - j,
            {
                proof {
                    assert(0 <= i * i <= 0x100000000000000 && 0 <= j * j <= 0x100000000000000 && 0
                        <= radius * radius <= 0x100000000000000) by (nonlinear_arith)
                        requires
                            -0x10000000 <= i <= 0x10000000,
                            -0x10000000 <= j <= 0x10000000,
                            0 <= radius <= 0x10000000,
                    ;
                }
                if i * i + j * j < radius * radius {
                    assert(in_disc(radius as int, i as int, j as int));
                    let base_x: i128 = (p.x as i128) + (i as i128);
                    let base_y: i128 = (node_height as i128) - ((p.y as i128) + (j as i128));
                    assert(-STAMP_COORD_LIMIT <= base_x * (scale as int) <= STAMP_COORD_LIMIT
                        && -STAMP_COORD_LIMIT <= base_y * (scale as int)
                        <= STAMP_COORD_LIMIT) by (nonlinear_arith)
                        requires
                            -0x1_0000_0000_0000_0000i128 <= base_x <= 0x1_0000_0000_0000_0000i128,
                            -0x1_0000_0000_0000_0000i128 <= base_y <= 0x1_0000_0000_0000_0000i128,
                            0 <= scale <= 0x1_0000_0000u64,
                    ;
                    let bx: i128 = base_x * (scale as i128);
                    let by: i128 = base_y * (scale as i128);
                    self.stamp_block(bx, by, scale);
                    proof {
                        assert forall|x: int, y: int|
                            self.pix(x, y) == (if old(self).in_bounds(x, y) && stamp_covers_upto(
                                p,
                                nw,
                                nh,
                                tw,
                                i as int,
                                j as int + 1,
                                x,
                                y,
                            ) {
                                255u8
                            } else {
                                old(self).pix(x, y)
                            }) by {
                            lemma_upto_step(p, nw, nh, tw, i as int, j as int, x, y);
                            assert(block_covers(p, nh, scale as int, i as int, j as int, x, y)
                                == (bx <= x < bx + scale && by <= y < by + scale));
                        }
                    }
                } else {
                    proof {
                        assert forall|x: int, y: int|
                            self.pix(x, y) == (if old(self).in_bounds(x, y) && stamp_covers_upto(
                                p,
                                nw,
                                nh,
                                tw,
                                i as int,
                                j as int + 1,
                                x,
                                y,
                            ) {
                                255u8
                            } else {
                                old(self).pix(x, y)
                            }) by {
                            lemma_upto_step(p, nw, nh, tw, i as int, j as int, x, y);
                        }
                    }
                }
                j = j + 1;
            }
            proof {
                assert forall|x: int, y: int|
                    self.pix(x, y) == (if old(self).in_bounds(x, y) && stamp_covers_upto(
                        p,
                        nw,
                        nh,
                        tw,
                        i as int + 1,
                        -radius as int,
                        x,
                        y,
                    ) {
                        255u8
                    } else {
                        old(self).pix(x, y)
                    }) by {
                    lemma_upto_row_end(p, nw, nh, tw, i as int, x, y);
                }
            }
            i = i + 1;
        }
        proof {
            assert forall|x: int, y: int|
                self.pix(x, y) == (if old(self).in_bounds(x, y) && stamp_covers(
                    p,
                    nw,
                    nh,
                    tw,
                    x,
                    y,
                ) {
                    255u8
                } else {
                    old(self).pix(x, y)
                }) by {
                lemma_upto_complete(p, nw, nh, tw, x, y);
            }
        }
    }

    /// Sets every pixel to 0.
    pub fn clear(&mut self)
        requires
            old(self).wf(),
        ensures
            final(self).wf(),
            final(self).spec_width() == old(self).spec_width(),
            final(self).spec_height() == old(self).spec_height(),
            final(self).is_blank(),
    {
        let n: usize = self.buf.len();
        let mut k: usize = 0;
        while k < n
            invariant
                self.width == old(self).width,
                self.height == old(self).height,
                self.buf@.len() == n,
                n == old(self).buf@.len(),
                k <= n,
                forall|m: int| 0 <= m < k ==> self.buf@[m] == 0,
            decreases n - k,
        {
            self.buf.set(k, 0);
            k = k + 1;
        }
        proof {
            assert forall|x: int, y: int| self.pix(x, y) == 0 by {
                if self.in_bounds(x, y) {
                    lemma_row_major_bound(self.spec_width(), self.spec_height(), x, y);
                }
            }
        }
    }
}

/// Clearing is idempotent: a clear leaves every pixel 0, and any two blank
/// canvases of equal dimensions hold pixel-for-pixel the same buffer, so a
/// second clear in a row changes nothing.
pub proof fn lemma_clear_idempotent(a: RasterCanvas, b: RasterCanvas)
    requires
        a.wf(),
        b.wf(),
        a.spec_width() == b.spec_width(),
        a.spec_height() == b.spec_height(),
        a.is_blank(),
        b.is_blank(),
    ensures
        a.pixels() == b.pixels(),
{
    let w = a.spec_width();
    let h = a.spec_height();
    assert forall|k: int| 0 <= k < a.pixels().len() implies a.pixels()[k] == 0 by {
        lemma_buffer_entry_is_pix(a, k);
    }
    assert forall|k: int| 0 <= k < b.pixels().len() implies b.pixels()[k] == 0 by {
        lemma_buffer_entry_is_pix(b, k);
    }
    assert(a.pixels() =~= b.pixels());
}

/// Each buffer entry is the pixel of the coordinate pair it encodes.
proof fn lemma_buffer_entry_is_pix(c: RasterCanvas, k: int)
    requires
        c.wf(),
        0 <= k < c.pixels().len(),
    ensures
        c.pixels()[k] == c.pix(k % c.spec_width(), k / c.spec_width()),
{
    let w = c.spec_width();
    let h = c.spec_height();
    assert(w > 0) by (nonlinear_arith)
        requires
            0 <= k < w * h,
            h >= 0,
    ;
    lemma_fundamental_div_mod(k, w);
    let x = k % w;
    let y = k / w;
    assert(0 <= x < w);
    assert(0 <= y < h) by (nonlinear_arith)
        requires
            w > 0,
            0 <= k < w * h,
            k == w * (k / w) + k % w,
            0 <= k % w < w,
            y == k / w,
    ;
    assert(y * w + x == k) by (nonlinear_arith)
        requires
            k == w * (k / w) + k % w,
            y == k / w,
            x == k % w,
    ;
}

} // verus!
