use vstd::prelude::*;

use crate::rect::{covered_by, PixelRect};

verus! {

/// The fixed opaque color that lit rectangle pixels are filled with.
pub const ON_COLOR: u32 = 0xFFFF_FFFF;

/// The fully transparent value the scaled surface is cleared to.
pub const CLEAR_COLOR: u32 = 0;

/// The pixel of a row-major buffer of row width `w` at column `c`, row `r`.
pub open spec fn pixel_at(buf: Seq<u32>, w: int, c: int, r: int) -> u32 {
    buf[r * w + c]
}

/// Distinct (column, row) pairs of one row-major grid have distinct
/// indices.
proof fn lemma_row_major_injective(w: int, c1: int, r1: int, c2: int, r2: int)
    requires
        w > 0,
        0 <= c1 < w,
        0 <= c2 < w,
        r1 * w + c1 == r2 * w + c2,
    ensures
        r1 == r2,
        c1 == c2,
{
    assert(r1 == r2 && c1 == c2) by (nonlinear_arith)
        requires w > 0, 0 <= c1 < w, 0 <= c2 < w, r1 * w + c1 == r2 * w + c2;
}

/// Overwrites every pixel of the buffer with one color.
pub fn clear_buffer(buffer: &mut Vec<u32>, color: u32)
    ensures
        final(buffer)@.len() == old(buffer)@.len(),
        forall|i: int| 0 <= i < final(buffer)@.len() ==> final(buffer)@[i] == color,
{
    let n = buffer.len();
    let mut i: usize = 0;
    while i < n
        invariant
            i <= n,
            buffer@.len() == n,
            forall|k: int| 0 <= k < i ==> buffer@[k] == color,
        decreases n - i,
    {
        buffer[i] = color;
        i = i + 1;
    }
}

/// Fills the device-space rectangle with top-left `(x, y)` and extent
/// `w` by `h`, clipped to the `screen_w` by `screen_h` buffer, with the
/// fixed on color; every other pixel keeps its value.
pub fn draw_rect(
    buffer: &mut Vec<u32>,
    screen_w: usize,
    screen_h: usize,
    x: usize,
    y: usize,
    w: usize,
    h: usize,
)
    requires
        old(buffer)@.len() == screen_w * screen_h,
        x + w <= usize::MAX,
        y + h <= usize::MAX,
    ensures
        final(buffer)@.len() == old(buffer)@.len(),
        forall|cc: int, rr: int|
            0 <= cc < screen_w && 0 <= rr < screen_h ==> #[trigger] pixel_at(
                final(buffer)@,
                screen_w as int,
                cc,
                rr,
            ) == if x <= cc < x + w && y <= rr < y + h {
                ON_COLOR
            } else {
                pixel_at(old(buffer)@, screen_w as int, cc, rr)
            },
{
    let ghost buf0 = buffer@;
    let ghost sw = screen_w as int;
    let ghost sh = screen_h as int;
    let n = buffer.len();
    let right = if x + w < screen_w {
        x + w
    } else {
        screen_w
    };
    let bottom = if y + h < screen_h {
        y + h
    } else {
        screen_h
    };
    if right > x {
        let mut r = y;
        while r < bottom
            invariant
                y <= r,
                r <= bottom || r == y,
                bottom <= screen_h,
                right <= screen_w,
                x < right,
                x + w <= usize::MAX,
                y + h <= usize::MAX,
                right as int == if x + w < screen_w { x + w } else { screen_w as int },
                bottom as int == if y + h < screen_h { y + h } else { screen_h as int },
                sw == screen_w as int,
                sh == screen_h as int,
                buffer@.len() == n,
                n == screen_w * screen_h,
                buf0.len() == n,
                forall|cc: int, rr: int|
                    0 <= cc < sw && 0 <= rr < sh ==> #[trigger] pixel_at(buffer@, sw, cc, rr) == (
                    if x <= cc < right && y <= rr < r {
                        ON_COLOR
                    } else {
                        pixel_at(buf0, sw, cc, rr)
                    }),
            decreases bottom - r,
        {
            proof {
                assert(r * sw + sw <= sh * sw) by (nonlinear_arith)
                    requires r + 1 <= sh, sw >= 0;
                assert(sw * sh == sh * sw) by (nonlinear_arith);
            }
            let row_start = r * screen_w;
            let mut c = x;
            while c < right
                invariant
                    x <= c <= right,
                    x < right,
                    right <= screen_w,
                    y <= r < bottom,
                    bottom <= screen_h,
                    row_start == r * screen_w,
                    r * sw + sw <= sh * sw,
                    sw * sh == sh * sw,
                    sw == screen_w as int,
                    sh == screen_h as int,
                    buffer@.len() == n,
                    n == screen_w * screen_h,
                    buf0.len() == n,
                    forall|cc: int, rr: int|
                        0 <= cc < sw && 0 <= rr < sh ==> #[trigger] pixel_at(buffer@, sw, cc, rr)
                            == (if (x <= cc < right && y <= rr < r) || (rr == r && x <= cc < c) {
                            ON_COLOR
                        } else {
                            pixel_at(buf0, sw, cc, rr)
                        }),
                decreases right - c,
            {
                let ghost bufp = buffer@;
                buffer[row_start + c] = ON_COLOR;
                proof {
                    assert forall|cc: int, rr: int| 0 <= cc < sw && 0 <= rr < sh implies #[trigger] pixel_at(
                        buffer@,
                        sw,
                        cc,
                        rr,
                    ) == (if (x <= cc < right && y <= rr < r) || (rr == r && x <= cc < c + 1) {
                        ON_COLOR
                    } else {
                        pixel_at(buf0, sw, cc, rr)
                    }) by {
                        if cc == c as int && rr == r as int {
                            assert(pixel_at(buffer@, sw, cc, rr) == ON_COLOR);
                        } else {
                            if rr * sw + cc == r * sw + c {
                                lemma_row_major_injective(sw, cc, rr, c as int, r as int);
                            }
                            assert(0 <= rr * sw + cc < sw * sh) by (nonlinear_arith)
                                requires 0 <= cc < sw, 0 <= rr < sh;
                            assert(pixel_at(buffer@, sw, cc, rr) == pixel_at(bufp, sw, cc, rr));
                        }
                    }
                }
                c = c + 1;
            }
            r = r + 1;
        }
    }
}

/// Clears the buffer to the background color, then draws every rectangle
/// of the frame at one-to-one scale. A pixel ends up lit exactly when some
/// rectangle of the frame covers it.
pub fn render_frame(
    buffer: &mut Vec<u32>,
    screen_w: usize,
    screen_h: usize,
    background: u32,
    rects: &Vec<PixelRect>,
)
    requires
        old(buffer)@.len() == screen_w * screen_h,
    ensures
        final(buffer)@.len() == old(buffer)@.len(),
        forall|cc: int, rr: int|
            0 <= cc < screen_w && 0 <= rr < screen_h ==> #[trigger] pixel_at(
                final(buffer)@,
                screen_w as int,
                cc,
                rr,
            ) == if covered_by(rects@, cc, rr) {
                ON_COLOR
            } else {
                background
            },
{
    let ghost sw = screen_w as int;
    let ghost sh = screen_h as int;
    clear_buffer(buffer, background);
    proof {
        assert forall|cc: int, rr: int| 0 <= cc < sw && 0 <= rr < sh implies #[trigger] pixel_at(
            buffer@,
            sw,
            cc,
            rr,
        ) == background by {
            assert(0 <= rr * sw + cc < sw * sh) by (nonlinear_arith)
                requires 0 <= cc < sw, 0 <= rr < sh;
        }
    }
    let mut i: usize = 0;
    while i < rects.len()
        invariant
            i <= rects@.len(),
            sw == screen_w as int,
            sh == screen_h as int,
            buffer@.len() == screen_w * screen_h,
            forall|cc: int, rr: int|
                0 <= cc < sw && 0 <= rr < sh ==> #[trigger] pixel_at(buffer@, sw, cc, rr) == (
                if covered_by(rects@.take(i as int), cc, rr) {
                    ON_COLOR
                } else {
                    background
                }),
        decreases rects@.len() - i,
    {
        let ghost bufp = buffer@;
        let rect = rects[i];
        draw_rect(
            buffer,
            screen_w,
            screen_h,
            rect.x as usize,
            rect.y as usize,
            rect.w as usize,
            rect.h as usize,
        );
        proof {
            let taken = rects@.take(i as int);
            let taken1 = rects@.take(i + 1);
            assert forall|cc: int, rr: int| 0 <= cc < sw && 0 <= rr < sh implies #[trigger] pixel_at(
                buffer@,
                sw,
                cc,
                rr,
            ) == (if covered_by(taken1, cc, rr) {
                ON_COLOR
            } else {
                background
            }) by {
                if rect.covers(cc, rr) {
                    assert(taken1[i as int] == rect);
                    assert(covered_by(taken1, cc, rr));
                    assert(pixel_at(buffer@, sw, cc, rr) == ON_COLOR);
                } else {
                    assert(pixel_at(buffer@, sw, cc, rr) == pixel_at(bufp, sw, cc, rr));
                    if covered_by(taken, cc, rr) {
                        let k = choose|k: int|
                            0 <= k < taken.len() && #[trigger] taken[k].covers(cc, rr);
                        assert(taken1[k] == taken[k]);
                        assert(covered_by(taken1, cc, rr));
                    } else {
                        if covered_by(taken1, cc, rr) {
                            let k = choose|k: int|
                                0 <= k < taken1.len() && #[trigger] taken1[k].covers(cc, rr);
                            assert(k < i + 1);
                            if k < i {
                                assert(taken[k] == taken1[k]);
                                assert(covered_by(taken, cc, rr));
                            } else {
                                assert(taken1[k] == rect);
                            }
                            assert(false);
                        }
                    }
                }
            }
        }
        i = i + 1;
    }
    proof {
        assert(rects@.take(rects@.len() as int) =~= rects@);
    }
}

/// `v` scaled by the ratio `screen / base` and rounded to the nearest
/// device pixel, halves rounding up. This is the one rounding rule the
/// renderer uses, on both axes.
pub open spec fn scale_round(v: int, screen: int, base: int) -> int {
    (2 * v * screen + base) / (2 * base)
}

/// When the device resolution is an exact whole multiple of the codec
/// resolution, rounding never moves anything: every codec coordinate lands
/// on exactly `factor` times itself.
pub proof fn lemma_scale_exact(v: int, factor: int, base: int)
    requires
        v >= 0,
        factor >= 1,
        base >= 1,
    ensures
        scale_round(v, factor * base, base) == v * factor,
{
    assert((2 * v * (factor * base) + base) / (2 * base) == v * factor) by (nonlinear_arith)
        requires v >= 0, factor >= 1, base >= 1;
}

/// A presentation surface of device resolution `screen_w` by `screen_h`
/// showing codec-space rectangles computed against the native resolution
/// `base_w` by `base_h`. Both scale ratios are fixed at construction.
pub struct ScaledRenderer {
    buffer: Vec<u32>,
    screen_w: usize,
    screen_h: usize,
    base_w: u16,
    base_h: u16,
}

impl ScaledRenderer {
    /// The buffer matches the device resolution, the native resolution is
    /// non-degenerate, and the device axes fit signed 32-bit counts.
    pub closed spec fn wf(self) -> bool {
        &&& self.buffer@.len() == self.screen_w * self.screen_h
        &&& self.base_w >= 1
        &&& self.base_h >= 1
        &&& self.screen_w <= 0x7fff_ffff
        &&& self.screen_h <= 0x7fff_ffff
    }

    /// The device pixels, row-major.
    pub closed spec fn pixels(self) -> Seq<u32> {
        self.buffer@
    }

    /// Device width in pixels.
    pub closed spec fn spec_screen_w(self) -> int {
        self.screen_w as int
    }

    /// Device height in pixels.
    pub closed spec fn spec_screen_h(self) -> int {
        self.screen_h as int
    }

    /// Native (codec-space) width in pixels.
    pub closed spec fn spec_base_w(self) -> int {
        self.base_w as int
    }

    /// Native (codec-space) height in pixels.
    pub closed spec fn spec_base_h(self) -> int {
        self.base_h as int
    }

    /// Where a codec rectangle lands on this device: scaled with
    /// `scale_round` on each axis, then clipped to the device.
    pub open spec fn device_footprint(self, x: u16, y: u16, w: u16, h: u16, cc: int, rr: int) -> bool {
        let left = scale_round(x as int, self.spec_screen_w(), self.spec_base_w());
        let top = scale_round(y as int, self.spec_screen_h(), self.spec_base_h());
        let ws = scale_round(w as int, self.spec_screen_w(), self.spec_base_w());
        let hs = scale_round(h as int, self.spec_screen_h(), self.spec_base_h());
        &&& left <= cc < left + ws
        &&& cc < self.spec_screen_w()
        &&& top <= rr < top + hs
        &&& rr < self.spec_screen_h()
    }

    /// Makes a renderer for the given device and native resolutions, with
    /// every device pixel transparent.
    pub fn new(screen_w: usize, screen_h: usize, base_w: u16, base_h: u16) -> (r: ScaledRenderer)
        requires
            screen_w <= 0x7fff_ffff,
            screen_h <= 0x7fff_ffff,
            screen_w * screen_h <= usize::MAX,
            base_w >= 1,
            base_h >= 1,
        ensures
            r.wf(),
            r.spec_screen_w() == screen_w,
            r.spec_screen_h() == screen_h,
            r.spec_base_w() == base_w,
            r.spec_base_h() == base_h,
            r.pixels().len() == screen_w * screen_h,
            forall|i: int| 0 <= i < r.pixels().len() ==> r.pixels()[i] == CLEAR_COLOR,
    {
        proof {
            assert(screen_w * screen_h >= 0) by (nonlinear_arith);
        }
        let n = screen_w * screen_h;
        let mut buffer: Vec<u32> = Vec::new();
        let mut i: usize = 0;
        while i < n
            invariant
                i <= n,
                buffer@.len() == i,
                forall|k: int| 0 <= k < i ==> buffer@[k] == CLEAR_COLOR,
            decreases n - i,
        {
            buffer.push(CLEAR_COLOR);
            i = i + 1;
        }
        ScaledRenderer { buffer, screen_w, screen_h, base_w, base_h }
    }

    /// Resets every device pixel to fully transparent, ahead of a frame.
    pub fn clear(&mut self)
        requires
            old(self).wf(),
        ensures
            final(self).wf(),
            final(self).spec_screen_w() == old(self).spec_screen_w(),
            final(self).spec_screen_h() == old(self).spec_screen_h(),
            final(self).spec_base_w() == old(self).spec_base_w(),
            final(self).spec_base_h() == old(self).spec_base_h(),
            final(self).pixels().len() == old(self).pixels().len(),
            forall|i: int| 0 <= i < final(self).pixels().len() ==> final(self).pixels()[i] == CLEAR_COLOR,
    {
        clear_buffer(&mut self.buffer, CLEAR_COLOR);
    }

    /// Draws one codec-space rectangle: its corner and extent are scaled by
    /// the fixed ratios, rounded half-up, clipped to the device, and the
    /// resulting span of device pixels is filled with the on color. A
    /// rectangle that rounds below one device pixel contributes nothing.
    pub fn draw_sparse_rect(&mut self, x: u16, y: u16, w: u16, h: u16)
        requires
            old(self).wf(),
        ensures
            final(self).wf(),
            final(self).spec_screen_w() == old(self).spec_screen_w(),
            final(self).spec_screen_h() == old(self).spec_screen_h(),
            final(self).spec_base_w() == old(self).spec_base_w(),
            final(self).spec_base_h() == old(self).spec_base_h(),
            final(self).pixels().len() == old(self).pixels().len(),
            forall|cc: int, rr: int|
                0 <= cc < final(self).spec_screen_w() && 0 <= rr < final(self).spec_screen_h()
                    ==> #[trigger] pixel_at(final(self).pixels(), final(self).spec_screen_w(), cc, rr)
                    == if old(self).device_footprint(x, y, w, h, cc, rr) {
                    ON_COLOR
                } else {
                    pixel_at(old(self).pixels(), old(self).spec_screen_w(), cc, rr)
                },
    {
        let sw64 = self.screen_w as u64;
        let sh64 = self.screen_h as u64;
        let bw64 = self.base_w as u64;
        let bh64 = self.base_h as u64;
        proof {
            assert(0 <= 2 * (x as int) * (sw64 as int) + (bw64 as int) < 0x8000_0000_0000_0000
                && 0 <= 2 * (y as int) * (sh64 as int) + (bh64 as int) < 0x8000_0000_0000_0000
                && 0 <= 2 * (w as int) * (sw64 as int) + (bw64 as int) < 0x8000_0000_0000_0000
                && 0 <= 2 * (h as int) * (sh64 as int) + (bh64 as int) < 0x8000_0000_0000_0000)
                by (nonlinear_arith)
                requires
                    0 <= x as int <= 0xffff,
                    0 <= y as int <= 0xffff,
                    0 <= w as int <= 0xffff,
                    0 <= h as int <= 0xffff,
                    0 <= sw64 as int <= 0x7fff_ffff,
                    0 <= sh64 as int <= 0x7fff_ffff,
                    1 <= bw64 as int <= 0xffff,
                    1 <= bh64 as int <= 0xffff;
        }
        let left = (2 * (x as u64) * sw64 + bw64) / (2 * bw64);
        let top = (2 * (y as u64) * sh64 + bh64) / (2 * bh64);
        let ws = (2 * (w as u64) * sw64 + bw64) / (2 * bw64);
        let hs = (2 * (h as u64) * sh64 + bh64) / (2 * bh64);
        proof {
            lemma_scale_bounds(x as int, sw64 as int, bw64 as int);
            lemma_scale_bounds(y as int, sh64 as int, bh64 as int);
            lemma_scale_bounds(w as int, sw64 as int, bw64 as int);
            lemma_scale_bounds(h as int, sh64 as int, bh64 as int);
        }
        let right = if left + ws < sw64 {
            left + ws
        } else {
            sw64
        };
        let bottom = if top + hs < sh64 {
            top + hs
        } else {
            sh64
        };
        if right > left && bottom > top {
            let lx = left as usize;
            let ty = top as usize;
            let dw = (right - left) as usize;
            let dh = (bottom - top) as usize;
            draw_rect(&mut self.buffer, self.screen_w, self.screen_h, lx, ty, dw, dh);
        }
    }

    /// The current device pixels, row-major, for presentation.
    pub fn buffer(&self) -> (r: &Vec<u32>)
        ensures
            r@ == self.pixels(),
    {
        &self.buffer
    }

    /// Device width in pixels.
    pub fn screen_w(&self) -> (r: usize)
        ensures
            r == self.spec_screen_w(),
    {
        self.screen_w
    }

    /// Device height in pixels.
    pub fn screen_h(&self) -> (r: usize)
        ensures
            r == self.spec_screen_h(),
    {
        self.screen_h
    }
}

/// The scaled value of a 16-bit coordinate is non-negative and, for
/// arguments within the renderer's bounds, small enough that the arithmetic
/// stays inside 64 bits.
proof fn lemma_scale_bounds(v: int, screen: int, base: int)
    requires
        0 <= v <= 0xffff,
        0 <= screen <= 0x7fff_ffff,
        1 <= base <= 0xffff,
    ensures
        0 <= scale_round(v, screen, base),
        2 * v * screen + base <= 0xffff_ffff_ffff_ffff,
        scale_round(v, screen, base) <= 2 * v * screen + base,
{
    assert(0 <= 2 * v * screen <= 2 * 0xffff * 0x7fff_ffff) by (nonlinear_arith)
        requires 0 <= v <= 0xffff, 0 <= screen <= 0x7fff_ffff;
    assert((2 * v * screen + base) / (2 * base) >= 0) by (nonlinear_arith)
        requires 2 * v * screen >= 0, base >= 1;
    assert((2 * v * screen + base) / (2 * base) <= 2 * v * screen + base) by (nonlinear_arith)
        requires 2 * v * screen + base >= 0, base >= 1;
}

} // verus!
