use vstd::prelude::*;

verus! {

/// One axis-aligned rectangle in codec space: top-left corner `(x, y)`,
/// extent `w` by `h`, all in pixels. Rectangles that carry real content
/// always have `w >= 1` and `h >= 1`; the value with `w == 0 && h == 0`
/// is reserved as the end-of-frame sentinel.
#[derive(Debug, Clone, Copy, PartialEq, Eq, Structural)]
pub struct PixelRect {
    pub x: u16,
    pub y: u16,
    pub w: u16,
    pub h: u16,
}

impl View for PixelRect {
    type V = PixelRect;

    open spec fn view(&self) -> PixelRect {
        *self
    }
}

impl DeepView for PixelRect {
    type V = PixelRect;

    open spec fn deep_view(&self) -> PixelRect {
        *self
    }
}

impl PixelRect {
    /// True when this rectangle is the end-of-frame sentinel rather than
    /// content. Content rectangles have non-zero extent, so the test is
    /// never ambiguous.
    #[inline]
    pub fn is_frame_end(&self) -> (r: bool)
        ensures
            r == self.is_sentinel(),
    {
        self.w == 0 && self.h == 0
    }

    /// Spec-level form of the sentinel test.
    pub open spec fn is_sentinel(self) -> bool {
        self.w == 0 && self.h == 0
    }

    /// A content rectangle: positive extent on both axes.
    pub open spec fn is_content(self) -> bool {
        self.w >= 1 && self.h >= 1
    }

    /// Whether codec-space pixel `(px, py)` lies inside this rectangle.
    pub open spec fn covers(self, px: int, py: int) -> bool {
        self.x <= px < self.x + self.w && self.y <= py < self.y + self.h
    }
}

/// The end-of-frame sentinel value. Written after each frame's rectangles;
/// the decoder consumes it without yielding it.
pub fn eos_marker() -> (r: PixelRect)
    ensures
        r.is_sentinel(),
        r == (PixelRect { x: 0u16, y: 0u16, w: 0u16, h: 0u16 }),
{
    PixelRect { x: 0, y: 0, w: 0, h: 0 }
}

/// The raw coordinate record the presentation path reads straight out of
/// the container bytes; it has the same four little-endian 16-bit fields
/// as `PixelRect`.
#[derive(Debug, Clone, Copy, PartialEq, Eq, Structural)]
pub struct RawWinCoords {
    pub x: u16,
    pub y: u16,
    pub w: u16,
    pub h: u16,
}

/// Whether any rectangle of `rects` covers codec-space pixel `(px, py)`.
pub open spec fn covered_by(rects: Seq<PixelRect>, px: int, py: int) -> bool {
    exists|i: int| 0 <= i < rects.len() && #[trigger] rects[i].covers(px, py)
}

} // verus!
