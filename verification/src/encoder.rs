use vstd::prelude::*;

use crate::rect::{covered_by, PixelRect};

verus! {

/// Whether `(px, py)` is a coordinate of a `w` by `h` frame.
pub open spec fn in_frame(w: int, h: int, px: int, py: int) -> bool {
    0 <= px < w && 0 <= py < h
}

/// Whether the pixel at column `px`, row `py` of a row-major grayscale
/// buffer of row width `w` is at or above the brightness threshold `t`.
pub open spec fn pixel_on(buf: Seq<u8>, w: int, t: u8, px: int, py: int) -> bool {
    buf[py * w + px] >= t
}

/// The rectangle has positive extent and lies inside a frame of width `w`
/// whose rows below `row_limit` have been produced so far.
pub open spec fn rect_within(r: PixelRect, w: int, row_limit: int) -> bool {
    &&& 1 <= r.w
    &&& 1 <= r.h
    &&& r.x + r.w <= w
    &&& r.y + r.h <= row_limit
}

/// Every pixel the rectangle covers is at or above the threshold.
pub open spec fn rect_all_on(buf: Seq<u8>, w: int, t: u8, r: PixelRect) -> bool {
    forall|px: int, py: int| #[trigger] r.covers(px, py) ==> pixel_on(buf, w, t, px, py)
}

/// At row `py`, the rectangle's column span cannot be widened: the columns
/// just left and just right of it are below threshold (or off the frame).
pub open spec fn row_run_maximal(buf: Seq<u8>, w: int, t: u8, r: PixelRect, py: int) -> bool {
    &&& (r.x == 0 || !pixel_on(buf, w, t, r.x - 1, py))
    &&& (r.x + r.w == w || !pixel_on(buf, w, t, r.x + r.w, py))
}

/// Every row of the rectangle is a horizontally maximal run.
pub open spec fn rect_h_maximal(buf: Seq<u8>, w: int, t: u8, r: PixelRect) -> bool {
    forall|py: int| r.y <= py < r.y + r.h ==> #[trigger] row_run_maximal(buf, w, t, r, py)
}

/// No pixel is covered by two distinct rectangles of the list.
pub open spec fn rects_disjoint(rects: Seq<PixelRect>) -> bool {
    forall|i: int, j: int, px: int, py: int|
        #![trigger rects[i].covers(px, py), rects[j].covers(px, py)]
        0 <= i < rects.len() && 0 <= j < rects.len() && i != j && rects[i].covers(px, py)
            ==> !rects[j].covers(px, py)
}

/// No rectangle sits flush below another with the identical column span:
/// such a pair would have been merged into one taller rectangle.
pub open spec fn no_vertical_seam(rects: Seq<PixelRect>) -> bool {
    forall|i: int, j: int|
        #![trigger rects[i], rects[j]]
        0 <= i < rects.len() && 0 <= j < rects.len()
            ==> !(rects[i].x == rects[j].x && rects[i].w == rects[j].w && rects[i].y
                + rects[i].h == rects[j].y)
}

/// Every at-or-above-threshold pixel of the frame is covered by some
/// rectangle of the list.
pub open spec fn rects_cover_mask(
    buf: Seq<u8>,
    w: int,
    h: int,
    t: u8,
    rects: Seq<PixelRect>,
) -> bool {
    forall|px: int, py: int|
        in_frame(w, h, px, py) && #[trigger] pixel_on(buf, w, t, px, py) ==> covered_by(
            rects,
            px,
            py,
        )
}

/// What run extraction guarantees of its output: the rectangles tile the
/// set of at-or-above-threshold pixels exactly (each rectangle covers only
/// such pixels, together they cover all of them, and no pixel twice), every
/// rectangle row is a horizontally maximal run, and no two rectangles with
/// the same column span touch vertically.
pub open spec fn encoder_output_ok(
    buf: Seq<u8>,
    w: int,
    h: int,
    t: u8,
    rects: Seq<PixelRect>,
) -> bool {
    &&& forall|i: int| 0 <= i < rects.len() ==> rect_within(#[trigger] rects[i], w, h)
    &&& forall|i: int| 0 <= i < rects.len() ==> rect_all_on(buf, w, t, #[trigger] rects[i])
    &&& forall|i: int| 0 <= i < rects.len() ==> rect_h_maximal(buf, w, t, #[trigger] rects[i])
    &&& rects_disjoint(rects)
    &&& no_vertical_seam(rects)
    &&& rects_cover_mask(buf, w, h, t, rects)
}

/// The two rectangles share at least one pixel.
pub open spec fn rect_meets(a: PixelRect, c: PixelRect) -> bool {
    exists|px: int, py: int| a.covers(px, py) && #[trigger] c.covers(px, py)
}

/// The columns of `b` are below threshold in the rows just above and just
/// below `b` (where those rows exist).
pub open spec fn col_ends_at_block(buf: Seq<u8>, w: int, h: int, t: u8, b: PixelRect, px: int) -> bool {
    &&& (b.y == 0 || !pixel_on(buf, w, t, px, b.y - 1))
    &&& (b.y + b.h == h || !pixel_on(buf, w, t, px, b.y + b.h))
}

/// A solid rectangular block of at-or-above-threshold pixels whose whole
/// border, where it lies inside the frame, is below threshold.
pub open spec fn isolated_block(buf: Seq<u8>, w: int, h: int, t: u8, b: PixelRect) -> bool {
    &&& rect_within(b, w, h)
    &&& rect_all_on(buf, w, t, b)
    &&& rect_h_maximal(buf, w, t, b)
    &&& forall|px: int| b.x <= px < b.x + b.w ==> #[trigger] col_ends_at_block(buf, w, h, t, b, px)
}

/// The rectangle list facts that hold of the growing output while the scan
/// stands at row `y`, column `x`: rectangles end at or before `row_limit`,
/// and whatever they cover of row `y` lies left of column `x`.
spec fn boxes_ok(
    buf: Seq<u8>,
    w: int,
    t: u8,
    rects: Seq<PixelRect>,
    row_limit: int,
) -> bool {
    &&& forall|i: int| 0 <= i < rects.len() ==> rect_within(#[trigger] rects[i], w, row_limit)
    &&& forall|i: int| 0 <= i < rects.len() ==> rect_all_on(buf, w, t, #[trigger] rects[i])
    &&& forall|i: int| 0 <= i < rects.len() ==> rect_h_maximal(buf, w, t, #[trigger] rects[i])
    &&& rects_disjoint(rects)
    &&& no_vertical_seam(rects)
}

/// Row `y` is covered by the rectangles only at columns left of `x`.
spec fn row_covered_below(rects: Seq<PixelRect>, y: int, x: int) -> bool {
    forall|i: int, px: int|
        0 <= i < rects.len() && #[trigger] rects[i].covers(px, y) ==> px < x
}

/// All at-or-above-threshold pixels up to row `y`, column `x` (exclusive,
/// in scan order) are covered.
spec fn mask_covered_upto(
    buf: Seq<u8>,
    w: int,
    t: u8,
    rects: Seq<PixelRect>,
    y: int,
    x: int,
) -> bool {
    forall|px: int, py: int|
        0 <= px < w && 0 <= py && (py < y || (py == y && px < x)) && #[trigger] pixel_on(
            buf,
            w,
            t,
            px,
            py,
        ) ==> covered_by(rects, px, py)
}

/// Table entries are `-1` or an index into the rectangle list.
spec fn tbl_valid(active: Seq<i64>, n_boxes: int) -> bool {
    forall|c: int| 0 <= c < active.len() ==> -1 <= #[trigger] active[c] < n_boxes
}

/// Every rectangle whose bottom edge is `bottom` and whose left column is
/// at or right of `from_col` is named by the table entry of its left column.
spec fn tbl_names_bottom(
    active: Seq<i64>,
    rects: Seq<PixelRect>,
    bottom: int,
    from_col: int,
) -> bool {
    forall|i: int|
        0 <= i < rects.len() && (#[trigger] rects[i]).y + rects[i].h == bottom && rects[i].x
            >= from_col ==> active[rects[i].x as int] == i
}

/// Run extraction. Scans the frame row by row, splitting each row into
/// maximal runs of at-or-above-threshold pixels; a run that repeats the
/// column span of the rectangle directly above it (found through the
/// active-run table) grows that rectangle one row taller, any other run
/// starts a new one-row rectangle.
///
/// A column's table entry is cleared only when that column is seen below
/// threshold; columns passed over inside a run keep whatever they held, so
/// entries can go stale. That is harmless by design: a rectangle only grows
/// after the full footprint test (its bottom edge, left column and width
/// must all match the run), which the contract's no-seam clause rests on.
pub fn extract_rects_optimized(
    buffer: &[u8],
    width: u32,
    height: u32,
    threshold: u8,
) -> (boxes: Vec<PixelRect>)
    requires
        buffer@.len() == width * height,
        width <= 65535,
        height <= 65535,
    ensures
        encoder_output_ok(buffer@, width as int, height as int, threshold, boxes@),
{
    let w = width as usize;
    let h = height as usize;
    let n_bytes = buffer.len();
    let mut boxes: Vec<PixelRect> = Vec::new();
    let mut active: Vec<i64> = Vec::new();
    let mut c: usize = 0;
    while c < w
        invariant
            c <= w,
            active@.len() == c,
            forall|k: int| 0 <= k < c ==> active@[k] == -1,
        decreases w - c,
    {
        active.push(-1);
        c = c + 1;
    }

    let ghost gbuf: Seq<u8> = buffer@;
    let ghost gw: int = width as int;
    let ghost gh: int = height as int;
    proof {
        assert(gbuf.len() == n_bytes);
    }

    let mut y: usize = 0;
    while y < h
        invariant
            y <= h,
            w == width as int,
            h == height as int,
            gbuf == buffer@,
            gbuf.len() == gw * gh,
            gbuf.len() == n_bytes,
            gw == w as int,
            gh == h as int,
            w <= 65535,
            h <= 65535,
            active@.len() == w,
            tbl_valid(active@, boxes@.len() as int),
            tbl_names_bottom(active@, boxes@, y as int, 0),
            boxes_ok(gbuf, gw, threshold, boxes@, y as int),
            mask_covered_upto(gbuf, gw, threshold, boxes@, y as int, 0),
            boxes@.len() <= y * w,
        decreases h - y,
    {
        let ghost gy: int = y as int;
        proof {
            assert(gy * gw + gw <= gh * gw) by (nonlinear_arith)
                requires gy + 1 <= gh, gw >= 0;
            assert(gw * gh == gh * gw) by (nonlinear_arith);
            // nothing covers row y yet, and the facts that depend on the
            // row bound carry over to the one-row-larger bound
            assert forall|i: int, px: int|
                0 <= i < boxes@.len() && #[trigger] boxes@[i].covers(px, gy) implies px < 0 by {
                assert(rect_within(boxes@[i], gw, gy));
            }
            assert forall|i: int| 0 <= i < boxes@.len() implies rect_within(
                #[trigger] boxes@[i],
                gw,
                gy + 1,
            ) by {
                assert(rect_within(boxes@[i], gw, gy));
            }
        }
        let row_start = y * w;
        let mut x: usize = 0;
        while x < w
            invariant
                x <= w,
                y < h,
                row_start == y * w,
                w == width as int,
                gbuf == buffer@,
                gbuf.len() == gw * gh,
                gbuf.len() == n_bytes,
                gw == w as int,
                gh == h as int,
                w <= 65535,
                h <= 65535,
                gy == y as int,
                gy * gw + gw <= gh * gw,
                gw * gh == gh * gw,
                active@.len() == w,
                tbl_valid(active@, boxes@.len() as int),
                tbl_names_bottom(active@, boxes@, gy, x as int),
                tbl_names_bottom(active@, boxes@, gy + 1, 0),
                boxes_ok(gbuf, gw, threshold, boxes@, gy + 1),
                row_covered_below(boxes@, gy, x as int),
                mask_covered_upto(gbuf, gw, threshold, boxes@, gy, x as int),
                boxes@.len() <= y * w + x,
                x == 0 || x == w || !pixel_on(gbuf, gw, threshold, x - 1, gy) || !pixel_on(
                    gbuf,
                    gw,
                    threshold,
                    x as int,
                    gy,
                ),
            decreases w - x,
        {
            if buffer[row_start + x] < threshold {
                proof {
                    assert(!pixel_on(gbuf, gw, threshold, x as int, gy));
                    // no rectangle grown through row y has its left column
                    // here: it would cover this below-threshold pixel
                    assert forall|i: int|
                        0 <= i < boxes@.len() && (#[trigger] boxes@[i]).y + boxes@[i].h == gy + 1
                            && boxes@[i].x == x as int implies false by {
                        assert(boxes@[i].covers(x as int, gy));
                        assert(rect_all_on(gbuf, gw, threshold, boxes@[i]));
                    }
                }
                let ghost act0 = active@;
                if active[x] != -1 {
                    active[x] = -1;
                }
                proof {
                    // entries other than column x are untouched, and no
                    // rectangle the next row could merge into starts at x
                    assert forall|i: int|
                        0 <= i < boxes@.len() && (#[trigger] boxes@[i]).y + boxes@[i].h == gy
                            && boxes@[i].x >= x + 1 implies active@[boxes@[i].x as int] == i by {
                        assert(act0[boxes@[i].x as int] == i);
                    }
                    assert forall|i: int|
                        0 <= i < boxes@.len() && (#[trigger] boxes@[i]).y + boxes@[i].h == gy + 1
                            implies active@[boxes@[i].x as int] == i by {
                        assert(act0[boxes@[i].x as int] == i);
                        assert(boxes@[i].x != x as int);
                    }
                }
                x = x + 1;
            } else {
                let start_x = x;
                while x < w && buffer[row_start + x] >= threshold
                    invariant
                        start_x <= x <= w,
                        y < h,
                        row_start == y * w,
                        gbuf == buffer@,
                        gbuf.len() == gw * gh,
                        gbuf.len() == n_bytes,
                        gw == w as int,
                        gh == h as int,
                        gy == y as int,
                        gy * gw + gw <= gh * gw,
                        gw * gh == gh * gw,
                        forall|px: int|
                            start_x <= px < x ==> pixel_on(gbuf, gw, threshold, px, gy),
                    decreases w - x,
                {
                    x = x + 1;
                }
                let ghost gsx: int = start_x as int;
                let ghost gex: int = x as int;
                proof {
                    assert(pixel_on(gbuf, gw, threshold, gsx, gy));
                    assert(gex == w as int || !pixel_on(gbuf, gw, threshold, gex, gy));
                    assert(gsx == 0 || !pixel_on(gbuf, gw, threshold, gsx - 1, gy));
                }
                let run_width = (x - start_x) as u16;
                let current_start_x = start_x as u16;
                let active_idx = active[start_x];
                let mut merged = false;
                if active_idx != -1 {
                    let idx = active_idx as usize;
                    if idx < boxes.len() {
                        let b = boxes[idx];
                        if b.y + b.h == (y as u16) && b.x == current_start_x && b.w == run_width {
                            let ghost pre = boxes@;
                            proof {
                                assert(rect_within(pre[idx as int], gw, gy + 1));
                            }
                            let grown = PixelRect { x: b.x, y: b.y, w: b.w, h: b.h + 1 };
                            boxes[idx] = grown;
                            merged = true;
                            proof {
                                lemma_grow_preserves(
                                    gbuf, gw, threshold, pre, boxes@, idx as int, gy, gsx, gex, w as int,
                                );
                                // the table still names every rectangle it
                                // must: only the bottom edge of `idx` moved
                                assert forall|i: int|
                                    0 <= i < boxes@.len() && (#[trigger] boxes@[i]).y
                                        + boxes@[i].h == gy && boxes@[i].x >= gex implies active@[boxes@[i].x as int]
                                    == i by {
                                    assert(i != idx as int);
                                    assert(boxes@[i] == pre[i]);
                                    assert(pre[i].x >= gsx);
                                }
                                assert forall|i: int|
                                    0 <= i < boxes@.len() && (#[trigger] boxes@[i]).y
                                        + boxes@[i].h == gy + 1 implies active@[boxes@[i].x as int]
                                    == i by {
                                    if i == idx as int {
                                        assert(pre[i].y + pre[i].h == gy && pre[i].x == gsx);
                                    } else {
                                        assert(boxes@[i] == pre[i]);
                                    }
                                }
                                // everything at-or-above threshold seen so
                                // far, run included, is now covered
                                assert forall|px: int, py: int|
                                    0 <= px < gw && 0 <= py && (py < gy || (py == gy && px < gex))
                                        && #[trigger] pixel_on(gbuf, gw, threshold, px, py) implies covered_by(
                                    boxes@,
                                    px,
                                    py,
                                ) by {
                                    if py < gy || px < gsx {
                                        assert(covered_by(pre, px, py));
                                    } else {
                                        assert(gsx <= px < gex && py == gy);
                                    }
                                }
                            }
                        }
                    }
                }
                if !merged {
                    let new_idx = boxes.len();
                    proof {
                        // the table would have named a same-footprint
                        // rectangle ending just above this run, so none exists
                        assert forall|i: int|
                            0 <= i < boxes@.len() && (#[trigger] boxes@[i]).y + boxes@[i].h == gy
                                && boxes@[i].x == gsx && boxes@[i].w == gex - gsx implies false by {
                            assert(active@[gsx] == i);
                        }
                        assert(boxes@.len() <= y * w + x - 1);
                        assert(gh * gw <= 65535 * 65535) by (nonlinear_arith)
                            requires 0 <= gh <= 65535, 0 <= gw <= 65535;
                        assert(new_idx as int <= 65535 * 65535);
                    }
                    let ghost pre = boxes@;
                    let ghost act0 = active@;
                    let nb = PixelRect {
                        x: current_start_x,
                        y: y as u16,
                        w: run_width,
                        h: 1,
                    };
                    boxes.push(nb);
                    proof {
                        lemma_push_preserves(
                            gbuf, gw, threshold, pre, boxes@, gy, gsx, gex, w as int,
                        );
                        // no rectangle grown through row y starts at the
                        // run's first column, so its table entry is free
                        assert forall|i: int|
                            0 <= i < pre.len() && (#[trigger] pre[i]).y + pre[i].h == gy + 1
                                && pre[i].x == gsx implies false by {
                            assert(pre[i].covers(gsx, gy));
                        }
                    }
                    active[start_x] = new_idx as i64;
                    proof {
                        assert(active@ == act0.update(gsx, new_idx as i64));
                        assert forall|i: int|
                            0 <= i < boxes@.len() && (#[trigger] boxes@[i]).y + boxes@[i].h == gy
                                && boxes@[i].x >= gex implies active@[boxes@[i].x as int] == i by {
                            assert(i < pre.len() && boxes@[i] == pre[i]);
                            assert(act0[pre[i].x as int] == i);
                            assert(pre[i].x != gsx);
                        }
                        assert forall|i: int|
                            0 <= i < boxes@.len() && (#[trigger] boxes@[i]).y + boxes@[i].h == gy
                                + 1 implies active@[boxes@[i].x as int] == i by {
                            if i < pre.len() {
                                assert(boxes@[i] == pre[i]);
                                assert(pre[i].x != gsx);
                                assert(act0[pre[i].x as int] == i);
                            } else {
                                assert(boxes@[i] == nb);
                            }
                        }
                        assert forall|px: int, py: int|
                            0 <= px < gw && 0 <= py && (py < gy || (py == gy && px < gex))
                                && #[trigger] pixel_on(gbuf, gw, threshold, px, py) implies covered_by(
                            boxes@,
                            px,
                            py,
                        ) by {
                            if py < gy || px < gsx {
                                assert(covered_by(pre, px, py));
                            } else {
                                assert(gsx <= px < gex && py == gy);
                            }
                        }
                    }
                }
            }
        }
        proof {
            assert((gy + 1) * gw == gy * gw + gw) by (nonlinear_arith);
        }
        y = y + 1;
    }
    boxes
}

/// Growing rectangle `idx` (bottom at row `y`, span `[sx, ex)`) one row
/// taller keeps every rectangle-list fact, provided the run `[sx, ex)` of
/// row `y` is maximal and nothing else covers row `y` at column `sx` or
/// beyond.
proof fn lemma_grow_preserves(
    buf: Seq<u8>,
    gw: int,
    t: u8,
    pre: Seq<PixelRect>,
    post: Seq<PixelRect>,
    idx: int,
    y: int,
    sx: int,
    ex: int,
    w: int,
)
    requires
        gw == w,
        0 <= idx < pre.len(),
        post == pre.update(idx, PixelRect {
            x: pre[idx].x,
            y: pre[idx].y,
            w: pre[idx].w,
            h: (pre[idx].h + 1) as u16,
        }),
        pre[idx].y + pre[idx].h == y,
        pre[idx].x == sx,
        pre[idx].w == ex - sx,
        pre[idx].h + 1 <= u16::MAX,
        0 <= sx < ex <= w,
        boxes_ok(buf, gw, t, pre, y + 1),
        row_covered_below(pre, y, sx),
        forall|px: int| sx <= px < ex ==> pixel_on(buf, gw, t, px, y),
        ex == w || !pixel_on(buf, gw, t, ex, y),
        sx == 0 || !pixel_on(buf, gw, t, sx - 1, y),
    ensures
        boxes_ok(buf, gw, t, post, y + 1),
        row_covered_below(post, y, ex),
        forall|px: int, py: int|
            covered_by(pre, px, py) || (sx <= px < ex && py == y) ==> covered_by(post, px, py),
{
    let old_r = pre[idx];
    let new_r = post[idx];
    assert(post.len() == pre.len());
    assert(forall|i: int| 0 <= i < post.len() && i != idx ==> post[i] == pre[i]);
    assert(new_r.x == old_r.x && new_r.y == old_r.y && new_r.w == old_r.w && new_r.h == old_r.h
        + 1);

    // the grown rectangle covers what it did plus the new bottom row
    assert forall|px: int, py: int| #[trigger] new_r.covers(px, py) implies old_r.covers(px, py)
        || (sx <= px < ex && py == y) by {}

    assert forall|i: int| 0 <= i < post.len() implies rect_within(#[trigger] post[i], gw, y + 1) by {
        assert(rect_within(pre[i], gw, y + 1));
    }
    assert forall|i: int| 0 <= i < post.len() implies rect_all_on(buf, gw, t, #[trigger] post[i]) by {
        assert(rect_all_on(buf, gw, t, pre[i]));
        if i == idx {
            assert forall|px: int, py: int| #[trigger] post[i].covers(px, py) implies pixel_on(
                buf,
                gw,
                t,
                px,
                py,
            ) by {
                if old_r.covers(px, py) {
                } else {
                    assert(sx <= px < ex && py == y);
                }
            }
        }
    }
    assert forall|i: int| 0 <= i < post.len() implies rect_h_maximal(buf, gw, t, #[trigger] post[i]) by {
        assert(rect_h_maximal(buf, gw, t, pre[i]));
        if i == idx {
            assert forall|py: int| new_r.y <= py < new_r.y + new_r.h implies #[trigger] row_run_maximal(
                buf,
                gw,
                t,
                new_r,
                py,
            ) by {
                if py < y {
                    assert(row_run_maximal(buf, gw, t, old_r, py));
                } else {
                    assert(py == y);
                }
            }
        }
    }
    assert forall|i: int, j: int, px: int, py: int|
        #![trigger post[i].covers(px, py), post[j].covers(px, py)]
        0 <= i < post.len() && 0 <= j < post.len() && i != j && post[i].covers(px, py) implies !post[j].covers(
        px,
        py,
    ) by {
        if post[j].covers(px, py) {
            if i == idx && !old_r.covers(px, py) {
                // new coverage: row y at [sx, ex); post[j] == pre[j] would
                // put row-y coverage at or past sx
                assert(sx <= px < ex && py == y);
                assert(pre[j].covers(px, py));
            } else if j == idx && !old_r.covers(px, py) {
                assert(sx <= px < ex && py == y);
                assert(pre[i].covers(px, py));
            } else {
                assert(pre[i].covers(px, py));
                assert(pre[j].covers(px, py));
            }
        }
    }
    assert forall|i: int, j: int|
        #![trigger post[i], post[j]]
        0 <= i < post.len() && 0 <= j < post.len() implies !(post[i].x == post[j].x && post[i].w
        == post[j].w && post[i].y + post[i].h == post[j].y) by {
        if post[i].x == post[j].x && post[i].w == post[j].w && post[i].y + post[i].h == post[j].y {
            if i == idx {
                // the grown rectangle now ends at y + 1; a rectangle
                // starting at row y + 1 cannot exist yet
                assert(post[j].y == y + 1);
                assert(rect_within(pre[j], gw, y + 1));
                assert(pre[j].y + pre[j].h <= y + 1);
                assert(pre[j].h >= 1);
                assert(pre[j].covers(pre[j].x as int, pre[j].y as int));
            } else if j == idx {
                assert(pre[i].x == pre[j].x && pre[i].w == pre[j].w && pre[i].y + pre[i].h
                    == pre[j].y);
            } else {
                assert(pre[i].x == pre[j].x && pre[i].w == pre[j].w && pre[i].y + pre[i].h
                    == pre[j].y);
            }
        }
    }
    assert forall|i: int, px: int| 0 <= i < post.len() && #[trigger] post[i].covers(px, y) implies px
        < ex by {
        if i == idx {
            if old_r.covers(px, y) {
                assert(px < sx);
            }
        } else {
            assert(pre[i].covers(px, y));
        }
    }
    assert forall|px: int, py: int|
        covered_by(pre, px, py) || (sx <= px < ex && py == y) implies covered_by(post, px, py) by {
        if sx <= px < ex && py == y {
            assert(post[idx].covers(px, py));
        } else {
            let i = choose|i: int| 0 <= i < pre.len() && #[trigger] pre[i].covers(px, py);
            if i == idx {
                assert(post[idx].covers(px, py));
            } else {
                assert(post[i].covers(px, py));
            }
        }
    }
}

/// Appending a fresh one-row rectangle for the maximal run `[sx, ex)` of
/// row `y` keeps every rectangle-list fact, provided no existing rectangle
/// with that very footprint ends just above it and nothing covers row `y`
/// at column `sx` or beyond.
proof fn lemma_push_preserves(
    buf: Seq<u8>,
    gw: int,
    t: u8,
    pre: Seq<PixelRect>,
    post: Seq<PixelRect>,
    y: int,
    sx: int,
    ex: int,
    w: int,
)
    requires
        gw == w,
        post == pre.push(PixelRect {
            x: sx as u16,
            y: y as u16,
            w: (ex - sx) as u16,
            h: 1u16,
        }),
        0 <= sx < ex <= w,
        w <= 65535,
        0 <= y <= 65534,
        boxes_ok(buf, gw, t, pre, y + 1),
        row_covered_below(pre, y, sx),
        forall|px: int| sx <= px < ex ==> pixel_on(buf, gw, t, px, y),
        ex == w || !pixel_on(buf, gw, t, ex, y),
        sx == 0 || !pixel_on(buf, gw, t, sx - 1, y),
        forall|i: int|
            0 <= i < pre.len() ==> !((#[trigger] pre[i]).y + pre[i].h == y && pre[i].x == sx
                && pre[i].w == ex - sx),
    ensures
        boxes_ok(buf, gw, t, post, y + 1),
        row_covered_below(post, y, ex),
        forall|px: int, py: int|
            covered_by(pre, px, py) || (sx <= px < ex && py == y) ==> covered_by(post, px, py),
{
    let nr = post[post.len() - 1];
    assert(nr == PixelRect { x: sx as u16, y: y as u16, w: (ex - sx) as u16, h: 1u16 });
    assert(post.len() == pre.len() + 1);
    assert(forall|i: int| 0 <= i < pre.len() ==> post[i] == pre[i]);
    assert forall|px: int, py: int| #[trigger] nr.covers(px, py) implies sx <= px < ex && py
        == y by {}

    assert forall|i: int| 0 <= i < post.len() implies rect_within(#[trigger] post[i], gw, y + 1) by {
        if i < pre.len() {
            assert(rect_within(pre[i], gw, y + 1));
        }
    }
    assert forall|i: int| 0 <= i < post.len() implies rect_all_on(buf, gw, t, #[trigger] post[i]) by {
        if i < pre.len() {
            assert(rect_all_on(buf, gw, t, pre[i]));
        } else {
            assert forall|px: int, py: int| #[trigger] nr.covers(px, py) implies pixel_on(
                buf,
                gw,
                t,
                px,
                py,
            ) by {}
        }
    }
    assert forall|i: int| 0 <= i < post.len() implies rect_h_maximal(buf, gw, t, #[trigger] post[i]) by {
        if i < pre.len() {
            assert(rect_h_maximal(buf, gw, t, pre[i]));
        } else {
            assert forall|py: int| nr.y <= py < nr.y + nr.h implies #[trigger] row_run_maximal(
                buf,
                gw,
                t,
                nr,
                py,
            ) by {
                assert(py == y);
            }
        }
    }
    assert forall|i: int, j: int, px: int, py: int|
        #![trigger post[i].covers(px, py), post[j].covers(px, py)]
        0 <= i < post.len() && 0 <= j < post.len() && i != j && post[i].covers(px, py) implies !post[j].covers(
        px,
        py,
    ) by {
        if post[j].covers(px, py) {
            if i == pre.len() {
                assert(sx <= px < ex && py == y);
                assert(pre[j].covers(px, py));
            } else if j == pre.len() {
                assert(sx <= px < ex && py == y);
                assert(pre[i].covers(px, py));
            } else {
                assert(pre[i].covers(px, py));
                assert(pre[j].covers(px, py));
            }
        }
    }
    assert forall|i: int, j: int|
        #![trigger post[i], post[j]]
        0 <= i < post.len() && 0 <= j < post.len() implies !(post[i].x == post[j].x && post[i].w
        == post[j].w && post[i].y + post[i].h == post[j].y) by {
        if post[i].x == post[j].x && post[i].w == post[j].w && post[i].y + post[i].h == post[j].y {
            if i == pre.len() && j == pre.len() {
                assert(nr.y + nr.h == y + 1 && nr.y == y);
            } else if i == pre.len() {
                // a rectangle starting at row y + 1 cannot exist yet
                assert(post[j].y == y + 1);
                assert(rect_within(pre[j], gw, y + 1));
            } else if j == pre.len() {
                // a same-footprint rectangle ending at row y was excluded
                assert(pre[i].y + pre[i].h == y && pre[i].x == sx && pre[i].w == ex - sx);
            } else {
                assert(pre[i].x == pre[j].x && pre[i].w == pre[j].w && pre[i].y + pre[i].h
                    == pre[j].y);
            }
        }
    }
    assert forall|i: int, px: int| 0 <= i < post.len() && #[trigger] post[i].covers(px, y) implies px
        < ex by {
        if i < pre.len() {
            assert(pre[i].covers(px, y));
        }
    }
    assert forall|px: int, py: int|
        covered_by(pre, px, py) || (sx <= px < ex && py == y) implies covered_by(post, px, py) by {
        if sx <= px < ex && py == y {
            assert(post[pre.len() as int].covers(px, py));
        } else {
            let i = choose|i: int| 0 <= i < pre.len() && #[trigger] pre[i].covers(px, py);
            assert(post[i].covers(px, py));
        }
    }
}

/// Law (sentinel unambiguity): every rectangle the encoder emits has
/// positive width and positive height, so none of them is ever the
/// end-of-frame sentinel.
pub proof fn lemma_no_sentinel_emitted(buf: Seq<u8>, w: int, h: int, t: u8, rects: Seq<PixelRect>)
    requires
        encoder_output_ok(buf, w, h, t, rects),
    ensures
        forall|i: int|
            0 <= i < rects.len() ==> (#[trigger] rects[i]).is_content() && !rects[i].is_sentinel(),
{
    assert forall|i: int| 0 <= i < rects.len() implies (#[trigger] rects[i]).is_content()
        && !rects[i].is_sentinel() by {
        assert(rect_within(rects[i], w, h));
    }
}

/// Law (round trip, pixel side): the encoder's rectangles light exactly the
/// at-or-above-threshold pixels — rasterizing them reproduces the mask.
pub proof fn lemma_coverage_matches_mask(
    buf: Seq<u8>,
    w: int,
    h: int,
    t: u8,
    rects: Seq<PixelRect>,
)
    requires
        encoder_output_ok(buf, w, h, t, rects),
    ensures
        forall|px: int, py: int|
            in_frame(w, h, px, py) ==> (covered_by(rects, px, py) <==> #[trigger] pixel_on(
                buf,
                w,
                t,
                px,
                py,
            )),
{
    assert forall|px: int, py: int| in_frame(w, h, px, py) implies (covered_by(rects, px, py)
        <==> #[trigger] pixel_on(buf, w, t, px, py)) by {
        if covered_by(rects, px, py) {
            let i = choose|i: int| 0 <= i < rects.len() && #[trigger] rects[i].covers(px, py);
            assert(rect_all_on(buf, w, t, rects[i]));
        }
    }
}

/// A rectangle of the output that touches an isolated block at all lies
/// inside it, spans its full width, and is horizontally flush with it.
proof fn lemma_meets_block_is_band(
    buf: Seq<u8>,
    w: int,
    h: int,
    t: u8,
    rects: Seq<PixelRect>,
    b: PixelRect,
    i: int,
)
    requires
        encoder_output_ok(buf, w, h, t, rects),
        isolated_block(buf, w, h, t, b),
        0 <= i < rects.len(),
        rect_meets(rects[i], b),
    ensures
        rects[i].x == b.x,
        rects[i].w == b.w,
        b.y <= rects[i].y,
        rects[i].y + rects[i].h <= b.y + b.h,
{
    let r = rects[i];
    let (mx, my): (int, int) = choose|px: int, py: int|
        r.covers(px, py) && #[trigger] b.covers(px, py);
    assert(rect_within(r, w, h));
    assert(rect_all_on(buf, w, t, r));
    assert(rect_h_maximal(buf, w, t, r));
    assert(col_ends_at_block(buf, w, h, t, b, mx));
    assert(row_run_maximal(buf, w, t, b, my));
    // the rows of r stay inside the rows of b
    if r.y < b.y {
        assert(r.covers(mx, b.y - 1));
        assert(pixel_on(buf, w, t, mx, b.y - 1));
        assert(false);
    }
    if r.y + r.h > b.y + b.h {
        if b.y + b.h < h {
            assert(r.covers(mx, b.y + b.h));
            assert(pixel_on(buf, w, t, mx, b.y + b.h));
        }
        assert(false);
    }
    // the columns of r stay inside the columns of b
    if r.x < b.x {
        assert(r.covers(b.x - 1, my));
        assert(pixel_on(buf, w, t, b.x - 1, my));
        assert(false);
    }
    if r.x + r.w > b.x + b.w {
        if b.x + b.w < w {
            assert(r.covers(b.x + b.w, my));
            assert(pixel_on(buf, w, t, b.x + b.w, my));
        }
        assert(false);
    }
    // and r is horizontally maximal, so it spans b's full width
    assert(row_run_maximal(buf, w, t, r, r.y as int));
    if r.x > b.x {
        assert(b.covers(r.x - 1, r.y as int));
        assert(pixel_on(buf, w, t, r.x - 1, r.y as int));
        assert(!pixel_on(buf, w, t, r.x - 1, r.y as int));
        assert(false);
    }
    if r.x + r.w < b.x + b.w {
        assert(b.covers(r.x + r.w, r.y as int));
        assert(pixel_on(buf, w, t, r.x + r.w, r.y as int));
        assert(!pixel_on(buf, w, t, r.x + r.w, r.y as int));
        assert(false);
    }
}

/// An isolated block appears in the output as exactly one rectangle — the
/// block itself — and nothing else of the output touches it.
pub proof fn lemma_isolated_block_single_rect(
    buf: Seq<u8>,
    w: int,
    h: int,
    t: u8,
    rects: Seq<PixelRect>,
    b: PixelRect,
)
    requires
        encoder_output_ok(buf, w, h, t, rects),
        isolated_block(buf, w, h, t, b),
    ensures
        exists|i: int| #![trigger rects[i]] 0 <= i < rects.len() && rects[i] == b,
        forall|i: int|
            0 <= i < rects.len() && rect_meets(#[trigger] rects[i], b) ==> rects[i] == b,
{
    // the block's top-left pixel is lit, so something covers it
    assert(b.covers(b.x as int, b.y as int));
    assert(rect_all_on(buf, w, t, b));
    assert(pixel_on(buf, w, t, b.x as int, b.y as int));
    assert(in_frame(w, h, b.x as int, b.y as int));
    assert(covered_by(rects, b.x as int, b.y as int));
    let i0 = choose|i: int| 0 <= i < rects.len() && #[trigger] rects[i].covers(b.x as int, b.y as int);
    assert(rect_meets(rects[i0], b)) by {
        assert(rects[i0].covers(b.x as int, b.y as int) && b.covers(b.x as int, b.y as int));
    }
    lemma_meets_block_is_band(buf, w, h, t, rects, b, i0);
    let r0 = rects[i0];
    assert(r0.y == b.y);
    // r0 runs to the block's bottom: were it shorter, the band below it
    // would start flush under it with the same span — a forbidden seam
    if r0.y + r0.h < b.y + b.h {
        let qrow = r0.y + r0.h;
        assert(b.covers(b.x as int, qrow));
        assert(pixel_on(buf, w, t, b.x as int, qrow));
        assert(in_frame(w, h, b.x as int, qrow));
        assert(covered_by(rects, b.x as int, qrow));
        let i1 = choose|i: int| 0 <= i < rects.len() && #[trigger] rects[i].covers(b.x as int, qrow);
        assert(rect_meets(rects[i1], b)) by {
            assert(rects[i1].covers(b.x as int, qrow) && b.covers(b.x as int, qrow));
        }
        lemma_meets_block_is_band(buf, w, h, t, rects, b, i1);
        let r1 = rects[i1];
        assert(!r0.covers(b.x as int, qrow));
        assert(i1 != i0);
        if r1.y < qrow {
            assert(r1.covers(b.x as int, r1.y as int));
            assert(r0.covers(b.x as int, r1.y as int));
            assert(false);
        }
        assert(r1.y == qrow);
        assert(r0.x == r1.x && r0.w == r1.w && r0.y + r0.h == r1.y);
        assert(false);
    }
    assert(r0 == b);
    assert forall|i: int| 0 <= i < rects.len() && rect_meets(#[trigger] rects[i], b) implies rects[i]
        == b by {
        lemma_meets_block_is_band(buf, w, h, t, rects, b, i);
        let ri = rects[i];
        assert(ri.covers(ri.x as int, ri.y as int));
        assert(b.y <= ri.y < b.y + b.h);
        assert(r0.covers(b.x as int, ri.y as int));
        if i != i0 {
            assert(false);
        }
    }
}

/// Law (merge invariant): when the lit pixels form exactly one solid block
/// — identical runs stacked on consecutive rows — the encoder's output is
/// that one merged rectangle and nothing else.
pub proof fn lemma_solid_block_single_rect(
    buf: Seq<u8>,
    w: int,
    h: int,
    t: u8,
    rects: Seq<PixelRect>,
    b: PixelRect,
)
    requires
        encoder_output_ok(buf, w, h, t, rects),
        rect_within(b, w, h),
        forall|px: int, py: int|
            in_frame(w, h, px, py) ==> (#[trigger] pixel_on(buf, w, t, px, py) <==> b.covers(
                px,
                py,
            )),
    ensures
        rects.len() == 1,
        rects[0] == b,
{
    lemma_block_isolated_under_mask(buf, w, h, t, b, b, b);
    lemma_isolated_block_single_rect(buf, w, h, t, rects, b);
    let i0 = choose|i: int| #![trigger rects[i]] 0 <= i < rects.len() && rects[i] == b;
    assert forall|k: int| 0 <= k < rects.len() implies #[trigger] rects[k] == b by {
        lemma_rect_lands_in_block(buf, w, h, t, rects, k, b, b, b, i0);
        assert(rect_meets(rects[k], b));
    }
    if rects.len() >= 2 {
        lemma_distinct_indices_differ(buf, w, h, t, rects, 0, 1);
        assert(false);
    }
}

/// Under a mask that is exactly the union of the blocks `b1` and `b2`
/// (which may coincide), a rectangle of the output equals whichever of the
/// two blocks it touches, and so coincides with the output rectangle
/// already known to equal that block at index `i0` when it touches that
/// one. Helper for pinning down the whole output list.
proof fn lemma_rect_lands_in_block(
    buf: Seq<u8>,
    w: int,
    h: int,
    t: u8,
    rects: Seq<PixelRect>,
    k: int,
    b1: PixelRect,
    b2: PixelRect,
    bk: PixelRect,
    i0: int,
)
    requires
        encoder_output_ok(buf, w, h, t, rects),
        isolated_block(buf, w, h, t, b1),
        isolated_block(buf, w, h, t, b2),
        forall|px: int, py: int|
            in_frame(w, h, px, py) ==> (#[trigger] pixel_on(buf, w, t, px, py) <==> (b1.covers(
                px,
                py,
            ) || b2.covers(px, py))),
        0 <= k < rects.len(),
        0 <= i0 < rects.len(),
        bk == b1 || bk == b2,
        rects[i0] == bk,
        rect_meets(rects[k], bk) || (!rect_meets(rects[k], b1) && !rect_meets(rects[k], b2)),
    ensures
        rect_meets(rects[k], bk) ==> k == i0,
        rect_meets(rects[k], b1) || rect_meets(rects[k], b2),
{
    let rk = rects[k];
    assert(rect_within(rk, w, h));
    assert(rect_all_on(buf, w, t, rk));
    assert(rk.covers(rk.x as int, rk.y as int));
    assert(pixel_on(buf, w, t, rk.x as int, rk.y as int));
    assert(in_frame(w, h, rk.x as int, rk.y as int));
    if b1.covers(rk.x as int, rk.y as int) {
        assert(rect_meets(rk, b1)) by {
            assert(rk.covers(rk.x as int, rk.y as int) && b1.covers(rk.x as int, rk.y as int));
        }
    } else {
        assert(b2.covers(rk.x as int, rk.y as int));
        assert(rect_meets(rk, b2)) by {
            assert(rk.covers(rk.x as int, rk.y as int) && b2.covers(rk.x as int, rk.y as int));
        }
    }
    if rect_meets(rects[k], bk) {
        lemma_isolated_block_single_rect(buf, w, h, t, rects, bk);
        assert(rects[k] == bk);
        assert(rects[k].covers(bk.x as int, bk.y as int));
        assert(rects[i0].covers(bk.x as int, bk.y as int));
        if k != i0 {
            assert(false);
        }
    }
}

/// A block whose lit pixels come only from itself and one other separated
/// block is isolated: all four of its sides border below-threshold pixels.
proof fn lemma_block_isolated_under_mask(
    buf: Seq<u8>,
    w: int,
    h: int,
    t: u8,
    b: PixelRect,
    b1: PixelRect,
    b2: PixelRect,
)
    requires
        rect_within(b, w, h),
        b == b1 || b == b2,
        forall|px: int, py: int|
            in_frame(w, h, px, py) ==> (#[trigger] pixel_on(buf, w, t, px, py) <==> (b1.covers(
                px,
                py,
            ) || b2.covers(px, py))),
        // the other block never touches the one-pixel border around `b`
        forall|px: int, py: int|
            (b.x - 1 <= px <= b.x + b.w && b.y - 1 <= py <= b.y + b.h && !b.covers(px, py))
                ==> !(#[trigger] b1.covers(px, py)) && !b2.covers(px, py),
    ensures
        isolated_block(buf, w, h, t, b),
{
    assert forall|px: int, py: int| #[trigger] b.covers(px, py) implies pixel_on(buf, w, t, px, py) by {
        assert(in_frame(w, h, px, py));
        if b == b1 {
            assert(b1.covers(px, py));
        } else {
            assert(b2.covers(px, py));
        }
    }
    assert forall|py: int| b.y <= py < b.y + b.h implies #[trigger] row_run_maximal(
        buf,
        w,
        t,
        b,
        py,
    ) by {
        if b.x > 0 {
            assert(!b.covers(b.x - 1, py));
            assert(in_frame(w, h, b.x - 1, py));
            assert(!b1.covers(b.x - 1, py) && !b2.covers(b.x - 1, py));
        }
        if b.x + b.w < w {
            assert(!b.covers(b.x + b.w, py));
            assert(in_frame(w, h, b.x + b.w, py));
            assert(!b1.covers(b.x + b.w, py) && !b2.covers(b.x + b.w, py));
        }
    }
    assert forall|px: int| b.x <= px < b.x + b.w implies #[trigger] col_ends_at_block(
        buf,
        w,
        h,
        t,
        b,
        px,
    ) by {
        if b.y > 0 {
            assert(!b.covers(px, b.y - 1));
            assert(in_frame(w, h, px, b.y - 1));
            assert(!b1.covers(px, b.y - 1) && !b2.covers(px, b.y - 1));
        }
        if b.y + b.h < h {
            assert(!b.covers(px, b.y + b.h));
            assert(in_frame(w, h, px, b.y + b.h));
            assert(!b1.covers(px, b.y + b.h) && !b2.covers(px, b.y + b.h));
        }
    }
}

/// Distinct positions of the output hold distinct rectangles: a repeated
/// rectangle would cover its own top-left pixel twice.
proof fn lemma_distinct_indices_differ(
    buf: Seq<u8>,
    w: int,
    h: int,
    t: u8,
    rects: Seq<PixelRect>,
    p: int,
    q: int,
)
    requires
        encoder_output_ok(buf, w, h, t, rects),
        0 <= p < rects.len(),
        0 <= q < rects.len(),
        p != q,
    ensures
        rects[p] != rects[q],
{
    if rects[p] == rects[q] {
        let r = rects[p];
        assert(rect_within(r, w, h));
        assert(rects[p].covers(r.x as int, r.y as int));
        assert(rects[q].covers(r.x as int, r.y as int));
        assert(false);
    }
}

/// Two separated isolated blocks whose union is the whole mask come out of
/// the encoder as exactly two rectangles: the blocks themselves.
proof fn lemma_two_blocks_two_rects(
    buf: Seq<u8>,
    w: int,
    h: int,
    t: u8,
    rects: Seq<PixelRect>,
    b1: PixelRect,
    b2: PixelRect,
)
    requires
        encoder_output_ok(buf, w, h, t, rects),
        isolated_block(buf, w, h, t, b1),
        isolated_block(buf, w, h, t, b2),
        b1 != b2,
        !rect_meets(b1, b2),
        forall|px: int, py: int|
            in_frame(w, h, px, py) ==> (#[trigger] pixel_on(buf, w, t, px, py) <==> (b1.covers(
                px,
                py,
            ) || b2.covers(px, py))),
    ensures
        rects.len() == 2,
        exists|i: int| #![trigger rects[i]] 0 <= i < rects.len() && rects[i] == b1,
        exists|j: int| #![trigger rects[j]] 0 <= j < rects.len() && rects[j] == b2,
{
    lemma_isolated_block_single_rect(buf, w, h, t, rects, b1);
    lemma_isolated_block_single_rect(buf, w, h, t, rects, b2);
    let i1 = choose|i: int| #![trigger rects[i]] 0 <= i < rects.len() && rects[i] == b1;
    let i2 = choose|i: int| #![trigger rects[i]] 0 <= i < rects.len() && rects[i] == b2;
    assert(i1 != i2);
    assert forall|k: int| 0 <= k < rects.len() implies #[trigger] rects[k] == b1 || rects[k]
        == b2 by {
        if rect_meets(rects[k], b1) {
            lemma_rect_lands_in_block(buf, w, h, t, rects, k, b1, b2, b1, i1);
        } else if rect_meets(rects[k], b2) {
            lemma_rect_lands_in_block(buf, w, h, t, rects, k, b1, b2, b2, i2);
        } else {
            lemma_rect_lands_in_block(buf, w, h, t, rects, k, b1, b2, b1, i1);
            assert(false);
        }
    }
    assert(rects.len() >= 2);
    if rects.len() >= 3 {
        lemma_distinct_indices_differ(buf, w, h, t, rects, 0, 1);
        lemma_distinct_indices_differ(buf, w, h, t, rects, 0, 2);
        lemma_distinct_indices_differ(buf, w, h, t, rects, 1, 2);
        assert(false);
    }
}

/// Law (non-merge invariant): a run repeated on two groups of rows with at
/// least one inactive row between them yields two separate rectangles —
/// never one taller one.
pub proof fn lemma_interrupted_run_splits(
    buf: Seq<u8>,
    w: int,
    h: int,
    t: u8,
    rects: Seq<PixelRect>,
    b1: PixelRect,
    b2: PixelRect,
)
    requires
        encoder_output_ok(buf, w, h, t, rects),
        rect_within(b1, w, h),
        rect_within(b2, w, h),
        b1.x == b2.x,
        b1.w == b2.w,
        b1.y + b1.h < b2.y,
        forall|px: int, py: int|
            in_frame(w, h, px, py) ==> (#[trigger] pixel_on(buf, w, t, px, py) <==> (b1.covers(
                px,
                py,
            ) || b2.covers(px, py))),
    ensures
        rects.len() == 2,
        exists|i: int| #![trigger rects[i]] 0 <= i < rects.len() && rects[i] == b1,
        exists|j: int| #![trigger rects[j]] 0 <= j < rects.len() && rects[j] == b2,
{
    lemma_block_isolated_under_mask(buf, w, h, t, b1, b1, b2);
    lemma_block_isolated_under_mask(buf, w, h, t, b2, b1, b2);
    assert(!rect_meets(b1, b2)) by {
        assert forall|px: int, py: int| b1.covers(px, py) implies !(#[trigger] b2.covers(px, py)) by {}
    }
    assert(b1 != b2);
    lemma_two_blocks_two_rects(buf, w, h, t, rects, b1, b2);
}

/// Law (disjoint runs): two lit spans on the same rows with a gap between
/// them yield two rectangles, never fewer.
pub proof fn lemma_disjoint_runs_two_rects(
    buf: Seq<u8>,
    w: int,
    h: int,
    t: u8,
    rects: Seq<PixelRect>,
    b1: PixelRect,
    b2: PixelRect,
)
    requires
        encoder_output_ok(buf, w, h, t, rects),
        rect_within(b1, w, h),
        rect_within(b2, w, h),
        b1.y == b2.y,
        b1.h == b2.h,
        b1.x + b1.w < b2.x,
        forall|px: int, py: int|
            in_frame(w, h, px, py) ==> (#[trigger] pixel_on(buf, w, t, px, py) <==> (b1.covers(
                px,
                py,
            ) || b2.covers(px, py))),
    ensures
        rects.len() == 2,
        exists|i: int| #![trigger rects[i]] 0 <= i < rects.len() && rects[i] == b1,
        exists|j: int| #![trigger rects[j]] 0 <= j < rects.len() && rects[j] == b2,
{
    lemma_block_isolated_under_mask(buf, w, h, t, b1, b1, b2);
    lemma_block_isolated_under_mask(buf, w, h, t, b2, b1, b2);
    assert(!rect_meets(b1, b2)) by {
        assert forall|px: int, py: int| b1.covers(px, py) implies !(#[trigger] b2.covers(px, py)) by {}
    }
    assert(b1 != b2);
    lemma_two_blocks_two_rects(buf, w, h, t, rects, b1, b2);
}

} // verus!
