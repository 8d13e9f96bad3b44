use vstd::prelude::*;

use crate::rect::PixelRect;

verus! {

/// The end-of-frame sentinel as a spec value.
pub open spec fn sentinel() -> PixelRect {
    PixelRect { x: 0u16, y: 0u16, w: 0u16, h: 0u16 }
}

/// The two bytes of a 16-bit value, least significant first.
pub open spec fn u16_le(v: u16) -> Seq<u8> {
    seq![(v as int % 256) as u8, (v as int / 256) as u8]
}

/// The eight bytes of one rectangle record: x, y, w, h, each two bytes
/// little-endian, with no padding.
pub open spec fn rect_bytes(r: PixelRect) -> Seq<u8> {
    u16_le(r.x) + u16_le(r.y) + u16_le(r.w) + u16_le(r.h)
}

/// The records of a frame's rectangles, back to back, without the sentinel.
pub open spec fn records_bytes(rects: Seq<PixelRect>) -> Seq<u8>
    decreases rects.len(),
{
    if rects.len() == 0 {
        Seq::empty()
    } else {
        rect_bytes(rects[0]) + records_bytes(rects.skip(1))
    }
}

/// One frame on the wire: its rectangle records followed by the sentinel.
pub open spec fn frame_bytes(rects: Seq<PixelRect>) -> Seq<u8> {
    records_bytes(rects) + rect_bytes(sentinel())
}

/// All frames, back to back; frames are not length-prefixed.
pub open spec fn frames_bytes(frames: Seq<Seq<PixelRect>>) -> Seq<u8>
    decreases frames.len(),
{
    if frames.len() == 0 {
        Seq::empty()
    } else {
        frame_bytes(frames[0]) + frames_bytes(frames.skip(1))
    }
}

/// A whole container: the 16-bit frames-per-second header, then the frames.
/// There is no frame count and no end marker beyond the end of the bytes.
pub open spec fn stream_bytes(fps: u16, frames: Seq<Seq<PixelRect>>) -> Seq<u8> {
    u16_le(fps) + frames_bytes(frames)
}

/// Appends the two little-endian bytes of `v`.
pub fn push_u16_le(out: &mut Vec<u8>, v: u16)
    ensures
        final(out)@ == old(out)@ + u16_le(v),
{
    out.push((v % 256) as u8);
    out.push((v / 256) as u8);
    proof {
        assert(out@ =~= old(out)@ + u16_le(v));
    }
}

/// Appends the eight-byte record of one rectangle.
pub fn encode_rect_into(out: &mut Vec<u8>, r: &PixelRect)
    ensures
        final(out)@ == old(out)@ + rect_bytes(*r),
{
    push_u16_le(out, r.x);
    push_u16_le(out, r.y);
    push_u16_le(out, r.w);
    push_u16_le(out, r.h);
    proof {
        assert(out@ =~= old(out)@ + rect_bytes(*r));
    }
}

/// Taking one more rectangle into the records extends the bytes by its
/// record.
pub proof fn lemma_records_snoc(rects: Seq<PixelRect>, i: int)
    requires
        0 <= i < rects.len(),
    ensures
        records_bytes(rects.take(i + 1)) == records_bytes(rects.take(i)) + rect_bytes(rects[i]),
    decreases i,
{
    let s1 = rects.take(i + 1);
    let s0 = rects.take(i);
    if i == 0 {
        assert(s1 =~= seq![rects[0]]);
        assert(s1.skip(1) =~= Seq::<PixelRect>::empty());
        assert(records_bytes(Seq::<PixelRect>::empty()) == Seq::<u8>::empty());
        assert(records_bytes(s1) =~= rect_bytes(rects[0]));
        assert(s0 =~= Seq::<PixelRect>::empty());
        assert(records_bytes(s1) =~= records_bytes(s0) + rect_bytes(rects[0]));
    } else {
        lemma_records_snoc(rects.skip(1), i - 1);
        assert(s1.skip(1) =~= rects.skip(1).take(i));
        assert(s0.skip(1) =~= rects.skip(1).take(i - 1));
        assert(s1[0] == rects[0] && s0[0] == rects[0]);
        assert(rects.skip(1)[i - 1] == rects[i]);
        assert(records_bytes(s1) == rect_bytes(rects[0]) + records_bytes(rects.skip(1).take(i)));
        assert(records_bytes(s0) == rect_bytes(rects[0]) + records_bytes(
            rects.skip(1).take(i - 1),
        ));
        assert(records_bytes(s1) =~= records_bytes(s0) + rect_bytes(rects[i]));
    }
}

/// The records of `n` rectangles take eight bytes each.
pub proof fn lemma_records_len(rects: Seq<PixelRect>)
    ensures
        records_bytes(rects).len() == 8 * rects.len(),
    decreases rects.len(),
{
    if rects.len() > 0 {
        lemma_records_len(rects.skip(1));
    }
}

/// Appends one frame: every rectangle's record in order, then the sentinel.
pub fn encode_frame_into(out: &mut Vec<u8>, rects: &Vec<PixelRect>)
    ensures
        final(out)@ == old(out)@ + frame_bytes(rects@),
{
    let ghost base = out@;
    let mut i: usize = 0;
    while i < rects.len()
        invariant
            i <= rects@.len(),
            out@ == base + records_bytes(rects@.take(i as int)),
        decreases rects@.len() - i,
    {
        encode_rect_into(out, &rects[i]);
        proof {
            lemma_records_snoc(rects@, i as int);
            assert(out@ =~= base + records_bytes(rects@.take(i + 1)));
        }
        i = i + 1;
    }
    proof {
        assert(rects@.take(i as int) =~= rects@);
    }
    let eos = crate::rect::eos_marker();
    encode_rect_into(out, &eos);
    proof {
        assert(out@ =~= base + frame_bytes(rects@));
    }
}

/// Extending the frame list extends the container bytes by one frame.
pub proof fn lemma_frames_snoc(frames: Seq<Seq<PixelRect>>, i: int)
    requires
        0 <= i < frames.len(),
    ensures
        frames_bytes(frames.take(i + 1)) == frames_bytes(frames.take(i)) + frame_bytes(frames[i]),
    decreases i,
{
    let s1 = frames.take(i + 1);
    let s0 = frames.take(i);
    if i == 0 {
        assert(s1 =~= seq![frames[0]]);
        assert(s1.skip(1) =~= Seq::<Seq<PixelRect>>::empty());
        assert(s0 =~= Seq::<Seq<PixelRect>>::empty());
        assert(frames_bytes(s1) =~= frames_bytes(s0) + frame_bytes(frames[0]));
    } else {
        lemma_frames_snoc(frames.skip(1), i - 1);
        assert(s1.skip(1) =~= frames.skip(1).take(i));
        assert(s0.skip(1) =~= frames.skip(1).take(i - 1));
        assert(frames.skip(1)[i - 1] == frames[i]);
        assert(frames_bytes(s1) == frame_bytes(frames[0]) + frames_bytes(frames.skip(1).take(i)));
        assert(frames_bytes(s0) == frame_bytes(frames[0]) + frames_bytes(
            frames.skip(1).take(i - 1),
        ));
        assert(frames_bytes(s1) =~= frames_bytes(s0) + frame_bytes(frames[i]));
    }
}

/// Builds a whole container in memory: the fps header, then every frame's
/// rectangles each closed by a sentinel, in order.
pub fn encode_stream(fps: u16, frames: &Vec<Vec<PixelRect>>) -> (out: Vec<u8>)
    ensures
        out@ == stream_bytes(fps, frames.deep_view()),
{
    let ghost gframes = frames.deep_view();
    let mut out: Vec<u8> = Vec::new();
    push_u16_le(&mut out, fps);
    proof {
        assert(gframes.take(0) =~= Seq::<Seq<PixelRect>>::empty());
        assert(out@ =~= u16_le(fps) + frames_bytes(gframes.take(0)));
    }
    let mut i: usize = 0;
    while i < frames.len()
        invariant
            i <= frames@.len(),
            gframes == frames.deep_view(),
            gframes.len() == frames@.len(),
            out@ == u16_le(fps) + frames_bytes(gframes.take(i as int)),
        decreases frames@.len() - i,
    {
        proof {
            assert(gframes[i as int] == frames@[i as int]@);
        }
        encode_frame_into(&mut out, &frames[i]);
        proof {
            lemma_frames_snoc(gframes, i as int);
            assert(out@ =~= u16_le(fps) + frames_bytes(gframes.take(i + 1)));
        }
        i = i + 1;
    }
    proof {
        assert(gframes.take(i as int) =~= gframes);
        assert(out@ =~= stream_bytes(fps, gframes));
    }
    out
}

} // verus!
