use vstd::prelude::*;

use crate::container::{
    frame_bytes, frames_bytes, lemma_records_len, rect_bytes, records_bytes, sentinel,
    stream_bytes, u16_le,
};
use crate::rect::PixelRect;

verus! {

/// Why decoding a container failed.
#[derive(Debug, Clone, Copy, PartialEq, Eq, Structural)]
pub enum DecodeError {
    /// Fewer than the two header bytes are present.
    HeaderTooShort,
    /// A frame broke off before its sentinel: fewer than eight bytes were
    /// left where a record was expected.
    TruncatedFrame,
}

/// The 16-bit value stored little-endian at `pos`.
pub open spec fn u16_at(bytes: Seq<u8>, pos: int) -> u16 {
    (bytes[pos] as int + 256 * (bytes[pos + 1] as int)) as u16
}

/// The rectangle record stored at `pos`.
pub open spec fn rect_at(bytes: Seq<u8>, pos: int) -> PixelRect {
    PixelRect {
        x: u16_at(bytes, pos),
        y: u16_at(bytes, pos + 2),
        w: u16_at(bytes, pos + 4),
        h: u16_at(bytes, pos + 6),
    }
}

/// Reads one frame starting at `pos`: records up to and including the
/// sentinel. Yields the content rectangles and the position just past the
/// sentinel, or nothing if the bytes break off before the sentinel.
pub open spec fn parse_frame(bytes: Seq<u8>, pos: int) -> Option<(Seq<PixelRect>, int)>
    decreases bytes.len() - pos,
{
    if pos < 0 || pos + 8 > bytes.len() {
        None
    } else {
        let r = rect_at(bytes, pos);
        if r.is_sentinel() {
            Some((Seq::empty(), pos + 8))
        } else {
            match parse_frame(bytes, pos + 8) {
                None => None,
                Some((rest, end)) => Some((seq![r] + rest, end)),
            }
        }
    }
}

/// Reads up to `n` frames starting at `pos`. Stops early, cleanly, if the
/// bytes end exactly on a frame boundary; yields nothing if any frame along
/// the way is truncated.
pub open spec fn frames_prefix(bytes: Seq<u8>, pos: int, n: nat) -> Option<
    (Seq<Seq<PixelRect>>, int),
>
    decreases n,
{
    if n == 0 || pos == bytes.len() {
        Some((Seq::empty(), pos))
    } else {
        match parse_frame(bytes, pos) {
            None => None,
            Some((f, p2)) => match frames_prefix(bytes, p2, (n - 1) as nat) {
                None => None,
                Some((fs, p3)) => Some((seq![f] + fs, p3)),
            },
        }
    }
}

/// A successful frame parse stays inside the bytes and consumes eight bytes
/// per rectangle plus the sentinel.
pub proof fn lemma_parse_frame_bounds(bytes: Seq<u8>, pos: int)
    requires
        parse_frame(bytes, pos) is Some,
    ensures
        parse_frame(bytes, pos)->Some_0.1 == pos + 8 * (parse_frame(bytes, pos)->Some_0.0.len()
            + 1),
        pos + 8 <= parse_frame(bytes, pos)->Some_0.1 <= bytes.len(),
        forall|k: int|
            0 <= k < parse_frame(bytes, pos)->Some_0.0.len() ==> !(#[trigger] parse_frame(
                bytes,
                pos,
            )->Some_0.0[k]).is_sentinel(),
    decreases bytes.len() - pos,
{
    let r = rect_at(bytes, pos);
    if !r.is_sentinel() {
        lemma_parse_frame_bounds(bytes, pos + 8);
    }
}

/// A sequential reader over one container's bytes. It exposes the declared
/// frames-per-second and yields frames one at a time; it never rewinds.
pub struct StreamCursor {
    data: Vec<u8>,
    pos: usize,
    fps: u16,
}

impl StreamCursor {
    /// The cursor points into its bytes, past the two header bytes, and
    /// caches the fps those header bytes declare.
    pub closed spec fn wf(self) -> bool {
        &&& 2 <= self.pos <= self.data@.len()
        &&& self.fps == u16_at(self.data@, 0)
    }

    /// The container bytes the cursor walks.
    pub closed spec fn bytes(self) -> Seq<u8> {
        self.data@
    }

    /// The byte offset of the next unread record.
    pub closed spec fn position(self) -> int {
        self.pos as int
    }

    /// The declared frames-per-second.
    pub closed spec fn spec_fps(self) -> u16 {
        self.fps
    }

    /// Opens a container: checks that the two header bytes are present and
    /// reads the declared frames-per-second from them.
    pub fn new(data: Vec<u8>) -> (r: Result<StreamCursor, DecodeError>)
        ensures
            match r {
                Ok(c) => {
                    &&& data@.len() >= 2
                    &&& c.wf()
                    &&& c.bytes() == data@
                    &&& c.position() == 2
                    &&& c.spec_fps() == u16_at(data@, 0)
                },
                Err(e) => e == DecodeError::HeaderTooShort && data@.len() < 2,
            },
    {
        if data.len() < 2 {
            return Err(DecodeError::HeaderTooShort);
        }
        let fps = read_u16_le(&data, 0);
        Ok(StreamCursor { data, pos: 2, fps })
    }

    /// The declared frames-per-second.
    pub fn fps(&self) -> (r: u16)
        requires
            self.wf(),
        ensures
            r == self.spec_fps(),
    {
        self.fps
    }

    /// Whether every byte has been consumed: the clean end of the stream.
    pub fn at_end(&self) -> (r: bool)
        requires
            self.wf(),
        ensures
            r == (self.position() == self.bytes().len()),
    {
        self.pos == self.data.len()
    }

    /// Reads the next frame. At the clean end of the bytes there is no
    /// frame and the cursor is unchanged; a frame cut off before its
    /// sentinel is a hard decode failure that also leaves the cursor
    /// unchanged.
    pub fn next_frame(&mut self) -> (r: Result<Option<Vec<PixelRect>>, DecodeError>)
        requires
            old(self).wf(),
        ensures
            final(self).wf(),
            final(self).bytes() == old(self).bytes(),
            final(self).spec_fps() == old(self).spec_fps(),
            match r {
                Ok(None) => {
                    &&& old(self).position() == old(self).bytes().len()
                    &&& *final(self) == *old(self)
                },
                Ok(Some(v)) => {
                    &&& old(self).position() < old(self).bytes().len()
                    &&& parse_frame(old(self).bytes(), old(self).position()) == Some(
                        (v@, final(self).position()),
                    )
                },
                Err(e) => {
                    &&& e == DecodeError::TruncatedFrame
                    &&& old(self).position() < old(self).bytes().len()
                    &&& parse_frame(old(self).bytes(), old(self).position()) is None
                    &&& *final(self) == *old(self)
                },
            },
    {
        if self.pos == self.data.len() {
            return Ok(None);
        }
        let ghost gbytes = self.data@;
        let ghost pos0 = self.pos as int;
        let mut rects: Vec<PixelRect> = Vec::new();
        let mut p = self.pos;
        proof {
            if parse_frame(gbytes, pos0) is Some {
                let pr = parse_frame(gbytes, pos0)->Some_0;
                assert(rects@ + pr.0 =~= pr.0);
            }
        }
        loop
            invariant
                self.wf(),
                *self == *old(self),
                gbytes == self.data@,
                pos0 == self.pos as int,
                pos0 < gbytes.len(),
                self.pos as int <= p as int <= gbytes.len(),
                parse_frame(gbytes, pos0) == (match parse_frame(gbytes, p as int) {
                    None => None::<(Seq<PixelRect>, int)>,
                    Some((rest, end)) => Some((rects@ + rest, end)),
                }),
            decreases gbytes.len() - p,
        {
            if self.data.len() - p < 8 {
                return Err(DecodeError::TruncatedFrame);
            }
            let r = read_rect(&self.data, p);
            p = p + 8;
            if r.is_frame_end() {
                self.pos = p;
                proof {
                    assert(rects@ + Seq::<PixelRect>::empty() =~= rects@);
                }
                return Ok(Some(rects));
            }
            rects.push(r);
            proof {
                if parse_frame(gbytes, p as int) is Some {
                    let pr = parse_frame(gbytes, p as int)->Some_0;
                    assert(rects@.drop_last() + (seq![r] + pr.0) =~= rects@ + pr.0);
                }
            }
        }
    }

    /// Walks past one frame without collecting its rectangles. The cursor
    /// moves exactly as far as `next_frame` would.
    pub fn skip_frame(&mut self) -> (r: Result<bool, DecodeError>)
        requires
            old(self).wf(),
        ensures
            final(self).wf(),
            final(self).bytes() == old(self).bytes(),
            final(self).spec_fps() == old(self).spec_fps(),
            match r {
                Ok(false) => {
                    &&& old(self).position() == old(self).bytes().len()
                    &&& *final(self) == *old(self)
                },
                Ok(true) => {
                    &&& old(self).position() < old(self).bytes().len()
                    &&& parse_frame(old(self).bytes(), old(self).position()) is Some
                    &&& final(self).position() == parse_frame(
                        old(self).bytes(),
                        old(self).position(),
                    )->Some_0.1
                },
                Err(e) => {
                    &&& e == DecodeError::TruncatedFrame
                    &&& old(self).position() < old(self).bytes().len()
                    &&& parse_frame(old(self).bytes(), old(self).position()) is None
                    &&& *final(self) == *old(self)
                },
            },
    {
        if self.pos == self.data.len() {
            return Ok(false);
        }
        let ghost gbytes = self.data@;
        let ghost pos0 = self.pos as int;
        let mut p = self.pos;
        loop
            invariant
                self.wf(),
                *self == *old(self),
                gbytes == self.data@,
                pos0 == self.pos as int,
                pos0 < gbytes.len(),
                self.pos as int <= p as int <= gbytes.len(),
                parse_frame(gbytes, pos0) is Some <==> parse_frame(gbytes, p as int) is Some,
                parse_frame(gbytes, pos0) is Some ==> parse_frame(gbytes, pos0)->Some_0.1
                    == parse_frame(gbytes, p as int)->Some_0.1,
            decreases gbytes.len() - p,
        {
            if self.data.len() - p < 8 {
                return Err(DecodeError::TruncatedFrame);
            }
            let r = read_rect(&self.data, p);
            p = p + 8;
            if r.is_frame_end() {
                self.pos = p;
                return Ok(true);
            }
        }
    }
}

/// Reads the 16-bit little-endian value at `pos`.
pub fn read_u16_le(data: &Vec<u8>, pos: usize) -> (r: u16)
    requires
        pos + 2 <= data@.len(),
    ensures
        r == u16_at(data@, pos as int),
{
    let n = data.len();
    (data[pos] as u16) + 256 * (data[pos + 1] as u16)
}

/// Reads the eight-byte rectangle record at `pos`.
pub fn read_rect(data: &Vec<u8>, pos: usize) -> (r: PixelRect)
    requires
        pos + 8 <= data@.len(),
    ensures
        r == rect_at(data@, pos as int),
{
    let n = data.len();
    PixelRect {
        x: read_u16_le(data, pos),
        y: read_u16_le(data, pos + 2),
        w: read_u16_le(data, pos + 4),
        h: read_u16_le(data, pos + 6),
    }
}

/// Decoding the two bytes a 16-bit value was encoded to gives the value
/// back.
pub proof fn lemma_u16_round_trip(v: u16)
    ensures
        u16_le(v).len() == 2,
        u16_at(u16_le(v), 0) == v,
{
    assert(v as int == 256 * (v as int / 256) + v as int % 256) by (nonlinear_arith);
}

/// A 16-bit value read out of a larger byte string sees only its two bytes.
pub proof fn lemma_u16_at_of_slice(bytes: Seq<u8>, pos: int, v: u16)
    requires
        0 <= pos,
        pos + 2 <= bytes.len(),
        bytes[pos] == u16_le(v)[0],
        bytes[pos + 1] == u16_le(v)[1],
    ensures
        u16_at(bytes, pos) == v,
{
    lemma_u16_round_trip(v);
}

/// Decoding the eight bytes a rectangle was encoded to, at any offset,
/// gives the rectangle back.
pub proof fn lemma_rect_round_trip(bytes: Seq<u8>, pos: int, r: PixelRect)
    requires
        0 <= pos,
        pos + 8 <= bytes.len(),
        bytes.subrange(pos, pos + 8) == rect_bytes(r),
    ensures
        rect_at(bytes, pos) == r,
{
    let sub = bytes.subrange(pos, pos + 8);
    assert forall|k: int| 0 <= k < 8 implies bytes[pos + k] == rect_bytes(r)[k] by {
        assert(sub[k] == bytes[pos + k]);
    }
    let rb = rect_bytes(r);
    assert(rb[0] == u16_le(r.x)[0] && rb[1] == u16_le(r.x)[1]);
    assert(rb[2] == u16_le(r.y)[0] && rb[3] == u16_le(r.y)[1]);
    assert(rb[4] == u16_le(r.w)[0] && rb[5] == u16_le(r.w)[1]);
    assert(rb[6] == u16_le(r.h)[0] && rb[7] == u16_le(r.h)[1]);
    lemma_u16_at_of_slice(bytes, pos, r.x);
    lemma_u16_at_of_slice(bytes, pos + 2, r.y);
    lemma_u16_at_of_slice(bytes, pos + 4, r.w);
    lemma_u16_at_of_slice(bytes, pos + 6, r.h);
}

/// A byte string that holds the two-part encoding `a + b` at `pos` holds
/// `a` at `pos` and `b` right after it.
proof fn lemma_subrange_split(bytes: Seq<u8>, pos: int, a: Seq<u8>, b: Seq<u8>)
    requires
        0 <= pos,
        pos + a.len() + b.len() <= bytes.len(),
        bytes.subrange(pos, pos + a.len() + b.len()) == a + b,
    ensures
        bytes.subrange(pos, pos + a.len()) == a,
        bytes.subrange(pos + a.len(), pos + a.len() + b.len()) == b,
{
    let whole = bytes.subrange(pos, pos + a.len() + b.len());
    assert forall|k: int| 0 <= k < a.len() implies bytes.subrange(pos, pos + a.len())[k]
        == a[k] by {
        assert(whole[k] == a[k]);
    }
    assert(bytes.subrange(pos, pos + a.len()) =~= a);
    assert forall|k: int| 0 <= k < b.len() implies bytes.subrange(
        pos + a.len(),
        pos + a.len() + b.len(),
    )[k] == b[k] by {
        assert(whole[a.len() + k] == b[k]);
    }
    assert(bytes.subrange(pos + a.len(), pos + a.len() + b.len()) =~= b);
}

/// Decoding a frame from the bytes it was encoded to yields exactly its
/// rectangles and stops just past its sentinel — provided none of the
/// rectangles is itself the sentinel value.
pub proof fn lemma_frame_round_trip(bytes: Seq<u8>, pos: int, rects: Seq<PixelRect>)
    requires
        0 <= pos,
        pos + frame_bytes(rects).len() <= bytes.len(),
        bytes.subrange(pos, pos + frame_bytes(rects).len()) == frame_bytes(rects),
        forall|k: int| 0 <= k < rects.len() ==> !(#[trigger] rects[k]).is_sentinel(),
    ensures
        frame_bytes(rects).len() == 8 * rects.len() + 8,
        parse_frame(bytes, pos) == Some((rects, pos + 8 * rects.len() + 8)),
    decreases rects.len(),
{
    lemma_records_len(rects);
    if rects.len() == 0 {
        assert(records_bytes(rects) == Seq::<u8>::empty());
        assert(frame_bytes(rects) =~= rect_bytes(sentinel()));
        lemma_rect_round_trip(bytes, pos, sentinel());
        assert(rect_at(bytes, pos).is_sentinel());
        assert(parse_frame(bytes, pos) == Some((Seq::<PixelRect>::empty(), pos + 8)));
    } else {
        let r0 = rects[0];
        let tail = rects.skip(1);
        lemma_records_len(tail);
        assert(frame_bytes(rects) =~= rect_bytes(r0) + frame_bytes(tail));
        lemma_subrange_split(bytes, pos, rect_bytes(r0), frame_bytes(tail));
        lemma_rect_round_trip(bytes, pos, r0);
        assert(!rect_at(bytes, pos).is_sentinel());
        assert forall|k: int| 0 <= k < tail.len() implies !(#[trigger] tail[k]).is_sentinel() by {
            assert(tail[k] == rects[k + 1]);
        }
        lemma_frame_round_trip(bytes, pos + 8, tail);
        assert(seq![r0] + tail =~= rects);
    }
}

/// Decoding every frame from the bytes the frame list was encoded to, when
/// that encoding runs to the very end of the bytes, yields exactly the
/// frames and consumes every byte.
pub proof fn lemma_frames_round_trip(bytes: Seq<u8>, pos: int, frames: Seq<Seq<PixelRect>>)
    requires
        0 <= pos,
        pos + frames_bytes(frames).len() == bytes.len(),
        bytes.subrange(pos, bytes.len() as int) == frames_bytes(frames),
        forall|i: int, k: int|
            0 <= i < frames.len() && 0 <= k < frames[i].len() ==> !(#[trigger] frames[i][k]).is_sentinel(),
    ensures
        frames_prefix(bytes, pos, frames.len()) == Some((frames, bytes.len() as int)),
    decreases frames.len(),
{
    if frames.len() == 0 {
        assert(frames_bytes(frames).len() == 0);
        assert(pos == bytes.len());
        assert(frames_prefix(bytes, pos, 0) == Some((Seq::<Seq<PixelRect>>::empty(), pos)));
        assert(frames =~= Seq::<Seq<PixelRect>>::empty());
    } else {
        let f0 = frames[0];
        let tail = frames.skip(1);
        assert(frames_bytes(frames) == frame_bytes(f0) + frames_bytes(tail));
        lemma_subrange_split(bytes, pos, frame_bytes(f0), frames_bytes(tail));
        assert forall|k: int| 0 <= k < f0.len() implies !(#[trigger] f0[k]).is_sentinel() by {
            assert(frames[0][k] == f0[k]);
        }
        lemma_frame_round_trip(bytes, pos, f0);
        let p2 = pos + 8 * f0.len() + 8;
        assert(p2 == pos + frame_bytes(f0).len());
        assert forall|i: int, k: int|
            0 <= i < tail.len() && 0 <= k < tail[i].len() implies !(#[trigger] tail[i][k]).is_sentinel() by {
            assert(tail[i] == frames[i + 1]);
        }
        lemma_frames_round_trip(bytes, p2, tail);
        assert(pos < bytes.len());
        assert(frames_prefix(bytes, pos, frames.len()) == Some(
            (seq![f0] + tail, bytes.len() as int),
        ));
        assert(seq![f0] + tail =~= frames);
    }
}

/// Law: a container decodes back to what it was built from. Encoding any
/// frames-per-second value and any frame list whose rectangles are all
/// content (never the sentinel value) and then decoding the bytes yields
/// the same frames-per-second, the same frames in the same order, and ends
/// cleanly at the last byte.
pub proof fn lemma_stream_round_trip(fps: u16, frames: Seq<Seq<PixelRect>>)
    requires
        forall|i: int, k: int|
            0 <= i < frames.len() && 0 <= k < frames[i].len() ==> !(#[trigger] frames[i][k]).is_sentinel(),
    ensures
        stream_bytes(fps, frames).len() >= 2,
        u16_at(stream_bytes(fps, frames), 0) == fps,
        frames_prefix(stream_bytes(fps, frames), 2, frames.len()) == Some(
            (frames, stream_bytes(fps, frames).len() as int),
        ),
{
    let bytes = stream_bytes(fps, frames);
    lemma_u16_round_trip(fps);
    assert(bytes[0] == u16_le(fps)[0] && bytes[1] == u16_le(fps)[1]);
    lemma_u16_at_of_slice(bytes, 0, fps);
    assert(bytes.subrange(2, bytes.len() as int) =~= frames_bytes(frames));
    lemma_frames_round_trip(bytes, 2, frames);
}

/// Law (round trip): take any frame the encoder produced from a mask, write
/// it into a container, and read the container back: the declared rate and
/// the rectangle list come back exactly, the read ends cleanly at the last
/// byte, and rasterizing the rectangles lights exactly the mask's
/// at-or-above-threshold pixels.
pub proof fn lemma_mask_round_trip(
    buf: Seq<u8>,
    w: int,
    h: int,
    t: u8,
    fps: u16,
    rects: Seq<PixelRect>,
)
    requires
        crate::encoder::encoder_output_ok(buf, w, h, t, rects),
    ensures
        u16_at(stream_bytes(fps, seq![rects]), 0) == fps,
        frames_prefix(stream_bytes(fps, seq![rects]), 2, 1) == Some(
            (seq![rects], stream_bytes(fps, seq![rects]).len() as int),
        ),
        forall|px: int, py: int|
            crate::encoder::in_frame(w, h, px, py) ==> (crate::rect::covered_by(rects, px, py)
                <==> #[trigger] crate::encoder::pixel_on(buf, w, t, px, py)),
{
    crate::encoder::lemma_no_sentinel_emitted(buf, w, h, t, rects);
    let frames = seq![rects];
    assert forall|i: int, k: int|
        0 <= i < frames.len() && 0 <= k < frames[i].len() implies !(#[trigger] frames[i][k]).is_sentinel() by {
        assert(frames[i] == rects);
    }
    lemma_stream_round_trip(fps, frames);
    crate::encoder::lemma_coverage_matches_mask(buf, w, h, t, rects);
}

} // verus!
