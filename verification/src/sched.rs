use vstd::prelude::*;

use crate::decoder::{frames_prefix, parse_frame, DecodeError, StreamCursor};
use crate::rect::PixelRect;

verus! {

/// Where playback stands. `Running` moves to `Draining` the instant the
/// decoder runs out while a frame is expected; `Draining` is acknowledged
/// into the terminal `Stopped`. A quit signal or a decode failure goes to
/// `Stopped` directly.
#[derive(Debug, Clone, Copy, PartialEq, Eq, Structural)]
pub enum PlaybackState {
    Idle,
    Running,
    Draining,
    Stopped,
}

/// What one scheduler iteration asks its caller to do.
#[derive(Debug)]
pub enum StepAction {
    /// Ahead of the clock: wait briefly and poll again.
    Sleep,
    /// On or behind the clock: present exactly this frame now.
    Render(Vec<PixelRect>),
    /// The content is over (or playback was cancelled): stop the loop.
    Finished,
}

/// The scheduler's ghost state: the container bytes, the read position,
/// the tick the next frame is due at, and the two frame counters.
pub struct SchedModel {
    pub bytes: Seq<u8>,
    pub pos: int,
    pub next_tick: int,
    pub rendered: int,
    pub dropped: int,
}

/// One scheduler iteration over the model, given the clock's tick. Ahead
/// of the clock nothing changes. Otherwise, with the scheduler behind by
/// `k` ticks, the first `k` pending frames are dropped, the next is
/// rendered, and the next due tick becomes the tick after the clock's.
/// Nothing (`None`) means the pending frames ran out or were truncated.
pub open spec fn sched_step_model(m: SchedModel, current: int) -> Option<SchedModel> {
    if current < m.next_tick {
        Some(m)
    } else {
        let k = current - m.next_tick;
        match frames_prefix(m.bytes, m.pos, (k + 1) as nat) {
            None => None,
            Some((fs, pe)) => if fs.len() == k + 1 {
                Some(
                    SchedModel {
                        bytes: m.bytes,
                        pos: pe,
                        next_tick: current + 1,
                        rendered: m.rendered + 1,
                        dropped: m.dropped + k,
                    },
                )
            } else {
                None
            },
        }
    }
}

/// `n` scheduler iterations, each taken exactly at its own due tick.
pub open spec fn run_no_drift(m: SchedModel, n: nat) -> Option<SchedModel>
    decreases n,
{
    if n == 0 {
        Some(m)
    } else {
        match sched_step_model(m, m.next_tick) {
            None => None,
            Some(m2) => run_no_drift(m2, (n - 1) as nat),
        }
    }
}

/// Law (pacing): a scheduler stepped exactly at every due tick — no drift —
/// renders exactly one frame per elapsed tick and drops none: after `n`
/// ticks the rendered count has grown by `n` and the dropped count not at
/// all.
pub proof fn lemma_pacing_no_drift(m: SchedModel, n: nat)
    requires
        run_no_drift(m, n) is Some,
    ensures
        run_no_drift(m, n)->Some_0.rendered == m.rendered + n,
        run_no_drift(m, n)->Some_0.dropped == m.dropped,
        run_no_drift(m, n)->Some_0.next_tick == m.next_tick + n,
        run_no_drift(m, n)->Some_0.bytes == m.bytes,
    decreases n,
{
    if n > 0 {
        let m2 = sched_step_model(m, m.next_tick)->Some_0;
        lemma_pacing_no_drift(m2, (n - 1) as nat);
    }
}

/// Paces decoding against an external clock. It owns the cursor and a
/// `next_tick` counter; each `step` compares the clock against `next_tick`
/// and either waits, or drops whole frames to catch up and renders exactly
/// one.
pub struct Scheduler {
    cursor: StreamCursor,
    next_tick: u64,
    state: PlaybackState,
    rendered: u64,
    dropped: u64,
}

impl Scheduler {
    /// The cursor is sound and the counters cannot outrun the tick counter.
    pub closed spec fn wf(self) -> bool {
        &&& self.cursor.wf()
        &&& self.rendered + self.dropped <= self.next_tick
    }

    /// The container bytes under the cursor.
    pub closed spec fn bytes(self) -> Seq<u8> {
        self.cursor.bytes()
    }

    /// The cursor's read position.
    pub closed spec fn position(self) -> int {
        self.cursor.position()
    }

    /// The declared frames-per-second of the container.
    pub closed spec fn spec_fps(self) -> u16 {
        self.cursor.spec_fps()
    }

    /// The playback state.
    pub closed spec fn spec_state(self) -> PlaybackState {
        self.state
    }

    /// The tick the next frame is due at.
    pub closed spec fn spec_next_tick(self) -> u64 {
        self.next_tick
    }

    /// How many frames have been rendered.
    pub closed spec fn spec_rendered(self) -> u64 {
        self.rendered
    }

    /// How many frames were dropped to catch up.
    pub closed spec fn spec_dropped(self) -> u64 {
        self.dropped
    }

    /// This scheduler as its ghost model.
    pub open spec fn model(self) -> SchedModel {
        SchedModel {
            bytes: self.bytes(),
            pos: self.position(),
            next_tick: self.spec_next_tick() as int,
            rendered: self.spec_rendered() as int,
            dropped: self.spec_dropped() as int,
        }
    }

    /// Wraps a cursor, not yet started.
    pub fn new(cursor: StreamCursor) -> (r: Scheduler)
        requires
            cursor.wf(),
        ensures
            r.wf(),
            r.spec_state() == PlaybackState::Idle,
            r.bytes() == cursor.bytes(),
            r.position() == cursor.position(),
            r.spec_fps() == cursor.spec_fps(),
            r.spec_next_tick() == 0,
            r.spec_rendered() == 0,
            r.spec_dropped() == 0,
    {
        Scheduler { cursor, next_tick: 0, state: PlaybackState::Idle, rendered: 0, dropped: 0 }
    }

    /// Starts playback: the next frame is due at the clock's current tick,
    /// read once at start.
    pub fn start(&mut self, start_tick: u64)
        requires
            old(self).wf(),
            old(self).spec_state() == PlaybackState::Idle,
        ensures
            final(self).wf(),
            final(self).spec_state() == PlaybackState::Running,
            final(self).spec_next_tick() == start_tick,
            final(self).spec_rendered() == 0,
            final(self).spec_dropped() == 0,
            final(self).bytes() == old(self).bytes(),
            final(self).position() == old(self).position(),
            final(self).spec_fps() == old(self).spec_fps(),
    {
        self.next_tick = start_tick;
        self.rendered = 0;
        self.dropped = 0;
        self.state = PlaybackState::Running;
    }

    /// Acknowledges the end of content: `Draining` becomes the terminal
    /// `Stopped`.
    pub fn finish(&mut self)
        requires
            old(self).wf(),
            old(self).spec_state() == PlaybackState::Draining,
        ensures
            final(self).wf(),
            final(self).spec_state() == PlaybackState::Stopped,
            final(self).bytes() == old(self).bytes(),
            final(self).spec_fps() == old(self).spec_fps(),
    {
        self.state = PlaybackState::Stopped;
    }

    /// The declared frames-per-second.
    pub fn fps(&self) -> (r: u16)
        requires
            self.wf(),
        ensures
            r == self.spec_fps(),
    {
        self.cursor.fps()
    }

    /// The playback state.
    pub fn state(&self) -> (r: PlaybackState)
        ensures
            r == self.spec_state(),
    {
        self.state
    }

    /// How many frames have been rendered so far.
    pub fn rendered(&self) -> (r: u64)
        ensures
            r == self.spec_rendered(),
    {
        self.rendered
    }

    /// How many frames were dropped to catch up so far.
    pub fn dropped(&self) -> (r: u64)
        ensures
            r == self.spec_dropped(),
    {
        self.dropped
    }

    /// One iteration of the playback loop, given the clock's current tick
    /// and whether a quit signal is pending.
    ///
    /// A pending quit stops playback at once. Ahead of the clock
    /// (`current_tick < next_tick`) the caller is told to sleep and nothing
    /// changes. Otherwise, behind by `k = current_tick - next_tick` ticks,
    /// the scheduler walks the cursor past `k` whole frames without
    /// rendering them, then yields the next frame to render, counting it;
    /// ties (`current_tick == next_tick`) render and drop nothing. If the
    /// frames run out while one is expected, that is the normal end of
    /// content (`Draining`); a truncated frame is a decode failure and
    /// stops playback.
    pub fn step(&mut self, current_tick: u64, quit: bool) -> (r: Result<StepAction, DecodeError>)
        requires
            old(self).wf(),
            old(self).spec_state() == PlaybackState::Running,
            current_tick < u64::MAX,
        ensures
            final(self).wf(),
            final(self).bytes() == old(self).bytes(),
            final(self).spec_fps() == old(self).spec_fps(),
            quit ==> (r matches Ok(StepAction::Finished) && final(self).spec_state()
                == PlaybackState::Stopped && final(self).position() == old(self).position()
                && final(self).spec_rendered() == old(self).spec_rendered()
                && final(self).spec_dropped() == old(self).spec_dropped()),
            !quit && current_tick < old(self).spec_next_tick() ==> (r matches Ok(StepAction::Sleep)
                && *final(self) == *old(self)),
            !quit && current_tick >= old(self).spec_next_tick() ==> {
                let k = current_tick - old(self).spec_next_tick();
                match frames_prefix(old(self).bytes(), old(self).position(), (k + 1) as nat) {
                    None => {
                        &&& r matches Err(e) && e == DecodeError::TruncatedFrame
                        &&& final(self).spec_state() == PlaybackState::Stopped
                    },
                    Some((fs, pe)) => if fs.len() == k + 1 {
                        &&& r matches Ok(StepAction::Render(v)) && v@ == fs[k as int]
                        &&& final(self).spec_state() == PlaybackState::Running
                        &&& final(self).position() == pe
                        &&& final(self).spec_next_tick() == current_tick + 1
                        &&& final(self).spec_rendered() == old(self).spec_rendered() + 1
                        &&& final(self).spec_dropped() == old(self).spec_dropped() + k
                        &&& final(self).model() == sched_step_model(
                            old(self).model(),
                            current_tick as int,
                        )->Some_0
                    } else {
                        &&& r matches Ok(StepAction::Finished)
                        &&& final(self).spec_state() == PlaybackState::Draining
                        &&& final(self).position() == old(self).bytes().len()
                        &&& final(self).spec_rendered() == old(self).spec_rendered()
                    },
                }
            },
    {
        if quit {
            self.state = PlaybackState::Stopped;
            return Ok(StepAction::Finished);
        }
        if current_tick < self.next_tick {
            return Ok(StepAction::Sleep);
        }
        let ghost bytes0 = self.cursor.bytes();
        let ghost pos0 = self.cursor.position();
        let ghost next0 = self.next_tick as int;
        let ghost kk = current_tick - next0;
        let ghost mut gskipped: Seq<Seq<PixelRect>> = Seq::empty();
        while current_tick > self.next_tick
            invariant
                !quit,
                current_tick >= next0,
                self.wf(),
                self.state == PlaybackState::Running,
                self.cursor.bytes() == bytes0,
                self.cursor.spec_fps() == old(self).spec_fps(),
                next0 <= self.next_tick as int <= current_tick,
                current_tick < u64::MAX,
                kk == current_tick - next0,
                self.rendered == old(self).spec_rendered(),
                self.dropped as int == old(self).spec_dropped() + (self.next_tick - next0),
                gskipped.len() == self.next_tick - next0,
                next0 == old(self).spec_next_tick() as int,
                pos0 == old(self).position(),
                bytes0 == old(self).bytes(),
                match frames_prefix(
                    bytes0,
                    self.cursor.position(),
                    (current_tick - self.next_tick + 1) as nat,
                ) {
                    None => frames_prefix(bytes0, pos0, (kk + 1) as nat) is None,
                    Some((fs2, pe)) => frames_prefix(bytes0, pos0, (kk + 1) as nat) == Some(
                        (gskipped + fs2, pe),
                    ),
                },
            decreases current_tick - self.next_tick,
        {
            let ghost p_before = self.cursor.position();
            let ghost rem = current_tick - self.next_tick;
            let skipped = self.cursor.skip_frame();
            match skipped {
                Ok(true) => {
                    proof {
                        let pf = parse_frame(bytes0, p_before)->Some_0;
                        lemma_prefix_unfold(bytes0, p_before, rem as nat);
                        if frames_prefix(bytes0, self.cursor.position(), rem as nat) is Some {
                            let tail = frames_prefix(
                                bytes0,
                                self.cursor.position(),
                                rem as nat,
                            )->Some_0;
                            assert(gskipped + (seq![pf.0] + tail.0) =~= (gskipped.push(pf.0))
                                + tail.0);
                        }
                        gskipped = gskipped.push(pf.0);
                    }
                    self.next_tick = self.next_tick + 1;
                    self.dropped = self.dropped + 1;
                },
                Ok(false) => {
                    proof {
                        assert(gskipped + Seq::<Seq<PixelRect>>::empty() =~= gskipped);
                    }
                    self.state = PlaybackState::Draining;
                    return Ok(StepAction::Finished);
                },
                Err(e) => {
                    proof {
                        lemma_prefix_none(bytes0, self.cursor.position(), rem as nat);
                    }
                    self.state = PlaybackState::Stopped;
                    return Err(e);
                },
            }
        }
        let ghost p_before = self.cursor.position();
        let next = self.cursor.next_frame();
        match next {
            Ok(Some(v)) => {
                proof {
                    lemma_prefix_unfold(bytes0, p_before, 0);
                    assert(gskipped + (seq![v@] + Seq::<Seq<PixelRect>>::empty()) =~= gskipped
                        + seq![v@]);
                    assert((gskipped + seq![v@])[kk as int] == v@);
                }
                self.next_tick = self.next_tick + 1;
                self.rendered = self.rendered + 1;
                Ok(StepAction::Render(v))
            },
            Ok(None) => {
                proof {
                    assert(gskipped + Seq::<Seq<PixelRect>>::empty() =~= gskipped);
                }
                self.state = PlaybackState::Draining;
                Ok(StepAction::Finished)
            },
            Err(e) => {
                proof {
                    lemma_prefix_none(bytes0, p_before, 0);
                }
                self.state = PlaybackState::Stopped;
                Err(e)
            },
        }
    }
}

/// Unfolding one frame off a non-empty prefix read.
proof fn lemma_prefix_unfold(bytes: Seq<u8>, pos: int, rest: nat)
    requires
        parse_frame(bytes, pos) is Some,
    ensures
        pos < bytes.len(),
        frames_prefix(bytes, pos, rest + 1) == (match frames_prefix(
            bytes,
            parse_frame(bytes, pos)->Some_0.1,
            rest,
        ) {
            None => None::<(Seq<Seq<PixelRect>>, int)>,
            Some((fs, pe)) => Some((seq![parse_frame(bytes, pos)->Some_0.0] + fs, pe)),
        }),
{
    crate::decoder::lemma_parse_frame_bounds(bytes, pos);
}

/// A truncated first frame poisons any non-empty prefix read.
proof fn lemma_prefix_none(bytes: Seq<u8>, pos: int, rest: nat)
    requires
        parse_frame(bytes, pos) is None,
        pos < bytes.len(),
    ensures
        frames_prefix(bytes, pos, rest + 1) is None,
{
}

} // verus!
