use pixel_shell::container::encode_stream;
use pixel_shell::decoder::{DecodeError, StreamCursor};
use pixel_shell::rect::PixelRect;
use pixel_shell::sched::{PlaybackState, Scheduler, StepAction};

fn rect(x: u16, y: u16, w: u16, h: u16) -> PixelRect {
    PixelRect { x, y, w, h }
}

/// A container whose frame number `i` holds the single rectangle
/// {x: i, y: i, w: 1, h: 1}, so a rendered frame identifies itself.
fn numbered_container(fps: u16, n_frames: u16) -> Vec<u8> {
    let mut frames = Vec::new();
    for i in 0..n_frames {
        frames.push(vec![rect(i, i, 1, 1)]);
    }
    encode_stream(fps, &frames)
}

fn running_scheduler(fps: u16, n_frames: u16, start_tick: u64) -> Scheduler {
    let cur = StreamCursor::new(numbered_container(fps, n_frames)).expect("header");
    let mut s = Scheduler::new(cur);
    s.start(start_tick);
    s
}

#[test]
fn no_drift_renders_one_frame_per_tick() {
    let mut s = running_scheduler(30, 6, 100);
    for i in 0..6u64 {
        match s.step(100 + i, false).expect("step") {
            StepAction::Render(frame) => assert_eq!(frame, vec![rect(i as u16, i as u16, 1, 1)]),
            _ => panic!("expected a frame at tick {}", 100 + i),
        }
    }
    assert_eq!(s.rendered(), 6);
    assert_eq!(s.dropped(), 0);
    assert_eq!(s.state(), PlaybackState::Running);
}

#[test]
fn content_ends_with_draining_then_stopped() {
    let mut s = running_scheduler(30, 1, 0);
    assert!(matches!(s.step(0, false).expect("step"), StepAction::Render(_)));
    assert!(matches!(s.step(1, false).expect("step"), StepAction::Finished));
    assert_eq!(s.state(), PlaybackState::Draining);
    s.finish();
    assert_eq!(s.state(), PlaybackState::Stopped);
}

#[test]
fn behind_by_k_drops_k_minus_one_then_renders() {
    // next frame due at tick 0, clock already at 3: three whole frames are
    // dropped and the fourth (the current one) is rendered
    let mut s = running_scheduler(30, 8, 0);
    match s.step(3, false).expect("step") {
        StepAction::Render(frame) => assert_eq!(frame, vec![rect(3, 3, 1, 1)]),
        _ => panic!("expected a frame"),
    }
    assert_eq!(s.dropped(), 3);
    assert_eq!(s.rendered(), 1);
    // and the very next tick is back in lockstep
    match s.step(4, false).expect("step") {
        StepAction::Render(frame) => assert_eq!(frame, vec![rect(4, 4, 1, 1)]),
        _ => panic!("expected a frame"),
    }
    assert_eq!(s.dropped(), 3);
    assert_eq!(s.rendered(), 2);
}

#[test]
fn tie_renders_rather_than_skips() {
    let mut s = running_scheduler(30, 2, 7);
    match s.step(7, false).expect("step") {
        StepAction::Render(frame) => assert_eq!(frame, vec![rect(0, 0, 1, 1)]),
        _ => panic!("a tie must render"),
    }
    assert_eq!(s.dropped(), 0);
}

#[test]
fn ahead_of_clock_sleeps() {
    let mut s = running_scheduler(30, 2, 10);
    assert!(matches!(s.step(9, false).expect("step"), StepAction::Sleep));
    assert_eq!(s.rendered(), 0);
    assert_eq!(s.state(), PlaybackState::Running);
}

#[test]
fn quit_stops_immediately() {
    let mut s = running_scheduler(30, 5, 0);
    assert!(matches!(s.step(0, true).expect("step"), StepAction::Finished));
    assert_eq!(s.state(), PlaybackState::Stopped);
    assert_eq!(s.rendered(), 0);
}

#[test]
fn exhaustion_during_catch_up_finishes() {
    // two frames but the clock is already five ticks ahead
    let mut s = running_scheduler(30, 2, 0);
    assert!(matches!(s.step(5, false).expect("step"), StepAction::Finished));
    assert_eq!(s.state(), PlaybackState::Draining);
    assert_eq!(s.rendered(), 0);
}

#[test]
fn truncated_container_stops_playback() {
    let mut bytes = numbered_container(30, 2);
    bytes.truncate(bytes.len() - 3);
    let cur = StreamCursor::new(bytes).expect("header");
    let mut s = Scheduler::new(cur);
    s.start(0);
    assert!(matches!(s.step(0, false).expect("step"), StepAction::Render(_)));
    assert!(matches!(s.step(1, false), Err(DecodeError::TruncatedFrame)));
    assert_eq!(s.state(), PlaybackState::Stopped);
}

#[test]
fn scheduler_reports_container_fps() {
    let s = running_scheduler(144, 1, 0);
    assert_eq!(s.fps(), 144);
}
