use pixel_shell::container::{encode_frame_into, encode_rect_into, encode_stream, push_u16_le};
use pixel_shell::decoder::{DecodeError, StreamCursor};
use pixel_shell::encoder::extract_rects_optimized;
use pixel_shell::rect::{eos_marker, PixelRect};
use pixel_shell::render::{render_frame, ON_COLOR};

fn rect(x: u16, y: u16, w: u16, h: u16) -> PixelRect {
    PixelRect { x, y, w, h }
}

/// A frame buffer from a 0/1 mask picture, one byte per pixel.
fn buffer_of(mask: &[&[u8]]) -> (Vec<u8>, u32, u32) {
    let h = mask.len() as u32;
    let w = mask[0].len() as u32;
    let mut buf = Vec::new();
    for row in mask {
        for &px in row.iter() {
            buf.push(if px != 0 { 255 } else { 0 });
        }
    }
    (buf, w, h)
}

#[test]
fn sentinel_is_recognized() {
    assert!(eos_marker().is_frame_end());
    assert!(!rect(0, 0, 1, 1).is_frame_end());
    assert!(!rect(0, 0, 0, 1).is_frame_end());
    assert!(!rect(0, 0, 1, 0).is_frame_end());
}

#[test]
fn merge_stacks_identical_runs() {
    let (buf, w, h) = buffer_of(&[
        &[0, 0, 0, 0, 0, 0],
        &[0, 0, 1, 1, 1, 0],
        &[0, 0, 1, 1, 1, 0],
        &[0, 0, 1, 1, 1, 0],
        &[0, 0, 0, 0, 0, 0],
    ]);
    let rects = extract_rects_optimized(&buf, w, h, 127);
    assert_eq!(rects, vec![rect(2, 1, 3, 3)]);
}

#[test]
fn interrupted_run_is_not_merged() {
    let (buf, w, h) = buffer_of(&[
        &[0, 1, 1, 0],
        &[0, 1, 1, 0],
        &[0, 0, 0, 0],
        &[0, 1, 1, 0],
    ]);
    let rects = extract_rects_optimized(&buf, w, h, 127);
    assert_eq!(rects.len(), 2);
    assert!(rects.contains(&rect(1, 0, 2, 2)));
    assert!(rects.contains(&rect(1, 3, 2, 1)));
}

#[test]
fn disjoint_runs_in_one_row_stay_disjoint() {
    let (buf, w, h) = buffer_of(&[&[1, 1, 0, 0, 1, 1, 1]]);
    let rects = extract_rects_optimized(&buf, w, h, 127);
    assert_eq!(rects.len(), 2);
    assert!(rects.contains(&rect(0, 0, 2, 1)));
    assert!(rects.contains(&rect(4, 0, 3, 1)));
}

#[test]
fn no_emitted_rect_is_zero_sized() {
    let (buf, w, h) = buffer_of(&[
        &[1, 0, 1, 0, 1],
        &[1, 1, 1, 1, 1],
        &[0, 0, 0, 0, 1],
    ]);
    let rects = extract_rects_optimized(&buf, w, h, 127);
    assert!(!rects.is_empty());
    for r in &rects {
        assert!(r.w >= 1 && r.h >= 1);
        assert!(!r.is_frame_end());
    }
}

#[test]
fn empty_mask_yields_no_rects() {
    let buf = vec![0u8; 12];
    let rects = extract_rects_optimized(&buf, 4, 3, 127);
    assert!(rects.is_empty());
}

#[test]
fn threshold_is_inclusive() {
    let buf = vec![126u8, 127u8, 128u8];
    let rects = extract_rects_optimized(&buf, 3, 1, 127);
    assert_eq!(rects, vec![rect(1, 0, 2, 1)]);
}

#[test]
fn full_frame_is_one_rect() {
    let buf = vec![255u8; 6 * 4];
    let rects = extract_rects_optimized(&buf, 6, 4, 127);
    assert_eq!(rects, vec![rect(0, 0, 6, 4)]);
}

#[test]
fn changed_width_starts_a_new_rect() {
    // the middle row widens the run, so neither neighbour merges with it
    let (buf, w, h) = buffer_of(&[
        &[1, 1, 1, 0, 0],
        &[1, 1, 1, 1, 1],
        &[1, 1, 1, 0, 0],
    ]);
    let rects = extract_rects_optimized(&buf, w, h, 127);
    assert_eq!(rects.len(), 3);
    assert!(rects.contains(&rect(0, 0, 3, 1)));
    assert!(rects.contains(&rect(0, 1, 5, 1)));
    assert!(rects.contains(&rect(0, 2, 3, 1)));
}

#[test]
fn rect_record_layout_is_little_endian() {
    let mut out = Vec::new();
    encode_rect_into(&mut out, &rect(258, 1, 2, 65535));
    assert_eq!(out, vec![2, 1, 1, 0, 2, 0, 255, 255]);
}

#[test]
fn header_is_two_le_bytes() {
    let mut out = Vec::new();
    push_u16_le(&mut out, 30);
    assert_eq!(out, vec![30, 0]);
    let mut out2 = Vec::new();
    push_u16_le(&mut out2, 0x0102);
    assert_eq!(out2, vec![2, 1]);
}

#[test]
fn frame_ends_with_sentinel_record() {
    let mut out = Vec::new();
    encode_frame_into(&mut out, &vec![rect(1, 2, 3, 4)]);
    assert_eq!(out.len(), 16);
    assert_eq!(&out[8..16], &[0, 0, 0, 0, 0, 0, 0, 0]);
}

#[test]
fn stream_decodes_to_what_was_encoded() {
    let frames = vec![
        vec![rect(0, 0, 2, 1), rect(5, 9, 1, 4)],
        vec![],
        vec![rect(65535, 65535, 65535, 65535)],
    ];
    let bytes = encode_stream(24, &frames);
    let mut cur = StreamCursor::new(bytes).expect("header");
    assert_eq!(cur.fps(), 24);
    for frame in &frames {
        let got = cur.next_frame().expect("frame").expect("present");
        assert_eq!(&got, frame);
    }
    assert!(cur.next_frame().expect("clean end").is_none());
}

#[test]
fn hand_built_two_frame_container_decodes() {
    // header fps = 1, frame 1 = one rectangle {0,0,2,1} + sentinel,
    // frame 2 = sentinel only, then end of file
    let bytes = vec![
        0x01, 0x00, // fps
        0, 0, 0, 0, 2, 0, 1, 0, // rectangle {x:0, y:0, w:2, h:1}
        0, 0, 0, 0, 0, 0, 0, 0, // sentinel
        0, 0, 0, 0, 0, 0, 0, 0, // sentinel (empty frame)
    ];
    let mut cur = StreamCursor::new(bytes).expect("header");
    assert_eq!(cur.fps(), 1);
    let f1 = cur.next_frame().expect("frame 1").expect("present");
    assert_eq!(f1, vec![rect(0, 0, 2, 1)]);
    let f2 = cur.next_frame().expect("frame 2").expect("present");
    assert!(f2.is_empty());
    assert!(cur.next_frame().expect("clean end").is_none());
    assert!(cur.next_frame().expect("still clean").is_none());
}

#[test]
fn short_header_is_rejected() {
    assert!(matches!(StreamCursor::new(vec![]), Err(DecodeError::HeaderTooShort)));
    assert!(matches!(StreamCursor::new(vec![1]), Err(DecodeError::HeaderTooShort)));
}

#[test]
fn truncated_frame_is_a_hard_error() {
    // header then half a record
    let mut cur = StreamCursor::new(vec![1, 0, 7, 7, 7]).expect("header");
    assert_eq!(cur.next_frame(), Err(DecodeError::TruncatedFrame));
    // header, one whole record, then the stream breaks before the sentinel
    let mut bytes = vec![1, 0];
    bytes.extend_from_slice(&[1, 0, 1, 0, 1, 0, 1, 0]);
    bytes.extend_from_slice(&[9, 9, 9]);
    let mut cur2 = StreamCursor::new(bytes).expect("header");
    assert_eq!(cur2.next_frame(), Err(DecodeError::TruncatedFrame));
}

#[test]
fn encode_decode_rasterize_reproduces_mask() {
    let (buf, w, h) = buffer_of(&[
        &[0, 1, 1, 0, 0, 0, 1, 0],
        &[0, 1, 1, 0, 1, 1, 1, 0],
        &[0, 1, 1, 0, 1, 1, 1, 0],
        &[0, 0, 0, 0, 0, 1, 0, 0],
        &[1, 1, 1, 1, 1, 1, 1, 1],
    ]);
    let rects = extract_rects_optimized(&buf, w, h, 127);
    let bytes = encode_stream(30, &vec![rects]);
    let mut cur = StreamCursor::new(bytes).expect("header");
    assert_eq!(cur.fps(), 30);
    let decoded = cur.next_frame().expect("frame").expect("present");
    assert!(cur.next_frame().expect("clean end").is_none());

    let mut surface = vec![0u32; (w * h) as usize];
    render_frame(&mut surface, w as usize, h as usize, 0, &decoded);
    for row in 0..h as usize {
        for col in 0..w as usize {
            let lit = surface[row * w as usize + col] == ON_COLOR;
            let on = buf[row * w as usize + col] >= 127;
            assert_eq!(lit, on, "pixel ({col}, {row})");
        }
    }
}
