use pixel_shell::render::{clear_buffer, draw_rect, ScaledRenderer, CLEAR_COLOR, ON_COLOR};

#[test]
fn clear_overwrites_every_pixel() {
    let mut buf = vec![7u32; 12];
    clear_buffer(&mut buf, 0xFF00_0000);
    assert!(buf.iter().all(|&p| p == 0xFF00_0000));
}

#[test]
fn draw_rect_fills_exactly_its_span() {
    let (w, h) = (8usize, 5usize);
    let mut buf = vec![0u32; w * h];
    draw_rect(&mut buf, w, h, 2, 1, 3, 2);
    for row in 0..h {
        for col in 0..w {
            let lit = buf[row * w + col] == ON_COLOR;
            let inside = (2..5).contains(&col) && (1..3).contains(&row);
            assert_eq!(lit, inside, "pixel ({col}, {row})");
        }
    }
}

#[test]
fn draw_rect_clips_to_the_screen() {
    let (w, h) = (4usize, 3usize);
    let mut buf = vec![0u32; w * h];
    draw_rect(&mut buf, w, h, 2, 1, 10, 10);
    for row in 0..h {
        for col in 0..w {
            let lit = buf[row * w + col] == ON_COLOR;
            let inside = col >= 2 && row >= 1;
            assert_eq!(lit, inside, "pixel ({col}, {row})");
        }
    }
}

#[test]
fn draw_rect_fully_off_screen_is_a_no_op() {
    let (w, h) = (4usize, 3usize);
    let mut buf = vec![5u32; w * h];
    draw_rect(&mut buf, w, h, 9, 9, 2, 2);
    assert!(buf.iter().all(|&p| p == 5));
}

#[test]
fn exact_double_scaling_is_pixel_exact() {
    // native 1920x1080 on a 3840x2160 device: exactly 2x on both axes, so
    // the rectangle {10, 10, 5, 5} must fill [20, 30) x [20, 30) exactly
    let mut r = ScaledRenderer::new(3840, 2160, 1920, 1080);
    r.draw_sparse_rect(10, 10, 5, 5);
    let buf = r.buffer();
    for row in 15..35usize {
        for col in 15..35usize {
            let lit = buf[row * 3840 + col] == ON_COLOR;
            let inside = (20..30).contains(&col) && (20..30).contains(&row);
            assert_eq!(lit, inside, "device pixel ({col}, {row})");
        }
    }
}

#[test]
fn renderer_clear_resets_to_transparent() {
    let mut r = ScaledRenderer::new(16, 9, 16, 9);
    r.draw_sparse_rect(0, 0, 16, 9);
    assert!(r.buffer().iter().all(|&p| p == ON_COLOR));
    r.clear();
    assert!(r.buffer().iter().all(|&p| p == CLEAR_COLOR));
}

#[test]
fn one_to_one_scaling_draws_where_asked() {
    let mut r = ScaledRenderer::new(6, 4, 6, 4);
    r.draw_sparse_rect(1, 1, 2, 2);
    let buf = r.buffer();
    for row in 0..4usize {
        for col in 0..6usize {
            let lit = buf[row * 6 + col] == ON_COLOR;
            let inside = (1..3).contains(&col) && (1..3).contains(&row);
            assert_eq!(lit, inside, "pixel ({col}, {row})");
        }
    }
}

#[test]
fn subpixel_rectangle_rounds_away() {
    // a 1x1 codec pixel on a device a tenth the size rounds to zero extent
    let mut r = ScaledRenderer::new(192, 108, 1920, 1080);
    r.draw_sparse_rect(100, 100, 1, 1);
    assert!(r.buffer().iter().all(|&p| p == CLEAR_COLOR));
}

#[test]
fn half_device_pixel_rounds_up() {
    // 1 codec pixel at half resolution is 0.5 device pixels: halves round up
    let mut r = ScaledRenderer::new(10, 10, 20, 20);
    r.draw_sparse_rect(0, 0, 1, 1);
    let buf = r.buffer();
    assert_eq!(buf[0], ON_COLOR);
    assert_eq!(buf[1], CLEAR_COLOR);
    assert_eq!(buf[10], CLEAR_COLOR);
}

#[test]
fn renderer_reports_its_resolution() {
    let r = ScaledRenderer::new(800, 600, 1920, 1080);
    assert_eq!(r.screen_w(), 800);
    assert_eq!(r.screen_h(), 600);
    assert_eq!(r.buffer().len(), 800 * 600);
}
