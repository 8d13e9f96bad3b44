use pixel_shell::config::{fps_of_rational, resolution_dims, ConvertArgs, RunArgs};

#[test]
fn known_resolution_names_map_to_their_sizes() {
    assert_eq!(resolution_dims(b"720p"), Some((1280, 720)));
    assert_eq!(resolution_dims(b"1080p"), Some((1920, 1080)));
    assert_eq!(resolution_dims(b"1440p"), Some((2560, 1440)));
    assert_eq!(resolution_dims(b"2160p"), Some((3840, 2160)));
}

#[test]
fn unknown_resolution_names_are_rejected() {
    assert_eq!(resolution_dims(b"480p"), None);
    assert_eq!(resolution_dims(b"1080"), None);
    assert_eq!(resolution_dims(b""), None);
    assert_eq!(resolution_dims(b"1080px"), None);
}

#[test]
fn ntsc_frame_rate_rounds_to_thirty() {
    assert_eq!(fps_of_rational(30000, 1001), 30);
}

#[test]
fn whole_frame_rates_pass_through() {
    assert_eq!(fps_of_rational(60, 1), 60);
    assert_eq!(fps_of_rational(120, 2), 60);
}

#[test]
fn half_frame_rates_round_up() {
    assert_eq!(fps_of_rational(61, 2), 31);
    assert_eq!(fps_of_rational(59, 2), 30);
}

#[test]
fn absurd_frame_rates_saturate() {
    assert_eq!(fps_of_rational(10_000_000, 1), 65535);
    assert_eq!(fps_of_rational(u64::MAX, 1), 65535);
}

#[test]
fn zero_rate_rounds_to_zero() {
    assert_eq!(fps_of_rational(0, 1), 0);
}

#[test]
fn argument_records_carry_their_fields() {
    let c = ConvertArgs { project_name: Some(String::from("clip")), resolutions: None, use_gpu: true };
    assert_eq!(c.project_name.as_deref(), Some("clip"));
    assert!(c.use_gpu);
    let r = RunArgs { target: None };
    assert!(r.target.is_none());
}
