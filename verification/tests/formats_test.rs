use shadowcatch::formats::{
    fps_token, frame_rate_texts, frame_rates_for, list_formats, parse_pixel_format, parse_size,
    parse_v4l2_formats, unique_pixel_formats, unique_resolutions, CaptureFormat,
};

/// The frame rate that a frame-rate text stands for, read as the device
/// reports it: a decimal number rounded to the nearest integer.
fn rate_of(text: &Option<String>) -> Option<u32> {
    text.as_ref()
        .and_then(|t| t.parse::<f32>().ok())
        .map(|f| f.round() as u32)
}

fn frame_rates(output: &str) -> Vec<Option<u32>> {
    frame_rate_texts(output).iter().map(rate_of).collect()
}

fn parse(output: &str) -> Vec<CaptureFormat> {
    parse_v4l2_formats(output, &frame_rates(output))
}

fn fmt(pf: &str, width: u32, height: u32, fps: u32) -> CaptureFormat {
    CaptureFormat { pixel_format: pf.to_string(), width, height, fps }
}

#[test]
fn parses_v4l2_ctl_output() {
    let output = r#"
            [0]: 'MJPG' (Motion-JPEG, compressed)
                Size: Discrete 1920x1080
                    Interval: Discrete 0.017s (60.000 fps)
                    Interval: Discrete 0.033s (30.000 fps)
            [1]: 'YUYV' (YUYV 4:2:2)
                Size: Discrete 1280x720
                    Interval: Discrete 0.033s (30.000 fps)
        "#;

    let formats = parse(output);
    assert!(formats.contains(&CaptureFormat {
        pixel_format: "MJPG".to_string(),
        width: 1920,
        height: 1080,
        fps: 60,
    }));
    assert!(formats.contains(&CaptureFormat {
        pixel_format: "YUYV".to_string(),
        width: 1280,
        height: 720,
        fps: 30,
    }));
}

#[test]
fn parsed_modes_are_sorted_and_distinct() {
    let output = "[1]: 'YUYV' (YUYV)\n\tSize: Discrete 1280x720\n\t\tInterval: Discrete 0.033s (30.000 fps)\n\t\tInterval: Discrete 0.033s (30.000 fps)\n[0]: 'MJPG' (Motion-JPEG)\n\tSize: Discrete 1920x1080\n\t\tInterval: Discrete 0.017s (60.000 fps)\n\tSize: Discrete 640x480\n\t\tInterval: Discrete 0.017s (59.940 fps)\n";
    let formats = parse(output);
    assert_eq!(
        formats,
        vec![
            fmt("MJPG", 640, 480, 60),
            fmt("MJPG", 1920, 1080, 60),
            fmt("YUYV", 1280, 720, 30),
        ]
    );
}

#[test]
fn interval_before_any_size_is_ignored() {
    let output = "[0]: 'MJPG' (x)\n\tInterval: Discrete 0.017s (60.000 fps)\n\tSize: Discrete 800x600\n\t\tInterval: Discrete 0.1s (10.000 fps)\r\n";
    assert_eq!(parse(output), vec![fmt("MJPG", 800, 600, 10)]);
}

#[test]
fn new_pixel_format_forgets_the_size() {
    let output = "'A'\nSize: Discrete 10x20\n'B'\n(5 fps)\n";
    assert_eq!(parse(output), vec![]);
}

#[test]
fn pixel_format_between_quotes() {
    assert_eq!(parse_pixel_format("[0]: 'MJPG' (Motion-JPEG)"), Some("MJPG".to_string()));
    assert_eq!(parse_pixel_format("no quotes"), None);
    assert_eq!(parse_pixel_format("one ' quote"), None);
    assert_eq!(parse_pixel_format("''"), Some(String::new()));
}

#[test]
fn size_lines() {
    assert_eq!(parse_size("Size: Discrete 1920x1080"), Some((1920, 1080)));
    assert_eq!(parse_size("Size: Discrete +8x9"), Some((8, 9)));
    assert_eq!(parse_size("Size: Discrete 1920x"), None);
    assert_eq!(parse_size("Size: Discrete 4294967296x1"), None);
    assert_eq!(parse_size("Size: Discrete 4294967295x1"), Some((4294967295, 1)));
    assert_eq!(parse_size("Size: Stepwise 1x1"), None);
    assert_eq!(parse_size("Size: Discrete 12 x 4"), None);
}

#[test]
fn fps_tokens() {
    assert_eq!(fps_token("Interval: Discrete 0.017s (60.000 fps)"), Some("60.000".to_string()));
    assert_eq!(fps_token("a (  7 b ( c"), Some("7".to_string()));
    assert_eq!(fps_token("a (   "), None);
    assert_eq!(fps_token("no paren"), None);
}

#[test]
fn listing_that_names_nothing_falls_back() {
    let out = list_formats(Some("nothing here\n"), &vec![None]);
    assert_eq!(out, vec![CaptureFormat::default_shadowcast()]);
    let out = list_formats(None, &vec![]);
    assert_eq!(out, vec![fmt("MJPG", 1920, 1080, 60)]);
}

#[test]
fn choices_from_modes() {
    let modes = vec![
        fmt("YUYV", 1280, 720, 30),
        fmt("MJPG", 1920, 1080, 60),
        fmt("MJPG", 1920, 1080, 30),
        fmt("MJPG", 1280, 720, 60),
        fmt("MJPG", 1920, 1080, 60),
    ];
    assert_eq!(unique_pixel_formats(&modes), vec!["MJPG".to_string(), "YUYV".to_string()]);
    assert_eq!(unique_resolutions(&modes, "MJPG"), vec![(1280, 720), (1920, 1080)]);
    assert_eq!(unique_resolutions(&modes, "NV12"), vec![]);
    assert_eq!(frame_rates_for(&modes, "MJPG", 1920, 1080), vec![30, 60]);
    assert_eq!(frame_rates_for(&modes, "YUYV", 1920, 1080), Vec::<u32>::new());
}
