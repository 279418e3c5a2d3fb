use shadowcatch::capture::{
    gst_quote, health_check_step, health_event, CaptureEvent, HealthAction, StatsCounters,
    StatsTicker, STARTUP_RETRY_LIMIT,
};
use shadowcatch::devices::{AudioBackend, AudioDevice, VideoDevice};
use shadowcatch::formats::{
    frame_rate_texts, frame_rates_for, parse_v4l2_formats, unique_pixel_formats,
    unique_resolutions, CaptureFormat,
};
use shadowcatch::ui::{
    audio_device_choices, capture_settings_from_widgets, frame_rate_choices,
    preferred_video_device, resolution_choices, start_failed_text, starting_status,
    video_device_choices, SavedSettings,
};

fn rates(output: &str) -> Vec<Option<u32>> {
    frame_rate_texts(output)
        .iter()
        .map(|t| t.as_ref().and_then(|t| t.parse::<f32>().ok()).map(|f| f.round() as u32))
        .collect()
}

fn fmt(pf: &str, width: u32, height: u32, fps: u32) -> CaptureFormat {
    CaptureFormat { pixel_format: pf.to_string(), width, height, fps }
}

/// GStreamer's reading of a quoted value.
fn unquote(q: &str) -> String {
    let inner = &q[1..q.len() - 1];
    let mut out = String::new();
    let mut chars = inner.chars();
    while let Some(c) = chars.next() {
        if c == '\\' {
            if let Some(d) = chars.next() {
                out.push(d);
                continue;
            }
        }
        out.push(c);
    }
    out
}

#[test]
fn listing_order_does_not_matter() {
    let a = "'YUYV'\nSize: Discrete 640x480\n(30 fps)\n'MJPG'\nSize: Discrete 1920x1080\n(60 fps)\n(30 fps)\n";
    let b = "'MJPG'\nSize: Discrete 1920x1080\n(30 fps)\n(60 fps)\n(30 fps)\n'YUYV'\nSize: Discrete 640x480\n(30 fps)\n";
    assert_eq!(parse_v4l2_formats(a, &rates(a)), parse_v4l2_formats(b, &rates(b)));
}

#[test]
fn every_offered_choice_leads_somewhere() {
    let modes = vec![fmt("MJPG", 1920, 1080, 60), fmt("YUYV", 640, 480, 30), fmt("MJPG", 1280, 720, 30)];
    for pf in unique_pixel_formats(&modes) {
        let sizes = unique_resolutions(&modes, &pf);
        assert!(!sizes.is_empty());
        for (w, h) in sizes {
            assert!(!frame_rates_for(&modes, &pf, w, h).is_empty());
        }
    }
}

#[test]
fn quoted_values_read_back() {
    for v in ["/dev/video0", "a\"b", "back\\slash", "\\\"", ""] {
        assert_eq!(unquote(&gst_quote(v)), v);
    }
}

#[test]
fn restarts_are_bounded() {
    let mut retries = 0usize;
    let mut restarts = 0usize;
    for _ in 0..50 {
        let (next, action) = health_check_step(retries, false, false, Some(false));
        if let HealthAction::Restart { attempt } = action {
            restarts += 1;
            assert_eq!(attempt, restarts);
        }
        retries = next;
    }
    assert_eq!(restarts, STARTUP_RETRY_LIMIT);
}

#[test]
fn selections_are_offered() {
    let videos = vec![
        VideoDevice { path: "/dev/video4".to_string(), name: "Cam".to_string(), is_shadowcast: false },
        VideoDevice { path: "/dev/video5".to_string(), name: "S3".to_string(), is_shadowcast: true },
    ];
    let preferred = preferred_video_device(&videos, &SavedSettings::default());
    assert_eq!(preferred, "/dev/video5");
    let (entries, active) = video_device_choices(&videos, &preferred);
    assert!(entries.iter().any(|(id, _)| *id == active));

    let audios = vec![
        AudioDevice { id: "alsa:hw:1,0".to_string(), name: "S3".to_string(), backend: AudioBackend::Alsa, is_shadowcast: true },
        AudioDevice { id: "pulse:s3".to_string(), name: "S3".to_string(), backend: AudioBackend::Pulse, is_shadowcast: true },
    ];
    let (entries, active) = audio_device_choices(&audios, Some("alsa:hw:1,0"));
    assert_eq!(active, "pulse:s3");
    assert!(entries.iter().any(|(id, _)| *id == active));
}

#[test]
fn choices_read_back_as_settings() {
    let modes = vec![fmt("YUYV", 1280, 720, 30), fmt("YUYV", 1280, 720, 15)];
    let (sizes, size) = resolution_choices(&modes, Some("YUYV"), Some(1280), Some(720));
    assert_eq!(sizes, vec!["1280x720".to_string()]);
    let (rates, rate) = frame_rate_choices(&modes, Some("YUYV"), size.as_deref(), Some(15));
    assert_eq!(rates.len(), 2);
    let settings = capture_settings_from_widgets(
        Some("/dev/video0"),
        Some("none"),
        Some("YUYV"),
        size.as_deref(),
        rate.as_deref(),
        false,
    )
    .unwrap();
    assert_eq!((settings.width, settings.height, settings.fps), (1280, 720, 15));
    assert_eq!(settings.audio_device, None);
}

#[test]
fn start_labels() {
    let waiting = starting_status(true);
    assert!(waiting.visible);
    assert_eq!(waiting.text.as_deref(), Some("Waiting for debug stats..."));
    let quiet = starting_status(false);
    assert!(!quiet.visible);
    assert_eq!(quiet.text.as_deref(), Some(""));
    assert_eq!(
        start_failed_text("no element \"v4l2src\""),
        "Could not start capture. Check that HDMI is connected and no other app is using the device.\nno element \"v4l2src\""
    );
}

#[test]
fn joined_listings_name_both() {
    let a = "[0]: 'YUYV' (YUYV 4:2:2)\n\tSize: Discrete 640x480\n\t\tInterval: Discrete 0.033s (30.000 fps)\n[1]: 'MJPG' (Motion-JPEG)\n\tSize: Discrete 1920x1080\n\t\tInterval: Discrete 0.017s (60.000 fps)";
    let b = "\n  \n[0]: 'MJPG' (Motion-JPEG)\n\tSize: Discrete 1280x720\n\t\tInterval: Discrete 0.033s (30.000 fps)\n\tSize: Discrete 1920x1080\n\t\tInterval: Discrete 0.017s (60.000 fps)\n";
    let joined = format!("{a}\n{b}");
    let parsed_a = parse_v4l2_formats(a, &rates(a));
    let parsed_b = parse_v4l2_formats(b, &rates(b));
    let mut union: Vec<CaptureFormat> = parsed_a.iter().chain(parsed_b.iter()).cloned().collect();
    union.sort();
    union.dedup();
    assert_eq!(parse_v4l2_formats(&joined, &rates(&joined)), union);
    assert_eq!(
        union,
        vec![fmt("MJPG", 1280, 720, 30), fmt("MJPG", 1920, 1080, 60), fmt("YUYV", 640, 480, 30)]
    );
}

#[test]
fn warm_up_reports_each_restart_then_stops() {
    let mut retries = 0usize;
    let mut events = Vec::new();
    // Eight checks without video, then one with video and audio.
    for check in 0..9 {
        let video_seen = check == 8;
        let (next, action) = health_check_step(retries, false, video_seen, Some(video_seen));
        retries = next;
        if action == HealthAction::Stop {
            break;
        }
        if let Some(e) = health_event(&action) {
            events.push(e);
        }
    }
    let mut expected: Vec<CaptureEvent> = (1..=6)
        .map(|k| CaptureEvent::Retrying(format!("Warming up the ShadowCast stream (attempt {k}/6).")))
        .collect();
    expected.push(CaptureEvent::NoFrames { waiting_for_video: true, waiting_for_audio: true });
    expected.push(CaptureEvent::NoFrames { waiting_for_video: true, waiting_for_audio: true });
    assert_eq!(events, expected);
}

#[test]
fn stats_ticks_add_up_to_the_totals() {
    let totals = [
        StatsCounters { video_buffers: 60, video_bytes: 6000, audio_buffers: 0, audio_bytes: 0 },
        StatsCounters { video_buffers: 119, video_bytes: 12500, audio_buffers: 47, audio_bytes: 9400 },
        StatsCounters { video_buffers: 179, video_bytes: 18000, audio_buffers: 94, audio_bytes: 18800 },
    ];
    let mut ticker = StatsTicker::new();
    let reports: Vec<StatsCounters> = totals.iter().map(|t| ticker.tick(t)).collect();
    assert_eq!(
        reports,
        vec![
            StatsCounters { video_buffers: 60, video_bytes: 6000, audio_buffers: 0, audio_bytes: 0 },
            StatsCounters { video_buffers: 59, video_bytes: 6500, audio_buffers: 47, audio_bytes: 9400 },
            StatsCounters { video_buffers: 60, video_bytes: 5500, audio_buffers: 47, audio_bytes: 9400 },
        ]
    );
    let sum: u64 = reports.iter().map(|r| r.video_bytes).sum();
    assert_eq!(sum, totals[2].video_bytes);
    assert_eq!(ticker.last, totals[2]);
}

#[test]
fn stats_lines_follow_the_ticks() {
    let bitrate = |b: u64| format!("{b} B/s");
    let bytes = |b: u64| format!("{b} B");
    let mut ticker = StatsTicker::new();
    let first = StatsCounters { video_buffers: 60, video_bytes: 6000, audio_buffers: 47, audio_bytes: 9400 };
    let second = StatsCounters { video_buffers: 119, video_bytes: 12500, audio_buffers: 94, audio_bytes: 18800 };
    assert_eq!(
        ticker.report_line(&first, 1, true, &bitrate, &bytes),
        "up 1s | video 60 fps, 6000 B/s, 6000 B total | audio 47 buf/s, 9400 B/s, 9400 B total"
    );
    assert_eq!(
        ticker.report_line(&second, 2, false, &bitrate, &bytes),
        "up 2s | video 59 fps, 6500 B/s, 12500 B total"
    );
    assert_eq!(ticker.last, second);
}

#[test]
fn without_audio_no_audio_is_reported() {
    let mut retries = 0usize;
    let mut events = Vec::new();
    for _ in 0..10 {
        let (next, action) = health_check_step(retries, false, false, None);
        retries = next;
        if let Some(e) = health_event(&action) {
            events.push(e);
        }
    }
    assert_eq!(events.len(), 10);
    for e in &events {
        match e {
            CaptureEvent::Retrying(_) => {}
            CaptureEvent::NoFrames { waiting_for_video, waiting_for_audio } => {
                assert!(*waiting_for_video && !*waiting_for_audio);
            }
            other => panic!("unexpected event {other:?}"),
        }
    }
    let (_, action) = health_check_step(retries, false, true, None);
    assert_eq!(action, HealthAction::Stop);
}

#[test]
fn stats_line_has_audio_part_only_with_audio() {
    let bitrate = |b: u64| format!("{:.1} Kb/s", b as f64 * 8.0 / 1000.0);
    let bytes = |b: u64| format!("{:.1} KB", b as f64 / 1000.0);
    let now = StatsCounters { video_buffers: 60, video_bytes: 6000, audio_buffers: 47, audio_bytes: 9400 };
    let mut with_audio = StatsTicker::new();
    let mut without_audio = StatsTicker::new();
    assert!(with_audio.report_line(&now, 61, true, &bitrate, &bytes).contains(" | audio "));
    let line = without_audio.report_line(&now, 61, false, &bitrate, &bytes);
    assert!(!line.contains(" | audio "));
    assert_eq!(line, "up 1m 01s | video 60 fps, 48.0 Kb/s, 6.0 KB total");
}
