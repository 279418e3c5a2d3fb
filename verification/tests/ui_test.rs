use shadowcatch::capture::{CaptureEvent, CaptureSettings};
use shadowcatch::devices::{AudioBackend, AudioDevice, VideoDevice};
use shadowcatch::formats::CaptureFormat;
use shadowcatch::ui::{
    audio_device_choices, auto_summary, capture_settings_from_widgets, frame_rate_choices,
    pixel_format_choices, preferred_video_device, resolution_choices, saved_from_settings,
    selected_resolution, status_update, video_device_choices, SavedSettings,
};

fn video(path: &str, name: &str, is_shadowcast: bool) -> VideoDevice {
    VideoDevice { path: path.to_string(), name: name.to_string(), is_shadowcast }
}

fn audio(id: &str, name: &str, backend: AudioBackend, is_shadowcast: bool) -> AudioDevice {
    AudioDevice { id: id.to_string(), name: name.to_string(), backend, is_shadowcast }
}

fn fmt(pf: &str, width: u32, height: u32, fps: u32) -> CaptureFormat {
    CaptureFormat { pixel_format: pf.to_string(), width, height, fps }
}

fn s(v: &str) -> String {
    v.to_string()
}

fn saved_video(path: Option<&str>) -> SavedSettings {
    let mut saved = SavedSettings::default();
    saved.video_device = path.map(s);
    saved
}

#[test]
fn summaries() {
    let tail = ". Open these controls only if the defaults need changing.";
    assert_eq!(auto_summary("/dev/video0", None), format!("Auto-selected /dev/video0 with no audio source{tail}"));
    assert_eq!(auto_summary("/dev/video1", Some("none")), format!("Auto-selected /dev/video1 with no audio source{tail}"));
    assert_eq!(auto_summary("/dev/video1", Some("pulse:x")), format!("Auto-selected /dev/video1 with PipeWire/Pulse audio{tail}"));
    assert_eq!(auto_summary("/dev/video1", Some("alsa:hw:1,0")), format!("Auto-selected /dev/video1 with ALSA audio{tail}"));
    assert_eq!(auto_summary("/dev/video1", Some("custom")), format!("Auto-selected /dev/video1 with custom{tail}"));
}

#[test]
fn preferred_video() {
    let devices = vec![video("/dev/video0", "Cam", false), video("/dev/video2", "S3", true)];
    assert_eq!(preferred_video_device(&devices, &saved_video(Some("/dev/video0"))), "/dev/video0");
    assert_eq!(preferred_video_device(&devices, &saved_video(Some("/dev/video9"))), "/dev/video2");
    assert_eq!(preferred_video_device(&devices, &saved_video(None)), "/dev/video2");
    let plain = vec![video("/dev/video4", "Cam", false)];
    assert_eq!(preferred_video_device(&plain, &saved_video(None)), "/dev/video4");
    assert_eq!(preferred_video_device(&[], &saved_video(Some("/dev/video1"))), "/dev/video0");
}

#[test]
fn video_choices() {
    let devices = vec![video("/dev/video2", "S3", true), video("/dev/video0", "Cam", false)];
    let (entries, active) = video_device_choices(&devices, "/dev/video0");
    assert_eq!(entries, vec![(s("/dev/video2"), s("/dev/video2 - S3 (ShadowCast)")), (s("/dev/video0"), s("/dev/video0 - Cam (V4L2)"))]);
    assert_eq!(active, "/dev/video0");
    let (_, active) = video_device_choices(&devices, "/dev/video7");
    assert_eq!(active, "/dev/video2");
    let (entries, active) = video_device_choices(&[], "/dev/video3");
    assert_eq!(entries, vec![(s("/dev/video0"), s("/dev/video0 (fallback)"))]);
    assert_eq!(active, "/dev/video0");
}

#[test]
fn audio_choices() {
    let devices = vec![
        audio("alsa:hw:1,0", "S3 [hw:1,0]", AudioBackend::Alsa, true),
        audio("pulse:mic", "mic (PipeWire)", AudioBackend::Pulse, false),
        audio("pulse:s3", "s3 (PipeWire)", AudioBackend::Pulse, true),
    ];
    let (entries, active) = audio_device_choices(&devices, Some("pulse:mic"));
    assert_eq!(entries[0], (s("none"), s("No audio")));
    assert_eq!(entries.len(), 4);
    assert_eq!(entries[3], (s("pulse:s3"), s("s3 (PipeWire)")));
    assert_eq!(active, "pulse:s3");
    let without_pulse_s3 = &devices[..2];
    assert_eq!(audio_device_choices(without_pulse_s3, Some("pulse:mic")).1, "pulse:mic");
    assert_eq!(audio_device_choices(without_pulse_s3, Some("none")).1, "none");
    assert_eq!(audio_device_choices(without_pulse_s3, Some("pulse:gone")).1, "alsa:hw:1,0");
    assert_eq!(audio_device_choices(without_pulse_s3, None).1, "alsa:hw:1,0");
    assert_eq!(audio_device_choices(&devices[1..2], None).1, "none");
    assert_eq!(audio_device_choices(&[], None), (vec![(s("none"), s("No audio"))], s("none")));
}

#[test]
fn format_and_size_and_rate_choices() {
    let modes = vec![
        fmt("YUYV", 1280, 720, 30),
        fmt("MJPG", 1920, 1080, 60),
        fmt("MJPG", 1920, 1080, 30),
        fmt("MJPG", 1280, 720, 60),
    ];
    assert_eq!(pixel_format_choices(&modes, None), (vec![s("MJPG"), s("YUYV")], Some(s("MJPG"))));
    assert_eq!(pixel_format_choices(&modes, Some("YUYV")), (vec![s("MJPG"), s("YUYV")], Some(s("YUYV"))));
    assert_eq!(pixel_format_choices(&modes, Some("NV12")).1, Some(s("MJPG")));
    assert_eq!(pixel_format_choices(&[], None), (vec![], None));

    assert_eq!(resolution_choices(&modes, Some("MJPG"), None, None), (vec![s("1280x720"), s("1920x1080")], Some(s("1920x1080"))));
    assert_eq!(resolution_choices(&modes, None, Some(1280), Some(720)).1, Some(s("1280x720")));
    assert_eq!(resolution_choices(&modes, Some("YUYV"), Some(1280), None), (vec![s("1280x720")], Some(s("1280x720"))));
    assert_eq!(resolution_choices(&modes, Some("NV12"), None, None), (vec![], None));

    assert_eq!(
        frame_rate_choices(&modes, Some("MJPG"), Some("1920x1080"), None),
        (vec![(s("30"), s("30 fps")), (s("60"), s("60 fps"))], Some(s("60")))
    );
    assert_eq!(frame_rate_choices(&modes, Some("MJPG"), Some("1920x1080"), Some(30)).1, Some(s("30")));
    assert_eq!(frame_rate_choices(&modes, Some("YUYV"), Some("1280x720"), Some(60)), (vec![(s("30"), s("30 fps"))], Some(s("30"))));
    assert_eq!(frame_rate_choices(&modes, None, None, None).1, Some(s("60")));
}

#[test]
fn resolution_ids() {
    assert_eq!(selected_resolution(Some("1280x720")), Some((1280, 720)));
    assert_eq!(selected_resolution(Some("1280x")), None);
    assert_eq!(selected_resolution(Some("abc")), None);
    assert_eq!(selected_resolution(None), None);
}

#[test]
fn settings_from_choices() {
    assert_eq!(capture_settings_from_widgets(None, Some("none"), None, None, None, false), None);
    assert_eq!(
        capture_settings_from_widgets(Some("/dev/video2"), Some("none"), None, None, None, true),
        Some(CaptureSettings {
            video_device: s("/dev/video2"),
            audio_device: None,
            pixel_format: s("MJPG"),
            width: 1920,
            height: 1080,
            fps: 60,
            debug_stats: true,
        })
    );
    assert_eq!(
        capture_settings_from_widgets(Some("/dev/video2"), Some("pulse:s3"), Some("YUYV"), Some("1280x720"), Some("30"), false),
        Some(CaptureSettings {
            video_device: s("/dev/video2"),
            audio_device: Some(s("pulse:s3")),
            pixel_format: s("YUYV"),
            width: 1280,
            height: 720,
            fps: 30,
            debug_stats: false,
        })
    );
    let odd = capture_settings_from_widgets(Some("/dev/video2"), None, None, Some("big"), Some("fast"), false).unwrap();
    assert_eq!((odd.width, odd.height, odd.fps), (1920, 1080, 60));
}

#[test]
fn remembered_settings() {
    let settings = CaptureSettings {
        video_device: s("/dev/video2"),
        audio_device: None,
        pixel_format: s("YUYV"),
        width: 1280,
        height: 720,
        fps: 30,
        debug_stats: true,
    };
    let saved = saved_from_settings(&settings);
    assert_eq!(saved.video_device, Some(s("/dev/video2")));
    assert_eq!(saved.audio_device, None);
    assert_eq!(saved.pixel_format, Some(s("YUYV")));
    assert_eq!((saved.width, saved.height, saved.fps), (Some(1280), Some(720), Some(30)));
    let empty = SavedSettings::default();
    assert!(empty.video_device.is_none() && empty.fps.is_none());
}

#[test]
fn status_labels() {
    let u = status_update(&CaptureEvent::PipelineStarted);
    assert!(u.status.is_none());
    let d = u.diagnostic.unwrap();
    assert!(d.visible);
    assert_eq!(d.text, Some(s("Pipeline started. Waiting for video/audio buffers...")));

    let d = status_update(&CaptureEvent::VideoFrame).diagnostic.unwrap();
    assert!(!d.visible);
    assert_eq!(d.text, None);

    let u = status_update(&CaptureEvent::AudioFrame);
    assert!(u.status.is_none() && u.diagnostic.is_none());

    let st = status_update(&CaptureEvent::DebugStats(s("up 1s"))).status.unwrap();
    assert!(st.visible);
    assert_eq!(st.text, Some(s("up 1s")));

    let d = status_update(&CaptureEvent::Error(s("boom"))).diagnostic.unwrap();
    assert_eq!(d.text, Some(s("Capture error:\nboom")));
    let d = status_update(&CaptureEvent::Warning(s("hmm"))).diagnostic.unwrap();
    assert_eq!(d.text, Some(s("Capture warning:\nhmm")));
    let d = status_update(&CaptureEvent::Retrying(s("again"))).diagnostic.unwrap();
    assert_eq!(d.text, Some(s("again")));

    let tail = " buffers arrived after 2 seconds.\nThis usually means the capture device accepted the selected mode but did not start streaming. ShadowCatch will retry the stream automatically.";
    let d = status_update(&CaptureEvent::NoFrames { waiting_for_video: true, waiting_for_audio: true }).diagnostic.unwrap();
    assert_eq!(d.text, Some(format!("The pipeline opened, but no video or audio{tail}")));
    let d = status_update(&CaptureEvent::NoFrames { waiting_for_video: false, waiting_for_audio: true }).diagnostic.unwrap();
    assert_eq!(d.text, Some(format!("The pipeline opened, but no audio{tail}")));
    let d = status_update(&CaptureEvent::NoFrames { waiting_for_video: true, waiting_for_audio: false }).diagnostic.unwrap();
    assert_eq!(d.text, Some(format!("The pipeline opened, but no video{tail}")));
}
