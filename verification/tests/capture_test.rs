use shadowcatch::capture::{
    audio_pipeline, build_pipeline_description, bus_error_event, bus_warning_event, counts_since,
    debug_stats_text, decode_chain_for, format_uptime, frame_message_kind, gst_quote,
    health_check_step, health_event, status_event, status_structure_name, video_caps,
    CaptureEvent, CaptureSettings, HealthAction, StatsCounters, StreamKind, StreamStats,
    STARTUP_RETRY_LIMIT,
};

const AUDIO_TAIL: &str = "queue max-size-buffers=8 leaky=downstream ! audioconvert ! audioresample ! identity name=audio_probe silent=true ! autoaudiosink sync=false";

fn settings(pf: &str, w: u32, h: u32, fps: u32, audio: Option<&str>) -> CaptureSettings {
    CaptureSettings {
        video_device: "/dev/video0".to_string(),
        audio_device: audio.map(|a| a.to_string()),
        pixel_format: pf.to_string(),
        width: w,
        height: h,
        fps,
        debug_stats: false,
    }
}

#[test]
fn quoting() {
    assert_eq!(gst_quote("/dev/video0"), "\"/dev/video0\"");
    assert_eq!(gst_quote(r#"a"b\c"#), r#""a\"b\\c""#);
    assert_eq!(gst_quote(""), "\"\"");
}

#[test]
fn decode_chains() {
    assert_eq!(decode_chain_for("MJPG"), "jpegparse ! jpegdec");
    assert_eq!(decode_chain_for("MJPEG"), "jpegparse ! jpegdec");
    assert_eq!(decode_chain_for("YUYV"), "identity");
}

#[test]
fn caps() {
    assert_eq!(video_caps(&settings("MJPG", 1920, 1080, 60, None)), "image/jpeg,width=1920,height=1080,framerate=60/1");
    assert_eq!(video_caps(&settings("YUYV", 1280, 720, 30, None)), "video/x-raw,format=YUY2,width=1280,height=720,framerate=30/1");
    assert_eq!(video_caps(&settings("BGR3", 640, 480, 5, None)), "video/x-raw,format=BGR,width=640,height=480,framerate=5/1");
    assert_eq!(video_caps(&settings("NV12", 1, 2, 0, None)), "video/x-raw,format=NV12,width=1,height=2,framerate=0/1");
    assert_eq!(video_caps(&settings("GREY", 10, 10, 120, None)), "video/x-raw,format=GREY,width=10,height=10,framerate=120/1");
}

#[test]
fn audio_branches() {
    assert_eq!(audio_pipeline("pulse:alsa_input.x"), format!("pulsesrc name=audio_source device=\"alsa_input.x\" do-timestamp=true ! {AUDIO_TAIL}"));
    assert_eq!(audio_pipeline("alsa:hw:1,0"), format!("alsasrc name=audio_source device=\"hw:1,0\" do-timestamp=true ! {AUDIO_TAIL}"));
    assert_eq!(audio_pipeline("default"), format!("autoaudiosrc name=audio_source ! {AUDIO_TAIL}"));
}

#[test]
fn pipelines() {
    let video = "v4l2src name=video_source device=\"/dev/video0\" do-timestamp=true ! image/jpeg,width=1920,height=1080,framerate=60/1 ! queue max-size-buffers=2 leaky=downstream ! jpegparse ! jpegdec ! videoconvert ! identity name=video_probe silent=true ! gtk4paintablesink name=video_sink sync=false";
    assert_eq!(build_pipeline_description(&settings("MJPG", 1920, 1080, 60, None)), video);
    assert_eq!(
        build_pipeline_description(&settings("MJPG", 1920, 1080, 60, Some("pulse:src"))),
        format!("{video} pulsesrc name=audio_source device=\"src\" do-timestamp=true ! {AUDIO_TAIL}")
    );
}

#[test]
fn health_checks() {
    assert_eq!(STARTUP_RETRY_LIMIT, 6);
    assert_eq!(health_check_step(0, true, false, None), (0, HealthAction::Stop));
    assert_eq!(health_check_step(2, false, true, None), (2, HealthAction::Stop));
    assert_eq!(health_check_step(2, false, true, Some(true)), (2, HealthAction::Stop));
    assert_eq!(health_check_step(0, false, false, None), (1, HealthAction::Restart { attempt: 1 }));
    assert_eq!(health_check_step(5, false, false, Some(true)), (6, HealthAction::Restart { attempt: 6 }));
    assert_eq!(
        health_check_step(6, false, false, Some(false)),
        (7, HealthAction::ReportNoFrames { waiting_for_video: true, waiting_for_audio: true })
    );
    assert_eq!(
        health_check_step(3, false, true, Some(false)),
        (3, HealthAction::ReportNoFrames { waiting_for_video: false, waiting_for_audio: true })
    );
}

#[test]
fn health_events() {
    assert_eq!(health_event(&HealthAction::Stop), None);
    assert_eq!(health_event(&HealthAction::Wait), None);
    assert_eq!(
        health_event(&HealthAction::Restart { attempt: 2 }),
        Some(CaptureEvent::Retrying("Warming up the ShadowCast stream (attempt 2/6).".to_string()))
    );
    assert_eq!(
        health_event(&HealthAction::ReportNoFrames { waiting_for_video: true, waiting_for_audio: false }),
        Some(CaptureEvent::NoFrames { waiting_for_video: true, waiting_for_audio: false })
    );
}

#[test]
fn status_messages() {
    assert_eq!(status_structure_name(), "shadowcatch-status");
    assert_eq!(status_event("shadowcatch-status", Some("video-frame")), Some(CaptureEvent::VideoFrame));
    assert_eq!(status_event("shadowcatch-status", Some("audio-frame")), Some(CaptureEvent::AudioFrame));
    assert_eq!(status_event("shadowcatch-status", Some("other")), None);
    assert_eq!(status_event("shadowcatch-status", None), None);
    assert_eq!(status_event("something-else", Some("video-frame")), None);
    for kind in [StreamKind::Video, StreamKind::Audio] {
        let event = status_event(status_structure_name(), Some(frame_message_kind(kind)));
        let expected = match kind {
            StreamKind::Video => CaptureEvent::VideoFrame,
            StreamKind::Audio => CaptureEvent::AudioFrame,
        };
        assert_eq!(event, Some(expected));
    }
}

#[test]
fn bus_messages() {
    assert_eq!(
        bus_error_event(Some("/GstPipeline:pipeline0/GstV4l2Src:video_source"), "Internal data stream error.", Some("streaming stopped")),
        CaptureEvent::Error("/GstPipeline:pipeline0/GstV4l2Src:video_source error: Internal data stream error.\nstreaming stopped".to_string())
    );
    assert_eq!(bus_warning_event(None, "late", None), CaptureEvent::Warning("GStreamer warning: late".to_string()));
}

#[test]
fn uptimes() {
    assert_eq!(format_uptime(0), "0s");
    assert_eq!(format_uptime(5), "5s");
    assert_eq!(format_uptime(65), "1m 05s");
    assert_eq!(format_uptime(600), "10m 00s");
    assert_eq!(format_uptime(3600), "1h 00m 00s");
    assert_eq!(format_uptime(3725), "1h 02m 05s");
    assert_eq!(format_uptime(90061), "25h 01m 01s");
}

#[test]
fn counters() {
    let last = StatsCounters { video_buffers: 10, video_bytes: 1000, audio_buffers: 5, audio_bytes: 50 };
    let now = StatsCounters { video_buffers: 70, video_bytes: 900, audio_buffers: 5, audio_bytes: 80 };
    assert_eq!(
        counts_since(&now, &last),
        StatsCounters { video_buffers: 60, video_bytes: 0, audio_buffers: 0, audio_bytes: 30 }
    );
}

#[test]
fn stats_lines() {
    let video = StreamStats { per_second: 60, rate: "12.00 Mb/s".to_string(), total: "1.50 GB".to_string() };
    let audio = StreamStats { per_second: 50, rate: "768.0 Kb/s".to_string(), total: "1.0 KB".to_string() };
    assert_eq!(debug_stats_text(65, &video, None), "up 1m 05s | video 60 fps, 12.00 Mb/s, 1.50 GB total");
    assert_eq!(
        debug_stats_text(7, &video, Some(&audio)),
        "up 7s | video 60 fps, 12.00 Mb/s, 1.50 GB total | audio 50 buf/s, 768.0 Kb/s, 1.0 KB total"
    );
}
