use shadowcatch::devices::{
    audio_backend_rank, dev_path, is_video_capture_node, list_alsa_capture_devices,
    list_audio_devices, list_pulse_sources, list_video_devices, looks_like_shadowcast,
    parse_arecord_line, read_trimmed, AudioBackend, AudioDevice, CommandOutput, VideoDevice,
    VideoNode,
};

fn audio(id: &str, name: &str, backend: AudioBackend, is_shadowcast: bool) -> AudioDevice {
    AudioDevice { id: id.to_string(), name: name.to_string(), backend, is_shadowcast }
}

fn node(file_name: &str, name_file: Option<&str>, is_capture: bool) -> VideoNode {
    VideoNode {
        file_name: file_name.to_string(),
        name_file: name_file.map(|n| n.to_string()),
        is_capture,
    }
}

#[test]
fn shadowcast_names() {
    assert!(looks_like_shadowcast("ShadowCast 3 Pro"));
    assert!(looks_like_shadowcast("GENKI Shadow Cast"));
    assert!(looks_like_shadowcast("usb-S3_Capture"));
    assert!(!looks_like_shadowcast("Integrated Camera"));
    assert!(!looks_like_shadowcast(""));
}

#[test]
fn backend_ranks() {
    assert_eq!(audio_backend_rank(&AudioBackend::Pulse), 0);
    assert_eq!(audio_backend_rank(&AudioBackend::Alsa), 1);
}

#[test]
fn arecord_lines() {
    assert_eq!(
        parse_arecord_line("card 1: S3 [ShadowCast 3], device 0: USB Audio [USB Audio]"),
        Some(audio(
            "alsa:hw:1,0",
            "S3 [ShadowCast 3], device 0: USB Audio [USB Audio] [hw:1,0]",
            AudioBackend::Alsa,
            true,
        ))
    );
    assert_eq!(
        parse_arecord_line("  card 0: PCH [HDA Intel PCH], device 2: ALC257 Alt Analog  "),
        Some(audio(
            "alsa:hw:0,2",
            "PCH [HDA Intel PCH], device 2: ALC257 Alt Analog [hw:0,2]",
            AudioBackend::Alsa,
            false,
        ))
    );
    assert_eq!(parse_arecord_line("**** List of CAPTURE Hardware Devices ****"), None);
    assert_eq!(parse_arecord_line("  Subdevices: 1/1"), None);
    assert_eq!(parse_arecord_line("card 2: Foo [Bar]"), None);
    assert_eq!(parse_arecord_line("card : x, device 1: y"), None);
}

#[test]
fn pulse_listing() {
    let out = CommandOutput::Succeeded(
        "0\talsa_input.usb-ShadowCast\tPipeWire\ts16le 2ch 48000Hz\tSUSPENDED\n5\n3\tmic\n"
            .to_string(),
    );
    assert_eq!(
        list_pulse_sources(&out),
        vec![
            audio(
                "pulse:alsa_input.usb-ShadowCast",
                "alsa_input.usb-ShadowCast (PipeWire)",
                AudioBackend::Pulse,
                true,
            ),
            audio("pulse:mic", "mic ()", AudioBackend::Pulse, false),
        ]
    );
    assert_eq!(list_pulse_sources(&CommandOutput::Failed), vec![]);
    assert_eq!(list_pulse_sources(&CommandOutput::Unavailable), vec![]);
}

#[test]
fn alsa_listing() {
    let out = CommandOutput::Succeeded(
        "**** List of CAPTURE Hardware Devices ****\ncard 1: S3 [S3], device 0: USB Audio [USB Audio]\n  Subdevices: 1/1\n"
            .to_string(),
    );
    assert_eq!(
        list_alsa_capture_devices(&out),
        vec![audio("alsa:hw:1,0", "S3 [S3], device 0: USB Audio [USB Audio] [hw:1,0]", AudioBackend::Alsa, true)]
    );
    assert_eq!(list_alsa_capture_devices(&CommandOutput::Unavailable), vec![]);
}

#[test]
fn audio_order() {
    let pulse = CommandOutput::Succeeded("0\tzeta\tPipeWire\n1\tshadowcast-in\tPipeWire\n2\talpha\tPipeWire\n".to_string());
    let alsa = CommandOutput::Succeeded("card 1: S3 [S3], device 0: USB Audio\ncard 0: PCH [PCH], device 0: ALC\n".to_string());
    let ids: Vec<String> = list_audio_devices(&pulse, &alsa).into_iter().map(|d| d.id).collect();
    assert_eq!(
        ids,
        vec![
            "pulse:shadowcast-in".to_string(),
            "alsa:hw:1,0".to_string(),
            "pulse:alpha".to_string(),
            "pulse:zeta".to_string(),
            "alsa:hw:0,0".to_string(),
        ]
    );
}

#[test]
fn audio_order_keeps_equal_names_in_place() {
    let pulse = CommandOutput::Succeeded("0\tsame\tA\n1\tsame\tA\n".to_string());
    let devices = list_audio_devices(&pulse, &CommandOutput::Failed);
    assert_eq!(devices.len(), 2);
    assert_eq!(devices[0].name, "same (A)");
}

#[test]
fn capture_node_reports() {
    assert!(is_video_capture_node(&CommandOutput::Unavailable));
    assert!(!is_video_capture_node(&CommandOutput::Failed));
    let capture = "Driver Info:\n\tCapabilities : 0x84a00001\n\t\tVideo Capture\n\tDevice Caps : 0x04200001\n\t\tVideo Capture\n\t\tStreaming\n";
    assert!(is_video_capture_node(&CommandOutput::Succeeded(capture.to_string())));
    let metadata = "Driver Info:\n\tCapabilities : 0x84a00001\n\t\tVideo Capture\n\t\tMetadata Capture\n\tDevice Caps : 0x04a00000\n\t\tMetadata Capture\n";
    assert!(!is_video_capture_node(&CommandOutput::Succeeded(metadata.to_string())));
    assert!(is_video_capture_node(&CommandOutput::Succeeded("Video Capture Multiplanar".to_string())));
    assert!(!is_video_capture_node(&CommandOutput::Succeeded("nothing".to_string())));
}

#[test]
fn trimmed_files() {
    assert_eq!(read_trimmed(Some("  ShadowCast 3\n".to_string())), Some("ShadowCast 3".to_string()));
    assert_eq!(read_trimmed(Some(" \n\t".to_string())), None);
    assert_eq!(read_trimmed(None), None);
}

#[test]
fn dev_paths() {
    assert_eq!(dev_path("video2"), Some("/dev/video2".to_string()));
    assert_eq!(dev_path("media0"), None);
    assert_eq!(dev_path("vide"), None);
}

#[test]
fn video_listing() {
    let nodes = vec![
        node("video0", Some("Integrated Camera\n"), true),
        node("video1", Some("ShadowCast 3 Pro\n"), true),
        node("video2", Some("ShadowCast 3 Pro\n"), false),
        node("media0", Some("ShadowCast\n"), true),
        node("video3", Some("   \n"), true),
    ];
    assert_eq!(
        list_video_devices(&nodes),
        vec![
            VideoDevice { path: "/dev/video1".to_string(), name: "ShadowCast 3 Pro".to_string(), is_shadowcast: true },
            VideoDevice { path: "/dev/video0".to_string(), name: "Integrated Camera".to_string(), is_shadowcast: false },
            VideoDevice { path: "/dev/video3".to_string(), name: "video3".to_string(), is_shadowcast: false },
        ]
    );
    assert_eq!(list_video_devices(&[]), vec![]);
}
