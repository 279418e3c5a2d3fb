//! The capture pipeline: its description for GStreamer, the decisions taken
//! while it warms up, and the events it reports.
use vstd::prelude::*;

use crate::text::{
    chars_of, contains, decimal, find_str, is_digit, lemma_decimal_digits, lemma_find_str,
    occurs_at, push_decimal, push_str, push_two_digits, starts_with, str_is, string_from_chars,
};

verus! {

broadcast use vstd::string::group_string_axioms;

/// How many times the pipeline is restarted while no video arrives.
pub const STARTUP_RETRY_LIMIT: usize = 6;

/// Milliseconds between two health checks of a starting pipeline.
pub const STARTUP_RETRY_INTERVAL_MS: u64 = 700;

/// What to capture, and how.
#[derive(Clone, Debug, Eq, PartialEq)]
pub struct CaptureSettings {
    pub video_device: String,
    pub audio_device: Option<String>,
    pub pixel_format: String,
    pub width: u32,
    pub height: u32,
    pub fps: u32,
    pub debug_stats: bool,
}

/// Video device, audio device, pixel format, width, height, frame rate,
/// whether to report statistics.
pub type SettingsView = (Seq<char>, Option<Seq<char>>, Seq<char>, u32, u32, u32, bool);

impl View for CaptureSettings {
    type V = SettingsView;

    open spec fn view(&self) -> SettingsView {
        (
            self.video_device@,
            match self.audio_device {
                Some(a) => Some(a@),
                None => None,
            },
            self.pixel_format@,
            self.width,
            self.height,
            self.fps,
            self.debug_stats,
        )
    }
}

/// What a running capture reports.
#[derive(Clone, Debug, Eq, PartialEq)]
pub enum CaptureEvent {
    PipelineStarted,
    Retrying(String),
    VideoFrame,
    AudioFrame,
    DebugStats(String),
    Warning(String),
    Error(String),
    NoFrames { waiting_for_video: bool, waiting_for_audio: bool },
}

/// A `CaptureEvent` with its texts as character sequences.
pub enum EventView {
    PipelineStarted,
    Retrying(Seq<char>),
    VideoFrame,
    AudioFrame,
    DebugStats(Seq<char>),
    Warning(Seq<char>),
    Error(Seq<char>),
    NoFrames { waiting_for_video: bool, waiting_for_audio: bool },
}

impl View for CaptureEvent {
    type V = EventView;

    open spec fn view(&self) -> EventView {
        match self {
            CaptureEvent::PipelineStarted => EventView::PipelineStarted,
            CaptureEvent::Retrying(m) => EventView::Retrying(m@),
            CaptureEvent::VideoFrame => EventView::VideoFrame,
            CaptureEvent::AudioFrame => EventView::AudioFrame,
            CaptureEvent::DebugStats(m) => EventView::DebugStats(m@),
            CaptureEvent::Warning(m) => EventView::Warning(m@),
            CaptureEvent::Error(m) => EventView::Error(m@),
            CaptureEvent::NoFrames { waiting_for_video, waiting_for_audio } => EventView::NoFrames {
                waiting_for_video: *waiting_for_video,
                waiting_for_audio: *waiting_for_audio,
            },
        }
    }
}

// ---------------------------------------------------------------------------
// Pipeline description
// ---------------------------------------------------------------------------

/// A character as it stands inside a quoted GStreamer value.
pub open spec fn escaped_char(c: char) -> Seq<char> {
    if c == '\\' {
        seq!['\\', '\\']
    } else if c == '"' {
        seq!['\\', '"']
    } else {
        seq![c]
    }
}

/// `s` with each backslash and each double quote escaped by a backslash.
pub open spec fn escaped(s: Seq<char>) -> Seq<char>
    decreases s.len(),
{
    if s.len() == 0 {
        seq![]
    } else {
        escaped(s.drop_last()) + escaped_char(s.last())
    }
}

/// `s` as a quoted GStreamer value.
pub open spec fn quoted(s: Seq<char>) -> Seq<char> {
    seq!['"'] + escaped(s) + seq!['"']
}

fn push_quoted(out: &mut Vec<char>, v: &Vec<char>, from: usize)
    requires
        from <= v.len(),
    ensures
        final(out)@ == old(out)@ + quoted(v@.skip(from as int)),
{
    out.push('"');
    let ghost start = out@;
    let mut i = from;
    while i < v.len()
        invariant
            from <= i <= v.len(),
            out@ == start + escaped(v@.subrange(from as int, i as int)),
        decreases v.len() - i,
    {
        let c = v[i];
        if c == '\\' {
            out.push('\\');
            out.push('\\');
        } else if c == '"' {
            out.push('\\');
            out.push('"');
        } else {
            out.push(c);
        }
        assert(v@.subrange(from as int, i + 1).drop_last() =~= v@.subrange(from as int, i as int));
        i += 1;
        assert(out@ =~= start + escaped(v@.subrange(from as int, i as int)));
    }
    assert(v@.subrange(from as int, v.len() as int) =~= v@.skip(from as int));
    out.push('"');
    assert(final(out)@ =~= old(out)@ + quoted(v@.skip(from as int)));
}

/// `value` quoted for a GStreamer pipeline description, with backslashes and
/// double quotes escaped.
pub fn gst_quote(value: &str) -> (r: String)
    ensures
        r@ == quoted(value@),
{
    let v = chars_of(value);
    let mut out: Vec<char> = Vec::new();
    push_quoted(&mut out, &v, 0);
    assert(v@.skip(0) =~= v@);
    string_from_chars(out.as_slice())
}

/// Whether a pixel format is Motion-JPEG.
pub open spec fn is_mjpeg(pf: Seq<char>) -> bool {
    pf == "MJPG"@ || pf == "MJPEG"@
}

/// The elements that turn the captured frames into raw video.
pub open spec fn decode_chain(pf: Seq<char>) -> Seq<char> {
    if is_mjpeg(pf) {
        "jpegparse ! jpegdec"@
    } else {
        "identity"@
    }
}

fn is_mjpeg_str(pf: &str) -> (r: bool)
    ensures
        r == is_mjpeg(pf@),
{
    str_is(pf, "MJPG") || str_is(pf, "MJPEG")
}

/// The elements that turn frames in `pixel_format` into raw video.
pub fn decode_chain_for(pixel_format: &str) -> (r: &'static str)
    ensures
        r@ == decode_chain(pixel_format@),
{
    if is_mjpeg_str(pixel_format) {
        "jpegparse ! jpegdec"
    } else {
        "identity"
    }
}

/// The caps media type of frames in `pf`.
pub open spec fn media_type(pf: Seq<char>) -> Seq<char> {
    if is_mjpeg(pf) {
        "image/jpeg"@
    } else if pf == "YUYV"@ {
        "video/x-raw,format=YUY2"@
    } else if pf == "BGR3"@ {
        "video/x-raw,format=BGR"@
    } else if pf == "NV12"@ {
        "video/x-raw,format=NV12"@
    } else {
        "video/x-raw,format="@ + pf
    }
}

/// The caps that ask the source for frames as the settings say.
pub open spec fn caps_of(s: SettingsView) -> Seq<char> {
    media_type(s.2) + ",width="@ + decimal(s.3 as nat) + ",height="@ + decimal(s.4 as nat)
        + ",framerate="@ + decimal(s.5 as nat) + "/1"@
}

/// The caps that ask the source for frames as `settings` say.
pub fn video_caps(settings: &CaptureSettings) -> (r: String)
    ensures
        r@ == caps_of(settings@),
{
    let pf = settings.pixel_format.as_str();
    let mut out: Vec<char> = if is_mjpeg_str(pf) {
        chars_of("image/jpeg")
    } else if str_is(pf, "YUYV") {
        chars_of("video/x-raw,format=YUY2")
    } else if str_is(pf, "BGR3") {
        chars_of("video/x-raw,format=BGR")
    } else if str_is(pf, "NV12") {
        chars_of("video/x-raw,format=NV12")
    } else {
        let mut m = chars_of("video/x-raw,format=");
        push_str(&mut m, pf);
        m
    };
    push_str(&mut out, ",width=");
    push_decimal(&mut out, settings.width as u64);
    push_str(&mut out, ",height=");
    push_decimal(&mut out, settings.height as u64);
    push_str(&mut out, ",framerate=");
    push_decimal(&mut out, settings.fps as u64);
    push_str(&mut out, "/1");
    string_from_chars(out.as_slice())
}

/// What follows every audio source: a queue, conversion, the probe that
/// notices the first buffer, and the sink.
pub open spec fn audio_tail() -> Seq<char> {
    "queue max-size-buffers=8 leaky=downstream ! audioconvert ! audioresample ! identity name=audio_probe silent=true ! autoaudiosink sync=false"@
}

/// The audio branch for an audio device id: `pulse:<source>` reads a
/// PipeWire/Pulse source, `alsa:<device>` an ALSA device, anything else the
/// default source.
pub open spec fn audio_branch(id: Seq<char>) -> Seq<char> {
    if starts_with(id, "pulse:"@) {
        "pulsesrc name=audio_source device="@ + quoted(id.skip(6)) + " do-timestamp=true ! "@
            + audio_tail()
    } else if starts_with(id, "alsa:"@) {
        "alsasrc name=audio_source device="@ + quoted(id.skip(5)) + " do-timestamp=true ! "@
            + audio_tail()
    } else {
        "autoaudiosrc name=audio_source ! "@ + audio_tail()
    }
}

/// The audio branch of the pipeline for an audio device id.
pub fn audio_pipeline(audio_device: &str) -> (r: String)
    ensures
        r@ == audio_branch(audio_device@),
{
    proof {
        reveal_strlit("pulse:");
        reveal_strlit("alsa:");
    }
    let v = chars_of(audio_device);
    let pulse = chars_of("pulse:");
    let alsa = chars_of("alsa:");
    assert(v@.skip(0) =~= v@);
    let mut out: Vec<char>;
    if occurs_at(&v, &pulse, 0) {
        out = chars_of("pulsesrc name=audio_source device=");
        push_quoted(&mut out, &v, 6);
        push_str(&mut out, " do-timestamp=true ! ");
    } else if occurs_at(&v, &alsa, 0) {
        out = chars_of("alsasrc name=audio_source device=");
        push_quoted(&mut out, &v, 5);
        push_str(&mut out, " do-timestamp=true ! ");
    } else {
        out = chars_of("autoaudiosrc name=audio_source ! ");
    }
    push_str(
        &mut out,
        "queue max-size-buffers=8 leaky=downstream ! audioconvert ! audioresample ! identity name=audio_probe silent=true ! autoaudiosink sync=false",
    );
    string_from_chars(out.as_slice())
}

/// The GStreamer pipeline for the settings: the video branch, which shows
/// frames in a GTK paintable, then the audio branch where an audio device is
/// chosen.
pub open spec fn pipeline_of(s: SettingsView) -> Seq<char> {
    let video = "v4l2src name=video_source device="@ + quoted(s.0) + " do-timestamp=true ! "@
        + caps_of(s) + " ! queue max-size-buffers=2 leaky=downstream ! "@ + decode_chain(s.2)
        + " ! videoconvert ! identity name=video_probe silent=true ! gtk4paintablesink name=video_sink sync=false"@;
    match s.1 {
        Some(a) => video + " "@ + audio_branch(a),
        None => video,
    }
}

/// The GStreamer pipeline description for `settings`.
pub fn build_pipeline_description(settings: &CaptureSettings) -> (r: String)
    ensures
        r@ == pipeline_of(settings@),
{
    let device = chars_of(settings.video_device.as_str());
    let mut out = chars_of("v4l2src name=video_source device=");
    push_quoted(&mut out, &device, 0);
    assert(device@.skip(0) =~= device@);
    push_str(&mut out, " do-timestamp=true ! ");
    let caps = video_caps(settings);
    push_str(&mut out, caps.as_str());
    push_str(&mut out, " ! queue max-size-buffers=2 leaky=downstream ! ");
    push_str(&mut out, decode_chain_for(settings.pixel_format.as_str()));
    push_str(
        &mut out,
        " ! videoconvert ! identity name=video_probe silent=true ! gtk4paintablesink name=video_sink sync=false",
    );
    match &settings.audio_device {
        Some(a) => {
            push_str(&mut out, " ");
            let audio = audio_pipeline(a.as_str());
            push_str(&mut out, audio.as_str());
        },
        None => {},
    }
    string_from_chars(out.as_slice())
}

// ---------------------------------------------------------------------------
// Warming up
// ---------------------------------------------------------------------------

/// What a health check of a starting pipeline decides.
#[derive(Clone, Copy, Debug, Eq, PartialEq, Structural)]
pub enum HealthAction {
    /// Checking is over: it was cancelled, or every stream delivers.
    Stop,
    /// Check again later.
    Wait,
    /// Report that streams are silent, and check again later.
    ReportNoFrames { waiting_for_video: bool, waiting_for_audio: bool },
    /// Report the restart, restart the pipeline, and check again later.
    Restart { attempt: usize },
}

/// The decision of a health check, and the restart count after it. `retries`
/// counts the checks that found no video so far; `audio_seen` is `None`
/// where the pipeline has no audio.
pub open spec fn health_check(
    retries: usize,
    cancelled: bool,
    video_seen: bool,
    audio_seen: Option<bool>,
) -> (usize, HealthAction) {
    let waiting_for_video = !video_seen;
    let needs_audio = audio_seen is Some;
    let waiting_for_audio = match audio_seen {
        Some(seen) => !seen,
        None => false,
    };
    if cancelled {
        (retries, HealthAction::Stop)
    } else if !waiting_for_video && (!needs_audio || !waiting_for_audio) {
        (retries, HealthAction::Stop)
    } else if waiting_for_video {
        let attempt = (retries + 1) as usize;
        if attempt > STARTUP_RETRY_LIMIT {
            (attempt, HealthAction::ReportNoFrames { waiting_for_video, waiting_for_audio })
        } else {
            (attempt, HealthAction::Restart { attempt })
        }
    } else if needs_audio && waiting_for_audio {
        (retries, HealthAction::ReportNoFrames { waiting_for_video, waiting_for_audio })
    } else {
        (retries, HealthAction::Wait)
    }
}

/// One health check of a starting pipeline: restart it while no video
/// arrives, up to `STARTUP_RETRY_LIMIT` times, then keep reporting what is
/// missing.
pub fn health_check_step(
    retries: usize,
    cancelled: bool,
    video_seen: bool,
    audio_seen: Option<bool>,
) -> (r: (usize, HealthAction))
    requires
        retries < usize::MAX,
    ensures
        r == health_check(retries, cancelled, video_seen, audio_seen),
{
    if cancelled {
        return (retries, HealthAction::Stop);
    }
    let waiting_for_video = !video_seen;
    let needs_audio = audio_seen.is_some();
    let waiting_for_audio = match audio_seen {
        Some(seen) => !seen,
        None => false,
    };
    if !waiting_for_video && (!needs_audio || !waiting_for_audio) {
        return (retries, HealthAction::Stop);
    }
    if waiting_for_video {
        let attempt = retries + 1;
        if attempt > STARTUP_RETRY_LIMIT {
            (attempt, HealthAction::ReportNoFrames { waiting_for_video, waiting_for_audio })
        } else {
            (attempt, HealthAction::Restart { attempt })
        }
    } else if needs_audio && waiting_for_audio {
        (retries, HealthAction::ReportNoFrames { waiting_for_video, waiting_for_audio })
    } else {
        (retries, HealthAction::Wait)
    }
}

/// The message that announces restart number `attempt`.
pub open spec fn retry_text(attempt: nat) -> Seq<char> {
    "Warming up the ShadowCast stream (attempt "@ + decimal(attempt) + "/"@ + decimal(
        STARTUP_RETRY_LIMIT as nat,
    ) + ")."@
}

/// The event that a health decision reports, if any.
pub open spec fn health_report(action: HealthAction) -> Option<EventView> {
    match action {
        HealthAction::Stop => None,
        HealthAction::Wait => None,
        HealthAction::ReportNoFrames { waiting_for_video, waiting_for_audio } => Some(
            EventView::NoFrames { waiting_for_video, waiting_for_audio },
        ),
        HealthAction::Restart { attempt } => Some(EventView::Retrying(retry_text(attempt as nat))),
    }
}

/// The event that a health decision reports, if any.
pub fn health_event(action: &HealthAction) -> (r: Option<CaptureEvent>)
    ensures
        match health_report(*action) {
            None => r is None,
            Some(e) => r matches Some(x) && x@ == e,
        },
{
    match action {
        HealthAction::Stop => None,
        HealthAction::Wait => None,
        HealthAction::ReportNoFrames { waiting_for_video, waiting_for_audio } => Some(
            CaptureEvent::NoFrames {
                waiting_for_video: *waiting_for_video,
                waiting_for_audio: *waiting_for_audio,
            },
        ),
        HealthAction::Restart { attempt } => {
            let mut m = chars_of("Warming up the ShadowCast stream (attempt ");
            push_decimal(&mut m, *attempt as u64);
            push_str(&mut m, "/");
            push_decimal(&mut m, STARTUP_RETRY_LIMIT as u64);
            push_str(&mut m, ").");
            Some(CaptureEvent::Retrying(string_from_chars(m.as_slice())))
        },
    }
}

// ---------------------------------------------------------------------------
// Messages of the pipeline
// ---------------------------------------------------------------------------

/// A stream of the pipeline.
#[derive(Clone, Copy, Debug, Eq, PartialEq, Structural)]
pub enum StreamKind {
    Video,
    Audio,
}

/// The name of the application messages that report first buffers.
pub open spec fn status_structure() -> Seq<char> {
    "shadowcatch-status"@
}

/// The `kind` that the first buffer of a stream is reported with.
pub open spec fn frame_kind(stream: StreamKind) -> Seq<char> {
    match stream {
        StreamKind::Video => "video-frame"@,
        StreamKind::Audio => "audio-frame"@,
    }
}

/// The name of the application messages that report first buffers.
pub fn status_structure_name() -> (r: &'static str)
    ensures
        r@ == status_structure(),
{
    "shadowcatch-status"
}

/// The `kind` that the first buffer of a stream is reported with.
pub fn frame_message_kind(stream: StreamKind) -> (r: &'static str)
    ensures
        r@ == frame_kind(stream),
{
    match stream {
        StreamKind::Video => "video-frame",
        StreamKind::Audio => "audio-frame",
    }
}

/// The event that an application message stands for: a first video or audio
/// buffer.
pub open spec fn status_report(structure_name: Seq<char>, kind: Option<Seq<char>>) -> Option<
    EventView,
> {
    if structure_name != status_structure() {
        None
    } else {
        match kind {
            Some(k) => if k == "video-frame"@ {
                Some(EventView::VideoFrame)
            } else if k == "audio-frame"@ {
                Some(EventView::AudioFrame)
            } else {
                None
            },
            None => None,
        }
    }
}

/// The event that an application message with this structure name and
/// `kind` field (if it has one) stands for.
pub fn status_event(structure_name: &str, kind: Option<&str>) -> (r: Option<CaptureEvent>)
    ensures
        match status_report(
            structure_name@,
            match kind {
                Some(k) => Some(k@),
                None => None,
            },
        ) {
            None => r is None,
            Some(e) => r matches Some(x) && x@ == e,
        },
{
    if !str_is(structure_name, "shadowcatch-status") {
        return None;
    }
    match kind {
        Some(k) => if str_is(k, "video-frame") {
            Some(CaptureEvent::VideoFrame)
        } else if str_is(k, "audio-frame") {
            Some(CaptureEvent::AudioFrame)
        } else {
            None
        },
        None => None,
    }
}

/// The first-buffer report of a stream is read back as that stream's frame
/// event.
pub proof fn lemma_frame_report_round_trip(stream: StreamKind)
    ensures
        status_report(status_structure(), Some(frame_kind(stream))) == Some(
            match stream {
                StreamKind::Video => EventView::VideoFrame,
                StreamKind::Audio => EventView::AudioFrame,
            },
        ),
{
    reveal_strlit("video-frame");
    reveal_strlit("audio-frame");
    if stream == StreamKind::Audio {
        assert("audio-frame"@[0] != "video-frame"@[0]);
    }
}

/// The text of a bus error or warning: its source (`GStreamer` where the
/// message names none), the word `error` or `warning`, the error's text,
/// and the debug details on a line of their own where there are any.
pub open spec fn bus_text(
    source: Option<Seq<char>>,
    word: Seq<char>,
    error: Seq<char>,
    debug: Option<Seq<char>>,
) -> Seq<char> {
    let src = match source {
        Some(s) => s,
        None => "GStreamer"@,
    };
    src + " "@ + word + ": "@ + error + match debug {
        Some(d) => seq!['\n'] + d,
        None => seq![],
    }
}

pub open spec fn opt_view(o: Option<&str>) -> Option<Seq<char>> {
    match o {
        Some(s) => Some(s@),
        None => None,
    }
}

fn bus_message(source: Option<&str>, word: &str, error: &str, debug: Option<&str>) -> (r: String)
    ensures
        r@ == bus_text(opt_view(source), word@, error@, opt_view(debug)),
{
    let mut out = match source {
        Some(s) => chars_of(s),
        None => chars_of("GStreamer"),
    };
    push_str(&mut out, " ");
    push_str(&mut out, word);
    push_str(&mut out, ": ");
    push_str(&mut out, error);
    match debug {
        Some(d) => {
            out.push('\n');
            push_str(&mut out, d);
        },
        None => {},
    }
    proof {
        let src = match opt_view(source) {
            Some(s) => s,
            None => "GStreamer"@,
        };
        assert(out@ =~= bus_text(opt_view(source), word@, error@, opt_view(debug)));
    }
    string_from_chars(out.as_slice())
}

/// The event for an error message on the bus.
pub fn bus_error_event(source: Option<&str>, error: &str, debug: Option<&str>) -> (r: CaptureEvent)
    ensures
        r@ == EventView::Error(bus_text(opt_view(source), "error"@, error@, opt_view(debug))),
{
    CaptureEvent::Error(bus_message(source, "error", error, debug))
}

/// The event for a warning message on the bus.
pub fn bus_warning_event(source: Option<&str>, warning: &str, debug: Option<&str>) -> (r:
    CaptureEvent)
    ensures
        r@ == EventView::Warning(bus_text(opt_view(source), "warning"@, warning@, opt_view(debug))),
{
    CaptureEvent::Warning(bus_message(source, "warning", warning, debug))
}

// ---------------------------------------------------------------------------
// Statistics
// ---------------------------------------------------------------------------

/// Counts of buffers and bytes that went through the sources.
#[derive(Clone, Copy, Debug, Default, Eq, PartialEq, Structural)]
pub struct StatsCounters {
    pub video_buffers: u64,
    pub video_bytes: u64,
    pub audio_buffers: u64,
    pub audio_bytes: u64,
}

/// `a - b`, or 0 where `b` is larger.
pub open spec fn since(a: u64, b: u64) -> u64 {
    if a >= b {
        (a - b) as u64
    } else {
        0
    }
}

/// What went through since the previous reading `last`; counters that went
/// back count as zero.
pub fn counts_since(now: &StatsCounters, last: &StatsCounters) -> (r: StatsCounters)
    ensures
        r.video_buffers == since(now.video_buffers, last.video_buffers),
        r.video_bytes == since(now.video_bytes, last.video_bytes),
        r.audio_buffers == since(now.audio_buffers, last.audio_buffers),
        r.audio_bytes == since(now.audio_bytes, last.audio_bytes),
{
    StatsCounters {
        video_buffers: now.video_buffers.saturating_sub(last.video_buffers),
        video_bytes: now.video_bytes.saturating_sub(last.video_bytes),
        audio_buffers: now.audio_buffers.saturating_sub(last.audio_buffers),
        audio_bytes: now.audio_bytes.saturating_sub(last.audio_bytes),
    }
}

/// All four counters at zero.
pub open spec fn zero_counters() -> StatsCounters {
    StatsCounters { video_buffers: 0, video_bytes: 0, audio_buffers: 0, audio_bytes: 0 }
}

/// What went through between the reading `last` and the reading `now`.
pub open spec fn counts_between(last: StatsCounters, now: StatsCounters) -> StatsCounters {
    StatsCounters {
        video_buffers: since(now.video_buffers, last.video_buffers),
        video_bytes: since(now.video_bytes, last.video_bytes),
        audio_buffers: since(now.audio_buffers, last.audio_buffers),
        audio_bytes: since(now.audio_bytes, last.audio_bytes),
    }
}

/// The once-a-second reading of the statistics: it remembers the previous
/// reading, which is all zero before the first tick.
pub struct StatsTicker {
    pub last: StatsCounters,
}

impl StatsTicker {
    /// A ticker before its first tick.
    pub fn new() -> (t: StatsTicker)
        ensures
            t.last == zero_counters(),
    {
        StatsTicker {
            last: StatsCounters { video_buffers: 0, video_bytes: 0, audio_buffers: 0, audio_bytes: 0 },
        }
    }

    /// One tick: what went through since the previous tick, given the totals
    /// `now`; the totals are remembered for the next tick.
    pub fn tick(&mut self, now: &StatsCounters) -> (r: StatsCounters)
        ensures
            r == counts_between(old(self).last, *now),
            final(self).last == *now,
    {
        let r = counts_since(now, &self.last);
        self.last = *now;
        r
    }
}

/// `line` is the statistics line for the counts `per` of the last second
/// and the totals `now`, where `bitrate` and `bytes` wrote the rates and
/// totals of bytes as the given texts.
pub open spec fn stats_line_with<R: Fn(u64) -> String, B: Fn(u64) -> String>(
    line: Seq<char>,
    uptime_seconds: nat,
    per: StatsCounters,
    now: StatsCounters,
    has_audio: bool,
    bitrate: R,
    bytes: B,
    texts: (String, String, String, String),
) -> bool {
    &&& bitrate.ensures((per.video_bytes,), texts.0)
    &&& bytes.ensures((now.video_bytes,), texts.1)
    &&& has_audio ==> bitrate.ensures((per.audio_bytes,), texts.2) && bytes.ensures(
        (now.audio_bytes,),
        texts.3,
    )
    &&& line == stats_text(
        uptime_seconds,
        (per.video_buffers, texts.0@, texts.1@),
        if has_audio {
            Some((per.audio_buffers, texts.2@, texts.3@))
        } else {
            None
        },
    )
}

/// A statistics line for the counts `per` of the last second and the
/// totals `now`: the buffers counted are written as numbers; the rates and
/// totals of bytes are written as `bitrate` and `bytes` write them.
pub open spec fn stats_line_of<R: Fn(u64) -> String, B: Fn(u64) -> String>(
    line: Seq<char>,
    uptime_seconds: nat,
    per: StatsCounters,
    now: StatsCounters,
    has_audio: bool,
    bitrate: R,
    bytes: B,
) -> bool {
    exists|texts: (String, String, String, String)|
        #[trigger] stats_line_with(line, uptime_seconds, per, now, has_audio, bitrate, bytes, texts)
}

impl StatsTicker {
    /// One tick of the statistics: reads the totals `now`, and gives the
    /// line to report for the second since the previous tick.
    pub fn report_line<R: Fn(u64) -> String, B: Fn(u64) -> String>(
        &mut self,
        now: &StatsCounters,
        uptime_seconds: u64,
        has_audio: bool,
        bitrate: &R,
        bytes: &B,
    ) -> (r: String)
        requires
            forall|n: u64| bitrate.requires((n,)),
            forall|n: u64| bytes.requires((n,)),
        ensures
            final(self).last == *now,
            stats_line_of(
                r@,
                uptime_seconds as nat,
                counts_between(old(self).last, *now),
                *now,
                has_audio,
                *bitrate,
                *bytes,
            ),
    {
        let per = self.tick(now);
        let video = StreamStats {
            per_second: per.video_buffers,
            rate: bitrate(per.video_bytes),
            total: bytes(now.video_bytes),
        };
        if has_audio {
            let audio = StreamStats {
                per_second: per.audio_buffers,
                rate: bitrate(per.audio_bytes),
                total: bytes(now.audio_bytes),
            };
            let r = debug_stats_text(uptime_seconds, &video, Some(&audio));
            assert(stats_line_with(
                r@,
                uptime_seconds as nat,
                per,
                *now,
                has_audio,
                *bitrate,
                *bytes,
                (video.rate, video.total, audio.rate, audio.total),
            ));
            r
        } else {
            let r = debug_stats_text(uptime_seconds, &video, None);
            assert(stats_line_with(
                r@,
                uptime_seconds as nat,
                per,
                *now,
                has_audio,
                *bitrate,
                *bytes,
                (video.rate, video.total, video.rate, video.total),
            ));
            r
        }
    }
}

/// What a ticker that starts from the reading `last` reports at each of the
/// ticks that read `totals`, in order.
pub open spec fn ticker_run(last: StatsCounters, totals: Seq<StatsCounters>) -> Seq<StatsCounters>
    decreases totals.len(),
{
    if totals.len() == 0 {
        seq![]
    } else {
        seq![counts_between(last, totals[0])] + ticker_run(totals[0], totals.drop_first())
    }
}

/// What tick `k` reports: the totals at tick `k` less those at the tick
/// before, or less nothing at the first tick.
pub open spec fn tick_reports(totals: Seq<StatsCounters>) -> Seq<StatsCounters> {
    Seq::new(
        totals.len(),
        |k: int|
            counts_between(
                if k == 0 {
                    zero_counters()
                } else {
                    totals[k - 1]
                },
                totals[k],
            ),
    )
}

/// No counter of `a` is above the same counter of `b`.
pub open spec fn counters_grow(a: StatsCounters, b: StatsCounters) -> bool {
    &&& a.video_buffers <= b.video_buffers
    &&& a.video_bytes <= b.video_bytes
    &&& a.audio_buffers <= b.audio_buffers
    &&& a.audio_bytes <= b.audio_bytes
}

/// The counters of a series of readings only grow.
pub open spec fn readings_grow(totals: Seq<StatsCounters>) -> bool {
    forall|k: int| 0 < k < totals.len() ==> #[trigger] counters_grow(totals[k - 1], totals[k])
}

/// The four counters as integers.
pub open spec fn counts_tuple(c: StatsCounters) -> (int, int, int, int) {
    (c.video_buffers as int, c.video_bytes as int, c.audio_buffers as int, c.audio_bytes as int)
}

/// The counters of a series of reports, summed one by one.
pub open spec fn sum_counts(s: Seq<StatsCounters>) -> (int, int, int, int)
    decreases s.len(),
{
    if s.len() == 0 {
        (0, 0, 0, 0)
    } else {
        let a = sum_counts(s.drop_last());
        let b = counts_tuple(s.last());
        (a.0 + b.0, a.1 + b.1, a.2 + b.2, a.3 + b.3)
    }
}

proof fn lemma_ticker_run_from(last: StatsCounters, totals: Seq<StatsCounters>)
    ensures
        ticker_run(last, totals) == Seq::new(
            totals.len(),
            |k: int|
                counts_between(
                    if k == 0 {
                        last
                    } else {
                        totals[k - 1]
                    },
                    totals[k],
                ),
        ),
    decreases totals.len(),
{
    if totals.len() > 0 {
        lemma_ticker_run_from(totals[0], totals.drop_first());
        assert(ticker_run(last, totals) =~= Seq::new(
            totals.len(),
            |k: int|
                counts_between(
                    if k == 0 {
                        last
                    } else {
                        totals[k - 1]
                    },
                    totals[k],
                ),
        ));
    }
}

/// A ticker made by `new` and ticked once a second reports at tick `k` the
/// totals read then less the totals read at the tick before: the reading it
/// carries from tick to tick is always the previous one.
pub proof fn lemma_ticks_report_differences(totals: Seq<StatsCounters>)
    ensures
        ticker_run(zero_counters(), totals) == tick_reports(totals),
{
    lemma_ticker_run_from(zero_counters(), totals);
    assert(ticker_run(zero_counters(), totals) =~= tick_reports(totals));
}

/// Where the counters only grow, as the probes count them, the reports of
/// the ticks up to tick `k` add up to the totals read at tick `k`: nothing
/// that went through is lost or counted twice.
pub proof fn lemma_ticks_add_up(totals: Seq<StatsCounters>, k: int)
    requires
        readings_grow(totals),
        0 <= k < totals.len(),
    ensures
        sum_counts(tick_reports(totals).take(k + 1)) == counts_tuple(totals[k]),
    decreases k,
{
    let reports = tick_reports(totals);
    let s = reports.take(k + 1);
    assert(s.drop_last() =~= reports.take(k));
    assert(s.last() == reports[k]);
    let a = sum_counts(s.drop_last());
    let b = counts_tuple(reports[k]);
    assert(sum_counts(s) == (a.0 + b.0, a.1 + b.1, a.2 + b.2, a.3 + b.3));
    if k == 0 {
        assert(reports.take(0) =~= Seq::<StatsCounters>::empty());
        assert(reports[0] == counts_between(zero_counters(), totals[0]));
    } else {
        lemma_ticks_add_up(totals, k - 1);
        assert(counters_grow(totals[k - 1], totals[k]));
        assert(reports[k] == counts_between(totals[k - 1], totals[k]));
    }
}

/// `n` in decimal, with a leading zero below ten.
pub open spec fn two_digits(n: nat) -> Seq<char> {
    if n < 10 {
        seq!['0'] + decimal(n)
    } else {
        decimal(n)
    }
}

/// How long the capture has run: `<h>h <mm>m <ss>s`, `<m>m <ss>s` or `<s>s`.
pub open spec fn uptime_text(total_seconds: nat) -> Seq<char> {
    let hours = total_seconds / 3600;
    let minutes = (total_seconds % 3600) / 60;
    let seconds = total_seconds % 60;
    if hours > 0 {
        decimal(hours) + "h "@ + two_digits(minutes) + "m "@ + two_digits(seconds) + "s"@
    } else if minutes > 0 {
        decimal(minutes) + "m "@ + two_digits(seconds) + "s"@
    } else {
        decimal(seconds) + "s"@
    }
}

/// How long the capture has run, for the statistics line.
pub fn format_uptime(total_seconds: u64) -> (r: String)
    ensures
        r@ == uptime_text(total_seconds as nat),
{
    let hours = total_seconds / 3600;
    let minutes = (total_seconds % 3600) / 60;
    let seconds = total_seconds % 60;
    let mut out: Vec<char> = Vec::new();
    if hours > 0 {
        push_decimal(&mut out, hours);
        push_str(&mut out, "h ");
        push_two_digits(&mut out, minutes);
        push_str(&mut out, "m ");
        push_two_digits(&mut out, seconds);
        push_str(&mut out, "s");
    } else if minutes > 0 {
        push_decimal(&mut out, minutes);
        push_str(&mut out, "m ");
        push_two_digits(&mut out, seconds);
        push_str(&mut out, "s");
    } else {
        push_decimal(&mut out, seconds);
        push_str(&mut out, "s");
    }
    string_from_chars(out.as_slice())
}

/// What the statistics line says of one stream: buffers in the last second,
/// and the rate and total as already written out.
pub struct StreamStats {
    pub per_second: u64,
    pub rate: String,
    pub total: String,
}

pub open spec fn stream_text(per_second: u64, unit: Seq<char>, rate: Seq<char>, total: Seq<char>) -> Seq<char> {
    decimal(per_second as nat) + " "@ + unit + ", "@ + rate + ", "@ + total + " total"@
}

/// The statistics line: uptime, then video, then audio where there is any.
pub open spec fn stats_text(
    uptime_seconds: nat,
    video: (u64, Seq<char>, Seq<char>),
    audio: Option<(u64, Seq<char>, Seq<char>)>,
) -> Seq<char> {
    "up "@ + uptime_text(uptime_seconds) + " | video "@ + stream_text(
        video.0,
        "fps"@,
        video.1,
        video.2,
    ) + match audio {
        Some(a) => " | audio "@ + stream_text(a.0, "buf/s"@, a.1, a.2),
        None => seq![],
    }
}

pub open spec fn stream_view(s: StreamStats) -> (u64, Seq<char>, Seq<char>) {
    (s.per_second, s.rate@, s.total@)
}

fn push_stream(out: &mut Vec<char>, s: &StreamStats, unit: &str)
    ensures
        final(out)@ == old(out)@ + stream_text(s.per_second, unit@, s.rate@, s.total@),
{
    push_decimal(out, s.per_second);
    push_str(out, " ");
    push_str(out, unit);
    push_str(out, ", ");
    push_str(out, s.rate.as_str());
    push_str(out, ", ");
    push_str(out, s.total.as_str());
    push_str(out, " total");
    assert(final(out)@ =~= old(out)@ + stream_text(s.per_second, unit@, s.rate@, s.total@));
}

/// The statistics line that is reported once a second.
pub fn debug_stats_text(uptime_seconds: u64, video: &StreamStats, audio: Option<&StreamStats>) -> (r:
    String)
    ensures
        r@ == stats_text(
            uptime_seconds as nat,
            stream_view(*video),
            match audio {
                Some(a) => Some(stream_view(*a)),
                None => None,
            },
        ),
{
    let mut out = chars_of("up ");
    let up = format_uptime(uptime_seconds);
    push_str(&mut out, up.as_str());
    push_str(&mut out, " | video ");
    push_stream(&mut out, video, "fps");
    match audio {
        Some(a) => {
            push_str(&mut out, " | audio ");
            push_stream(&mut out, a, "buf/s");
        },
        None => {},
    }
    string_from_chars(out.as_slice())
}

// ---------------------------------------------------------------------------
// Laws
// ---------------------------------------------------------------------------

/// How GStreamer reads a quoted value: a backslash takes the character after
/// it as it is.
pub open spec fn unescaped(q: Seq<char>) -> Seq<char>
    decreases q.len(),
{
    if q.len() == 0 {
        seq![]
    } else if q[0] == '\\' && q.len() >= 2 {
        seq![q[1]] + unescaped(q.skip(2))
    } else {
        seq![q[0]] + unescaped(q.skip(1))
    }
}

proof fn lemma_escaped_append(a: Seq<char>, b: Seq<char>)
    ensures
        escaped(a + b) == escaped(a) + escaped(b),
    decreases b.len(),
{
    if b.len() == 0 {
        assert(a + b =~= a);
        assert(escaped(a) + escaped(b) =~= escaped(a));
    } else {
        lemma_escaped_append(a, b.drop_last());
        assert((a + b).drop_last() =~= a + b.drop_last());
        assert(escaped(a) + escaped(b) =~= escaped(a) + escaped(b.drop_last()) + escaped_char(
            b.last(),
        ));
    }
}

/// A value quoted for GStreamer reads back as the value: the escaping loses
/// nothing, and no character of the value ends the quotes early.
pub proof fn lemma_quoted_reads_back(s: Seq<char>)
    ensures
        unescaped(escaped(s)) == s,
        quoted(s) == seq!['"'] + escaped(s) + seq!['"'],
    decreases s.len(),
{
    if s.len() > 0 {
        let c = s[0];
        let rest = s.skip(1);
        assert(s =~= seq![c] + rest);
        lemma_escaped_append(seq![c], rest);
        assert(seq![c].drop_last() =~= Seq::<char>::empty());
        assert(seq![c].last() == c);
        assert(escaped(Seq::<char>::empty()) =~= Seq::<char>::empty());
        assert(escaped(seq![c]) =~= escaped_char(c));
        lemma_quoted_reads_back(rest);
        let q = escaped_char(c) + escaped(rest);
        if c == '\\' || c == '"' {
            assert(q.skip(2) =~= escaped(rest));
        } else {
            assert(q.skip(1) =~= escaped(rest));
        }
        assert(unescaped(q) =~= seq![c] + rest);
    }
}

/// Observations of a series of health checks: cancelled, video seen, audio
/// seen (`None` without audio).
pub type HealthObservation = (bool, bool, Option<bool>);

/// How many restarts a series of health checks asks for, starting from
/// `retries` restarts.
pub open spec fn restarts_in(retries: usize, checks: Seq<HealthObservation>) -> nat
    decreases checks.len(),
{
    if checks.len() == 0 {
        0
    } else {
        let c = checks[0];
        let step = health_check(retries, c.0, c.1, c.2);
        (if step.1 is Restart {
            1nat
        } else {
            0nat
        }) + restarts_in(step.0, checks.drop_first())
    }
}

/// However the checks go, a starting pipeline is restarted at most
/// `STARTUP_RETRY_LIMIT` times in all, and each restart is numbered one more
/// than the restarts before it.
pub proof fn lemma_restarts_bounded(retries: usize, checks: Seq<HealthObservation>)
    requires
        retries + checks.len() < usize::MAX,
    ensures
        restarts_in(retries, checks) <= (if retries <= STARTUP_RETRY_LIMIT {
            STARTUP_RETRY_LIMIT - retries
        } else {
            0
        }),
        checks.len() > 0 ==> match health_check(retries, checks[0].0, checks[0].1, checks[0].2) {
            (n, HealthAction::Restart { attempt }) => attempt == retries + 1 && n == attempt
                && attempt <= STARTUP_RETRY_LIMIT,
            (n, _) => retries <= n <= retries + 1,
        },
    decreases checks.len(),
{
    if checks.len() > 0 {
        let c = checks[0];
        let step = health_check(retries, c.0, c.1, c.2);
        lemma_restarts_bounded(step.0, checks.drop_first());
    }
}

/// What a health check observed counts as "every stream delivers, or
/// checking was cancelled": the check then stops.
pub open spec fn check_ends(c: HealthObservation) -> bool {
    c.0 || (c.1 && c.2 != Some(false))
}

/// The events that a run of health checks reports, starting from `retries`
/// restarts, up to the check that stops the run.
pub open spec fn run_reports(retries: usize, checks: Seq<HealthObservation>) -> Seq<EventView>
    decreases checks.len(),
{
    if checks.len() == 0 {
        seq![]
    } else {
        let c = checks[0];
        let step = health_check(retries, c.0, c.1, c.2);
        if step.1 is Stop {
            seq![]
        } else {
            (match health_report(step.1) {
                Some(e) => seq![e],
                None => seq![],
            }) + run_reports(step.0, checks.drop_first())
        }
    }
}

/// The texts of the `Retrying` events among `events`, in order.
pub open spec fn retrying_texts(events: Seq<EventView>) -> Seq<Seq<char>>
    decreases events.len(),
{
    if events.len() == 0 {
        seq![]
    } else {
        (match events[0] {
            EventView::Retrying(t) => seq![t],
            _ => seq![],
        }) + retrying_texts(events.drop_first())
    }
}

/// The warm-up messages of restarts `from + 1` to `from + count`, in order.
pub open spec fn retry_messages(from: nat, count: nat) -> Seq<Seq<char>> {
    Seq::new(count, |k: int| retry_text((from + k + 1) as nat))
}

proof fn lemma_retrying_texts_append(a: Seq<EventView>, b: Seq<EventView>)
    ensures
        retrying_texts(a + b) == retrying_texts(a) + retrying_texts(b),
    decreases a.len(),
{
    if a.len() == 0 {
        assert(a + b =~= b);
        assert(retrying_texts(a) + retrying_texts(b) =~= retrying_texts(b));
    } else {
        assert((a + b).drop_first() =~= a.drop_first() + b);
        lemma_retrying_texts_append(a.drop_first(), b);
        assert(retrying_texts(a + b) =~= retrying_texts(a) + retrying_texts(b));
    }
}

/// The warm-up messages of a run: the run that starts after `retries`
/// restarts reports the messages of restarts `retries + 1`, `retries + 2`,
/// ..., in order and without a gap, never beyond restart
/// `STARTUP_RETRY_LIMIT`; it reports that video is missing only once all
/// `STARTUP_RETRY_LIMIT` restarts are done.
pub proof fn lemma_run_reports(retries: usize, checks: Seq<HealthObservation>)
    requires
        retries + checks.len() < usize::MAX,
        retries <= STARTUP_RETRY_LIMIT,
    ensures
        exists|count: nat|
            #![trigger retry_messages(retries as nat, count)]
            retries + count <= STARTUP_RETRY_LIMIT && retrying_texts(run_reports(retries, checks))
                == retry_messages(retries as nat, count),
        forall|i: int|
            0 <= i < run_reports(retries, checks).len() && (#[trigger] run_reports(
                retries,
                checks,
            )[i] matches EventView::NoFrames { waiting_for_video, .. } && waiting_for_video)
                ==> retries + retrying_texts(run_reports(retries, checks).take(i)).len()
                == STARTUP_RETRY_LIMIT,
    decreases checks.len(),
{
    let r = run_reports(retries, checks);
    if checks.len() == 0 {
        assert(retrying_texts(r) =~= retry_messages(retries as nat, 0));
    } else {
        let c = checks[0];
        let step = health_check(retries, c.0, c.1, c.2);
        if step.1 is Stop {
            assert(retrying_texts(r) =~= retry_messages(retries as nat, 0));
        } else {
            let head: Seq<EventView> = match health_report(step.1) {
                Some(e) => seq![e],
                None => seq![],
            };
            let tail = run_reports(step.0, checks.drop_first());
            assert(r == head + tail);
            lemma_retrying_texts_append(head, tail);
            assert(retrying_texts(Seq::<EventView>::empty()) =~= Seq::<Seq<char>>::empty());
            assert(head.len() > 0 ==> head.drop_first() =~= Seq::<EventView>::empty());
            if step.0 <= STARTUP_RETRY_LIMIT {
                lemma_run_reports(step.0, checks.drop_first());
                let count = choose|count: nat|
                    #![trigger retry_messages(step.0 as nat, count)]
                    step.0 + count <= STARTUP_RETRY_LIMIT && retrying_texts(tail)
                        == retry_messages(step.0 as nat, count);
                if step.1 is Restart {
                    assert(retrying_texts(head) =~= seq![retry_text(step.0 as nat)]);
                    assert(retrying_texts(r) =~= retry_messages(retries as nat, count + 1));
                } else {
                    assert(retrying_texts(head) =~= Seq::<Seq<char>>::empty());
                    assert(step.0 == retries);
                    assert(retrying_texts(r) =~= retry_messages(retries as nat, count));
                }
                assert forall|i: int|
                    0 <= i < r.len() && (#[trigger] r[i] matches EventView::NoFrames {
                        waiting_for_video,
                        ..
                    } && waiting_for_video) implies retries + retrying_texts(r.take(i)).len()
                    == STARTUP_RETRY_LIMIT by {
                    if i >= head.len() {
                        let j = i - head.len();
                        assert(r[i] == tail[j]);
                        assert(r.take(i) =~= head + tail.take(j));
                        lemma_retrying_texts_append(head, tail.take(j));
                    } else {
                        assert(r.take(i) =~= Seq::<EventView>::empty());
                    }
                }
            } else {
                lemma_no_restart_after_limit(step.0, checks.drop_first());
                lemma_no_retrying_texts(tail);
                assert(!(step.1 is Restart));
                assert(retrying_texts(head) =~= Seq::<Seq<char>>::empty());
                assert(retrying_texts(r) =~= retry_messages(retries as nat, 0));
                assert forall|i: int|
                    0 <= i < r.len() && (#[trigger] r[i] matches EventView::NoFrames {
                        waiting_for_video,
                        ..
                    } && waiting_for_video) implies retries + retrying_texts(r.take(i)).len()
                    == STARTUP_RETRY_LIMIT by {
                    if i >= head.len() {
                        let j = i - head.len();
                        assert(r.take(i) =~= head + tail.take(j));
                        lemma_retrying_texts_append(head, tail.take(j));
                        lemma_no_retrying_texts(tail.take(j));
                    } else {
                        assert(r.take(i) =~= Seq::<EventView>::empty());
                    }
                }
            }
        }
    }
}

/// Past the last restart, a run reports no more warm-up messages.
proof fn lemma_no_restart_after_limit(retries: usize, checks: Seq<HealthObservation>)
    requires
        retries + checks.len() < usize::MAX,
        retries > STARTUP_RETRY_LIMIT,
    ensures
        forall|i: int|
            0 <= i < run_reports(retries, checks).len() ==> !(#[trigger] run_reports(
                retries,
                checks,
            )[i] is Retrying),
    decreases checks.len(),
{
    if checks.len() > 0 {
        let c = checks[0];
        let step = health_check(retries, c.0, c.1, c.2);
        if !(step.1 is Stop) {
            lemma_no_restart_after_limit(step.0, checks.drop_first());
            let head: Seq<EventView> = match health_report(step.1) {
                Some(e) => seq![e],
                None => seq![],
            };
            let tail = run_reports(step.0, checks.drop_first());
            assert(run_reports(retries, checks) == head + tail);
            assert forall|i: int| 0 <= i < (head + tail).len() implies !((head + tail)[i] is Retrying) by {
                if i >= head.len() {
                    assert((head + tail)[i] == tail[i - head.len()]);
                }
            }
        }
    }
}

/// Events with no `Retrying` among them have no warm-up texts.
proof fn lemma_no_retrying_texts(events: Seq<EventView>)
    requires
        forall|i: int| 0 <= i < events.len() ==> !(#[trigger] events[i] is Retrying),
    ensures
        retrying_texts(events) == Seq::<Seq<char>>::empty(),
    decreases events.len(),
{
    if events.len() > 0 {
        let rest = events.drop_first();
        assert forall|i: int| 0 <= i < rest.len() implies !(#[trigger] rest[i] is Retrying) by {
            assert(rest[i] == events[i + 1]);
        }
        lemma_no_retrying_texts(rest);
        assert(!(events[0] is Retrying));
        assert(retrying_texts(events) =~= Seq::<Seq<char>>::empty());
    }
}

/// Once a check finds every stream delivering (or checking cancelled), the
/// run reports nothing more: its events are those of the checks before.
pub proof fn lemma_run_ends(retries: usize, checks: Seq<HealthObservation>, i: int)
    requires
        0 <= i < checks.len(),
        check_ends(checks[i]),
    ensures
        run_reports(retries, checks) == run_reports(retries, checks.take(i)),
    decreases i,
{
    let c = checks[0];
    let step = health_check(retries, c.0, c.1, c.2);
    if i == 0 {
        assert(step.1 is Stop);
        assert(checks.take(0) =~= Seq::<HealthObservation>::empty());
    } else if !(step.1 is Stop) {
        assert(checks.take(i).drop_first() =~= checks.drop_first().take(i - 1));
        lemma_run_ends(step.0, checks.drop_first(), i - 1);
    }
}

/// Without an audio device the checks never watch audio: every report of
/// such a run is a warm-up message or a report that video is missing, and
/// none says that audio is missing.
pub proof fn lemma_run_without_audio(retries: usize, checks: Seq<HealthObservation>)
    requires
        retries + checks.len() < usize::MAX,
        forall|i: int| 0 <= i < checks.len() ==> (#[trigger] checks[i]).2 is None,
    ensures
        forall|i: int|
            0 <= i < run_reports(retries, checks).len() ==> match #[trigger] run_reports(
                retries,
                checks,
            )[i] {
                EventView::Retrying(_) => true,
                EventView::NoFrames { waiting_for_video, waiting_for_audio } => waiting_for_video
                    && !waiting_for_audio,
                _ => false,
            },
    decreases checks.len(),
{
    if checks.len() > 0 {
        let c = checks[0];
        let step = health_check(retries, c.0, c.1, c.2);
        if !(step.1 is Stop) {
            let rest = checks.drop_first();
            assert forall|i: int| 0 <= i < rest.len() implies (#[trigger] rest[i]).2 is None by {
                assert(rest[i] == checks[i + 1]);
            }
            lemma_run_without_audio(step.0, rest);
            let head: Seq<EventView> = match health_report(step.1) {
                Some(e) => seq![e],
                None => seq![],
            };
            let tail = run_reports(step.0, rest);
            let r = run_reports(retries, checks);
            assert(r == head + tail);
            assert forall|i: int| 0 <= i < r.len() implies match #[trigger] r[i] {
                EventView::Retrying(_) => true,
                EventView::NoFrames { waiting_for_video, waiting_for_audio } => waiting_for_video
                    && !waiting_for_audio,
                _ => false,
            } by {
                if i >= head.len() {
                    assert(r[i] == tail[i - head.len()]);
                }
            }
        }
    }
}

/// `s` holds no `'|'`.
pub open spec fn no_bar(s: Seq<char>) -> bool {
    forall|i: int| 0 <= i < s.len() ==> s[i] != '|'
}

proof fn lemma_no_bar_concat(a: Seq<char>, b: Seq<char>)
    requires
        no_bar(a),
        no_bar(b),
    ensures
        no_bar(a + b),
{
    assert forall|i: int| 0 <= i < (a + b).len() implies (a + b)[i] != '|' by {
        if i >= a.len() {
            assert((a + b)[i] == b[i - a.len()]);
        }
    }
}

proof fn lemma_decimal_no_bar(n: nat)
    ensures
        no_bar(decimal(n)),
{
    lemma_decimal_digits(n);
    assert forall|i: int| 0 <= i < decimal(n).len() implies decimal(n)[i] != '|' by {
        assert(is_digit(decimal(n)[i]));
    }
}

proof fn lemma_uptime_no_bar(total_seconds: nat)
    ensures
        no_bar(uptime_text(total_seconds)),
{
    reveal_strlit("h ");
    reveal_strlit("m ");
    reveal_strlit("s");
    let hours = total_seconds / 3600;
    let minutes = (total_seconds % 3600) / 60;
    let seconds = total_seconds % 60;
    lemma_decimal_no_bar(hours);
    lemma_decimal_no_bar(minutes);
    lemma_decimal_no_bar(seconds);
    assert(no_bar(seq!['0']));
    lemma_no_bar_concat(seq!['0'], decimal(minutes));
    lemma_no_bar_concat(seq!['0'], decimal(seconds));
    let m = two_digits(minutes);
    let sec = two_digits(seconds);
    assert(no_bar("h "@));
    assert(no_bar("m "@));
    assert(no_bar("s"@));
    lemma_no_bar_concat(decimal(hours), "h "@);
    lemma_no_bar_concat(decimal(hours) + "h "@, m);
    lemma_no_bar_concat(decimal(hours) + "h "@ + m, "m "@);
    lemma_no_bar_concat(decimal(hours) + "h "@ + m + "m "@, sec);
    lemma_no_bar_concat(decimal(hours) + "h "@ + m + "m "@ + sec, "s"@);
    lemma_no_bar_concat(decimal(minutes), "m "@);
    lemma_no_bar_concat(decimal(minutes) + "m "@, sec);
    lemma_no_bar_concat(decimal(minutes) + "m "@ + sec, "s"@);
    lemma_no_bar_concat(decimal(seconds), "s"@);
}

proof fn lemma_stream_no_bar(per_second: u64, unit: Seq<char>, rate: Seq<char>, total: Seq<char>)
    requires
        no_bar(unit),
        no_bar(rate),
        no_bar(total),
    ensures
        no_bar(stream_text(per_second, unit, rate, total)),
{
    reveal_strlit(" ");
    reveal_strlit(", ");
    reveal_strlit(" total");
    assert(no_bar(" "@));
    assert(no_bar(", "@));
    assert(no_bar(" total"@));
    let d = decimal(per_second as nat);
    lemma_decimal_no_bar(per_second as nat);
    lemma_no_bar_concat(d, " "@);
    lemma_no_bar_concat(d + " "@, unit);
    lemma_no_bar_concat(d + " "@ + unit, ", "@);
    lemma_no_bar_concat(d + " "@ + unit + ", "@, rate);
    lemma_no_bar_concat(d + " "@ + unit + ", "@ + rate, ", "@);
    lemma_no_bar_concat(d + " "@ + unit + ", "@ + rate + ", "@, total);
    lemma_no_bar_concat(d + " "@ + unit + ", "@ + rate + ", "@ + total, " total"@);
}

/// Where the rates and totals are written without a `'|'`, as the byte
/// counts of the statistics are, a statistics line has an audio part
/// (`" | audio "`) exactly when audio is counted.
pub proof fn lemma_stats_line_audio_part<R: Fn(u64) -> String, B: Fn(u64) -> String>(
    line: Seq<char>,
    uptime_seconds: nat,
    per: StatsCounters,
    now: StatsCounters,
    has_audio: bool,
    bitrate: R,
    bytes: B,
)
    requires
        stats_line_of(line, uptime_seconds, per, now, has_audio, bitrate, bytes),
        forall|n: u64, t: String| #[trigger] bitrate.ensures((n,), t) ==> no_bar(t@),
        forall|n: u64, t: String| #[trigger] bytes.ensures((n,), t) ==> no_bar(t@),
    ensures
        contains(line, " | audio "@) == has_audio,
{
    reveal_strlit("up ");
    reveal_strlit(" | video ");
    reveal_strlit(" | audio ");
    reveal_strlit("fps");
    reveal_strlit("buf/s");
    let texts = choose|texts: (String, String, String, String)|
        #[trigger] stats_line_with(line, uptime_seconds, per, now, has_audio, bitrate, bytes, texts);
    let x = "up "@ + uptime_text(uptime_seconds);
    let v = " | video "@;
    let a = " | audio "@;
    let y = stream_text(per.video_buffers, "fps"@, texts.0@, texts.1@);
    assert(no_bar("up "@));
    assert(no_bar("fps"@));
    lemma_uptime_no_bar(uptime_seconds);
    lemma_no_bar_concat("up "@, uptime_text(uptime_seconds));
    lemma_stream_no_bar(per.video_buffers, "fps"@, texts.0@, texts.1@);
    lemma_find_str(line, a);
    if has_audio {
        let z = stream_text(per.audio_buffers, "buf/s"@, texts.2@, texts.3@);
        assert(line =~= x + v + y + a + z);
        let q = (x + v + y).len() as int;
        assert(line.skip(q).take(a.len() as int) =~= a);
        assert(starts_with(line.skip(q), a));
    } else {
        assert(line =~= x + v + y);
        let f = find_str(line, a);
        if f >= 0 {
            assert(line.skip(f).take(a.len() as int) == a);
            assert(line[f + 1] == '|') by {
                assert(line.skip(f).take(a.len() as int)[1] == a[1]);
            }
            if f + 1 < x.len() {
                assert(line[f + 1] == x[f + 1]);
            } else if f + 1 >= x.len() + v.len() {
                assert(line[f + 1] == y[f + 1 - x.len() - v.len()]);
            } else {
                let k = f + 1 - x.len();
                assert(line[f + 1] == v[k]);
                assert(k == 1);
                assert(line[f + 3] == v[3]);
                assert(line.skip(f).take(a.len() as int)[3] == a[3]);
            }
        }
    }
}

/// Which elements decode the video: between the queue and `videoconvert`
/// the video branch holds `jpegparse ! jpegdec` exactly for Motion-JPEG
/// (`MJPG` or `MJPEG`) and `identity` for every other pixel format.
pub proof fn lemma_pipeline_decoder(s: SettingsView)
    ensures
        ({
            let head = "v4l2src name=video_source device="@ + quoted(s.0) + " do-timestamp=true ! "@
                + caps_of(s) + " ! queue max-size-buffers=2 leaky=downstream ! "@;
            let rest = " ! videoconvert ! identity name=video_probe silent=true ! gtk4paintablesink name=video_sink sync=false"@;
            &&& (s.2 == "MJPG"@ || s.2 == "MJPEG"@) ==> starts_with(
                pipeline_of(s),
                head + "jpegparse ! jpegdec"@ + rest,
            )
            &&& !(s.2 == "MJPG"@ || s.2 == "MJPEG"@) ==> starts_with(
                pipeline_of(s),
                head + "identity"@ + rest,
            )
        }),
{
    let head = "v4l2src name=video_source device="@ + quoted(s.0) + " do-timestamp=true ! "@
        + caps_of(s) + " ! queue max-size-buffers=2 leaky=downstream ! "@;
    let rest = " ! videoconvert ! identity name=video_probe silent=true ! gtk4paintablesink name=video_sink sync=false"@;
    let chain = if s.2 == "MJPG"@ || s.2 == "MJPEG"@ {
        "jpegparse ! jpegdec"@
    } else {
        "identity"@
    };
    let video = head + chain + rest;
    assert(decode_chain(s.2) == chain);
    let p = pipeline_of(s);
    match s.1 {
        Some(a) => {
            assert(p =~= video + (" "@ + audio_branch(a)));
            assert(p.take(video.len() as int) =~= video);
        },
        None => {
            assert(p =~= video);
            assert(p.take(video.len() as int) =~= video);
        },
    }
}

/// A report that frames are missing says of each stream just what the check
/// saw: video is missing exactly when no video buffer was seen, audio
/// exactly when the pipeline has audio and no audio buffer was seen.
pub proof fn lemma_no_frames_flags(
    retries: usize,
    cancelled: bool,
    video_seen: bool,
    audio_seen: Option<bool>,
)
    ensures
        health_check(retries, cancelled, video_seen, audio_seen).1 matches HealthAction::ReportNoFrames {
            waiting_for_video,
            waiting_for_audio,
        } ==> !cancelled && waiting_for_video == !video_seen && waiting_for_audio == (audio_seen
            == Some(false)) && (waiting_for_video || waiting_for_audio),
{
}

/// The uptime text shows the hours, minutes and seconds that make up the
/// time: `<h>h <mm>m <ss>s` from an hour on, `<m>m <ss>s` from a minute on,
/// `<s>s` below, minutes and seconds with two digits after a larger unit.
pub proof fn lemma_uptime_shows(hours: nat, minutes: nat, seconds: nat)
    requires
        minutes < 60,
        seconds < 60,
    ensures
        ({
            let pad_m = (if minutes < 10 {
                seq!['0']
            } else {
                Seq::<char>::empty()
            }) + decimal(minutes);
            let pad_s = (if seconds < 10 {
                seq!['0']
            } else {
                Seq::<char>::empty()
            }) + decimal(seconds);
            uptime_text(hours * 3600 + minutes * 60 + seconds) == if hours > 0 {
                decimal(hours) + "h "@ + pad_m + "m "@ + pad_s + "s"@
            } else if minutes > 0 {
                decimal(minutes) + "m "@ + pad_s + "s"@
            } else {
                decimal(seconds) + "s"@
            }
        }),
{
    let t = hours * 3600 + minutes * 60 + seconds;
    let within = minutes * 60 + seconds;
    assert(within < 3600) by (nonlinear_arith)
        requires
            minutes < 60,
            seconds < 60,
            within == minutes * 60 + seconds,
    ;
    vstd::arithmetic::div_mod::lemma_fundamental_div_mod_converse(
        t as int,
        3600,
        hours as int,
        within as int,
    );
    vstd::arithmetic::div_mod::lemma_fundamental_div_mod_converse(
        within as int,
        60,
        minutes as int,
        seconds as int,
    );
    assert(t == (hours * 60 + minutes) * 60 + seconds) by (nonlinear_arith)
        requires
            t == hours * 3600 + minutes * 60 + seconds,
    ;
    vstd::arithmetic::div_mod::lemma_fundamental_div_mod_converse(
        t as int,
        60,
        (hours * 60 + minutes) as int,
        seconds as int,
    );
    assert(Seq::<char>::empty() + decimal(minutes) =~= decimal(minutes));
    assert(Seq::<char>::empty() + decimal(seconds) =~= decimal(seconds));
}

} // verus!
