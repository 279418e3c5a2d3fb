//! What the settings panel offers and selects, what it remembers, and what
//! the status labels say: the decisions of the window, on plain values.
use vstd::prelude::*;

use crate::capture::{CaptureEvent, CaptureSettings, EventView, SettingsView};
use crate::devices::{AudioBackend, AudioDevice, AudioKey, VideoDevice, VideoKey};
use crate::formats::{
    frame_rates_for, frame_rates_in, resolutions_in, unique_pixel_formats, unique_resolutions,
    CaptureFormat,
};
use crate::order::{key_set, strictly_sorted};
use crate::text::{
    chars_of, chars_equal, decimal, find_char, find_char_in, lemma_parse_decimal, occurs_at,
    parse_u32, parse_u32_chars, push_decimal, push_str, starts_with, str_is,
    string_from_chars,
};

verus! {

broadcast use vstd::string::group_string_axioms;

/// The choices remembered from the last capture.
#[derive(Clone, Debug)]
pub struct SavedSettings {
    pub video_device: Option<String>,
    pub audio_device: Option<String>,
    pub pixel_format: Option<String>,
    pub width: Option<u32>,
    pub height: Option<u32>,
    pub fps: Option<u32>,
}

impl Default for SavedSettings {
    fn default() -> (r: Self)
        ensures
            r.video_device is None,
            r.audio_device is None,
            r.pixel_format is None,
            r.width is None,
            r.height is None,
            r.fps is None,
    {
        SavedSettings {
            video_device: None,
            audio_device: None,
            pixel_format: None,
            width: None,
            height: None,
            fps: None,
        }
    }
}

pub open spec fn opt_text(o: Option<String>) -> Option<Seq<char>> {
    match o {
        Some(s) => Some(s@),
        None => None,
    }
}

pub open spec fn opt_str(o: Option<&str>) -> Option<Seq<char>> {
    match o {
        Some(s) => Some(s@),
        None => None,
    }
}

fn copy_opt(o: &Option<String>) -> (r: Option<String>)
    ensures
        opt_text(r) == opt_text(*o),
{
    match o {
        Some(s) => Some(s.clone()),
        None => None,
    }
}

/// What is remembered of the settings that a capture started with.
pub fn saved_from_settings(settings: &CaptureSettings) -> (r: SavedSettings)
    ensures
        opt_text(r.video_device) == Some(settings.video_device@),
        opt_text(r.audio_device) == opt_text(settings.audio_device),
        opt_text(r.pixel_format) == Some(settings.pixel_format@),
        r.width == Some(settings.width),
        r.height == Some(settings.height),
        r.fps == Some(settings.fps),
{
    SavedSettings {
        video_device: Some(settings.video_device.clone()),
        audio_device: copy_opt(&settings.audio_device),
        pixel_format: Some(settings.pixel_format.clone()),
        width: Some(settings.width),
        height: Some(settings.height),
        fps: Some(settings.fps),
    }
}

// ---------------------------------------------------------------------------
// Selecting among choices
// ---------------------------------------------------------------------------

/// The choice selected when `wanted` is asked for among `ids`: `wanted`
/// where it is offered, else the first choice, else none.
pub open spec fn select_id(ids: Seq<Seq<char>>, wanted: Seq<char>) -> Option<Seq<char>> {
    if ids.contains(wanted) {
        Some(wanted)
    } else if ids.len() > 0 {
        Some(ids[0])
    } else {
        None
    }
}

pub open spec fn texts_of(v: Seq<String>) -> Seq<Seq<char>> {
    v.map_values(|s: String| s@)
}

pub open spec fn pairs_of(v: Seq<(String, String)>) -> Seq<(Seq<char>, Seq<char>)> {
    v.map_values(|p: (String, String)| (p.0@, p.1@))
}

pub open spec fn firsts(v: Seq<(Seq<char>, Seq<char>)>) -> Seq<Seq<char>> {
    v.map_values(|p: (Seq<char>, Seq<char>)| p.0)
}

fn position_of(ids: &Vec<String>, wanted: &Vec<char>) -> (r: Option<usize>)
    ensures
        match r {
            None => !texts_of(ids@).contains(wanted@),
            Some(i) => i < ids@.len() && ids@[i as int]@ == wanted@,
        },
{
    let mut i: usize = 0;
    while i < ids.len()
        invariant
            i <= ids.len(),
            forall|j: int| 0 <= j < i ==> ids@[j]@ != wanted@,
        decreases ids.len() - i,
    {
        let c = chars_of(ids[i].as_str());
        if chars_equal(&c, wanted) {
            return Some(i);
        }
        i += 1;
    }
    proof {
        if texts_of(ids@).contains(wanted@) {
            let j = choose|j: int| 0 <= j < texts_of(ids@).len() && texts_of(ids@)[j] == wanted@;
            assert(ids@[j]@ == wanted@);
        }
    }
    None
}

fn select_among(ids: &Vec<String>, wanted: &Vec<char>) -> (r: Option<String>)
    ensures
        opt_text(r) == select_id(texts_of(ids@), wanted@),
{
    match position_of(ids, wanted) {
        Some(i) => {
            assert(texts_of(ids@)[i as int] == wanted@);
            Some(ids[i].clone())
        },
        None => if ids.len() > 0 {
            Some(ids[0].clone())
        } else {
            None
        },
    }
}

fn ids_of(entries: &Vec<(String, String)>) -> (r: Vec<String>)
    ensures
        texts_of(r@) == firsts(pairs_of(entries@)),
{
    let mut r: Vec<String> = Vec::new();
    let mut i: usize = 0;
    while i < entries.len()
        invariant
            i <= entries.len(),
            r@.len() == i,
            forall|j: int| 0 <= j < i ==> #[trigger] r@[j]@ == entries@[j].0@,
        decreases entries.len() - i,
    {
        r.push(entries[i].0.clone());
        i += 1;
    }
    assert(texts_of(r@) =~= firsts(pairs_of(entries@)));
    r
}

// ---------------------------------------------------------------------------
// Video device
// ---------------------------------------------------------------------------

pub open spec fn has_path(d: Seq<VideoKey>, p: Seq<char>) -> bool {
    exists|i: int| 0 <= i < d.len() && d[i].0 == p
}

/// The first device that looks like a ShadowCast.
pub open spec fn first_shadowcast_video(d: Seq<VideoKey>) -> Option<VideoKey>
    decreases d.len(),
{
    if d.len() == 0 {
        None
    } else if d[0].2 {
        Some(d[0])
    } else {
        first_shadowcast_video(d.drop_first())
    }
}

/// The video device to start with: the remembered one where it is still
/// there, else the first ShadowCast, else the first device, else
/// `/dev/video0`.
pub open spec fn preferred_video(d: Seq<VideoKey>, saved: Option<Seq<char>>) -> Seq<char> {
    match saved {
        Some(s) => if has_path(d, s) {
            s
        } else {
            fallback_video(d)
        },
        None => fallback_video(d),
    }
}

/// The video device to start with when none is remembered.
pub open spec fn fallback_video(d: Seq<VideoKey>) -> Seq<char> {
    match first_shadowcast_video(d) {
        Some(v) => v.0,
        None => if d.len() > 0 {
            d[0].0
        } else {
            "/dev/video0"@
        },
    }
}

pub open spec fn video_keys(devices: Seq<VideoDevice>) -> Seq<VideoKey> {
    devices.map_values(|d: VideoDevice| d@)
}

/// The video device to start with.
pub fn preferred_video_device(devices: &[VideoDevice], saved: &SavedSettings) -> (r: String)
    ensures
        r@ == preferred_video(video_keys(devices@), opt_text(saved.video_device)),
{
    let ghost d = video_keys(devices@);
    let ghost saved_path = opt_text(saved.video_device);
    if let Some(saved_device) = &saved.video_device {
        let wanted = chars_of(saved_device.as_str());
        let mut i: usize = 0;
        while i < devices.len()
            invariant
                i <= devices.len(),
                d == video_keys(devices@),
                wanted@ == saved_device@,
                saved_path == Some(saved_device@),
                saved_path == opt_text(saved.video_device),
                forall|j: int| 0 <= j < i ==> d[j].0 != wanted@,
            decreases devices.len() - i,
        {
            let p = chars_of(devices[i].path.as_str());
            if chars_equal(&p, &wanted) {
                assert(d[i as int].0 == wanted@);
                assert(has_path(d, wanted@));
                return saved_device.clone();
            }
            i += 1;
        }
    }
    assert(preferred_video(d, saved_path) == fallback_video(d));
    let mut i: usize = 0;
    assert(d.skip(0) =~= d);
    while i < devices.len()
        invariant
            i <= devices.len(),
            d == video_keys(devices@),
            preferred_video(d, saved_path) == fallback_video(d),
            saved_path == opt_text(saved.video_device),
            first_shadowcast_video(d) == first_shadowcast_video(d.skip(i as int)),
        decreases devices.len() - i,
    {
        if devices[i].is_shadowcast {
            assert(d.skip(i as int)[0] == d[i as int]);
            assert(d[i as int] == devices@[i as int]@);
            return devices[i].path.clone();
        }
        assert(d.skip(i as int).drop_first() =~= d.skip(i + 1));
        i += 1;
    }
    if devices.len() > 0 {
        devices[0].path.clone()
    } else {
        "/dev/video0".to_string()
    }
}

/// How a video device is offered: its path, then a label with its path,
/// name and kind.
pub open spec fn video_entry(v: VideoKey) -> (Seq<char>, Seq<char>) {
    (
        v.0,
        v.0 + " - "@ + v.1 + " ("@ + (if v.2 {
            "ShadowCast"@
        } else {
            "V4L2"@
        }) + ")"@,
    )
}

/// The video choices: one per device, or `/dev/video0` where there is none.
pub open spec fn video_entries(d: Seq<VideoKey>) -> Seq<(Seq<char>, Seq<char>)> {
    if d.len() == 0 {
        seq![("/dev/video0"@, "/dev/video0 (fallback)"@)]
    } else {
        d.map_values(|v: VideoKey| video_entry(v))
    }
}

/// The video device choices (id and label), and the one selected when
/// `selected` is asked for.
pub fn video_device_choices(devices: &[VideoDevice], selected: &str) -> (r: (
    Vec<(String, String)>,
    String,
))
    ensures
        pairs_of(r.0@) == video_entries(video_keys(devices@)),
        Some(r.1@) == select_id(firsts(video_entries(video_keys(devices@))), selected@),
{
    let ghost d = video_keys(devices@);
    let mut entries: Vec<(String, String)> = Vec::new();
    if devices.len() == 0 {
        entries.push(("/dev/video0".to_string(), "/dev/video0 (fallback)".to_string()));
        assert(pairs_of(entries@) =~= video_entries(d));
    } else {
        let mut i: usize = 0;
        while i < devices.len()
            invariant
                i <= devices.len(),
                d == video_keys(devices@),
                entries@.len() == i,
                forall|j: int|
                    0 <= j < i ==> (#[trigger] entries@[j].0@, entries@[j].1@) == video_entry(d[j]),
            decreases devices.len() - i,
        {
            let dev = &devices[i];
            let mut label = chars_of(dev.path.as_str());
            push_str(&mut label, " - ");
            push_str(&mut label, dev.name.as_str());
            push_str(&mut label, " (");
            if dev.is_shadowcast {
                push_str(&mut label, "ShadowCast");
            } else {
                push_str(&mut label, "V4L2");
            }
            push_str(&mut label, ")");
            assert(label@ == video_entry(d[i as int]).1);
            entries.push((dev.path.clone(), string_from_chars(label.as_slice())));
            i += 1;
        }
        assert(pairs_of(entries@) =~= video_entries(d));
    }
    let ids = ids_of(&entries);
    let wanted = chars_of(selected);
    let active = select_among(&ids, &wanted);
    let active = match active {
        Some(a) => a,
        None => {
            assert(texts_of(ids@).len() > 0);
            "/dev/video0".to_string()
        },
    };
    (entries, active)
}

// ---------------------------------------------------------------------------
// Audio device
// ---------------------------------------------------------------------------

pub open spec fn audio_keys(devices: Seq<AudioDevice>) -> Seq<AudioKey> {
    devices.map_values(|d: AudioDevice| d@)
}

/// The audio choices: no audio, then one per source.
pub open spec fn audio_entries(d: Seq<AudioKey>) -> Seq<(Seq<char>, Seq<char>)> {
    seq![("none"@, "No audio"@)] + d.map_values(|a: AudioKey| (a.0, a.1))
}

/// The first source that is a ShadowCast, and a PipeWire/Pulse one where
/// `pulse_only`.
pub open spec fn first_shadowcast_audio(d: Seq<AudioKey>, pulse_only: bool) -> Option<AudioKey>
    decreases d.len(),
{
    if d.len() == 0 {
        None
    } else if d[0].3 && (!pulse_only || d[0].2 == AudioBackend::Pulse) {
        Some(d[0])
    } else {
        first_shadowcast_audio(d.drop_first(), pulse_only)
    }
}

/// The audio choice selected: the ShadowCast's PipeWire/Pulse source, else
/// the remembered choice where it is offered, else any ShadowCast source,
/// else no audio.
pub open spec fn preferred_audio(d: Seq<AudioKey>, saved: Option<Seq<char>>) -> Seq<char> {
    match first_shadowcast_audio(d, true) {
        Some(a) => a.0,
        None => if saved matches Some(s) && firsts(audio_entries(d)).contains(s) {
            saved->0
        } else {
            match first_shadowcast_audio(d, false) {
                Some(a) => a.0,
                None => "none"@,
            }
        },
    }
}

fn first_shadowcast_audio_at(devices: &[AudioDevice], pulse_only: bool) -> (r: Option<usize>)
    ensures
        match first_shadowcast_audio(audio_keys(devices@), pulse_only) {
            None => r is None,
            Some(a) => r matches Some(i) && i < devices@.len() && devices@[i as int]@ == a,
        },
{
    let ghost d = audio_keys(devices@);
    let mut i: usize = 0;
    assert(d.skip(0) =~= d);
    while i < devices.len()
        invariant
            i <= devices.len(),
            d == audio_keys(devices@),
            first_shadowcast_audio(d, pulse_only) == first_shadowcast_audio(
                d.skip(i as int),
                pulse_only,
            ),
        decreases devices.len() - i,
    {
        let dev = &devices[i];
        if dev.is_shadowcast && (!pulse_only || dev.backend == AudioBackend::Pulse) {
            return Some(i);
        }
        assert(d.skip(i as int).drop_first() =~= d.skip(i + 1));
        i += 1;
    }
    None
}

/// The audio choices (id and label), and the one selected when `selected`
/// was remembered.
pub fn audio_device_choices(devices: &[AudioDevice], selected: Option<&str>) -> (r: (
    Vec<(String, String)>,
    String,
))
    ensures
        pairs_of(r.0@) == audio_entries(audio_keys(devices@)),
        r.1@ == preferred_audio(audio_keys(devices@), opt_str(selected)),
{
    let ghost d = audio_keys(devices@);
    let mut entries: Vec<(String, String)> = Vec::new();
    entries.push(("none".to_string(), "No audio".to_string()));
    let mut i: usize = 0;
    while i < devices.len()
        invariant
            i <= devices.len(),
            d == audio_keys(devices@),
            entries@.len() == i + 1,
            entries@[0].0@ == "none"@,
            entries@[0].1@ == "No audio"@,
            forall|j: int|
                0 <= j < i ==> (#[trigger] entries@[j + 1].0@, entries@[j + 1].1@) == (
                    d[j].0,
                    d[j].1,
                ),
        decreases devices.len() - i,
    {
        entries.push((devices[i].id.clone(), devices[i].name.clone()));
        i += 1;
    }
    assert(pairs_of(entries@) =~= audio_entries(d)) by {
        assert forall|j: int| 0 <= j < entries@.len() implies pairs_of(entries@)[j]
            == audio_entries(d)[j] by {
            if j > 0 {
                assert((entries@[(j - 1) + 1].0@, entries@[(j - 1) + 1].1@) == (
                    d[j - 1].0,
                    d[j - 1].1,
                ));
            }
        }
    }
    if let Some(k) = first_shadowcast_audio_at(devices, true) {
        return (entries, devices[k].id.clone());
    }
    if let Some(s) = selected {
        let ids = ids_of(&entries);
        let wanted = chars_of(s);
        if let Some(k) = position_of(&ids, &wanted) {
            assert(firsts(audio_entries(d)).contains(s@)) by {
                assert(firsts(audio_entries(d))[k as int] == s@);
            }
            return (entries, s.to_string());
        }
    }
    if let Some(k) = first_shadowcast_audio_at(devices, false) {
        return (entries, devices[k].id.clone());
    }
    (entries, "none".to_string())
}

// ---------------------------------------------------------------------------
// Pixel format, frame size, frame rate
// ---------------------------------------------------------------------------

/// The frame size that a choice id `<width>x<height>` stands for.
pub open spec fn resolution_of(id: Seq<char>) -> Option<(u32, u32)> {
    let i = find_char(id, 'x');
    if i < 0 {
        None
    } else {
        match (parse_u32(id.take(i)), parse_u32(id.skip(i + 1))) {
            (Some(w), Some(h)) => Some((w, h)),
            _ => None,
        }
    }
}

/// The choice id of a frame size.
pub open spec fn resolution_id(size: (u32, u32)) -> Seq<char> {
    decimal(size.0 as nat) + seq!['x'] + decimal(size.1 as nat)
}

/// The frame size of the selected choice, if a choice is selected and reads
/// as `<width>x<height>`.
pub fn selected_resolution(active: Option<&str>) -> (r: Option<(u32, u32)>)
    ensures
        r == match opt_str(active) {
            Some(id) => resolution_of(id),
            None => None,
        },
{
    let id = match active {
        Some(id) => chars_of(id),
        None => return None,
    };
    assert(id@.subrange(0, id.len() as int) =~= id@);
    match find_char_in(&id, 'x', 0, id.len()) {
        None => None,
        Some(i) => {
            assert(id@.take(i as int) =~= id@.subrange(0, i as int));
            assert(id@.skip(i + 1) =~= id@.subrange(i + 1, id.len() as int));
            match (parse_u32_chars(&id, 0, i), parse_u32_chars(&id, i + 1, id.len())) {
                (Some(w), Some(h)) => Some((w, h)),
                _ => None,
            }
        },
    }
}

/// A frame size's choice id reads back as that frame size.
pub proof fn lemma_resolution_id_round_trip(size: (u32, u32))
    ensures
        resolution_of(resolution_id(size)) == Some(size),
{
    let id = resolution_id(size);
    let w = decimal(size.0 as nat);
    crate::text::lemma_find_char(id, 'x');
    lemma_decimal_has_no_x(size.0 as nat);
    assert(id[w.len() as int] == 'x');
    let i = find_char(id, 'x');
    if i < w.len() {
        assert(id[i] == w[i]);
    }
    assert(i == w.len());
    assert(id.take(i) =~= w);
    assert(id.skip(i + 1) =~= decimal(size.1 as nat));
    lemma_parse_decimal(size.0 as nat);
    lemma_parse_decimal(size.1 as nat);
}

proof fn lemma_decimal_has_no_x(n: nat)
    ensures
        forall|i: int| 0 <= i < decimal(n).len() ==> #[trigger] decimal(n)[i] != 'x',
    decreases n,
{
    if n >= 10 {
        lemma_decimal_has_no_x(n / 10);
        let d = decimal(n);
        assert forall|i: int| 0 <= i < d.len() implies #[trigger] d[i] != 'x' by {
            if i < d.len() - 1 {
                assert(d[i] == decimal(n / 10)[i]);
            }
        }
    }
}

/// The pixel format choices and the one selected: the remembered format,
/// else MJPG, where offered.
pub fn pixel_format_choices(formats: &[CaptureFormat], saved: Option<&str>) -> (r: (
    Vec<String>,
    Option<String>,
))
    ensures
        strictly_sorted(r.0@),
        key_set(r.0@) == crate::formats::pixel_formats_in(formats@),
        opt_text(r.1) == select_id(
            texts_of(r.0@),
            match opt_str(saved) {
                Some(p) => p,
                None => "MJPG"@,
            },
        ),
{
    let ids = unique_pixel_formats(formats);
    let wanted = match saved {
        Some(p) => chars_of(p),
        None => chars_of("MJPG"),
    };
    let active = select_among(&ids, &wanted);
    (ids, active)
}

pub open spec fn resolution_ids(sizes: Seq<(u32, u32)>) -> Seq<Seq<char>> {
    sizes.map_values(|s: (u32, u32)| resolution_id(s))
}

/// The frame size that is asked for: the remembered one, else 1920x1080.
pub open spec fn wanted_resolution(width: Option<u32>, height: Option<u32>) -> Seq<char> {
    match (width, height) {
        (Some(w), Some(h)) => resolution_id((w, h)),
        _ => "1920x1080"@,
    }
}

fn push_resolution_id(out: &mut Vec<char>, w: u32, h: u32)
    ensures
        final(out)@ == old(out)@ + resolution_id((w, h)),
{
    push_decimal(out, w as u64);
    out.push('x');
    push_decimal(out, h as u64);
    assert(final(out)@ =~= old(out)@ + resolution_id((w, h)));
}

/// The frame size choices of the selected pixel format (MJPG where none is
/// selected), in order, and the one selected.
pub fn resolution_choices(
    formats: &[CaptureFormat],
    active_format: Option<&str>,
    saved_width: Option<u32>,
    saved_height: Option<u32>,
) -> (r: (Vec<String>, Option<String>))
    ensures
        exists|sizes: Seq<(u32, u32)>|
            #![trigger key_set(sizes)]
            {
                &&& strictly_sorted(sizes)
                &&& key_set(sizes) == resolutions_in(
                    formats@,
                    match opt_str(active_format) {
                        Some(p) => p,
                        None => "MJPG"@,
                    },
                )
                &&& texts_of(r.0@) == resolution_ids(sizes)
            },
        opt_text(r.1) == select_id(texts_of(r.0@), wanted_resolution(saved_width, saved_height)),
{
    let sizes = match active_format {
        Some(p) => unique_resolutions(formats, p),
        None => unique_resolutions(formats, "MJPG"),
    };
    let mut ids: Vec<String> = Vec::new();
    let mut i: usize = 0;
    while i < sizes.len()
        invariant
            i <= sizes.len(),
            ids@.len() == i,
            forall|j: int| 0 <= j < i ==> #[trigger] ids@[j]@ == resolution_id(sizes@[j]),
        decreases sizes.len() - i,
    {
        let (w, h) = sizes[i];
        let mut id: Vec<char> = Vec::new();
        push_resolution_id(&mut id, w, h);
        assert(id@ =~= resolution_id((w, h)));
        ids.push(string_from_chars(id.as_slice()));
        i += 1;
    }
    assert(texts_of(ids@) =~= resolution_ids(sizes@));
    let wanted = match (saved_width, saved_height) {
        (Some(w), Some(h)) => {
            let mut v: Vec<char> = Vec::new();
            push_resolution_id(&mut v, w, h);
            assert(v@ =~= resolution_id((w, h)));
            v
        },
        _ => chars_of("1920x1080"),
    };
    let active = select_among(&ids, &wanted);
    (ids, active)
}

/// A frame rate's choice id and label, `<fps>` and `<fps> fps`.
pub open spec fn rate_entry(fps: u32) -> (Seq<char>, Seq<char>) {
    (decimal(fps as nat), decimal(fps as nat) + " fps"@)
}

/// The frame rate choices of the selected pixel format and frame size
/// (MJPG and 1920x1080 where none is selected or it does not read as a
/// size), in increasing order, and the one selected: the remembered rate,
/// else 60.
pub fn frame_rate_choices(
    formats: &[CaptureFormat],
    active_format: Option<&str>,
    active_resolution: Option<&str>,
    saved_fps: Option<u32>,
) -> (r: (Vec<(String, String)>, Option<String>))
    ensures
        exists|rates: Seq<u32>|
            #![trigger key_set(rates)]
            {
                let size = match selected_size(opt_str(active_resolution)) {
                    Some(s) => s,
                    None => (1920u32, 1080u32),
                };
                &&& strictly_sorted(rates)
                &&& key_set(rates) == frame_rates_in(
                    formats@,
                    match opt_str(active_format) {
                        Some(p) => p,
                        None => "MJPG"@,
                    },
                    size.0,
                    size.1,
                )
                &&& pairs_of(r.0@) == rates.map_values(|f: u32| rate_entry(f))
            },
        opt_text(r.1) == select_id(
            firsts(pairs_of(r.0@)),
            decimal(
                match saved_fps {
                    Some(f) => f,
                    None => 60u32,
                } as nat,
            ),
        ),
{
    let (w, h) = match selected_resolution(active_resolution) {
        Some(size) => size,
        None => (1920, 1080),
    };
    let rates = match active_format {
        Some(p) => frame_rates_for(formats, p, w, h),
        None => frame_rates_for(formats, "MJPG", w, h),
    };
    let mut entries: Vec<(String, String)> = Vec::new();
    let mut i: usize = 0;
    while i < rates.len()
        invariant
            i <= rates.len(),
            entries@.len() == i,
            forall|j: int|
                0 <= j < i ==> (#[trigger] entries@[j].0@, entries@[j].1@) == rate_entry(rates@[j]),
        decreases rates.len() - i,
    {
        let f = rates[i];
        let mut id: Vec<char> = Vec::new();
        push_decimal(&mut id, f as u64);
        let mut label = id.clone();
        push_str(&mut label, " fps");
        entries.push((string_from_chars(id.as_slice()), string_from_chars(label.as_slice())));
        i += 1;
    }
    assert(pairs_of(entries@) =~= rates@.map_values(|f: u32| rate_entry(f)));
    let ids = ids_of(&entries);
    let mut wanted: Vec<char> = Vec::new();
    match saved_fps {
        Some(f) => push_decimal(&mut wanted, f as u64),
        None => push_decimal(&mut wanted, 60),
    }
    assert(wanted@ =~= decimal(
        match saved_fps {
            Some(f) => f,
            None => 60u32,
        } as nat,
    ));
    let active = select_among(&ids, &wanted);
    (entries, active)
}

/// The frame size that a selected choice stands for, as `selected_resolution`
/// reads it.
pub open spec fn selected_size(active: Option<Seq<char>>) -> Option<(u32, u32)> {
    match active {
        Some(id) => resolution_of(id),
        None => None,
    }
}

/// The capture settings that the selected choices stand for: none without a
/// video device; no audio where `none` is selected; MJPG, 1920x1080 and 60
/// frames per second where the format, size or rate is missing or does not
/// read as one.
pub open spec fn settings_of(
    video: Option<Seq<char>>,
    audio: Option<Seq<char>>,
    format: Option<Seq<char>>,
    resolution: Option<Seq<char>>,
    fps: Option<Seq<char>>,
    debug_stats: bool,
) -> Option<SettingsView> {
    match video {
        None => None,
        Some(v) => {
            let size = match selected_size(resolution) {
                Some(s) => s,
                None => (1920u32, 1080u32),
            };
            Some(
                (
                    v,
                    match audio {
                        Some(a) => if a == "none"@ {
                            None
                        } else {
                            Some(a)
                        },
                        None => None,
                    },
                    match format {
                        Some(f) => f,
                        None => "MJPG"@,
                    },
                    size.0,
                    size.1,
                    match fps {
                        Some(f) => match parse_u32(f) {
                            Some(n) => n,
                            None => 60u32,
                        },
                        None => 60u32,
                    },
                    debug_stats,
                ),
            )
        },
    }
}

/// The capture settings that the selected choices stand for.
pub fn capture_settings_from_widgets(
    video: Option<&str>,
    audio: Option<&str>,
    format: Option<&str>,
    resolution: Option<&str>,
    fps: Option<&str>,
    debug_stats: bool,
) -> (r: Option<CaptureSettings>)
    ensures
        match settings_of(
            opt_str(video),
            opt_str(audio),
            opt_str(format),
            opt_str(resolution),
            opt_str(fps),
            debug_stats,
        ) {
            None => r is None,
            Some(s) => r matches Some(x) && x@ == s,
        },
{
    let video_device = match video {
        Some(v) => v.to_string(),
        None => return None,
    };
    let audio_device = match audio {
        Some(a) => if str_is(a, "none") {
            None
        } else {
            Some(a.to_string())
        },
        None => None,
    };
    let pixel_format = match format {
        Some(f) => f.to_string(),
        None => "MJPG".to_string(),
    };
    let (width, height) = match selected_resolution(resolution) {
        Some(size) => size,
        None => (1920, 1080),
    };
    let rate = match fps {
        Some(f) => {
            let v = chars_of(f);
            assert(v@.subrange(0, v.len() as int) =~= v@);
            match parse_u32_chars(&v, 0, v.len()) {
                Some(n) => n,
                None => 60,
            }
        },
        None => 60,
    };
    Some(
        CaptureSettings {
            video_device,
            audio_device,
            pixel_format,
            width,
            height,
            fps: rate,
            debug_stats,
        },
    )
}

// ---------------------------------------------------------------------------
// Summary and status labels
// ---------------------------------------------------------------------------

/// How the summary names the audio choice.
pub open spec fn audio_summary(audio: Option<Seq<char>>) -> Seq<char> {
    match audio {
        None => "no audio source"@,
        Some(d) => if d == "none"@ {
            "no audio source"@
        } else if starts_with(d, "pulse:"@) {
            "PipeWire/Pulse audio"@
        } else if starts_with(d, "alsa:"@) {
            "ALSA audio"@
        } else {
            d
        },
    }
}

/// The summary at the top of the settings panel.
pub open spec fn summary_text(video: Seq<char>, audio: Option<Seq<char>>) -> Seq<char> {
    "Auto-selected "@ + video + " with "@ + audio_summary(audio)
        + ". Open these controls only if the defaults need changing."@
}

/// The summary of the devices chosen.
pub fn auto_summary(video_device: &str, audio_device: Option<&str>) -> (r: String)
    ensures
        r@ == summary_text(video_device@, opt_str(audio_device)),
{
    let mut out = chars_of("Auto-selected ");
    push_str(&mut out, video_device);
    push_str(&mut out, " with ");
    match audio_device {
        None => push_str(&mut out, "no audio source"),
        Some(d) => {
            let v = chars_of(d);
            let pulse = chars_of("pulse:");
            let alsa = chars_of("alsa:");
            assert(v@.skip(0) =~= v@);
            if str_is(d, "none") {
                push_str(&mut out, "no audio source");
            } else if occurs_at(&v, &pulse, 0) {
                push_str(&mut out, "PipeWire/Pulse audio");
            } else if occurs_at(&v, &alsa, 0) {
                push_str(&mut out, "ALSA audio");
            } else {
                push_str(&mut out, d);
            }
        },
    }
    push_str(&mut out, ". Open these controls only if the defaults need changing.");
    string_from_chars(out.as_slice())
}

/// A change to a label: whether it shows, and its new text where the text
/// changes.
pub struct LabelUpdate {
    pub visible: bool,
    pub text: Option<String>,
}

/// The changes that an event makes to the status label (under the picture)
/// and to the diagnostic label (over it).
pub struct StatusUpdate {
    pub status: Option<LabelUpdate>,
    pub diagnostic: Option<LabelUpdate>,
}

pub open spec fn label_view(l: Option<LabelUpdate>) -> Option<(bool, Option<Seq<char>>)> {
    match l {
        Some(u) => Some((u.visible, opt_text(u.text))),
        None => None,
    }
}

/// What the window waits for, named in the message about silent streams.
pub open spec fn waiting_for_text(video: bool, audio: bool) -> Seq<char> {
    if video && audio {
        "video or audio"@
    } else if video {
        "video"@
    } else if audio {
        "audio"@
    } else {
        seq![]
    }
}

/// The message about streams that stay silent.
pub open spec fn no_frames_text(video: bool, audio: bool) -> Seq<char> {
    "The pipeline opened, but no "@ + waiting_for_text(video, audio)
        + " buffers arrived after 2 seconds.\nThis usually means the capture device accepted the selected mode but did not start streaming. ShadowCatch will retry the stream automatically."@
}

/// The label changes for an event: (status label, diagnostic label), each
/// as (visible, new text) where it changes.
pub open spec fn status_change(e: EventView) -> (
    Option<(bool, Option<Seq<char>>)>,
    Option<(bool, Option<Seq<char>>)>,
) {
    match e {
        EventView::PipelineStarted => (
            None,
            Some((true, Some("Pipeline started. Waiting for video/audio buffers..."@))),
        ),
        EventView::Retrying(m) => (None, Some((true, Some(m)))),
        EventView::VideoFrame => (None, Some((false, None))),
        EventView::AudioFrame => (None, None),
        EventView::DebugStats(s) => (Some((true, Some(s))), None),
        EventView::Warning(m) => (None, Some((true, Some("Capture warning:\n"@ + m)))),
        EventView::Error(m) => (None, Some((true, Some("Capture error:\n"@ + m)))),
        EventView::NoFrames { waiting_for_video, waiting_for_audio } => (
            None,
            Some((true, Some(no_frames_text(waiting_for_video, waiting_for_audio)))),
        ),
    }
}

/// The status label while a capture starts: shown, waiting for statistics,
/// where statistics are asked for; else hidden and empty.
pub fn starting_status(debug_stats: bool) -> (r: LabelUpdate)
    ensures
        r.visible == debug_stats,
        opt_text(r.text) == Some(
            if debug_stats {
                "Waiting for debug stats..."@
            } else {
                Seq::<char>::empty()
            },
        ),
{
    if debug_stats {
        LabelUpdate { visible: true, text: Some("Waiting for debug stats...".to_string()) }
    } else {
        LabelUpdate { visible: false, text: Some(String::new()) }
    }
}

/// The diagnostic text when the pipeline could not be started, with the
/// error's description on the next line.
pub fn start_failed_text(error: &str) -> (r: String)
    ensures
        r@ == "Could not start capture. Check that HDMI is connected and no other app is using the device.\n"@
            + error@,
{
    let mut t = chars_of(
        "Could not start capture. Check that HDMI is connected and no other app is using the device.\n",
    );
    push_str(&mut t, error);
    string_from_chars(t.as_slice())
}

fn show(text: Vec<char>) -> (r: Option<LabelUpdate>)
    ensures
        label_view(r) == Some((true, Some(text@))),
{
    Some(LabelUpdate { visible: true, text: Some(string_from_chars(text.as_slice())) })
}

/// How the labels change when the capture reports `event`.
pub fn status_update(event: &CaptureEvent) -> (r: StatusUpdate)
    ensures
        (label_view(r.status), label_view(r.diagnostic)) == status_change(event@),
{
    match event {
        CaptureEvent::PipelineStarted => StatusUpdate {
            status: None,
            diagnostic: show(chars_of("Pipeline started. Waiting for video/audio buffers...")),
        },
        CaptureEvent::Retrying(m) => StatusUpdate {
            status: None,
            diagnostic: show(chars_of(m.as_str())),
        },
        CaptureEvent::VideoFrame => StatusUpdate {
            status: None,
            diagnostic: Some(LabelUpdate { visible: false, text: None }),
        },
        CaptureEvent::AudioFrame => StatusUpdate { status: None, diagnostic: None },
        CaptureEvent::DebugStats(s) => StatusUpdate {
            status: show(chars_of(s.as_str())),
            diagnostic: None,
        },
        CaptureEvent::Warning(m) => {
            let mut t = chars_of("Capture warning:\n");
            push_str(&mut t, m.as_str());
            StatusUpdate { status: None, diagnostic: show(t) }
        },
        CaptureEvent::Error(m) => {
            let mut t = chars_of("Capture error:\n");
            push_str(&mut t, m.as_str());
            StatusUpdate { status: None, diagnostic: show(t) }
        },
        CaptureEvent::NoFrames { waiting_for_video, waiting_for_audio } => {
            let mut t = chars_of("The pipeline opened, but no ");
            if *waiting_for_video && *waiting_for_audio {
                push_str(&mut t, "video or audio");
            } else if *waiting_for_video {
                push_str(&mut t, "video");
            } else if *waiting_for_audio {
                push_str(&mut t, "audio");
            }
            push_str(
                &mut t,
                " buffers arrived after 2 seconds.\nThis usually means the capture device accepted the selected mode but did not start streaming. ShadowCatch will retry the stream automatically.",
            );
            assert(t@ =~= no_frames_text(*waiting_for_video, *waiting_for_audio));
            StatusUpdate { status: None, diagnostic: show(t) }
        },
    }
}

// ---------------------------------------------------------------------------
// Laws of the choices
// ---------------------------------------------------------------------------

/// The selected choice is always one of the choices; there is one whenever
/// there are choices; a choice that is asked for and offered is selected.
pub proof fn lemma_selection_is_offered(ids: Seq<Seq<char>>, wanted: Seq<char>)
    ensures
        select_id(ids, wanted) matches Some(x) ==> ids.contains(x),
        select_id(ids, wanted) is None <==> ids.len() == 0,
        ids.contains(wanted) ==> select_id(ids, wanted) == Some(wanted),
{
    if !ids.contains(wanted) && ids.len() > 0 {
        assert(ids.contains(ids[0]));
    }
}

/// The video device to start with is one of the video choices.
pub proof fn lemma_preferred_video_is_offered(d: Seq<VideoKey>, saved: Option<Seq<char>>)
    ensures
        firsts(video_entries(d)).contains(preferred_video(d, saved)),
{
    let p = preferred_video(d, saved);
    let ids = firsts(video_entries(d));
    if d.len() == 0 {
        assert(ids[0] == p);
    } else if saved is Some && has_path(d, saved->0) {
        let i = choose|i: int| 0 <= i < d.len() && d[i].0 == saved->0;
        assert(ids[i] == p);
    } else {
        lemma_first_shadowcast_video(d);
        match first_shadowcast_video(d) {
            Some(v) => {
                let i = choose|i: int| 0 <= i < d.len() && d[i] == v;
                assert(ids[i] == p);
            },
            None => {
                assert(ids[0] == p);
            },
        }
    }
}

proof fn lemma_first_shadowcast_video(d: Seq<VideoKey>)
    ensures
        first_shadowcast_video(d) matches Some(v) ==> v.2 && exists|i: int| 0 <= i < d.len() && d[i] == v,
        first_shadowcast_video(d) is None ==> forall|i: int| 0 <= i < d.len() ==> !(#[trigger] d[i]).2,
    decreases d.len(),
{
    if d.len() > 0 && !d[0].2 {
        lemma_first_shadowcast_video(d.drop_first());
        if let Some(v) = first_shadowcast_video(d) {
            let i = choose|i: int| 0 <= i < d.drop_first().len() && d.drop_first()[i] == v;
            assert(d[i + 1] == v);
        } else {
            assert forall|i: int| 0 <= i < d.len() implies !(#[trigger] d[i]).2 by {
                if i > 0 {
                    assert(d[i] == d.drop_first()[i - 1]);
                }
            }
        }
    } else if d.len() > 0 {
        assert(d[0] == d[0]);
    }
}

/// Where no remembered device is still there and some device looks like a
/// ShadowCast, capture starts with a ShadowCast device.
pub proof fn lemma_preferred_video_is_shadowcast(d: Seq<VideoKey>, saved: Option<Seq<char>>)
    requires
        !(saved matches Some(s) && has_path(d, s)),
        exists|i: int| 0 <= i < d.len() && (#[trigger] d[i]).2,
    ensures
        exists|i: int| 0 <= i < d.len() && (#[trigger] d[i]).2 && d[i].0 == preferred_video(d, saved),
{
    lemma_first_shadowcast_video(d);
    let i = choose|i: int| 0 <= i < d.len() && (#[trigger] d[i]).2;
    assert(d[i].2);
    let v = first_shadowcast_video(d)->0;
    let j = choose|j: int| 0 <= j < d.len() && d[j] == v;
    assert(d[j].2 && d[j].0 == preferred_video(d, saved));
}

proof fn lemma_first_shadowcast_audio(d: Seq<AudioKey>, pulse_only: bool)
    ensures
        first_shadowcast_audio(d, pulse_only) matches Some(a) ==> a.3 && (!pulse_only || a.2
            == AudioBackend::Pulse) && exists|i: int| 0 <= i < d.len() && d[i] == a,
        first_shadowcast_audio(d, pulse_only) is None ==> forall|i: int|
            0 <= i < d.len() ==> !((#[trigger] d[i]).3 && (!pulse_only || d[i].2
                == AudioBackend::Pulse)),
    decreases d.len(),
{
    if d.len() > 0 && !(d[0].3 && (!pulse_only || d[0].2 == AudioBackend::Pulse)) {
        lemma_first_shadowcast_audio(d.drop_first(), pulse_only);
        if let Some(a) = first_shadowcast_audio(d, pulse_only) {
            let i = choose|i: int| 0 <= i < d.drop_first().len() && d.drop_first()[i] == a;
            assert(d[i + 1] == a);
        } else {
            assert forall|i: int| 0 <= i < d.len() implies !((#[trigger] d[i]).3 && (!pulse_only
                || d[i].2 == AudioBackend::Pulse)) by {
                if i > 0 {
                    assert(d[i] == d.drop_first()[i - 1]);
                }
            }
        }
    } else if d.len() > 0 {
        assert(d[0] == d[0]);
    }
}

/// The selected audio choice is one of the audio choices; where a ShadowCast
/// source comes through PipeWire/Pulse, such a source is selected.
pub proof fn lemma_preferred_audio(d: Seq<AudioKey>, saved: Option<Seq<char>>)
    ensures
        firsts(audio_entries(d)).contains(preferred_audio(d, saved)),
        (exists|i: int| 0 <= i < d.len() && (#[trigger] d[i]).3 && d[i].2 == AudioBackend::Pulse)
            ==> exists|i: int|
            0 <= i < d.len() && (#[trigger] d[i]).3 && d[i].2 == AudioBackend::Pulse && d[i].0
                == preferred_audio(d, saved),
{
    lemma_first_shadowcast_audio(d, true);
    lemma_first_shadowcast_audio(d, false);
    let ids = firsts(audio_entries(d));
    let p = preferred_audio(d, saved);
    match first_shadowcast_audio(d, true) {
        Some(a) => {
            let i = choose|i: int| 0 <= i < d.len() && d[i] == a;
            assert(ids[i + 1] == p);
        },
        None => {
            if saved is Some && ids.contains(saved->0) {
            } else {
                match first_shadowcast_audio(d, false) {
                    Some(a) => {
                        let i = choose|i: int| 0 <= i < d.len() && d[i] == a;
                        assert(ids[i + 1] == p);
                    },
                    None => {
                        assert(ids[0] == p);
                    },
                }
            }
        },
    }
}

/// The settings that the choices stand for are those that the choices show:
/// a frame size shown as `<width>x<height>` and a frame rate shown in
/// decimal are read back as that size and rate.
pub proof fn lemma_settings_read_back(
    video: Seq<char>,
    audio: Option<Seq<char>>,
    format: Seq<char>,
    size: (u32, u32),
    fps: u32,
    debug_stats: bool,
)
    ensures
        settings_of(
            Some(video),
            audio,
            Some(format),
            Some(resolution_id(size)),
            Some(decimal(fps as nat)),
            debug_stats,
        ) == Some(
            (
                video,
                match audio {
                    Some(a) => if a == "none"@ {
                        None
                    } else {
                        Some(a)
                    },
                    None => None,
                },
                format,
                size.0,
                size.1,
                fps,
                debug_stats,
            ),
        ),
{
    lemma_resolution_id_round_trip(size);
    lemma_parse_decimal(fps as nat);
}

} // verus!
