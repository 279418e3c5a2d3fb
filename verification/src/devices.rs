//! Capture devices: which video nodes and audio sources there are, read from
//! what the system reports, and in which order they are offered.
use vstd::prelude::*;

use crate::order::{
    by_key, chars_less, chars_lt, lemma_chars_lt_irreflexive, lemma_chars_lt_total,
    lemma_chars_lt_transitive, lemma_sort_by_map, lemma_sort_by_permutes, lemma_sort_by_sorted,
    sort_by, sort_stable, strict_order, Keyed,
};
use crate::text::{
    chars_of, contains, contains_chars, find_char, find_char_in, first_word, first_word_chars,
    holds_at, lemma_contains_iff, lemma_find_char, lemma_find_char_concat, lines_of, lower_chars, occurs_at, push_all, push_str, second_piece, second_piece_bounds,
    second_piece_str, second_piece_str_bounds, slice_chars, split_lines, starts_with,
    string_from_chars, texts, third_piece, third_piece_bounds, to_ascii_lower, trim, trim_bounds,
    trim_chars,
};

verus! {

broadcast use vstd::string::group_string_axioms;

/// What running an outside command gave.
pub enum CommandOutput {
    /// The command could not be started.
    Unavailable,
    /// The command ran and reported failure.
    Failed,
    /// The command ran and succeeded; its standard output.
    Succeeded(String),
}

/// A video capture node.
#[derive(Clone, Debug, Eq, PartialEq)]
pub struct VideoDevice {
    pub path: String,
    pub name: String,
    pub is_shadowcast: bool,
}

/// Path, name, whether it looks like a ShadowCast.
pub type VideoKey = (Seq<char>, Seq<char>, bool);

impl View for VideoDevice {
    type V = VideoKey;

    open spec fn view(&self) -> VideoKey {
        (self.path@, self.name@, self.is_shadowcast)
    }
}

/// Where an audio source comes from.
#[derive(Clone, Copy, Debug, Eq, PartialEq, Structural)]
pub enum AudioBackend {
    Pulse,
    Alsa,
}

/// An audio source.
#[derive(Clone, Debug, Eq, PartialEq)]
pub struct AudioDevice {
    pub id: String,
    pub name: String,
    pub backend: AudioBackend,
    pub is_shadowcast: bool,
}

/// Id, name, backend, whether it looks like a ShadowCast.
pub type AudioKey = (Seq<char>, Seq<char>, AudioBackend, bool);

impl View for AudioDevice {
    type V = AudioKey;

    open spec fn view(&self) -> AudioKey {
        (self.id@, self.name@, self.backend, self.is_shadowcast)
    }
}

// ---------------------------------------------------------------------------
// Recognising the ShadowCast
// ---------------------------------------------------------------------------

/// Whether a device name looks like the ShadowCast: in ASCII lower case it
/// holds `shadowcast`, `shadow cast` or `s3`.
pub open spec fn shadowcast_name(v: Seq<char>) -> bool {
    let l = to_ascii_lower(v);
    contains(l, "shadowcast"@) || contains(l, "shadow cast"@) || contains(l, "s3"@)
}

fn looks_like_shadowcast_chars(v: &Vec<char>) -> (r: bool)
    ensures
        r == shadowcast_name(v@),
{
    proof {
        reveal_strlit("shadowcast");
        reveal_strlit("shadow cast");
        reveal_strlit("s3");
    }
    let l = lower_chars(v);
    let a = chars_of("shadowcast");
    let b = chars_of("shadow cast");
    let c = chars_of("s3");
    contains_chars(&l, &a) || contains_chars(&l, &b) || contains_chars(&l, &c)
}

/// Whether a device name looks like the ShadowCast.
pub fn looks_like_shadowcast(value: &str) -> (r: bool)
    ensures
        r == shadowcast_name(value@),
{
    let v = chars_of(value);
    looks_like_shadowcast_chars(&v)
}

// ---------------------------------------------------------------------------
// Video nodes
// ---------------------------------------------------------------------------

/// What the system tells of one entry of `/sys/class/video4linux`.
pub struct VideoNode {
    /// The entry's file name, such as `video0`.
    pub file_name: String,
    /// What its `name` file holds, where it could be read.
    pub name_file: Option<String>,
    /// Whether `v4l2-ctl` reports its `/dev` node as a video capture node
    /// (see `is_video_capture_node`).
    pub is_capture: bool,
}

/// File name, contents of the `name` file, whether it captures video.
pub type NodeKey = (Seq<char>, Option<Seq<char>>, bool);

impl View for VideoNode {
    type V = NodeKey;

    open spec fn view(&self) -> NodeKey {
        (
            self.file_name@,
            match self.name_file {
                Some(n) => Some(n@),
                None => None,
            },
            self.is_capture,
        )
    }
}

/// The trimmed text of a file, unless it is empty or could not be read.
pub open spec fn trimmed_value(contents: Option<Seq<char>>) -> Option<Seq<char>> {
    match contents {
        Some(c) => if trim(c).len() > 0 {
            Some(trim(c))
        } else {
            None
        },
        None => None,
    }
}

/// The trimmed text of a file, unless it is empty or could not be read
/// (`None`).
pub fn read_trimmed(contents: Option<String>) -> (r: Option<String>)
    ensures
        match trimmed_value(
            match contents {
                Some(c) => Some(c@),
                None => None,
            },
        ) {
            None => r is None,
            Some(t) => r matches Some(x) && x@ == t,
        },
{
    match contents {
        None => None,
        Some(c) => {
            let v = chars_of(c.as_str());
            let t = trim_chars(&v);
            if t.len() > 0 {
                Some(string_from_chars(t.as_slice()))
            } else {
                None
            }
        },
    }
}

/// The `/dev` node of an entry of `/sys/class/video4linux`, for entries
/// whose name starts with `video`.
pub open spec fn video_node_path(file_name: Seq<char>) -> Option<Seq<char>> {
    if starts_with(file_name, "video"@) {
        Some("/dev/"@ + file_name)
    } else {
        None
    }
}

/// The `/dev` node of an entry of `/sys/class/video4linux`, for entries
/// whose name starts with `video`; the others are no video nodes.
pub fn dev_path(file_name: &str) -> (r: Option<String>)
    ensures
        match video_node_path(file_name@) {
            None => r is None,
            Some(p) => r matches Some(x) && x@ == p,
        },
{
    let f = chars_of(file_name);
    let p = chars_of("video");
    assert(f@.skip(0) =~= f@);
    if !occurs_at(&f, &p, 0) {
        return None;
    }
    let mut out = chars_of("/dev/");
    push_all(&mut out, &f);
    Some(string_from_chars(out.as_slice()))
}

/// The video device that an entry stands for: video nodes that capture
/// video, named by their `name` file or else by their file name.
pub open spec fn video_device_of(node: NodeKey) -> Option<VideoKey> {
    match video_node_path(node.0) {
        None => None,
        Some(path) => if !node.2 {
            None
        } else {
            let name = match trimmed_value(node.1) {
                Some(n) => n,
                None => node.0,
            };
            Some((path, name, shadowcast_name(name)))
        },
    }
}

/// The video devices of a list of entries, in the entries' order.
pub open spec fn video_devices_of(nodes: Seq<NodeKey>) -> Seq<VideoKey>
    decreases nodes.len(),
{
    if nodes.len() == 0 {
        seq![]
    } else {
        video_devices_of(nodes.drop_last()) + match video_device_of(nodes.last()) {
            Some(d) => seq![d],
            None => seq![],
        }
    }
}

/// ShadowCast devices first, then by path.
pub open spec fn video_key_lt(a: (bool, Seq<char>), b: (bool, Seq<char>)) -> bool {
    (a.0 && !b.0) || (a.0 == b.0 && chars_lt(a.1, b.1))
}

impl Keyed for VideoDevice {
    type K = (bool, Seq<char>);

    open spec fn key(&self) -> (bool, Seq<char>) {
        (self.is_shadowcast, self.path@)
    }

    open spec fn key_lt(a: (bool, Seq<char>), b: (bool, Seq<char>)) -> bool {
        video_key_lt(a, b)
    }

    proof fn lemma_key_order(a: (bool, Seq<char>), b: (bool, Seq<char>), c: (bool, Seq<char>)) {
        lemma_chars_lt_irreflexive(a.1);
        if chars_lt(a.1, b.1) && chars_lt(b.1, c.1) {
            lemma_chars_lt_transitive(a.1, b.1, c.1);
        }
        if a.1 != b.1 {
            lemma_chars_lt_total(a.1, b.1);
        }
    }

    fn key_less(&self, other: &Self) -> (r: bool) {
        if self.is_shadowcast != other.is_shadowcast {
            self.is_shadowcast
        } else {
            let a = chars_of(self.path.as_str());
            let b = chars_of(other.path.as_str());
            chars_less(&a, &b)
        }
    }
}

/// The order in which video devices are offered, on their views.
pub open spec fn video_order() -> spec_fn(VideoKey, VideoKey) -> bool {
    |a: VideoKey, b: VideoKey| video_key_lt((a.2, a.0), (b.2, b.0))
}

pub open spec fn video_view() -> spec_fn(VideoDevice) -> VideoKey {
    |d: VideoDevice| d@
}

pub open spec fn node_view() -> spec_fn(VideoNode) -> NodeKey {
    |n: VideoNode| n@
}

fn video_device_from(node: &VideoNode) -> (r: Option<VideoDevice>)
    ensures
        match video_device_of(node@) {
            None => r is None,
            Some(d) => r matches Some(x) && x@ == d,
        },
{
    let path = match dev_path(node.file_name.as_str()) {
        None => return None,
        Some(p) => p,
    };
    if !node.is_capture {
        return None;
    }
    let name = match node.name_file {
        Some(ref c) => match read_trimmed(Some(c.clone())) {
            Some(n) => n,
            None => node.file_name.clone(),
        },
        None => node.file_name.clone(),
    };
    let n = chars_of(name.as_str());
    let is_shadowcast = looks_like_shadowcast_chars(&n);
    Some(VideoDevice { path, name, is_shadowcast })
}

/// The video capture devices among the entries of `/sys/class/video4linux`:
/// ShadowCast devices first, then by path; entries that compare equal keep
/// their order.
pub fn list_video_devices(nodes: &[VideoNode]) -> (r: Vec<VideoDevice>)
    ensures
        r@.map_values(video_view()) == sort_by(
            video_devices_of(nodes@.map_values(node_view())),
            video_order(),
        ),
{
    let mut found: Vec<VideoDevice> = Vec::new();
    let mut i: usize = 0;
    while i < nodes.len()
        invariant
            i <= nodes.len(),
            found@.map_values(video_view()) == video_devices_of(
                nodes@.take(i as int).map_values(node_view()),
            ),
        decreases nodes.len() - i,
    {
        let d = video_device_from(&nodes[i]);
        let ghost taken = nodes@.take(i + 1).map_values(node_view());
        assert(taken.drop_last() =~= nodes@.take(i as int).map_values(node_view()));
        assert(taken.last() == nodes@[i as int]@);
        match d {
            Some(d) => {
                found.push(d);
            },
            None => {},
        }
        assert(found@.map_values(video_view()) =~= video_devices_of(taken));
        i += 1;
    }
    assert(nodes@.take(nodes.len() as int) =~= nodes@);
    let ghost unsorted = found@;
    let r = sort_stable(found);
    proof {
        lemma_sort_by_map(unsorted, by_key::<VideoDevice>(), video_view(), video_order());
    }
    r
}

/// Whether the `v4l2-ctl --all` report of a node names it a video capture
/// node: a report that could not be had counts as one, a failed one does
/// not; else the report's device capabilities (or, without such a section,
/// the whole report) must mention `Video Capture`.
pub open spec fn capture_node_report(output: Option<Option<Seq<char>>>) -> bool {
    match output {
        None => true,
        Some(None) => false,
        Some(Some(text)) => match second_piece_str(text, "Device Caps"@) {
            Some(caps) => contains(caps, "Video Capture"@),
            None => contains(text, "Video Capture"@),
        },
    }
}

/// A command's outcome as plain values: `None` where it could not run,
/// `Some(None)` where it failed, `Some(Some(out))` with its output.
pub open spec fn outcome(o: CommandOutput) -> Option<Option<Seq<char>>> {
    match o {
        CommandOutput::Unavailable => None,
        CommandOutput::Failed => Some(None),
        CommandOutput::Succeeded(text) => Some(Some(text@)),
    }
}

/// Whether a node is a video capture node, from what `v4l2-ctl --all -d
/// <node>` gave.
pub fn is_video_capture_node(output: &CommandOutput) -> (r: bool)
    ensures
        r == capture_node_report(outcome(*output)),
{
    proof {
        reveal_strlit("Device Caps");
        reveal_strlit("Video Capture");
    }
    match output {
        CommandOutput::Unavailable => true,
        CommandOutput::Failed => false,
        CommandOutput::Succeeded(text) => {
            let t = chars_of(text.as_str());
            let caps = chars_of("Device Caps");
            let video = chars_of("Video Capture");
            assert(t@.skip(0) =~= t@);
            match second_piece_str_bounds(&t, &caps, 0) {
                Some((a, b)) => {
                    let piece = slice_chars(&t, a, b);
                    contains_chars(&piece, &video)
                },
                None => contains_chars(&t, &video),
            }
        },
    }
}

// ---------------------------------------------------------------------------
// Audio sources
// ---------------------------------------------------------------------------

/// PipeWire/Pulse sources come before ALSA cards.
pub open spec fn backend_rank(b: AudioBackend) -> u8 {
    match b {
        AudioBackend::Pulse => 0,
        AudioBackend::Alsa => 1,
    }
}

/// The rank of a backend in the order of audio sources.
pub fn audio_backend_rank(backend: &AudioBackend) -> (r: u8)
    ensures
        r == backend_rank(*backend),
{
    match backend {
        AudioBackend::Pulse => 0,
        AudioBackend::Alsa => 1,
    }
}

/// A line of `pactl list short sources`: tab-separated index, source name
/// and driver. The source is offered as `pulse:<name>`, labelled
/// `<name> (<driver>)`; a line without a second column names no source.
pub open spec fn pulse_source(line: Seq<char>) -> Option<AudioKey> {
    match second_piece(line, '\t') {
        None => None,
        Some(name) => {
            let driver = match third_piece(line, '\t') {
                Some(d) => d,
                None => Seq::<char>::empty(),
            };
            Some(
                (
                    "pulse:"@ + name,
                    name + " ("@ + driver + ")"@,
                    AudioBackend::Pulse,
                    shadowcast_name(name),
                ),
            )
        },
    }
}

/// A line of `arecord -l`, `card <n>: <card name>, device <d>: <...>`,
/// offered as `alsa:hw:<n>,<d>` and labelled `<rest> [hw:<n>,<d>]`.
pub open spec fn alsa_card(line: Seq<char>) -> Option<AudioKey> {
    let t = trim(line);
    let c = find_char(t, ':');
    if !starts_with(t, "card "@) || c < 0 {
        None
    } else {
        let card_part = t.take(c);
        let rest = t.skip(c + 1);
        if !starts_with(card_part, "card "@) {
            None
        } else {
            match (first_word(card_part.skip(5)), second_piece_str(rest, "device "@)) {
                (Some(card), Some(piece)) => {
                    let colon = find_char(piece, ':');
                    let device = trim(
                        if colon < 0 {
                            piece
                        } else {
                            piece.take(colon)
                        },
                    );
                    let hw = card + ","@ + device;
                    Some(
                        (
                            "alsa:hw:"@ + hw,
                            trim(rest) + " [hw:"@ + hw + "]"@,
                            AudioBackend::Alsa,
                            shadowcast_name(rest),
                        ),
                    )
                },
                _ => None,
            }
        }
    }
}

/// The sources that the lines of a `pactl` listing name, in order.
pub open spec fn pulse_sources_of(lines: Seq<Seq<char>>) -> Seq<AudioKey>
    decreases lines.len(),
{
    if lines.len() == 0 {
        seq![]
    } else {
        pulse_sources_of(lines.drop_last()) + match pulse_source(lines.last()) {
            Some(d) => seq![d],
            None => seq![],
        }
    }
}

/// The cards that the lines of an `arecord -l` listing name, in order.
pub open spec fn alsa_cards_of(lines: Seq<Seq<char>>) -> Seq<AudioKey>
    decreases lines.len(),
{
    if lines.len() == 0 {
        seq![]
    } else {
        alsa_cards_of(lines.drop_last()) + match alsa_card(lines.last()) {
            Some(d) => seq![d],
            None => seq![],
        }
    }
}

pub open spec fn audio_view() -> spec_fn(AudioDevice) -> AudioKey {
    |d: AudioDevice| d@
}

fn text_of(parts: &Vec<char>) -> (s: String)
    ensures
        s@ == parts@,
{
    string_from_chars(parts.as_slice())
}

fn pulse_source_chars(line: &Vec<char>) -> (r: Option<AudioDevice>)
    ensures
        match pulse_source(line@) {
            None => r is None,
            Some(d) => r matches Some(x) && x@ == d,
        },
{
    assert(line@.subrange(0, line.len() as int) =~= line@);
    let (a, b) = match second_piece_bounds(line, '\t', 0, line.len()) {
        None => return None,
        Some(bounds) => bounds,
    };
    let name = slice_chars(line, a, b);
    let driver = match third_piece_bounds(line, '\t', 0, line.len()) {
        None => Vec::new(),
        Some((c, d)) => slice_chars(line, c, d),
    };
    let mut id = chars_of("pulse:");
    push_all(&mut id, &name);
    let mut label = name.clone();
    push_str(&mut label, " (");
    push_all(&mut label, &driver);
    push_str(&mut label, ")");
    let is_shadowcast = looks_like_shadowcast_chars(&name);
    Some(
        AudioDevice {
            id: text_of(&id),
            name: text_of(&label),
            backend: AudioBackend::Pulse,
            is_shadowcast,
        },
    )
}

fn alsa_card_chars(line: &Vec<char>) -> (r: Option<AudioDevice>)
    ensures
        match alsa_card(line@) {
            None => r is None,
            Some(d) => r matches Some(x) && x@ == d,
        },
{
    let t = trim_chars(line);
    let prefix = chars_of("card ");
    proof {
        reveal_strlit("card ");
        reveal_strlit("device ");
    }
    assert(t@.skip(0) =~= t@);
    if !occurs_at(&t, &prefix, 0) {
        return None;
    }
    assert(t@.subrange(0, t.len() as int) =~= t@);
    let c = match find_char_in(&t, ':', 0, t.len()) {
        None => return None,
        Some(c) => c,
    };
    let card_part = slice_chars(&t, 0, c);
    assert(card_part@ =~= t@.take(c as int));
    assert(card_part@.skip(0) =~= card_part@);
    if !occurs_at(&card_part, &prefix, 0) {
        return None;
    }
    assert(card_part@.skip(5) =~= card_part@.subrange(5, c as int));
    let ghost rest = t@.skip(c + 1);
    let device_word = chars_of("device ");
    assert(rest =~= t@.skip(c + 1));
    let card = first_word_chars(&card_part, 5, c);
    let piece = second_piece_str_bounds(&t, &device_word, c + 1);
    let (card, (pa, pb)) = match (card, piece) {
        (Some(card), Some(bounds)) => (card, bounds),
        _ => return None,
    };
    let ghost piece_text = t@.subrange(pa as int, pb as int);
    let dev_end = match find_char_in(&t, ':', pa, pb) {
        None => pb,
        Some(k) => k,
    };
    assert(dev_end == pb ==> t@.subrange(pa as int, dev_end as int) == piece_text);
    assert(dev_end < pb ==> t@.subrange(pa as int, dev_end as int) =~= piece_text.take(
        dev_end - pa,
    ));
    let (dl, dh) = trim_bounds(&t, pa, dev_end);
    let device = slice_chars(&t, dl, dh);
    assert(t@.subrange(c + 1, t.len() as int) =~= rest);
    let (nl, nh) = trim_bounds(&t, c + 1, t.len());
    let rest_chars = slice_chars(&t, c + 1, t.len());
    let trimmed_rest = slice_chars(&t, nl, nh);
    let mut hw = card.clone();
    push_str(&mut hw, ",");
    push_all(&mut hw, &device);
    let mut id = chars_of("alsa:hw:");
    push_all(&mut id, &hw);
    let mut label = trimmed_rest;
    push_str(&mut label, " [hw:");
    push_all(&mut label, &hw);
    push_str(&mut label, "]");
    let is_shadowcast = looks_like_shadowcast_chars(&rest_chars);
    Some(
        AudioDevice {
            id: text_of(&id),
            name: text_of(&label),
            backend: AudioBackend::Alsa,
            is_shadowcast,
        },
    )
}

/// The source on a line of `arecord -l`, if the line names a card.
pub fn parse_arecord_line(line: &str) -> (r: Option<AudioDevice>)
    ensures
        match alsa_card(line@) {
            None => r is None,
            Some(d) => r matches Some(x) && x@ == d,
        },
{
    let v = chars_of(line);
    alsa_card_chars(&v)
}

/// The PipeWire/Pulse sources that `pactl list short sources` reported;
/// none where it could not run or failed.
pub fn list_pulse_sources(output: &CommandOutput) -> (r: Vec<AudioDevice>)
    ensures
        r@.map_values(audio_view()) == match outcome(*output) {
            Some(Some(text)) => pulse_sources_of(lines_of(text)),
            _ => Seq::<AudioKey>::empty(),
        },
{
    let mut found: Vec<AudioDevice> = Vec::new();
    let text = match output {
        CommandOutput::Succeeded(text) => text,
        _ => {
            assert(found@.map_values(audio_view()) =~= Seq::<AudioKey>::empty());
            return found;
        },
    };
    let chars = chars_of(text.as_str());
    let lines = split_lines(&chars);
    let mut i: usize = 0;
    assert(found@.map_values(audio_view()) =~= Seq::<AudioKey>::empty());
    while i < lines.len()
        invariant
            i <= lines.len(),
            found@.map_values(audio_view()) == pulse_sources_of(texts(lines@).take(i as int)),
        decreases lines.len() - i,
    {
        let d = pulse_source_chars(&lines[i]);
        let ghost taken = texts(lines@).take(i + 1);
        assert(taken.drop_last() =~= texts(lines@).take(i as int));
        assert(taken.last() == lines@[i as int]@);
        match d {
            Some(d) => {
                found.push(d);
            },
            None => {},
        }
        assert(found@.map_values(audio_view()) =~= pulse_sources_of(taken));
        i += 1;
    }
    assert(texts(lines@).take(lines.len() as int) =~= texts(lines@));
    found
}

/// The ALSA capture cards that `arecord -l` reported; none where it could
/// not run or failed.
pub fn list_alsa_capture_devices(output: &CommandOutput) -> (r: Vec<AudioDevice>)
    ensures
        r@.map_values(audio_view()) == match outcome(*output) {
            Some(Some(text)) => alsa_cards_of(lines_of(text)),
            _ => Seq::<AudioKey>::empty(),
        },
{
    let mut found: Vec<AudioDevice> = Vec::new();
    let text = match output {
        CommandOutput::Succeeded(text) => text,
        _ => {
            assert(found@.map_values(audio_view()) =~= Seq::<AudioKey>::empty());
            return found;
        },
    };
    let chars = chars_of(text.as_str());
    let lines = split_lines(&chars);
    let mut i: usize = 0;
    assert(found@.map_values(audio_view()) =~= Seq::<AudioKey>::empty());
    while i < lines.len()
        invariant
            i <= lines.len(),
            found@.map_values(audio_view()) == alsa_cards_of(texts(lines@).take(i as int)),
        decreases lines.len() - i,
    {
        let d = alsa_card_chars(&lines[i]);
        let ghost taken = texts(lines@).take(i + 1);
        assert(taken.drop_last() =~= texts(lines@).take(i as int));
        assert(taken.last() == lines@[i as int]@);
        match d {
            Some(d) => {
                found.push(d);
            },
            None => {},
        }
        assert(found@.map_values(audio_view()) =~= alsa_cards_of(taken));
        i += 1;
    }
    assert(texts(lines@).take(lines.len() as int) =~= texts(lines@));
    found
}

/// ShadowCast sources first, then PipeWire/Pulse before ALSA, then by name.
pub open spec fn audio_key_lt(a: (bool, u8, Seq<char>), b: (bool, u8, Seq<char>)) -> bool {
    (a.0 && !b.0) || (a.0 == b.0 && (a.1 < b.1 || (a.1 == b.1 && chars_lt(a.2, b.2))))
}

impl Keyed for AudioDevice {
    type K = (bool, u8, Seq<char>);

    open spec fn key(&self) -> (bool, u8, Seq<char>) {
        (self.is_shadowcast, backend_rank(self.backend), self.name@)
    }

    open spec fn key_lt(a: (bool, u8, Seq<char>), b: (bool, u8, Seq<char>)) -> bool {
        audio_key_lt(a, b)
    }

    proof fn lemma_key_order(
        a: (bool, u8, Seq<char>),
        b: (bool, u8, Seq<char>),
        c: (bool, u8, Seq<char>),
    ) {
        lemma_chars_lt_irreflexive(a.2);
        if chars_lt(a.2, b.2) && chars_lt(b.2, c.2) {
            lemma_chars_lt_transitive(a.2, b.2, c.2);
        }
        if a.2 != b.2 {
            lemma_chars_lt_total(a.2, b.2);
        }
    }

    fn key_less(&self, other: &Self) -> (r: bool) {
        if self.is_shadowcast != other.is_shadowcast {
            return self.is_shadowcast;
        }
        let ra = audio_backend_rank(&self.backend);
        let rb = audio_backend_rank(&other.backend);
        if ra != rb {
            return ra < rb;
        }
        let a = chars_of(self.name.as_str());
        let b = chars_of(other.name.as_str());
        chars_less(&a, &b)
    }
}

/// The order in which audio sources are offered, on their views.
pub open spec fn audio_order() -> spec_fn(AudioKey, AudioKey) -> bool {
    |a: AudioKey, b: AudioKey|
        audio_key_lt((a.3, backend_rank(a.2), a.1), (b.3, backend_rank(b.2), b.1))
}

/// All audio sources: the PipeWire/Pulse sources, then the ALSA cards, put
/// in order (ShadowCast first, then Pulse before ALSA, then by name;
/// sources that compare equal keep that order).
pub fn list_audio_devices(pulse: &CommandOutput, alsa: &CommandOutput) -> (r: Vec<AudioDevice>)
    ensures
        r@.map_values(audio_view()) == sort_by(
            audio_sources_of(outcome(*pulse), outcome(*alsa)),
            audio_order(),
        ),
{
    let mut devices = list_pulse_sources(pulse);
    let mut cards = list_alsa_capture_devices(alsa);
    let ghost p = devices@;
    let ghost q = cards@;
    devices.append(&mut cards);
    assert(devices@.map_values(audio_view()) =~= p.map_values(audio_view()) + q.map_values(
        audio_view(),
    ));
    let ghost unsorted = devices@;
    let r = sort_stable(devices);
    proof {
        lemma_sort_by_map(unsorted, by_key::<AudioDevice>(), audio_view(), audio_order());
    }
    r
}

// ---------------------------------------------------------------------------
// Laws of the device lists
// ---------------------------------------------------------------------------

/// The order of video devices is a strict order.
pub proof fn lemma_video_order_strict()
    ensures
        strict_order(video_order()),
{
    assert forall|a: VideoKey| !(#[trigger] video_order()(a, a)) by {
        lemma_chars_lt_irreflexive(a.0);
    }
    assert forall|a: VideoKey, b: VideoKey, c: VideoKey|
        #[trigger] video_order()(a, b) && #[trigger] video_order()(b, c) implies video_order()(
        a,
        c,
    ) by {
        if chars_lt(a.0, b.0) && chars_lt(b.0, c.0) {
            lemma_chars_lt_transitive(a.0, b.0, c.0);
        }
    }
}

/// The order of audio sources is a strict order.
pub proof fn lemma_audio_order_strict()
    ensures
        strict_order(audio_order()),
{
    assert forall|a: AudioKey| !(#[trigger] audio_order()(a, a)) by {
        lemma_chars_lt_irreflexive(a.1);
    }
    assert forall|a: AudioKey, b: AudioKey, c: AudioKey|
        #[trigger] audio_order()(a, b) && #[trigger] audio_order()(b, c) implies audio_order()(
        a,
        c,
    ) by {
        if chars_lt(a.1, b.1) && chars_lt(b.1, c.1) {
            lemma_chars_lt_transitive(a.1, b.1, c.1);
        }
    }
}

/// In the list of video devices, every ShadowCast device comes before every
/// other device, and devices of the same kind come in path order; the list
/// holds each device found exactly as often as it was found.
pub proof fn lemma_video_listing_order(nodes: Seq<NodeKey>)
    ensures
        ({
            let l = sort_by(video_devices_of(nodes), video_order());
            &&& forall|i: int, j: int|
                0 <= i < j < l.len() ==> (#[trigger] l[j].2 ==> #[trigger] l[i].2)
            &&& forall|i: int, j: int|
                0 <= i < j < l.len() && l[i].2 == l[j].2 ==> !chars_lt(
                    #[trigger] l[j].0,
                    #[trigger] l[i].0,
                )
            &&& l.to_multiset() == video_devices_of(nodes).to_multiset()
        }),
{
    let l = sort_by(video_devices_of(nodes), video_order());
    lemma_video_order_strict();
    lemma_sort_by_sorted(video_devices_of(nodes), video_order());
    lemma_sort_by_permutes(video_devices_of(nodes), video_order());
    assert forall|i: int, j: int| 0 <= i < j < l.len() implies (#[trigger] l[j].2
        ==> #[trigger] l[i].2) by {
        assert(!video_order()(l[j], l[i]));
    }
    assert forall|i: int, j: int| 0 <= i < j < l.len() && l[i].2 == l[j].2 implies !chars_lt(
        #[trigger] l[j].0,
        #[trigger] l[i].0,
    ) by {
        assert(!video_order()(l[j], l[i]));
    }
}

/// The audio sources as listed from the two reports.
pub open spec fn audio_sources_of(pulse: Option<Option<Seq<char>>>, alsa: Option<
    Option<Seq<char>>,
>) -> Seq<AudioKey> {
    let p = match pulse {
        Some(Some(text)) => pulse_sources_of(lines_of(text)),
        _ => Seq::<AudioKey>::empty(),
    };
    let a = match alsa {
        Some(Some(text)) => alsa_cards_of(lines_of(text)),
        _ => Seq::<AudioKey>::empty(),
    };
    p + a
}

/// In the list of audio sources, every ShadowCast source comes before every
/// other source; among sources of the same kind, PipeWire/Pulse sources come
/// before ALSA cards; the list holds each source found exactly as often as
/// it was found.
pub proof fn lemma_audio_listing_order(
    pulse: Option<Option<Seq<char>>>,
    alsa: Option<Option<Seq<char>>>,
)
    ensures
        ({
            let l = sort_by(audio_sources_of(pulse, alsa), audio_order());
            &&& forall|i: int, j: int|
                0 <= i < j < l.len() ==> (#[trigger] l[j].3 ==> #[trigger] l[i].3)
            &&& forall|i: int, j: int|
                0 <= i < j < l.len() && l[i].3 == l[j].3 ==> backend_rank(#[trigger] l[i].2)
                    <= backend_rank(#[trigger] l[j].2)
            &&& l.to_multiset() == audio_sources_of(pulse, alsa).to_multiset()
        }),
{
    let s = audio_sources_of(pulse, alsa);
    let l = sort_by(s, audio_order());
    lemma_audio_order_strict();
    lemma_sort_by_sorted(s, audio_order());
    lemma_sort_by_permutes(s, audio_order());
    assert forall|i: int, j: int| 0 <= i < j < l.len() implies (#[trigger] l[j].3
        ==> #[trigger] l[i].3) by {
        assert(!audio_order()(l[j], l[i]));
    }
    assert forall|i: int, j: int| 0 <= i < j < l.len() && l[i].3 == l[j].3 implies backend_rank(
        #[trigger] l[i].2,
    ) <= backend_rank(#[trigger] l[j].2) by {
        assert(!audio_order()(l[j], l[i]));
    }
}

/// A name is taken for the ShadowCast exactly when, in ASCII lower case,
/// `shadowcast`, `shadow cast` or `s3` stands somewhere in it.
pub proof fn lemma_shadowcast_name_iff(v: Seq<char>)
    ensures
        shadowcast_name(v) <==> (exists|i: int| holds_at(to_ascii_lower(v), "shadowcast"@, i)) || (
        exists|i: int| holds_at(to_ascii_lower(v), "shadow cast"@, i)) || (exists|i: int|
            holds_at(to_ascii_lower(v), "s3"@, i)),
{
    let l = to_ascii_lower(v);
    lemma_contains_iff(l, "shadowcast"@);
    lemma_contains_iff(l, "shadow cast"@);
    lemma_contains_iff(l, "s3"@);
}

proof fn lemma_no_tab_first_tab(a: Seq<char>, b: Seq<char>)
    requires
        forall|j: int| 0 <= j < a.len() ==> a[j] != '\t',
    ensures
        find_char(a + seq!['\t'] + b, '\t') == a.len(),
        (a + seq!['\t'] + b).skip(a.len() as int + 1) == b,
        (a + seq!['\t'] + b).take(a.len() as int) == a,
{
    lemma_find_char(a, '\t');
    if find_char(a, '\t') >= 0 {
        assert(a[find_char(a, '\t')] == '\t');
    }
    lemma_find_char_concat(a, seq!['\t'] + b, '\t');
    assert((seq!['\t'] + b)[0] == '\t');
    assert(a + seq!['\t'] + b =~= a + (seq!['\t'] + b));
    assert((a + seq!['\t'] + b).skip(a.len() as int + 1) =~= b);
    assert((a + seq!['\t'] + b).take(a.len() as int) =~= a);
}

/// A line of `pactl list short sources` offers the source named in its
/// second column: its id is `pulse:` and that name, and it is flagged as the
/// ShadowCast exactly when that name looks like one; the index before it
/// and the columns after it (driver, sample spec, state) do not count.
pub proof fn lemma_pulse_source_from_name(index: Seq<char>, name: Seq<char>, rest: Seq<char>)
    requires
        forall|j: int| 0 <= j < index.len() ==> index[j] != '\t',
        forall|j: int| 0 <= j < name.len() ==> name[j] != '\t',
    ensures
        pulse_source(index + seq!['\t'] + name + seq!['\t'] + rest) matches Some(k) && k.0
            == "pulse:"@ + name && k.2 == AudioBackend::Pulse && k.3 == shadowcast_name(name),
        pulse_source(index + seq!['\t'] + name) matches Some(k) && k.0 == "pulse:"@ + name && k.2
            == AudioBackend::Pulse && k.3 == shadowcast_name(name),
{
    let tail = name + seq!['\t'] + rest;
    let line = index + seq!['\t'] + name + seq!['\t'] + rest;
    assert(line =~= index + seq!['\t'] + tail);
    lemma_no_tab_first_tab(index, tail);
    lemma_no_tab_first_tab(name, rest);
    assert(line.skip(index.len() as int + 1).take(name.len() as int) == name);
    let short = index + seq!['\t'] + name;
    lemma_no_tab_first_tab(index, name);
    lemma_find_char(name, '\t');
    if find_char(name, '\t') >= 0 {
        assert(name[find_char(name, '\t')] == '\t');
    }
    assert(short.skip(index.len() as int + 1) == name);
}

/// The label of a `pactl` source is its name with the driver (the third
/// column) in brackets, whatever columns follow.
pub proof fn lemma_pulse_source_label(
    index: Seq<char>,
    name: Seq<char>,
    driver: Seq<char>,
    more: Seq<char>,
)
    requires
        forall|j: int| 0 <= j < index.len() ==> index[j] != '\t',
        forall|j: int| 0 <= j < name.len() ==> name[j] != '\t',
        forall|j: int| 0 <= j < driver.len() ==> driver[j] != '\t',
    ensures
        pulse_source(index + seq!['\t'] + name + seq!['\t'] + driver + seq!['\t'] + more) matches Some(
            k,
        ) && k.1 == name + " ("@ + driver + ")"@,
        pulse_source(index + seq!['\t'] + name + seq!['\t'] + driver) matches Some(k) && k.1 == name
            + " ("@ + driver + ")"@,
{
    let t1 = driver + seq!['\t'] + more;
    let line = index + seq!['\t'] + name + seq!['\t'] + driver + seq!['\t'] + more;
    assert(line =~= index + seq!['\t'] + (name + seq!['\t'] + t1));
    lemma_no_tab_first_tab(index, name + seq!['\t'] + t1);
    lemma_no_tab_first_tab(name, t1);
    lemma_no_tab_first_tab(driver, more);
    lemma_pulse_source_from_name(index, name, t1);
    let line2 = index + seq!['\t'] + name + seq!['\t'] + driver;
    assert(line2 =~= index + seq!['\t'] + (name + seq!['\t'] + driver));
    lemma_no_tab_first_tab(index, name + seq!['\t'] + driver);
    lemma_no_tab_first_tab(name, driver);
    lemma_pulse_source_from_name(index, name, driver);
    lemma_find_char(driver, '\t');
    if find_char(driver, '\t') >= 0 {
        assert(driver[find_char(driver, '\t')] == '\t');
    }
}

} // verus!
