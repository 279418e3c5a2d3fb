//! Capture formats: reading the listing that `v4l2-ctl --list-formats-ext`
//! prints, and the choices that the settings offer from it.
use std::collections::BTreeSet;
use vstd::prelude::*;

use crate::sets::{lemma_plain_keys_ordered, sorted_numbers, sorted_pairs};
use crate::order::{
    chars_less, chars_lt, insert_unique, key_set, keys, lemma_chars_lt_irreflexive,
    lemma_chars_lt_total, lemma_chars_lt_transitive, strictly_sorted, Keyed,
};
use crate::text::{
    chars_of, find_char, find_char_in, lemma_lines_newline, lemma_lines_of_concat, first_word, first_word_chars, lines_of, occurs_at,
    parse_u32, parse_u32_chars, second_piece, second_piece_bounds, slice_chars, split_lines,
    starts_with, string_from_chars, texts, trim, trim_bounds,
};

verus! {

/// One capture mode: pixel format, frame size and frame rate.
#[derive(Clone, Debug, Eq, Ord, PartialEq, PartialOrd)]
pub struct CaptureFormat {
    pub pixel_format: String,
    pub width: u32,
    pub height: u32,
    pub fps: u32,
}

/// A capture mode as plain values: pixel format, width, height, frame rate.
pub type FormatKey = (Seq<char>, u32, u32, u32);

impl View for CaptureFormat {
    type V = FormatKey;

    open spec fn view(&self) -> FormatKey {
        (self.pixel_format@, self.width, self.height, self.fps)
    }
}

/// The order of `CaptureFormat`'s derived `Ord`: field by field, the pixel
/// format compared as text.
pub open spec fn format_lt(a: FormatKey, b: FormatKey) -> bool {
    ||| chars_lt(a.0, b.0)
    ||| (a.0 == b.0 && a.1 < b.1)
    ||| (a.0 == b.0 && a.1 == b.1 && a.2 < b.2)
    ||| (a.0 == b.0 && a.1 == b.1 && a.2 == b.2 && a.3 < b.3)
}

impl Keyed for CaptureFormat {
    type K = FormatKey;

    open spec fn key(&self) -> FormatKey {
        self@
    }

    open spec fn key_lt(a: FormatKey, b: FormatKey) -> bool {
        format_lt(a, b)
    }

    proof fn lemma_key_order(a: FormatKey, b: FormatKey, c: FormatKey) {
        lemma_chars_lt_irreflexive(a.0);
        lemma_chars_lt_irreflexive(b.0);
        if chars_lt(a.0, b.0) && chars_lt(b.0, c.0) {
            lemma_chars_lt_transitive(a.0, b.0, c.0);
        }
        if chars_lt(a.0, b.0) && chars_lt(b.0, a.0) {
            lemma_chars_lt_transitive(a.0, b.0, a.0);
        }
        if a.0 != b.0 {
            lemma_chars_lt_total(a.0, b.0);
        }
        if a != b && a.0 == b.0 && a.1 == b.1 && a.2 == b.2 {
            assert(a.3 != b.3);
        }
    }

    fn key_less(&self, other: &Self) -> (r: bool) {
        let a = chars_of(self.pixel_format.as_str());
        let b = chars_of(other.pixel_format.as_str());
        if chars_less(&a, &b) {
            true
        } else if chars_less(&b, &a) {
            false
        } else {
            proof {
                if a@ != b@ {
                    lemma_chars_lt_total(a@, b@);
                }
            }
            self.width < other.width || (self.width == other.width && self.height < other.height)
                || (self.width == other.width && self.height == other.height && self.fps
                < other.fps)
        }
    }
}

impl CaptureFormat {
    /// The mode that the ShadowCast 3 Pro is used in by default:
    /// MJPG, 1920x1080, 60 frames per second.
    pub fn default_shadowcast() -> (f: Self)
        ensures
            f@ == ("MJPG"@, 1920u32, 1080u32, 60u32),
    {
        CaptureFormat { pixel_format: "MJPG".to_string(), width: 1920, height: 1080, fps: 60 }
    }

    /// A copy with the same fields.
    pub fn duplicate(&self) -> (r: Self)
        ensures
            r@ == self@,
    {
        CaptureFormat {
            pixel_format: self.pixel_format.clone(),
            width: self.width,
            height: self.height,
            fps: self.fps,
        }
    }
}

// ---------------------------------------------------------------------------
// Lines of the listing
// ---------------------------------------------------------------------------

/// The text between the first two `'` of a line, as in `[0]: 'MJPG' (...)`.
pub open spec fn quoted_name(line: Seq<char>) -> Option<Seq<char>> {
    let i = find_char(line, '\'');
    if i < 0 {
        None
    } else {
        let rest = line.skip(i + 1);
        let j = find_char(rest, '\'');
        if j < 0 {
            None
        } else {
            Some(rest.take(j))
        }
    }
}

/// The frame size of a line `Size: Discrete <width>x<height>`.
pub open spec fn size_line(line: Seq<char>) -> Option<(u32, u32)> {
    let p = "Size: Discrete "@;
    if !starts_with(line, p) {
        None
    } else {
        let rest = line.skip(p.len() as int);
        let i = find_char(rest, 'x');
        if i < 0 {
            None
        } else {
            match (parse_u32(rest.take(i)), parse_u32(rest.skip(i + 1))) {
                (Some(w), Some(h)) => Some((w, h)),
                _ => None,
            }
        }
    }
}

/// The first word after the first `(` of a line, as in
/// `Interval: Discrete 0.017s (60.000 fps)`: the text of its frame rate.
pub open spec fn fps_text(line: Seq<char>) -> Option<Seq<char>> {
    match second_piece(line, '(') {
        Some(p) => first_word(p),
        None => None,
    }
}

fn quoted_name_chars(t: &Vec<char>) -> (r: Option<Vec<char>>)
    ensures
        match quoted_name(t@) {
            None => r is None,
            Some(n) => r matches Some(x) && x@ == n,
        },
{
    assert(t@.subrange(0, t.len() as int) =~= t@);
    match find_char_in(t, '\'', 0, t.len()) {
        None => None,
        Some(i) => {
            assert(t@.skip(i + 1) =~= t@.subrange(i + 1, t.len() as int));
            match find_char_in(t, '\'', i + 1, t.len()) {
                None => None,
                Some(j) => {
                    assert(t@.skip(i + 1).take(j - (i + 1)) =~= t@.subrange(i + 1, j as int));
                    Some(slice_chars(t, i + 1, j))
                },
            }
        },
    }
}

fn size_line_chars(t: &Vec<char>) -> (r: Option<(u32, u32)>)
    ensures
        r == size_line(t@),
{
    let p = chars_of("Size: Discrete ");
    assert(t@.skip(0) =~= t@);
    if !occurs_at(t, &p, 0) {
        return None;
    }
    let start = p.len();
    let ghost rest = t@.skip(start as int);
    assert(rest =~= t@.subrange(start as int, t.len() as int));
    match find_char_in(t, 'x', start, t.len()) {
        None => None,
        Some(i) => {
            assert(rest.take(i - start) =~= t@.subrange(start as int, i as int));
            assert(rest.skip(i - start + 1) =~= t@.subrange(i + 1, t.len() as int));
            let w = parse_u32_chars(t, start, i);
            let h = parse_u32_chars(t, i + 1, t.len());
            match (w, h) {
                (Some(w), Some(h)) => Some((w, h)),
                _ => None,
            }
        },
    }
}

fn fps_text_chars(t: &Vec<char>) -> (r: Option<Vec<char>>)
    ensures
        match fps_text(t@) {
            None => r is None,
            Some(w) => r matches Some(x) && x@ == w,
        },
{
    assert(t@.subrange(0, t.len() as int) =~= t@);
    match second_piece_bounds(t, '(', 0, t.len()) {
        None => None,
        Some((a, b)) => first_word_chars(t, a, b),
    }
}

/// The pixel format named on a line of the listing, between its first two
/// `'`.
pub fn parse_pixel_format(line: &str) -> (r: Option<String>)
    ensures
        match quoted_name(line@) {
            None => r is None,
            Some(n) => r matches Some(x) && x@ == n,
        },
{
    let t = chars_of(line);
    match quoted_name_chars(&t) {
        None => None,
        Some(n) => Some(string_from_chars(n.as_slice())),
    }
}

/// The frame size on a line `Size: Discrete <width>x<height>`.
pub fn parse_size(line: &str) -> (r: Option<(u32, u32)>)
    ensures
        r == size_line(line@),
{
    let t = chars_of(line);
    size_line_chars(&t)
}

/// The text of the frame rate on an interval line: the first word after
/// its first `(`. What number it stands for is read as a float, outside
/// this library.
pub fn fps_token(line: &str) -> (r: Option<String>)
    ensures
        match fps_text(line@) {
            None => r is None,
            Some(w) => r matches Some(x) && x@ == w,
        },
{
    let t = chars_of(line);
    match fps_text_chars(&t) {
        None => None,
        Some(w) => Some(string_from_chars(w.as_slice())),
    }
}

// ---------------------------------------------------------------------------
// The whole listing
// ---------------------------------------------------------------------------

/// What the reader remembers between lines: the last pixel format named, and
/// the last frame size seen since.
pub type ScanState = (Option<Seq<char>>, Option<(u32, u32)>);

/// One line read in state `st`, whose frame rate (if it is an interval line)
/// is `fps`: the next state, and the capture mode the line completes.
pub open spec fn scan_line(st: ScanState, line: Seq<char>, fps: Option<u32>) -> (
    ScanState,
    Option<FormatKey>,
) {
    let t = trim(line);
    match quoted_name(t) {
        Some(pf) => ((Some(pf), None), None),
        None => match size_line(t) {
            Some(sz) => ((st.0, Some(sz)), None),
            None => match (st.0, st.1, fps) {
                (Some(pf), Some(sz), Some(f)) => (st, Some((pf, sz.0, sz.1, f))),
                _ => (st, None),
            },
        },
    }
}

/// The state after the first `n` lines, and the capture modes they list.
pub open spec fn scan_lines(lines: Seq<Seq<char>>, fps: Seq<Option<u32>>, n: nat) -> (
    ScanState,
    Set<FormatKey>,
)
    decreases n,
{
    if n == 0 {
        ((None, None), Set::empty())
    } else {
        let prev = scan_lines(lines, fps, (n - 1) as nat);
        let step = scan_line(prev.0, lines[n - 1], fps[n - 1]);
        (
            step.0,
            match step.1 {
                Some(f) => prev.1.insert(f),
                None => prev.1,
            },
        )
    }
}

/// The capture modes that a listing names, where `fps[i]` is the frame rate
/// read from line `i`.
pub open spec fn listed_formats(output: Seq<char>, fps: Seq<Option<u32>>) -> Set<FormatKey> {
    scan_lines(lines_of(output), fps, lines_of(output).len()).1
}

/// The state after the first `n` lines, and the capture modes they list,
/// reading from state `st`.
pub open spec fn scan_from(st: ScanState, lines: Seq<Seq<char>>, fps: Seq<Option<u32>>, n: nat) -> (
    ScanState,
    Set<FormatKey>,
)
    decreases n,
{
    if n == 0 {
        (st, Set::empty())
    } else {
        let prev = scan_from(st, lines, fps, (n - 1) as nat);
        let step = scan_line(prev.0, lines[n - 1], fps[n - 1]);
        (
            step.0,
            match step.1 {
                Some(f) => prev.1.insert(f),
                None => prev.1,
            },
        )
    }
}

/// The frame rate that line `l` gives, where `rate` says what number the
/// text of a frame rate (see `fps_text`) stands for.
pub open spec fn line_rate(l: Seq<char>, rate: spec_fn(Seq<char>) -> Option<u32>) -> Option<u32> {
    match fps_text(trim(l)) {
        Some(w) => rate(w),
        None => None,
    }
}

/// The frame rates of the lines of a listing, read with `rate`.
pub open spec fn rates_read(output: Seq<char>, rate: spec_fn(Seq<char>) -> Option<u32>) -> Seq<
    Option<u32>,
> {
    lines_of(output).map_values(|l: Seq<char>| line_rate(l, rate))
}

/// The capture modes of a listing whose frame rates are read with `rate`.
pub open spec fn listing_read(output: Seq<char>, rate: spec_fn(Seq<char>) -> Option<u32>) -> Set<
    FormatKey,
> {
    listed_formats(output, rates_read(output, rate))
}

proof fn lemma_scan_lines_from(lines: Seq<Seq<char>>, fps: Seq<Option<u32>>, n: nat)
    ensures
        scan_lines(lines, fps, n) == scan_from((None, None), lines, fps, n),
    decreases n,
{
    if n > 0 {
        lemma_scan_lines_from(lines, fps, (n - 1) as nat);
    }
}

/// Lines that are blank once trimmed, and give no frame rate, change nothing.
proof fn lemma_scan_blank(
    st: ScanState,
    lines: Seq<Seq<char>>,
    fps: Seq<Option<u32>>,
    m: nat,
    n: nat,
)
    requires
        m <= n <= lines.len(),
        n <= fps.len(),
        forall|i: int| m <= i < n ==> trim(#[trigger] lines[i]).len() == 0 && fps[i] is None,
    ensures
        scan_from(st, lines, fps, n) == scan_from(st, lines, fps, m),
    decreases n,
{
    if n > m {
        lemma_scan_blank(st, lines, fps, m, (n - 1) as nat);
        let t = trim(lines[n - 1]);
        assert(t =~= Seq::<char>::empty());
        assert(find_char(t, '\'') < 0);
        assert(!starts_with(t, "Size: Discrete "@)) by {
            reveal_strlit("Size: Discrete ");
        }
    }
}

/// Two series of lines that agree once trimmed, with the same frame rates,
/// read alike.
proof fn lemma_scan_alike(
    st: ScanState,
    a: Seq<Seq<char>>,
    fa: Seq<Option<u32>>,
    b: Seq<Seq<char>>,
    fb: Seq<Option<u32>>,
    n: nat,
)
    requires
        n <= a.len(),
        n <= b.len(),
        n <= fa.len(),
        n <= fb.len(),
        forall|i: int| 0 <= i < n ==> trim(#[trigger] a[i]) == trim(b[i]) && fa[i] == fb[i],
    ensures
        scan_from(st, a, fa, n) == scan_from(st, b, fb, n),
    decreases n,
{
    if n > 0 {
        lemma_scan_alike(st, a, fa, b, fb, (n - 1) as nat);
        assert(trim(a[n - 1]) == trim(b[n - 1]));
    }
}

/// Reading `a + b` from `st`: first the lines of `a`, then those of `b`
/// from the state that `a` left, the capture modes of both together.
proof fn lemma_scan_shift(
    st: ScanState,
    a: Seq<Seq<char>>,
    fa: Seq<Option<u32>>,
    b: Seq<Seq<char>>,
    fb: Seq<Option<u32>>,
    n: nat,
)
    requires
        fa.len() == a.len(),
        n <= b.len(),
        n <= fb.len(),
    ensures
        scan_from(st, a + b, fa + fb, a.len() + n) == (
            scan_from(scan_from(st, a, fa, a.len()).0, b, fb, n).0,
            scan_from(st, a, fa, a.len()).1.union(
                scan_from(scan_from(st, a, fa, a.len()).0, b, fb, n).1,
            ),
        ),
    decreases n,
{
    let first = scan_from(st, a, fa, a.len());
    if n == 0 {
        lemma_scan_alike(st, a + b, fa + fb, a, fa, a.len());
        assert(first.1.union(Set::<FormatKey>::empty()) =~= first.1);
    } else {
        lemma_scan_shift(st, a, fa, b, fb, (n - 1) as nat);
        assert((a + b)[a.len() + n - 1] == b[n - 1]);
        assert((fa + fb)[a.len() + n - 1] == fb[n - 1]);
        let prev = scan_from(first.0, b, fb, (n - 1) as nat);
        let step = scan_line(prev.0, b[n - 1], fb[n - 1]);
        match step.1 {
            Some(f) => {
                assert(first.1.union(prev.1).insert(f) =~= first.1.union(prev.1.insert(f)));
            },
            None => {},
        }
    }
}

/// After blank lines and a line that names a pixel format, reading goes on
/// alike whatever state it started from.
proof fn lemma_scan_restart(
    s1: ScanState,
    s2: ScanState,
    lines: Seq<Seq<char>>,
    fps: Seq<Option<u32>>,
    k: nat,
    n: nat,
)
    requires
        k < n <= lines.len(),
        n <= fps.len(),
        forall|i: int| 0 <= i < k ==> trim(#[trigger] lines[i]).len() == 0 && fps[i] is None,
        quoted_name(trim(lines[k as int])) is Some,
    ensures
        scan_from(s1, lines, fps, n) == scan_from(s2, lines, fps, n),
    decreases n,
{
    if n == k + 1 {
        lemma_scan_blank(s1, lines, fps, 0, k);
        lemma_scan_blank(s2, lines, fps, 0, k);
    } else {
        lemma_scan_restart(s1, s2, lines, fps, k, (n - 1) as nat);
    }
}

/// Two listings joined by a line break: where the second one's first
/// non-blank line (line `k` of it) names a pixel format, the joined listing
/// names exactly the capture modes that either one names. Frame rates are
/// read from each line's text alike, with `rate`.
pub proof fn lemma_listings_join(
    a: Seq<char>,
    b: Seq<char>,
    rate: spec_fn(Seq<char>) -> Option<u32>,
    k: nat,
)
    requires
        k <= lines_of(b).len(),
        forall|i: int| 0 <= i < k ==> trim(#[trigger] lines_of(b)[i]).len() == 0,
        k < lines_of(b).len() ==> quoted_name(trim(lines_of(b)[k as int])) is Some,
    ensures
        listing_read(a + seq!['\n'] + b, rate) == listing_read(a, rate).union(listing_read(b, rate)),
{
    let p = a + seq!['\n'];
    let la = lines_of(a);
    let l1 = lines_of(p);
    let l2 = lines_of(b);
    let fa = rates_read(a, rate);
    let f1 = rates_read(p, rate);
    let f2 = rates_read(b, rate);
    let init: ScanState = (None, None);
    lemma_lines_of_concat(p, b);
    lemma_lines_newline(a);
    let joined = a + seq!['\n'] + b;
    assert(joined =~= p + b);
    assert(lines_of(joined) == l1 + l2);
    assert(rates_read(joined, rate) =~= f1 + f2);
    // Blank lines give no frame rate.
    assert forall|l: Seq<char>| trim(l).len() == 0 implies #[trigger] line_rate(l, rate) is None by {
        assert(trim(l) =~= Seq::<char>::empty());
        assert(find_char(trim(l), '(') < 0);
    }
    // The joined listing.
    lemma_scan_lines_from(l1 + l2, f1 + f2, (l1.len() + l2.len()) as nat);
    lemma_scan_shift(init, l1, f1, l2, f2, l2.len());
    assert((l1 + l2).len() == l1.len() + l2.len());
    // The first part reads as `a` does.
    assert forall|i: int| la.len() <= i < l1.len() implies trim(#[trigger] l1[i]).len() == 0
        && f1[i] is None by {
        assert(l1[i].len() == 0);
        assert(trim(l1[i]) =~= Seq::<char>::empty());
        assert(f1[i] == line_rate(l1[i], rate));
    }
    lemma_scan_blank(init, l1, f1, la.len(), l1.len());
    assert forall|i: int| 0 <= i < la.len() implies trim(#[trigger] l1[i]) == trim(la[i]) && f1[i]
        == fa[i] by {
        assert(f1[i] == line_rate(l1[i], rate));
        assert(fa[i] == line_rate(la[i], rate));
    }
    lemma_scan_alike(init, l1, f1, la, fa, la.len());
    lemma_scan_lines_from(la, fa, la.len());
    // The second part reads as `b` does, whatever state the first left.
    let s1 = scan_from(init, l1, f1, l1.len()).0;
    lemma_scan_lines_from(l2, f2, l2.len());
    assert forall|i: int| 0 <= i < k implies trim(#[trigger] l2[i]).len() == 0 && f2[i] is None by {
        assert(f2[i] == line_rate(l2[i], rate));
    }
    if k < l2.len() {
        lemma_scan_restart(s1, init, l2, f2, k, l2.len());
    } else {
        lemma_scan_blank(s1, l2, f2, 0, l2.len());
        lemma_scan_blank(init, l2, f2, 0, l2.len());
    }
}

pub open spec fn opt_text(o: Option<Vec<char>>) -> Option<Seq<char>> {
    match o {
        Some(v) => Some(v@),
        None => None,
    }
}

/// The frame-rate text of each line of a listing (see `fps_token`), taken
/// from the line without its surrounding whitespace.
pub fn frame_rate_texts(output: &str) -> (r: Vec<Option<String>>)
    ensures
        r@.len() == lines_of(output@).len(),
        forall|i: int|
            0 <= i < r@.len() ==> match fps_text(trim(#[trigger] lines_of(output@)[i])) {
                None => r@[i] is None,
                Some(w) => r@[i] matches Some(x) && x@ == w,
            },
{
    let text = chars_of(output);
    let lines = split_lines(&text);
    let mut out: Vec<Option<String>> = Vec::new();
    let mut i: usize = 0;
    while i < lines.len()
        invariant
            texts(lines@) == lines_of(output@),
            i <= lines.len(),
            out@.len() == i,
            forall|j: int|
                0 <= j < i ==> match fps_text(trim(#[trigger] lines_of(output@)[j])) {
                    None => out@[j] is None,
                    Some(w) => out@[j] matches Some(x) && x@ == w,
                },
        decreases lines.len() - i,
    {
        let line = &lines[i];
        assert(texts(lines@)[i as int] == line@);
        let t = crate::text::trim_chars(line);
        let w = match fps_text_chars(&t) {
            None => None,
            Some(w) => Some(string_from_chars(w.as_slice())),
        };
        out.push(w);
        i += 1;
    }
    out
}

/// The capture modes of a `v4l2-ctl --list-formats-ext` listing, each once,
/// in the order of `CaptureFormat`. `frame_rates[i]` is the frame rate that
/// the text `frame_rate_texts` gives for line `i` stands for.
pub fn parse_v4l2_formats(output: &str, frame_rates: &Vec<Option<u32>>) -> (r: Vec<CaptureFormat>)
    requires
        frame_rates@.len() == lines_of(output@).len(),
    ensures
        strictly_sorted(r@),
        key_set(r@) == listed_formats(output@, frame_rates@),
{
    let text = chars_of(output);
    let lines = split_lines(&text);
    let mut formats: Vec<CaptureFormat> = Vec::new();
    let mut current_pf: Option<Vec<char>> = None;
    let mut current_size: Option<(u32, u32)> = None;
    let mut i: usize = 0;
    assert(key_set(formats@) =~= Set::<FormatKey>::empty());
    while i < lines.len()
        invariant
            texts(lines@) == lines_of(output@),
            frame_rates@.len() == lines@.len(),
            i <= lines.len(),
            strictly_sorted(formats@),
            scan_lines(texts(lines@), frame_rates@, i as nat) == (
                (opt_text(current_pf), current_size),
                key_set(formats@),
            ),
        decreases lines.len() - i,
    {
        let line = &lines[i];
        assert(texts(lines@)[i as int] == line@);
        let (lo, hi) = trim_bounds(line, 0, line.len());
        assert(line@.subrange(0, line.len() as int) =~= line@);
        let t = slice_chars(line, lo, hi);
        match quoted_name_chars(&t) {
            Some(pf) => {
                current_pf = Some(pf);
                current_size = None;
            },
            None => match size_line_chars(&t) {
                Some(sz) => {
                    current_size = Some(sz);
                },
                None => {
                    match (&current_pf, current_size, frame_rates[i]) {
                        (Some(pf), Some((w, h)), Some(f)) => {
                            let fmt = CaptureFormat {
                                pixel_format: string_from_chars(pf.as_slice()),
                                width: w,
                                height: h,
                                fps: f,
                            };
                            insert_unique(&mut formats, fmt);
                        },
                        _ => {},
                    }
                },
            },
        }
        i += 1;
    }
    formats
}

/// Whether the listing was had and names at least one capture mode.
pub open spec fn listing_names_modes(listing: Option<&str>, fps: Seq<Option<u32>>) -> bool {
    listing matches Some(text) && listed_formats(text@, fps) != Set::<FormatKey>::empty()
}

/// The capture modes to offer for a device: those of its listing, or the
/// ShadowCast default where the listing could not be had (`None`) or names
/// no mode.
pub fn list_formats(listing: Option<&str>, frame_rates: &Vec<Option<u32>>) -> (r: Vec<
    CaptureFormat,
>)
    requires
        listing matches Some(text) ==> frame_rates@.len() == lines_of(text@).len(),
    ensures
        r@.len() > 0,
        strictly_sorted(r@),
        listing_names_modes(listing, frame_rates@) ==> (listing matches Some(text) && key_set(r@)
            == listed_formats(text@, frame_rates@)),
        !listing_names_modes(listing, frame_rates@) ==> r@.len() == 1 && r@[0]@ == (
            "MJPG"@,
            1920u32,
            1080u32,
            60u32,
        ),
{
    match listing {
        None => {
            let mut v = Vec::new();
            v.push(CaptureFormat::default_shadowcast());
            v
        },
        Some(text) => {
            let parsed = parse_v4l2_formats(text, frame_rates);
            if parsed.len() == 0 {
                proof {
                    assert(key_set(parsed@) =~= Set::<FormatKey>::empty());
                }
                let mut v = Vec::new();
                v.push(CaptureFormat::default_shadowcast());
                v
            } else {
                proof {
                    assert(key_set(parsed@).contains(keys(parsed@)[0]));
                }
                parsed
            }
        },
    }
}

// ---------------------------------------------------------------------------
// Choices offered from a list of capture modes
// ---------------------------------------------------------------------------

/// The pixel formats of a list of capture modes.
pub open spec fn pixel_formats_in(formats: Seq<CaptureFormat>) -> Set<Seq<char>> {
    Set::new(
        |p: Seq<char>| exists|i: int| 0 <= i < formats.len() && formats[i].pixel_format@ == p,
    )
}

/// The frame sizes offered in pixel format `pf`.
pub open spec fn resolutions_in(formats: Seq<CaptureFormat>, pf: Seq<char>) -> Set<(u32, u32)> {
    Set::new(
        |r: (u32, u32)|
            exists|i: int|
                0 <= i < formats.len() && formats[i].pixel_format@ == pf && formats[i].width == r.0
                    && formats[i].height == r.1,
    )
}

/// The frame rates offered in pixel format `pf` at `width`x`height`.
pub open spec fn frame_rates_in(
    formats: Seq<CaptureFormat>,
    pf: Seq<char>,
    width: u32,
    height: u32,
) -> Set<u32> {
    Set::new(
        |f: u32|
            exists|i: int|
                0 <= i < formats.len() && formats[i].pixel_format@ == pf && formats[i].width
                    == width && formats[i].height == height && formats[i].fps == f,
    )
}

/// The distinct pixel formats of `formats`, in text order.
pub fn unique_pixel_formats(formats: &[CaptureFormat]) -> (r: Vec<String>)
    ensures
        strictly_sorted(r@),
        key_set(r@) == pixel_formats_in(formats@),
{
    let mut out: Vec<String> = Vec::new();
    let mut i: usize = 0;
    while i < formats.len()
        invariant
            i <= formats.len(),
            strictly_sorted(out@),
            forall|p: Seq<char>|
                #![trigger key_set(out@).contains(p)]
                key_set(out@).contains(p) <==> exists|j: int|
                    0 <= j < i && formats@[j].pixel_format@ == p,
        decreases formats.len() - i,
    {
        let ghost before = key_set(out@);
        let ghost x = formats@[i as int].pixel_format@;
        insert_unique(&mut out, formats[i].pixel_format.clone());
        assert forall|p: Seq<char>| key_set(out@).contains(p) <==> exists|j: int|
            0 <= j < i + 1 && formats@[j].pixel_format@ == p by {
            if p == x {
                assert(formats@[i as int].pixel_format@ == p);
            }
            if exists|j: int| 0 <= j < i + 1 && formats@[j].pixel_format@ == p {
                let j = choose|j: int| 0 <= j < i + 1 && formats@[j].pixel_format@ == p;
                if j < i {
                    assert(before.contains(p));
                }
            }
        }
        i += 1;
    }
    assert(key_set(out@) =~= pixel_formats_in(formats@));
    out
}

/// The distinct frame sizes offered in `pixel_format`, ordered by width,
/// then height.
pub fn unique_resolutions(formats: &[CaptureFormat], pixel_format: &str) -> (r: Vec<(u32, u32)>)
    ensures
        strictly_sorted(r@),
        key_set(r@) == resolutions_in(formats@, pixel_format@),
{
    let wanted = chars_of(pixel_format);
    let mut set: BTreeSet<(u32, u32)> = BTreeSet::new();
    let mut i: usize = 0;
    while i < formats.len()
        invariant
            i <= formats.len(),
            wanted@ == pixel_format@,
            forall|r: (u32, u32)|
                #![trigger set@.contains(r)]
                set@.contains(r) <==> exists|j: int|
                    0 <= j < i && formats@[j].pixel_format@ == pixel_format@ && formats@[j].width
                        == r.0 && formats@[j].height == r.1,
        decreases formats.len() - i,
    {
        proof {
            lemma_plain_keys_ordered();
        }
        let ghost before = set@;
        let f = &formats[i];
        let pf = chars_of(f.pixel_format.as_str());
        if crate::text::chars_equal(&pf, &wanted) {
            set.insert((f.width, f.height));
        }
        assert forall|r: (u32, u32)| set@.contains(r) <==> exists|j: int|
            0 <= j < i + 1 && formats@[j].pixel_format@ == pixel_format@ && formats@[j].width
                == r.0 && formats@[j].height == r.1 by {
            if exists|j: int|
                0 <= j < i + 1 && formats@[j].pixel_format@ == pixel_format@ && formats@[j].width
                    == r.0 && formats@[j].height == r.1 {
                let j = choose|j: int|
                    0 <= j < i + 1 && formats@[j].pixel_format@ == pixel_format@
                        && formats@[j].width == r.0 && formats@[j].height == r.1;
                if j < i {
                    assert(before.contains(r));
                }
            }
        }
        i += 1;
    }
    assert(set@ =~= resolutions_in(formats@, pixel_format@));
    sorted_pairs(&set)
}

/// The distinct frame rates offered in `pixel_format` at `width`x`height`,
/// in increasing order.
pub fn frame_rates_for(formats: &[CaptureFormat], pixel_format: &str, width: u32, height: u32) -> (r:
    Vec<u32>)
    ensures
        strictly_sorted(r@),
        key_set(r@) == frame_rates_in(formats@, pixel_format@, width, height),
{
    let wanted = chars_of(pixel_format);
    let mut set: BTreeSet<u32> = BTreeSet::new();
    let mut i: usize = 0;
    while i < formats.len()
        invariant
            i <= formats.len(),
            wanted@ == pixel_format@,
            forall|x: u32|
                #![trigger set@.contains(x)]
                set@.contains(x) <==> exists|j: int|
                    0 <= j < i && formats@[j].pixel_format@ == pixel_format@ && formats@[j].width
                        == width && formats@[j].height == height && formats@[j].fps == x,
        decreases formats.len() - i,
    {
        proof {
            lemma_plain_keys_ordered();
        }
        let ghost before = set@;
        let f = &formats[i];
        let pf = chars_of(f.pixel_format.as_str());
        if crate::text::chars_equal(&pf, &wanted) && f.width == width && f.height == height {
            set.insert(f.fps);
        }
        assert forall|x: u32| set@.contains(x) <==> exists|j: int|
            0 <= j < i + 1 && formats@[j].pixel_format@ == pixel_format@ && formats@[j].width
                == width && formats@[j].height == height && formats@[j].fps == x by {
            if exists|j: int|
                0 <= j < i + 1 && formats@[j].pixel_format@ == pixel_format@ && formats@[j].width
                    == width && formats@[j].height == height && formats@[j].fps == x {
                let j = choose|j: int|
                    0 <= j < i + 1 && formats@[j].pixel_format@ == pixel_format@
                        && formats@[j].width == width && formats@[j].height == height
                        && formats@[j].fps == x;
                if j < i {
                    assert(before.contains(x));
                }
            }
        }
        i += 1;
    }
    assert(set@ =~= frame_rates_in(formats@, pixel_format@, width, height));
    sorted_numbers(&set)
}

/// Every pixel format offered has at least one frame size in it.
pub proof fn lemma_offered_format_has_sizes(formats: Seq<CaptureFormat>, pf: Seq<char>)
    requires
        pixel_formats_in(formats).contains(pf),
    ensures
        resolutions_in(formats, pf) != Set::<(u32, u32)>::empty(),
{
    let i = choose|i: int| 0 <= i < formats.len() && formats[i].pixel_format@ == pf;
    assert(resolutions_in(formats, pf).contains((formats[i].width, formats[i].height)));
}

/// Every frame size offered in a pixel format has at least one frame rate.
pub proof fn lemma_offered_size_has_rates(
    formats: Seq<CaptureFormat>,
    pf: Seq<char>,
    width: u32,
    height: u32,
)
    requires
        resolutions_in(formats, pf).contains((width, height)),
    ensures
        frame_rates_in(formats, pf, width, height) != Set::<u32>::empty(),
{
    let i = choose|i: int|
        0 <= i < formats.len() && formats[i].pixel_format@ == pf && formats[i].width == width
            && formats[i].height == height;
    assert(frame_rates_in(formats, pf, width, height).contains(formats[i].fps));
}

} // verus!
