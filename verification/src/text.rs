//! Character-level text handling shared by the parsers: whitespace, trimming,
//! line splitting, searching, decimal numbers.
//!
//! Texts are handled as `Vec<char>`, viewed as `Seq<char>`; a `&str` or a
//! `String` is read into characters with `chars_of`, and results are turned
//! back into a `String` with `string_from_chars`.
use vstd::prelude::*;

verus! {

broadcast use vstd::string::group_string_axioms;

// ---------------------------------------------------------------------------
// Conversions between `str` and characters
// ---------------------------------------------------------------------------

/// The characters of `s`, one by one.
pub fn chars_of(s: &str) -> (v: Vec<char>)
    ensures
        v@ == s@,
{
    let mut v: Vec<char> = Vec::new();
    for c in it: s.chars()
        invariant
            it.seq() == s@,
            v@ == it.seq().take(it.index() as int),
    {
        v.push(c);
    }
    v
}

/// `String::from_iter` over the characters of a slice. std documents that
/// collecting characters into a `String` concatenates them in order; this
/// contract states exactly that.
#[verifier::external_body]
pub fn string_from_chars(chars: &[char]) -> (s: String)
    ensures
        s@ == chars@,
{
    chars.iter().collect::<String>()
}

/// The characters `v[from..to]`.
pub fn slice_chars(v: &Vec<char>, from: usize, to: usize) -> (r: Vec<char>)
    requires
        from <= to <= v.len(),
    ensures
        r@ == v@.subrange(from as int, to as int),
{
    let mut r: Vec<char> = Vec::new();
    let mut i = from;
    while i < to
        invariant
            from <= i <= to <= v.len(),
            r@ == v@.subrange(from as int, i as int),
        decreases to - i,
    {
        r.push(v[i]);
        i += 1;
    }
    r
}

/// Appends the characters of `tail` to `v`.
pub fn push_all(v: &mut Vec<char>, tail: &Vec<char>)
    ensures
        final(v)@ == old(v)@ + tail@,
{
    let mut i: usize = 0;
    while i < tail.len()
        invariant
            i <= tail.len(),
            v@ == old(v)@ + tail@.take(i as int),
        decreases tail.len() - i,
    {
        v.push(tail[i]);
        i += 1;
        assert(tail@.take(i as int) == tail@.take((i - 1) as int).push(tail@[i - 1]));
    }
    assert(tail@.take(tail.len() as int) == tail@);
}

/// Appends the characters of a string slice to `v`.
pub fn push_str(v: &mut Vec<char>, s: &str)
    ensures
        final(v)@ == old(v)@ + s@,
{
    let t = chars_of(s);
    push_all(v, &t);
}

/// Whether two character sequences are equal.
pub fn chars_equal(a: &Vec<char>, b: &Vec<char>) -> (r: bool)
    ensures
        r == (a@ == b@),
{
    if a.len() != b.len() {
        return false;
    }
    let mut i: usize = 0;
    while i < a.len()
        invariant
            a.len() == b.len(),
            i <= a.len(),
            forall|j: int| 0 <= j < i ==> a@[j] == b@[j],
        decreases a.len() - i,
    {
        if a[i] != b[i] {
            return false;
        }
        i += 1;
    }
    assert(a@ =~= b@);
    true
}

/// Whether a string slice holds exactly the characters of `lit`.
pub fn str_is(s: &str, lit: &str) -> (r: bool)
    ensures
        r == (s@ == lit@),
{
    let a = chars_of(s);
    let b = chars_of(lit);
    chars_equal(&a, &b)
}

// ---------------------------------------------------------------------------
// Whitespace and trimming
// ---------------------------------------------------------------------------

/// Unicode `White_Space`, the property that `char::is_whitespace` tests.
pub open spec fn is_white(c: char) -> bool {
    ||| c == '\t'
    ||| c == '\n'
    ||| c == '\x0B'
    ||| c == '\x0C'
    ||| c == '\r'
    ||| c == ' '
    ||| c == '\u{85}'
    ||| c == '\u{A0}'
    ||| c == '\u{1680}'
    ||| ('\u{2000}' <= c && c <= '\u{200A}')
    ||| c == '\u{2028}'
    ||| c == '\u{2029}'
    ||| c == '\u{202F}'
    ||| c == '\u{205F}'
    ||| c == '\u{3000}'
}

pub fn is_white_char(c: char) -> (r: bool)
    ensures
        r == is_white(c),
{
    c == '\t' || c == '\n' || c == '\x0B' || c == '\x0C' || c == '\r' || c == ' ' || c
        == '\u{85}' || c == '\u{A0}' || c == '\u{1680}' || ('\u{2000}' <= c && c <= '\u{200A}')
        || c == '\u{2028}' || c == '\u{2029}' || c == '\u{202F}' || c == '\u{205F}' || c
        == '\u{3000}'
}

/// `s` without its leading whitespace.
pub open spec fn trim_start(s: Seq<char>) -> Seq<char>
    decreases s.len(),
{
    if s.len() > 0 && is_white(s[0]) {
        trim_start(s.drop_first())
    } else {
        s
    }
}

/// `s` without its trailing whitespace.
pub open spec fn trim_end(s: Seq<char>) -> Seq<char>
    decreases s.len(),
{
    if s.len() > 0 && is_white(s.last()) {
        trim_end(s.drop_last())
    } else {
        s
    }
}

/// `s` without leading and trailing whitespace, as `str::trim` gives it.
pub open spec fn trim(s: Seq<char>) -> Seq<char> {
    trim_end(trim_start(s))
}

/// The bounds `[lo, hi)` of `trim(v[from..to])` inside `v`.
pub fn trim_bounds(v: &Vec<char>, from: usize, to: usize) -> (r: (usize, usize))
    requires
        from <= to <= v.len(),
    ensures
        from <= r.0 <= r.1 <= to,
        v@.subrange(r.0 as int, r.1 as int) == trim(v@.subrange(from as int, to as int)),
{
    let ghost s = v@.subrange(from as int, to as int);
    let mut lo = from;
    while lo < to && is_white_char(v[lo])
        invariant
            from <= lo <= to <= v.len(),
            s == v@.subrange(from as int, to as int),
            trim_start(s) == trim_start(v@.subrange(lo as int, to as int)),
        decreases to - lo,
    {
        assert(v@.subrange(lo as int, to as int).drop_first() =~= v@.subrange(lo + 1, to as int));
        lo += 1;
    }
    assert(trim_start(v@.subrange(lo as int, to as int)) == v@.subrange(lo as int, to as int));
    let mut hi = to;
    while hi > lo && is_white_char(v[hi - 1])
        invariant
            from <= lo <= hi <= to <= v.len(),
            trim(s) == trim_end(v@.subrange(lo as int, hi as int)),
        decreases hi,
    {
        assert(v@.subrange(lo as int, hi as int).drop_last() =~= v@.subrange(lo as int, hi - 1));
        hi -= 1;
    }
    (lo, hi)
}

/// `trim(v)` as new characters.
pub fn trim_chars(v: &Vec<char>) -> (r: Vec<char>)
    ensures
        r@ == trim(v@),
{
    let (lo, hi) = trim_bounds(v, 0, v.len());
    assert(v@.subrange(0, v.len() as int) =~= v@);
    slice_chars(v, lo, hi)
}

// ---------------------------------------------------------------------------
// Searching
// ---------------------------------------------------------------------------

/// Index of the first `c` in `s`, or -1.
pub open spec fn find_char(s: Seq<char>, c: char) -> int
    decreases s.len(),
{
    if s.len() == 0 {
        -1
    } else if s[0] == c {
        0
    } else {
        let r = find_char(s.drop_first(), c);
        if r < 0 {
            -1
        } else {
            r + 1
        }
    }
}

pub proof fn lemma_find_char(s: Seq<char>, c: char)
    ensures
        -1 <= find_char(s, c) < s.len(),
        find_char(s, c) >= 0 ==> s[find_char(s, c)] == c,
        forall|i: int|
            0 <= i < s.len() && (find_char(s, c) < 0 || i < find_char(s, c)) ==> #[trigger] s[i]
                != c,
    decreases s.len(),
{
    if s.len() > 0 && s[0] != c {
        lemma_find_char(s.drop_first(), c);
        assert forall|i: int|
            0 <= i < s.len() && (find_char(s, c) < 0 || i < find_char(s, c)) implies #[trigger] s[i]
            != c by {
            if i > 0 {
                assert(s[i] == s.drop_first()[i - 1]);
            }
        }
    }
}

/// Position of the first `c` in `v[from..to]`, counted from the start of `v`.
pub fn find_char_in(v: &Vec<char>, c: char, from: usize, to: usize) -> (r: Option<usize>)
    requires
        from <= to <= v.len(),
    ensures
        ({
            let f = find_char(v@.subrange(from as int, to as int), c);
            match r {
                None => f < 0,
                Some(i) => from <= i < to && f == i - from,
            }
        }),
{
    let ghost s = v@.subrange(from as int, to as int);
    proof {
        lemma_find_char(s, c);
    }
    let mut i = from;
    while i < to
        invariant
            from <= i <= to <= v.len(),
            s == v@.subrange(from as int, to as int),
            forall|j: int| from <= j < i ==> v@[j] != c,
        decreases to - i,
    {
        if v[i] == c {
            proof {
                lemma_find_char(s, c);
                let f = find_char(s, c);
                assert(s[i - from] == c);
                if f >= 0 && f < i - from {
                    assert(v@[from + f] == s[f]);
                }
            }
            return Some(i);
        }
        i += 1;
    }
    proof {
        lemma_find_char(s, c);
        let f = find_char(s, c);
        if f >= 0 {
            assert(v@[from + f] == s[f]);
        }
    }
    None
}

/// Whether `p` is a prefix of `s`.
pub open spec fn starts_with(s: Seq<char>, p: Seq<char>) -> bool {
    p.len() <= s.len() && s.take(p.len() as int) == p
}

/// Whether `p` occurs in `v` at position `at`.
pub fn occurs_at(v: &Vec<char>, p: &Vec<char>, at: usize) -> (r: bool)
    requires
        at <= v.len(),
    ensures
        r == starts_with(v@.skip(at as int), p@),
{
    if p.len() > v.len() - at {
        return false;
    }
    let mut i: usize = 0;
    while i < p.len()
        invariant
            i <= p.len(),
            at + p.len() <= v.len(),
            forall|j: int| 0 <= j < i ==> v@[at + j] == p@[j],
        decreases p.len() - i,
    {
        if v[at + i] != p[i] {
            assert(v@.skip(at as int).take(p.len() as int)[i as int] == v@[at + i]);
            return false;
        }
        i += 1;
    }
    assert(v@.skip(at as int).take(p.len() as int) =~= p@);
    true
}

/// Index of the first occurrence of the non-empty pattern `p` in `s`, or -1.
pub open spec fn find_str(s: Seq<char>, p: Seq<char>) -> int
    decreases s.len(),
{
    if p.len() > s.len() {
        -1
    } else if starts_with(s, p) {
        0
    } else if s.len() == 0 {
        -1
    } else {
        let r = find_str(s.drop_first(), p);
        if r < 0 {
            -1
        } else {
            r + 1
        }
    }
}

/// Whether `p` occurs in `s`.
pub open spec fn contains(s: Seq<char>, p: Seq<char>) -> bool {
    find_str(s, p) >= 0
}

/// `p` stands in `s` at position `i`.
pub open spec fn holds_at(s: Seq<char>, p: Seq<char>, i: int) -> bool {
    0 <= i && i + p.len() <= s.len() && s.subrange(i, i + p.len()) == p
}

/// `contains` is "`p` stands somewhere in `s`".
pub proof fn lemma_contains_iff(s: Seq<char>, p: Seq<char>)
    ensures
        contains(s, p) <==> exists|i: int| #[trigger] holds_at(s, p, i),
{
    lemma_find_str(s, p);
    let f = find_str(s, p);
    if f >= 0 {
        assert(s.skip(f).take(p.len() as int) =~= s.subrange(f, f + p.len()));
        assert(holds_at(s, p, f));
    } else {
        assert forall|i: int| !#[trigger] holds_at(s, p, i) by {
            if holds_at(s, p, i) {
                assert(s.skip(i).take(p.len() as int) =~= s.subrange(i, i + p.len()));
                assert(starts_with(s.skip(i), p));
            }
        }
    }
}

pub proof fn lemma_find_str(s: Seq<char>, p: Seq<char>)
    ensures
        -1 <= find_str(s, p),
        find_str(s, p) >= 0 ==> find_str(s, p) <= s.len() - p.len(),
        find_str(s, p) >= 0 ==> starts_with(s.skip(find_str(s, p)), p),
        forall|i: int|
            0 <= i <= s.len() - p.len() && (find_str(s, p) < 0 || i < find_str(s, p))
                ==> !starts_with(#[trigger] s.skip(i), p),
    decreases s.len(),
{
    assert(s.skip(0) =~= s);
    if p.len() <= s.len() && !starts_with(s, p) && s.len() > 0 {
        lemma_find_str(s.drop_first(), p);
        assert forall|i: int|
            0 <= i <= s.len() - p.len() && (find_str(s, p) < 0 || i < find_str(s, p)) implies !starts_with(
            #[trigger] s.skip(i),
            p,
        ) by {
            if i > 0 {
                assert(s.skip(i) =~= s.drop_first().skip(i - 1));
            }
        }
        let f = find_str(s, p);
        if f >= 0 {
            assert(s.skip(f) =~= s.drop_first().skip(f - 1));
        }
    }
}

/// Position of the first occurrence of `p` in `v[from..]`, counted from the
/// start of `v`.
pub fn find_str_in(v: &Vec<char>, p: &Vec<char>, from: usize) -> (r: Option<usize>)
    requires
        from <= v.len(),
        p@.len() > 0,
    ensures
        ({
            let f = find_str(v@.skip(from as int), p@);
            match r {
                None => f < 0,
                Some(i) => from <= i && i + p@.len() <= v@.len() && f == i - from,
            }
        }),
{
    let ghost s = v@.skip(from as int);
    proof {
        lemma_find_str(s, p@);
    }
    if p.len() > v.len() - from {
        return None;
    }
    let mut i = from;
    while i <= v.len() - p.len()
        invariant
            from <= i,
            0 < p.len() <= v.len() - from,
            i <= v.len() - p.len() + 1,
            s == v@.skip(from as int),
            forall|j: int| from <= j < i ==> !starts_with(#[trigger] v@.skip(j), p@),
        decreases v.len() - i,
    {
        if occurs_at(v, p, i) {
            proof {
                lemma_find_str(s, p@);
                let f = find_str(s, p@);
                assert(s.skip(i - from) =~= v@.skip(i as int));
                if f >= 0 && f < i - from {
                    assert(s.skip(f) =~= v@.skip(from + f));
                }
            }
            return Some(i);
        }
        i += 1;
    }
    proof {
        lemma_find_str(s, p@);
        let f = find_str(s, p@);
        if f >= 0 {
            assert(s.skip(f) =~= v@.skip(from + f));
        }
    }
    None
}

/// Whether `p` occurs in `v`.
pub fn contains_chars(v: &Vec<char>, p: &Vec<char>) -> (r: bool)
    requires
        p@.len() > 0,
    ensures
        r == contains(v@, p@),
{
    assert(v@.skip(0) =~= v@);
    find_str_in(v, p, 0).is_some()
}

// ---------------------------------------------------------------------------
// Lines
// ---------------------------------------------------------------------------

/// A line as `str::lines` yields it when a `'\n'` ended it: one `'\r'`
/// before that `'\n'` is dropped.
pub open spec fn line_text(l: Seq<char>) -> Seq<char> {
    if l.len() > 0 && l.last() == '\r' {
        l.drop_last()
    } else {
        l
    }
}

/// The lines of `s`, as `str::lines` yields them: split at each `'\n'`,
/// without a `'\r'` just before it, and with no empty last line after a
/// final `'\n'`.
pub open spec fn lines_of(s: Seq<char>) -> Seq<Seq<char>>
    decreases s.len(),
{
    if s.len() == 0 {
        seq![]
    } else {
        let i = find_char(s, '\n');
        if i < 0 {
            seq![s]
        } else {
            proof {
                lemma_find_char(s, '\n');
            }
            seq![line_text(s.take(i))] + lines_of(s.skip(i + 1))
        }
    }
}

/// The views of a vector of texts.
pub open spec fn texts(v: Seq<Vec<char>>) -> Seq<Seq<char>> {
    v.map_values(|t: Vec<char>| t@)
}

/// The lines of `v`, as `lines_of` describes them.
pub fn split_lines(v: &Vec<char>) -> (r: Vec<Vec<char>>)
    ensures
        texts(r@) == lines_of(v@),
{
    let mut r: Vec<Vec<char>> = Vec::new();
    let mut pos: usize = 0;
    assert(v@.skip(0) =~= v@);
    assert(texts(r@) =~= Seq::<Seq<char>>::empty());
    while pos < v.len()
        invariant
            pos <= v.len(),
            lines_of(v@) == texts(r@) + lines_of(v@.skip(pos as int)),
        decreases v.len() - pos,
    {
        let ghost rest = v@.skip(pos as int);
        let ghost prev = r@;
        assert(v@.subrange(pos as int, v.len() as int) =~= rest);
        proof {
            lemma_find_char(rest, '\n');
        }
        match find_char_in(v, '\n', pos, v.len()) {
            None => {
                let line = slice_chars(v, pos, v.len());
                r.push(line);
                assert(texts(r@) =~= texts(prev).push(rest));
                assert(lines_of(rest) == seq![rest]);
                pos = v.len();
                assert(v@.skip(pos as int) =~= Seq::<char>::empty());
                assert(texts(r@) =~= texts(prev) + lines_of(rest));
            },
            Some(i) => {
                let ghost k = i - pos;
                let mut end = i;
                if end > pos && v[end - 1] == '\r' {
                    end = end - 1;
                }
                let line = slice_chars(v, pos, end);
                assert(rest.take(k) =~= v@.subrange(pos as int, i as int));
                assert(line@ =~= line_text(rest.take(k)));
                r.push(line);
                pos = i + 1;
                assert(rest.skip(k + 1) =~= v@.skip(pos as int));
                assert(texts(r@) =~= texts(prev).push(line_text(rest.take(k))));
                assert(lines_of(rest) == seq![line_text(rest.take(k))] + lines_of(rest.skip(k + 1)));
                assert(texts(r@) + lines_of(v@.skip(pos as int)) =~= texts(prev) + lines_of(rest));
            },
        }
    }
    r
}

/// Searching `p + b`: a `c` inside `p` is found there; otherwise the search
/// goes on into `b`.
pub proof fn lemma_find_char_concat(p: Seq<char>, b: Seq<char>, c: char)
    ensures
        find_char(p, c) >= 0 ==> find_char(p + b, c) == find_char(p, c),
        find_char(p, c) < 0 ==> find_char(p + b, c) == (if find_char(b, c) < 0 {
            -1
        } else {
            p.len() + find_char(b, c)
        }),
    decreases p.len(),
{
    if p.len() == 0 {
        assert(p + b =~= b);
    } else {
        assert((p + b)[0] == p[0]);
        if p[0] != c {
            assert((p + b).drop_first() =~= p.drop_first() + b);
            lemma_find_char_concat(p.drop_first(), b, c);
        }
    }
}

/// Text that ends with a `'\n'` splits into its own lines, then the lines of
/// what follows it.
pub proof fn lemma_lines_of_concat(p: Seq<char>, b: Seq<char>)
    requires
        p.len() > 0,
        p.last() == '\n',
    ensures
        lines_of(p + b) == lines_of(p) + lines_of(b),
    decreases p.len(),
{
    lemma_find_char(p, '\n');
    let i = find_char(p, '\n');
    if i < 0 {
        assert(p[p.len() - 1] != '\n');
    }
    lemma_find_char_concat(p, b, '\n');
    assert((p + b).take(i) =~= p.take(i));
    assert((p + b).skip(i + 1) =~= p.skip(i + 1) + b);
    if i + 1 == p.len() {
        assert(p.skip(i + 1) =~= Seq::<char>::empty());
        assert(p.skip(i + 1) + b =~= b);
        assert(lines_of(Seq::<char>::empty()) == Seq::<Seq<char>>::empty());
        assert(lines_of(p) == seq![line_text(p.take(i))] + lines_of(p.skip(i + 1)));
        assert(lines_of(p) =~= seq![line_text(p.take(i))]);
    } else {
        assert(p.skip(i + 1).last() == p.last());
        lemma_lines_of_concat(p.skip(i + 1), b);
    }
    assert(lines_of(p + b) =~= lines_of(p) + lines_of(b));
}

proof fn lemma_trim_start_drop_last(s: Seq<char>)
    requires
        s.len() > 0,
    ensures
        trim_start(s.drop_last()) == (if trim_start(s).len() == 0 {
            Seq::<char>::empty()
        } else {
            trim_start(s).drop_last()
        }),
        trim_start(s).len() > 0 ==> trim_start(s).last() == s.last(),
    decreases s.len(),
{
    if s.len() == 1 {
        assert(s.drop_last() =~= Seq::<char>::empty());
        if is_white(s[0]) {
            assert(s.drop_first() =~= Seq::<char>::empty());
        }
    } else {
        assert(s.drop_last()[0] == s[0]);
        if is_white(s[0]) {
            assert(s.drop_last().drop_first() =~= s.drop_first().drop_last());
            lemma_trim_start_drop_last(s.drop_first());
        }
    }
}

/// Dropping the `'\r'` before a line's end changes nothing once the line is
/// trimmed.
pub proof fn lemma_trim_line_text(s: Seq<char>)
    ensures
        trim(line_text(s)) == trim(s),
{
    if s.len() > 0 && s.last() == '\r' {
        lemma_trim_start_drop_last(s);
    }
}

/// A `'\n'` put after a text leaves its lines as they are, but for the
/// `'\r'` that a line then loses, and it may add one empty line.
pub proof fn lemma_lines_newline(a: Seq<char>)
    ensures
        lines_of(a).len() <= lines_of(a + seq!['\n']).len(),
        forall|i: int|
            0 <= i < lines_of(a).len() ==> trim(#[trigger] lines_of(a + seq!['\n'])[i]) == trim(
                lines_of(a)[i],
            ),
        forall|i: int|
            lines_of(a).len() <= i < lines_of(a + seq!['\n']).len() ==> (#[trigger] lines_of(
                a + seq!['\n'],
            )[i]).len() == 0,
    decreases a.len(),
{
    let n = seq!['\n'];
    let an = a + n;
    lemma_find_char(a, '\n');
    lemma_find_char_concat(a, n, '\n');
    let i = find_char(a, '\n');
    if a.len() == 0 {
        assert(an =~= n);
        assert(n.skip(1) =~= Seq::<char>::empty());
        assert(n.take(0) =~= Seq::<char>::empty());
        assert(lines_of(Seq::<char>::empty()) == Seq::<Seq<char>>::empty());
        assert(find_char(n, '\n') == 0);
        assert(lines_of(n) == seq![line_text(n.take(0))] + lines_of(n.skip(1)));
        assert(lines_of(an) =~= seq![line_text(Seq::<char>::empty())]);
    } else if i >= 0 {
        assert(an.take(i) =~= a.take(i));
        assert(an.skip(i + 1) =~= a.skip(i + 1) + n);
        lemma_lines_newline(a.skip(i + 1));
        let rest = lines_of(a.skip(i + 1));
        let rest_n = lines_of(a.skip(i + 1) + n);
        assert(lines_of(a) == seq![line_text(a.take(i))] + rest);
        assert(lines_of(an) == seq![line_text(a.take(i))] + rest_n);
        assert forall|j: int| 0 <= j < lines_of(a).len() implies trim(
            #[trigger] lines_of(an)[j],
        ) == trim(lines_of(a)[j]) by {
            if j > 0 {
                assert(lines_of(an)[j] == rest_n[j - 1]);
                assert(lines_of(a)[j] == rest[j - 1]);
            }
        }
        assert forall|j: int| lines_of(a).len() <= j < lines_of(an).len() implies (
        #[trigger] lines_of(an)[j]).len() == 0 by {
            assert(lines_of(an)[j] == rest_n[j - 1]);
        }
    } else {
        assert(find_char(n, '\n') == 0);
        assert(an.take(a.len() as int) =~= a);
        assert(an.skip(a.len() as int + 1) =~= Seq::<char>::empty());
        assert(lines_of(Seq::<char>::empty()) == Seq::<Seq<char>>::empty());
        assert(find_char(an, '\n') == a.len());
        assert(lines_of(an) == seq![line_text(an.take(a.len() as int))] + lines_of(
            an.skip(a.len() as int + 1),
        ));
        assert(lines_of(an) =~= seq![line_text(a)]);
        assert(lines_of(a) =~= seq![a]);
        lemma_trim_line_text(a);
    }
}


// ---------------------------------------------------------------------------
// Decimal numbers
// ---------------------------------------------------------------------------

pub open spec fn is_digit(c: char) -> bool {
    '0' <= c && c <= '9'
}

/// The value of an ASCII digit.
pub open spec fn digit_value(c: char) -> int {
    (c as int) - 48
}

/// The ASCII digit of a value below ten.
pub open spec fn digit_char(d: int) -> char {
    (d + 48) as char
}

pub open spec fn all_digits(s: Seq<char>) -> bool {
    forall|i: int| 0 <= i < s.len() ==> is_digit(#[trigger] s[i])
}

/// The number that the decimal digits `s` write.
pub open spec fn digits_value(s: Seq<char>) -> nat
    decreases s.len(),
{
    if s.len() == 0 {
        0
    } else {
        (digits_value(s.drop_last()) * 10 + digit_value(s.last())) as nat
    }
}

/// What `str::parse::<u32>` gives: an optional `'+'`, then one or more ASCII
/// digits whose value fits in a `u32`.
pub open spec fn parse_u32(s: Seq<char>) -> Option<u32> {
    let d = if s.len() > 0 && s[0] == '+' {
        s.drop_first()
    } else {
        s
    };
    if d.len() > 0 && all_digits(d) && digits_value(d) <= u32::MAX {
        Some(digits_value(d) as u32)
    } else {
        None
    }
}

/// The decimal digits of `n`, without leading zeros.
pub open spec fn decimal(n: nat) -> Seq<char>
    decreases n,
{
    if n < 10 {
        seq![digit_char(n as int)]
    } else {
        decimal(n / 10) + seq![digit_char((n % 10) as int)]
    }
}

proof fn lemma_digits_value_prefix(s: Seq<char>, k: int)
    requires
        0 <= k <= s.len(),
        all_digits(s),
    ensures
        digits_value(s.take(k)) <= digits_value(s),
    decreases s.len(),
{
    if k < s.len() {
        assert(s.drop_last().take(k) =~= s.take(k));
        assert(is_digit(s[s.len() - 1]));
        lemma_digits_value_prefix(s.drop_last(), k);
    } else {
        assert(s.take(k) =~= s);
    }
}

/// `parse_u32(v[from..to])`.
pub fn parse_u32_chars(v: &Vec<char>, from: usize, to: usize) -> (r: Option<u32>)
    requires
        from <= to <= v.len(),
    ensures
        r == parse_u32(v@.subrange(from as int, to as int)),
{
    let ghost s = v@.subrange(from as int, to as int);
    let mut start = from;
    if start < to && v[start] == '+' {
        start = start + 1;
    }
    let ghost d = v@.subrange(start as int, to as int);
    assert(d =~= (if s.len() > 0 && s[0] == '+' { s.drop_first() } else { s }));
    if start == to {
        return None;
    }
    let mut acc: u64 = 0;
    let mut i = start;
    while i < to
        invariant
            from <= start <= i <= to <= v.len(),
            d == v@.subrange(start as int, to as int),
            s == v@.subrange(from as int, to as int),
            d == (if s.len() > 0 && s[0] == '+' {
                s.drop_first()
            } else {
                s
            }),
            d.len() > 0,
            all_digits(d.take(i - start)),
            acc == digits_value(d.take(i - start)),
            acc <= u32::MAX,
        decreases to - i,
    {
        let c = v[i];
        if c < '0' || c > '9' {
            assert(d[i - start] == c);
            return None;
        }
        let ghost prefix = d.take(i - start + 1);
        assert(prefix.drop_last() =~= d.take(i - start));
        assert(prefix.last() == c);
        acc = acc * 10 + ((c as u32) - 48) as u64;
        i = i + 1;
        assert(all_digits(d.take(i - start)));
        if acc > 0xffff_ffff {
            proof {
                if all_digits(d) {
                    lemma_digits_value_prefix(d, i - start);
                }
            }
            return None;
        }
    }
    assert(d.take(to - start) =~= d);
    Some(acc as u32)
}

/// The ASCII digit of `d`.
pub fn digit_of(d: u64) -> (c: char)
    requires
        d < 10,
    ensures
        c == digit_char(d as int),
{
    match d {
        0 => '0',
        1 => '1',
        2 => '2',
        3 => '3',
        4 => '4',
        5 => '5',
        6 => '6',
        7 => '7',
        8 => '8',
        _ => '9',
    }
}

/// Appends the decimal digits of `n` to `v`.
pub fn push_decimal(v: &mut Vec<char>, n: u64)
    ensures
        final(v)@ == old(v)@ + decimal(n as nat),
    decreases n,
{
    if n < 10 {
        v.push(digit_of(n));
    } else {
        push_decimal(v, n / 10);
        v.push(digit_of(n % 10));
        assert(final(v)@ =~= old(v)@ + decimal(n as nat));
    }
}

/// Appends the decimal digits of `n`, padded with zeros to at least two.
pub fn push_two_digits(v: &mut Vec<char>, n: u64)
    ensures
        final(v)@ == old(v)@ + (if n < 10 {
            seq!['0'] + decimal(n as nat)
        } else {
            decimal(n as nat)
        }),
{
    if n < 10 {
        v.push('0');
    }
    push_decimal(v, n);
    assert(final(v)@ =~= old(v)@ + (if n < 10 {
        seq!['0'] + decimal(n as nat)
    } else {
        decimal(n as nat)
    }));
}

/// Reading back the decimal digits of a number gives that number.
pub proof fn lemma_parse_decimal(n: nat)
    requires
        n <= u32::MAX,
    ensures
        parse_u32(decimal(n)) == Some(n as u32),
{
    lemma_decimal_digits(n);
    assert(decimal(n).len() > 0);
    assert(is_digit(decimal(n)[0]));
}

pub proof fn lemma_decimal_digits(n: nat)
    ensures
        decimal(n).len() > 0,
        all_digits(decimal(n)),
        digits_value(decimal(n)) == n,
    decreases n,
{
    assert(digit_value(digit_char((n % 10) as int)) == n % 10);
    if n < 10 {
        assert(n % 10 == n);
        assert(decimal(n).drop_last() =~= Seq::<char>::empty());
        assert(digits_value(decimal(n)) == digits_value(Seq::<char>::empty()) * 10 + digit_value(
            digit_char(n as int),
        ));
    } else {
        lemma_decimal_digits(n / 10);
        let d = decimal(n);
        assert(d.drop_last() =~= decimal(n / 10));
        assert(d.last() == digit_char((n % 10) as int));
        assert((n / 10) * 10 + n % 10 == n);
        assert(digits_value(d) == digits_value(decimal(n / 10)) * 10 + digit_value(d.last()));
        assert forall|i: int| 0 <= i < d.len() implies is_digit(#[trigger] d[i]) by {
            if i < d.len() - 1 {
                assert(d[i] == decimal(n / 10)[i]);
            }
        }
    }
}

// ---------------------------------------------------------------------------
// ASCII case
// ---------------------------------------------------------------------------

/// `char::to_ascii_lowercase`.
pub open spec fn ascii_lower(c: char) -> char {
    if 'A' <= c && c <= 'Z' {
        ((c as int) + 32) as char
    } else {
        c
    }
}

/// `str::to_ascii_lowercase`.
pub open spec fn to_ascii_lower(s: Seq<char>) -> Seq<char> {
    s.map_values(|c: char| ascii_lower(c))
}

pub fn lower_char(c: char) -> (r: char)
    ensures
        r == ascii_lower(c),
{
    if 'A' <= c && c <= 'Z' {
        let b: u8 = c as u8;
        (b + 32) as char
    } else {
        c
    }
}

pub fn lower_chars(v: &Vec<char>) -> (r: Vec<char>)
    ensures
        r@ == to_ascii_lower(v@),
{
    let mut r: Vec<char> = Vec::new();
    let mut i: usize = 0;
    while i < v.len()
        invariant
            i <= v.len(),
            r@ == to_ascii_lower(v@.take(i as int)),
        decreases v.len() - i,
    {
        r.push(lower_char(v[i]));
        i += 1;
        assert(r@ =~= to_ascii_lower(v@.take(i as int)));
    }
    assert(v@.take(v.len() as int) =~= v@);
    r
}

// ---------------------------------------------------------------------------
// Tokens
// ---------------------------------------------------------------------------

/// Index of the first whitespace character in `s`, or -1.
pub open spec fn find_white(s: Seq<char>) -> int
    decreases s.len(),
{
    if s.len() == 0 {
        -1
    } else if is_white(s[0]) {
        0
    } else {
        let r = find_white(s.drop_first());
        if r < 0 {
            -1
        } else {
            r + 1
        }
    }
}

proof fn lemma_find_white(s: Seq<char>)
    ensures
        -1 <= find_white(s) < s.len(),
        find_white(s) >= 0 ==> is_white(s[find_white(s)]),
        forall|i: int|
            0 <= i < s.len() && (find_white(s) < 0 || i < find_white(s)) ==> !is_white(
                #[trigger] s[i],
            ),
    decreases s.len(),
{
    if s.len() > 0 && !is_white(s[0]) {
        lemma_find_white(s.drop_first());
        assert forall|i: int|
            0 <= i < s.len() && (find_white(s) < 0 || i < find_white(s)) implies !is_white(
            #[trigger] s[i],
        ) by {
            if i > 0 {
                assert(s[i] == s.drop_first()[i - 1]);
            }
        }
    }
}

/// The first whitespace-separated word of `s`, as
/// `s.split_whitespace().next()` gives it.
pub open spec fn first_word(s: Seq<char>) -> Option<Seq<char>> {
    let t = trim_start(s);
    if t.len() == 0 {
        None
    } else {
        let e = find_white(t);
        Some(
            if e < 0 {
                t
            } else {
                t.take(e)
            },
        )
    }
}

/// `first_word(v[from..to])`.
pub fn first_word_chars(v: &Vec<char>, from: usize, to: usize) -> (r: Option<Vec<char>>)
    requires
        from <= to <= v.len(),
    ensures
        match first_word(v@.subrange(from as int, to as int)) {
            None => r is None,
            Some(w) => r matches Some(x) && x@ == w,
        },
{
    let ghost s = v@.subrange(from as int, to as int);
    let mut lo = from;
    while lo < to && is_white_char(v[lo])
        invariant
            from <= lo <= to <= v.len(),
            s == v@.subrange(from as int, to as int),
            trim_start(s) == trim_start(v@.subrange(lo as int, to as int)),
        decreases to - lo,
    {
        assert(v@.subrange(lo as int, to as int).drop_first() =~= v@.subrange(lo + 1, to as int));
        lo += 1;
    }
    let ghost t = v@.subrange(lo as int, to as int);
    assert(trim_start(t) == t);
    if lo == to {
        return None;
    }
    let mut hi = lo;
    while hi < to && !is_white_char(v[hi])
        invariant
            lo <= hi <= to <= v.len(),
            t == v@.subrange(lo as int, to as int),
            forall|j: int| lo <= j < hi ==> !is_white(v@[j]),
        decreases to - hi,
    {
        hi += 1;
    }
    proof {
        lemma_find_white(t);
        let e = find_white(t);
        if hi < to {
            assert(is_white(t[hi - lo]));
            if e >= 0 && e < hi - lo {
                assert(t[e] == v@[lo + e]);
            }
            assert(t.take(hi - lo) =~= v@.subrange(lo as int, hi as int));
        } else {
            if e >= 0 {
                assert(t[e] == v@[lo + e]);
            }
            assert(t =~= v@.subrange(lo as int, hi as int));
        }
    }
    Some(slice_chars(v, lo, hi))
}

/// The piece after the first `c` and before the next one, as
/// `s.split(c).nth(1)` gives it.
pub open spec fn second_piece(s: Seq<char>, c: char) -> Option<Seq<char>> {
    let i = find_char(s, c);
    if i < 0 {
        None
    } else {
        let rest = s.skip(i + 1);
        let j = find_char(rest, c);
        Some(
            if j < 0 {
                rest
            } else {
                rest.take(j)
            },
        )
    }
}

/// The bounds of `second_piece(v[from..to], c)` inside `v`.
pub fn second_piece_bounds(v: &Vec<char>, c: char, from: usize, to: usize) -> (r: Option<
    (usize, usize),
>)
    requires
        from <= to <= v.len(),
    ensures
        match second_piece(v@.subrange(from as int, to as int), c) {
            None => r is None,
            Some(p) => r matches Some(b) && from <= b.0 <= b.1 <= to && v@.subrange(
                b.0 as int,
                b.1 as int,
            ) == p,
        },
{
    let ghost s = v@.subrange(from as int, to as int);
    match find_char_in(v, c, from, to) {
        None => None,
        Some(i) => {
            let ghost rest = s.skip(i - from + 1);
            assert(rest =~= v@.subrange(i + 1, to as int));
            match find_char_in(v, c, i + 1, to) {
                None => Some((i + 1, to)),
                Some(j) => {
                    assert(rest.take(j - (i + 1)) =~= v@.subrange(i + 1, j as int));
                    Some((i + 1, j))
                },
            }
        },
    }
}

/// The piece after the first two `c`, before the next one, as
/// `s.split(c).nth(2)` gives it.
pub open spec fn third_piece(s: Seq<char>, c: char) -> Option<Seq<char>> {
    let i = find_char(s, c);
    if i < 0 {
        None
    } else {
        second_piece(s.skip(i + 1), c)
    }
}

/// The bounds of `third_piece(v[from..to], c)` inside `v`.
pub fn third_piece_bounds(v: &Vec<char>, c: char, from: usize, to: usize) -> (r: Option<
    (usize, usize),
>)
    requires
        from <= to <= v.len(),
    ensures
        match third_piece(v@.subrange(from as int, to as int), c) {
            None => r is None,
            Some(p) => r matches Some(b) && from <= b.0 <= b.1 <= to && v@.subrange(
                b.0 as int,
                b.1 as int,
            ) == p,
        },
{
    let ghost s = v@.subrange(from as int, to as int);
    match find_char_in(v, c, from, to) {
        None => None,
        Some(i) => {
            assert(s.skip(i - from + 1) =~= v@.subrange(i + 1, to as int));
            second_piece_bounds(v, c, i + 1, to)
        },
    }
}

/// The piece after the first occurrence of `p` and before the next one, as
/// `s.split(p).nth(1)` gives it for a non-empty pattern `p`.
pub open spec fn second_piece_str(s: Seq<char>, p: Seq<char>) -> Option<Seq<char>> {
    let i = find_str(s, p);
    if i < 0 {
        None
    } else {
        let rest = s.skip(i + p.len());
        let j = find_str(rest, p);
        Some(
            if j < 0 {
                rest
            } else {
                rest.take(j)
            },
        )
    }
}

/// The bounds of `second_piece_str(v[from..], p)` inside `v`.
pub fn second_piece_str_bounds(v: &Vec<char>, p: &Vec<char>, from: usize) -> (r: Option<
    (usize, usize),
>)
    requires
        from <= v.len(),
        p@.len() > 0,
    ensures
        match second_piece_str(v@.skip(from as int), p@) {
            None => r is None,
            Some(q) => r matches Some(b) && from <= b.0 <= b.1 <= v.len() && v@.subrange(
                b.0 as int,
                b.1 as int,
            ) == q,
        },
{
    let ghost s = v@.skip(from as int);
    match find_str_in(v, p, from) {
        None => None,
        Some(i) => {
            let start = i + p.len();
            let ghost rest = s.skip(i - from + p@.len());
            assert(rest =~= v@.skip(start as int));
            match find_str_in(v, p, start) {
                None => {
                    assert(rest =~= v@.subrange(start as int, v.len() as int));
                    Some((start, v.len()))
                },
                Some(j) => {
                    assert(rest.take(j - start) =~= v@.subrange(start as int, j as int));
                    Some((start, j))
                },
            }
        },
    }
}

} // verus!
