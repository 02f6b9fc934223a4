//! Parsers for the text that FFmpeg prints: the media probe banner, the
//! `-stats` status lines and the `-progress` key/value file.

use vstd::prelude::*;
use crate::text::{occurs_at as occurs_at_int, 
    chars_of, decimal, digits_value, find, find_str, first_word, lemma_lead_count, lines,
    lines_of, non_digit_pred, parse_u32, parse_u64, parse_unsigned, push_str, split_by,
    split_char, split_on, strip_prefix, strip_prefix_exec, subvec, trim, trim_by, trim_ws,
    trim_non_digits, chars_eq, first_word_exec, is_digit, is_digit_char, is_ws,
    is_whitespace_char, all_digits, lead_count, lemma_split_by_nonempty, char_pred,
};

verus! {

// ---------------------------------------------------------------------------
// `HH:MM:SS[.fff]` clock values
// ---------------------------------------------------------------------------

/// Number of bytes of `c` in UTF-8.
pub open spec fn utf8_len(c: char) -> nat {
    if (c as u32) < 0x80 {
        1
    } else if (c as u32) < 0x800 {
        2
    } else if (c as u32) < 0x10000 {
        3
    } else {
        4
    }
}

/// Number of bytes of `s` in UTF-8 (`str::len`).
pub open spec fn byte_len(s: Seq<char>) -> nat
    decreases s.len(),
{
    if s.len() == 0 {
        0
    } else {
        byte_len(s.drop_last()) + utf8_len(s.last())
    }
}

/// The characters that make up the first `limit` bytes of `s`, or `None`
/// when byte `limit` falls inside a character (where slicing a `str` panics).
pub open spec fn cut_bytes(s: Seq<char>, limit: nat) -> Option<Seq<char>>
    decreases s.len(),
{
    if limit == 0 {
        Some(Seq::<char>::empty())
    } else if s.len() == 0 || utf8_len(s[0]) > limit {
        None
    } else {
        match cut_bytes(s.drop_first(), (limit - utf8_len(s[0])) as nat) {
            Some(r) => Some(seq![s[0]] + r),
            None => None,
        }
    }
}

/// The fraction text as the clock parser slices it: `&frac[..frac.len().min(3)]`.
pub open spec fn frac_head(frac: Seq<char>) -> Option<Seq<char>> {
    cut_bytes(frac, if byte_len(frac) < 3 { byte_len(frac) } else { 3 })
}

/// `format!("{:0<3}", t)`: `t` right-padded with `0` to three characters.
pub open spec fn pad3(t: Seq<char>) -> Seq<char> {
    if t.len() >= 3 {
        t
    } else {
        t + Seq::new((3 - t.len()) as nat, |i: int| '0')
    }
}

/// The four numbers of a clock value and the text of its fraction, when the
/// text has the shape `H:M:S[.F...]` with `H`, `M`, `S` valid `u64` texts.
pub open spec fn clock_fields(value: Seq<char>) -> Option<(nat, nat, nat, Seq<char>)> {
    let parts = split_char(value, ':');
    if parts.len() != 3 {
        None
    } else {
        let secs = split_char(parts[2], '.');
        match (
            parse_unsigned(parts[0], u64::MAX as int),
            parse_unsigned(parts[1], u64::MAX as int),
            parse_unsigned(secs[0], u64::MAX as int),
        ) {
            (Some(h), Some(m), Some(s)) => Some(
                (
                    h,
                    m,
                    s,
                    if secs.len() >= 2 {
                        secs[1]
                    } else {
                        seq!['0']
                    },
                ),
            ),
            _ => None,
        }
    }
}

pub open spec fn clock_total(h: nat, m: nat, s: nat, ms: nat) -> nat {
    h * 3_600_000 + m * 60_000 + s * 1_000 + ms
}

/// Milliseconds denoted by a clock text, ignoring whether computing them
/// overflows.
pub open spec fn clock_ms(value: Seq<char>) -> Option<nat> {
    match clock_fields(value) {
        None => None,
        Some((h, m, s, frac)) => match frac_head(frac) {
            None => None,
            Some(t) => match parse_unsigned(pad3(t), u64::MAX as int) {
                None => None,
                Some(ms) => Some(clock_total(h, m, s, ms)),
            },
        },
    }
}

/// The clock parser panics on `value`: it slices the fraction inside a
/// character, or its arithmetic overflows `u64`.
pub open spec fn clock_panics(value: Seq<char>) -> bool {
    match clock_fields(value) {
        None => false,
        Some((h, m, s, frac)) => match frac_head(frac) {
            None => true,
            Some(t) => match parse_unsigned(pad3(t), u64::MAX as int) {
                None => false,
                Some(ms) => clock_total(h, m, s, ms) > u64::MAX,
            },
        },
    }
}

pub fn utf8_len_exec(c: char) -> (n: u64)
    ensures
        n == utf8_len(c),
{
    let code = c as u32;
    if code < 0x80 {
        1
    } else if code < 0x800 {
        2
    } else if code < 0x10000 {
        3
    } else {
        4
    }
}

proof fn lemma_byte_len_prefix(s: Seq<char>, i: int)
    requires
        0 <= i <= s.len(),
    ensures
        byte_len(s.subrange(0, i)) <= byte_len(s),
    decreases s.len(),
{
    if i < s.len() {
        lemma_byte_len_prefix(s.drop_last(), i);
        assert(s.drop_last().subrange(0, i) =~= s.subrange(0, i));
    } else {
        assert(s.subrange(0, i) =~= s);
    }
}

/// `frac_head` computed on a character vector; `None` where slicing panics.
fn frac_head_exec(frac: &Vec<char>) -> (r: Option<Vec<char>>)
    ensures
        match r {
            Some(t) => frac_head(frac@) == Some(t@),
            None => frac_head(frac@) is None,
        },
{
    let mut total: u64 = 0;
    let mut i: usize = 0;
    while i < frac.len() && total < 3
        invariant
            i <= frac.len(),
            total == byte_len(frac@.subrange(0, i as int)),
            total <= 6,
        decreases frac.len() - i,
    {
        let ghost before = frac@.subrange(0, i as int);
        assert(frac@.subrange(0, i + 1).drop_last() =~= before);
        total = total + utf8_len_exec(frac[i]);
        i += 1;
    }
    let limit: u64 = if total < 3 {
        total
    } else {
        3
    };
    proof {
        lemma_byte_len_prefix(frac@, i as int);
        if total < 3 {
            assert(frac@.subrange(0, i as int) =~= frac@);
        }
    }
    assert(frac@.subrange(0, frac.len() as int) =~= frac@);
    assert(frac@.subrange(0, 0) =~= Seq::<char>::empty());
    assert forall|r: Seq<char>| Seq::<char>::empty() + r == r by {
        assert(Seq::<char>::empty() + r =~= r);
    }
    let mut rem = limit;
    let mut j: usize = 0;
    while rem > 0
        invariant
            frac_head(frac@) == cut_bytes(frac@, limit as nat),
            j <= frac.len(),
            rem <= 3,
            cut_bytes(frac@, limit as nat) == match cut_bytes(
                frac@.subrange(j as int, frac.len() as int),
                rem as nat,
            ) {
                Some(r) => Some(frac@.subrange(0, j as int) + r),
                None => None::<Seq<char>>,
            },
        decreases rem,
    {
        let ghost tail = frac@.subrange(j as int, frac.len() as int);
        if j == frac.len() {
            return None;
        }
        let w = utf8_len_exec(frac[j]);
        if w > rem {
            assert(tail[0] == frac@[j as int]);
            return None;
        }
        assert(tail.drop_first() =~= frac@.subrange(j + 1, frac.len() as int));
        assert(tail[0] == frac@[j as int]);
        proof {
            let next = cut_bytes(frac@.subrange(j + 1, frac.len() as int), (rem - w) as nat);
            match next {
                Some(r) => {
                    assert(frac@.subrange(0, j + 1) + r =~= frac@.subrange(0, j as int) + (seq![
                        frac@[j as int],
                    ] + r));
                },
                None => {},
            }
        }
        rem = rem - w;
        j += 1;
    }
    assert(frac@.subrange(0, j as int) + Seq::<char>::empty() =~= frac@.subrange(0, j as int));
    Some(subvec(frac, 0, j))
}

fn pad3_exec(t: Vec<char>) -> (r: Vec<char>)
    ensures
        r@ == pad3(t@),
{
    let mut t = t;
    let ghost orig = t@;
    if t.len() >= 3 {
        return t;
    }
    while t.len() < 3
        invariant
            orig.len() < 3,
            orig.len() <= t.len() <= 3,
            t@ == orig + Seq::new((t.len() - orig.len()) as nat, |i: int| '0'),
        decreases 3 - t.len(),
    {
        t.push('0');
        assert(t@ =~= orig + Seq::new((t.len() - orig.len()) as nat, |i: int| '0'));
    }
    t
}

/// Parses a clock text on a character vector. The second component is
/// `true` exactly when the clock parser panics on it.
fn clock_exec(value: &Vec<char>) -> (r: (Option<u64>, bool))
    ensures
        r.1 == clock_panics(value@),
        !r.1 ==> match r.0 {
            Some(v) => clock_ms(value@) == Some(v as nat),
            None => clock_ms(value@) is None,
        },
{
    let parts = split_on(value, ':');
    if parts.len() != 3 {
        return (None, false);
    }
    let hours = parse_u64(&parts[0]);
    let minutes = parse_u64(&parts[1]);
    let secs = split_on(&parts[2], '.');
    proof {
        lemma_split_by_nonempty(parts[2]@, char_pred('.'));
    }
    let seconds = parse_u64(&secs[0]);
    let (h, m, s) = match (hours, minutes, seconds) {
        (Some(h), Some(m), Some(s)) => (h, m, s),
        _ => {
            return (None, false);
        },
    };
    let frac: Vec<char> = if secs.len() >= 2 {
        secs[1].clone()
    } else {
        let mut z: Vec<char> = Vec::new();
        z.push('0');
        assert(z@ =~= seq!['0']);
        z
    };
    let head = match frac_head_exec(&frac) {
        Some(t) => t,
        None => {
            return (None, true);
        },
    };
    let padded = pad3_exec(head);
    let ms = match parse_u64(&padded) {
        Some(ms) => ms,
        None => {
            return (None, false);
        },
    };
    let total: u128 = (h as u128) * 3_600_000 + (m as u128) * 60_000 + (s as u128) * 1_000
        + (ms as u128);
    assert(total == clock_total(h as nat, m as nat, s as nat, ms as nat));
    if total > u64::MAX as u128 {
        return (None, true);
    }
    (Some(total as u64), false)
}

/// `HH:MM:SS[.fff]` to milliseconds: `None` for any text that is not three
/// `:`-separated unsigned numbers with an optional fraction of seconds.
pub fn parse_hhmmss_ms(value: &str) -> (r: Option<u64>)
    requires
        !clock_panics(value@),
    ensures
        match r {
            Some(v) => clock_ms(value@) == Some(v as nat),
            None => clock_ms(value@) is None,
        },
{
    let v = chars_of(value);
    clock_exec(&v).0
}

// ---------------------------------------------------------------------------
// Lines of the FFmpeg banner and status output
// ---------------------------------------------------------------------------

/// The text that follows the first occurrence of `marker` in `line`.
pub open spec fn after_marker(line: Seq<char>, marker: Seq<char>) -> Option<Seq<char>> {
    match find_str(line, marker) {
        Some(i) => Some(line.subrange(i + marker.len(), line.len() as int)),
        None => None,
    }
}

/// The clock text of a `Duration: ...` banner line.
pub open spec fn duration_text(line: Seq<char>) -> Option<Seq<char>> {
    match after_marker(line, "Duration: "@) {
        Some(rest) => Some(trim(split_char(rest, ',')[0])),
        None => None,
    }
}

/// The clock text of a `... time=...` status line.
pub open spec fn status_time_text(line: Seq<char>) -> Option<Seq<char>> {
    match after_marker(line, "time="@) {
        Some(rest) => first_word(rest),
        None => None,
    }
}

pub open spec fn clock_of(text: Option<Seq<char>>) -> Option<nat> {
    match text {
        Some(t) => clock_ms(t),
        None => None,
    }
}

pub open spec fn clock_of_panics(text: Option<Seq<char>>) -> bool {
    match text {
        Some(t) => clock_panics(t),
        None => false,
    }
}

fn after_marker_exec(line: &Vec<char>, marker: &str) -> (r: Option<Vec<char>>)
    ensures
        match r {
            Some(rest) => after_marker(line@, marker@) == Some(rest@),
            None => after_marker(line@, marker@) is None,
        },
{
    let m = chars_of(marker);
    match find(line, &m) {
        Some(i) => {
            proof {
                crate::text::lemma_find_str(line@, m@);
                assert(occurs_at_int(line@, m@, i as int));
                assert(i + m@.len() <= line@.len());
            }
            assert(i + m.len() <= line.len());
            Some(subvec(line, i + m.len(), line.len()))
        },
        None => None,
    }
}

fn duration_text_exec(line: &Vec<char>) -> (r: Option<Vec<char>>)
    ensures
        match r {
            Some(t) => duration_text(line@) == Some(t@),
            None => duration_text(line@) is None,
        },
{
    match after_marker_exec(line, "Duration: ") {
        Some(rest) => {
            let pieces = split_on(&rest, ',');
            proof {
                lemma_split_by_nonempty(rest@, char_pred(','));
            }
            Some(trim_ws(&pieces[0]))
        },
        None => None,
    }
}

fn status_time_text_exec(line: &Vec<char>) -> (r: Option<Vec<char>>)
    ensures
        match r {
            Some(t) => status_time_text(line@) == Some(t@),
            None => status_time_text(line@) is None,
        },
{
    match after_marker_exec(line, "time=") {
        Some(rest) => first_word_exec(&rest),
        None => None,
    }
}

fn clock_of_exec(text: Option<Vec<char>>) -> (r: (Option<u64>, bool))
    ensures
        r.1 == clock_of_panics(match text {
            Some(t) => Some(t@),
            None => None,
        }),
        !r.1 ==> match r.0 {
            Some(v) => clock_of(match text {
                Some(t) => Some(t@),
                None => None,
            }) == Some(v as nat),
            None => clock_of(match text {
                Some(t) => Some(t@),
                None => None,
            }) is None,
        },
{
    match text {
        Some(t) => clock_exec(&t),
        None => (None, false),
    }
}

/// The duration of a `Duration: HH:MM:SS.ss, ...` line of the media banner.
pub fn extract_ffmpeg_duration_ms(line: &str) -> (r: Option<u64>)
    requires
        !clock_of_panics(duration_text(line@)),
    ensures
        match r {
            Some(v) => clock_of(duration_text(line@)) == Some(v as nat),
            None => clock_of(duration_text(line@)) is None,
        },
{
    let l = chars_of(line);
    clock_of_exec(duration_text_exec(&l)).0
}

/// `true` when `extract_ffmpeg_duration_ms` would panic on `line`.
pub fn duration_line_panics(line: &str) -> (b: bool)
    ensures
        b == clock_of_panics(duration_text(line@)),
{
    let l = chars_of(line);
    clock_of_exec(duration_text_exec(&l)).1
}

/// The encoding time of a `... time=HH:MM:SS.ss ...` status line.
pub fn extract_ffmpeg_time_ms(line: &str) -> (r: Option<u64>)
    requires
        !clock_of_panics(status_time_text(line@)),
    ensures
        match r {
            Some(v) => clock_of(status_time_text(line@)) == Some(v as nat),
            None => clock_of(status_time_text(line@)) is None,
        },
{
    let l = chars_of(line);
    clock_of_exec(status_time_text_exec(&l)).0
}

/// `true` when `extract_ffmpeg_time_ms` would panic on `line`.
pub fn status_time_line_panics(line: &str) -> (b: bool)
    ensures
        b == clock_of_panics(status_time_text(line@)),
{
    let l = chars_of(line);
    clock_of_exec(status_time_text_exec(&l)).1
}

// ---------------------------------------------------------------------------
// `-progress` key/value lines
// ---------------------------------------------------------------------------

pub open spec fn div_1000(v: Option<nat>) -> Option<nat> {
    match v {
        Some(x) => Some(x / 1000),
        None => None,
    }
}

/// The output time of one progress line, in milliseconds.
pub open spec fn progress_time(line: Seq<char>) -> Option<nat> {
    match strip_prefix(line, "out_time="@) {
        Some(raw) => clock_ms(trim(raw)),
        None => match strip_prefix(line, "out_time_us="@) {
            Some(raw) => div_1000(parse_unsigned(trim(raw), u64::MAX as int)),
            None => match strip_prefix(line, "out_time_ms="@) {
                Some(raw) => div_1000(parse_unsigned(trim(raw), u64::MAX as int)),
                None => clock_of(status_time_text(line)),
            },
        },
    }
}

pub open spec fn progress_time_panics(line: Seq<char>) -> bool {
    match strip_prefix(line, "out_time="@) {
        Some(raw) => clock_panics(trim(raw)),
        None => match strip_prefix(line, "out_time_us="@) {
            Some(raw) => false,
            None => match strip_prefix(line, "out_time_ms="@) {
                Some(raw) => false,
                None => clock_of_panics(status_time_text(line)),
            },
        },
    }
}

/// The frame number of a `frame=N` progress line.
pub open spec fn progress_frame(line: Seq<char>) -> Option<nat> {
    match strip_prefix(line, "frame="@) {
        Some(raw) => parse_unsigned(trim(raw), u64::MAX as int),
        None => None,
    }
}

fn progress_time_exec(line: &Vec<char>) -> (r: (Option<u64>, bool))
    ensures
        r.1 == progress_time_panics(line@),
        !r.1 ==> match r.0 {
            Some(v) => progress_time(line@) == Some(v as nat),
            None => progress_time(line@) is None,
        },
{
    let p1 = chars_of("out_time=");
    if let Some(raw) = strip_prefix_exec(line, &p1) {
        return clock_exec(&trim_ws(&raw));
    }
    let p2 = chars_of("out_time_us=");
    if let Some(raw) = strip_prefix_exec(line, &p2) {
        return match parse_u64(&trim_ws(&raw)) {
            Some(v) => (Some(v / 1000), false),
            None => (None, false),
        };
    }
    let p3 = chars_of("out_time_ms=");
    if let Some(raw) = strip_prefix_exec(line, &p3) {
        return match parse_u64(&trim_ws(&raw)) {
            Some(v) => (Some(v / 1000), false),
            None => (None, false),
        };
    }
    clock_of_exec(status_time_text_exec(line))
}

fn progress_frame_exec(line: &Vec<char>) -> (r: Option<u64>)
    ensures
        match r {
            Some(v) => progress_frame(line@) == Some(v as nat),
            None => progress_frame(line@) is None,
        },
{
    let p = chars_of("frame=");
    match strip_prefix_exec(line, &p) {
        Some(raw) => parse_u64(&trim_ws(&raw)),
        None => None,
    }
}

/// The output time of a progress line (`out_time=`, `out_time_us=`,
/// `out_time_ms=`, the last two in microseconds), else of a status line.
pub fn extract_ffmpeg_progress_time_ms(line: &str) -> (r: Option<u64>)
    requires
        !progress_time_panics(line@),
    ensures
        match r {
            Some(v) => progress_time(line@) == Some(v as nat),
            None => progress_time(line@) is None,
        },
{
    let l = chars_of(line);
    progress_time_exec(&l).0
}

/// The frame number of a `frame=N` progress line.
pub fn extract_ffmpeg_progress_frame(line: &str) -> (r: Option<u64>)
    ensures
        match r {
            Some(v) => progress_frame(line@) == Some(v as nat),
            None => progress_frame(line@) is None,
        },
{
    let l = chars_of(line);
    progress_frame_exec(&l)
}

/// The frame count of a status line `frame=  123 fps=...`: the digits that
/// follow `frame=` and optional whitespace.
pub open spec fn status_frame(line: Seq<char>) -> Option<nat> {
    match after_marker(line, "frame="@) {
        Some(rest) => {
            let t = rest.subrange(lead_count(rest, crate::text::ws_pred()) as int, rest.len() as int);
            let digits = t.subrange(0, lead_count(t, |c: char| is_digit(c)) as int);
            if digits.len() == 0 {
                None
            } else {
                parse_unsigned(digits, u64::MAX as int)
            }
        },
        None => None,
    }
}

/// The frame count of a `frame=  123 ...` status line.
pub fn extract_ffmpeg_status_frame(line: &str) -> (r: Option<u64>)
    ensures
        match r {
            Some(v) => status_frame(line@) == Some(v as nat),
            None => status_frame(line@) is None,
        },
{
    let l = chars_of(line);
    let rest = match after_marker_exec(&l, "frame=") {
        Some(rest) => rest,
        None => {
            return None;
        },
    };
    let n = rest.len();
    let mut a: usize = 0;
    while a < n && is_whitespace_char(rest[a])
        invariant
            a <= n == rest.len(),
            forall|j: int| 0 <= j < a ==> #[trigger] is_ws(rest@[j]),
        decreases n - a,
    {
        a += 1;
    }
    proof {
        assert forall|j: int| 0 <= j < a implies #[trigger] crate::text::ws_pred()(rest@[j]) by {
            assert(is_ws(rest@[j]));
        }
        crate::text::lemma_lead_count_char(rest@, crate::text::ws_pred(), a as int);
    }
    let ghost t = rest@.subrange(a as int, n as int);
    let mut b: usize = a;
    while b < n && is_digit_char(rest[b])
        invariant
            a <= b <= n == rest.len(),
            t == rest@.subrange(a as int, n as int),
            forall|j: int| a <= j < b ==> #[trigger] is_digit(rest@[j]),
        decreases n - b,
    {
        b += 1;
    }
    proof {
        let dp = |c: char| is_digit(c);
        assert forall|j: int| 0 <= j < b - a implies #[trigger] dp(t[j]) by {
            assert(t[j] == rest@[j + a]);
        }
        if b < n {
            assert(t[b - a] == rest@[b as int]);
        }
        crate::text::lemma_lead_count_char(t, dp, b - a);
    }
    let digits = subvec(&rest, a, b);
    assert(digits@ =~= t.subrange(0, (b - a) as int));
    if digits.len() == 0 {
        return None;
    }
    parse_u64(&digits)
}

// ---------------------------------------------------------------------------
// The `-progress` file as a whole
// ---------------------------------------------------------------------------

/// What the progress file says after its first `k` lines: the last output
/// time, the last frame number, and whether `progress=end` was seen.
pub open spec fn progress_state(ls: Seq<Seq<char>>) -> (Option<nat>, Option<nat>, bool)
    decreases ls.len(),
{
    if ls.len() == 0 {
        (None, None, false)
    } else {
        let (t, f, e) = progress_state(ls.drop_last());
        let line = trim(ls.last());
        if line.len() == 0 {
            (t, f, e)
        } else if progress_time(line) is Some {
            (progress_time(line), f, e)
        } else if progress_frame(line) is Some {
            (t, progress_frame(line), e)
        } else if line == "progress=end"@ {
            (t, f, true)
        } else {
            (t, f, e)
        }
    }
}

/// No non-empty line of `ls` makes the time parser panic.
pub open spec fn progress_lines_ok(ls: Seq<Seq<char>>) -> bool {
    forall|i: int|
        0 <= i < ls.len() ==> trim(#[trigger] ls[i]).len() == 0 || !progress_time_panics(
            trim(ls[i]),
        )
}

pub open spec fn opt_u64_view(o: Option<u64>) -> Option<nat> {
    match o {
        Some(v) => Some(v as nat),
        None => None,
    }
}

/// Reads a `-progress` snapshot: the last output time, the last frame number
/// and whether the run has ended.
pub fn parse_ffmpeg_progress_snapshot(snapshot: &str) -> (r: (Option<u64>, Option<u64>, bool))
    requires
        progress_lines_ok(lines_of(snapshot@)),
    ensures
        (opt_u64_view(r.0), opt_u64_view(r.1), r.2) == progress_state(lines_of(snapshot@)),
{
    let s = chars_of(snapshot);
    let ls = lines(&s);
    let ghost spec_lines = lines_of(s@);
    let mut last_time: Option<u64> = None;
    let mut last_frame: Option<u64> = None;
    let mut ended = false;
    let mut i: usize = 0;
    let end_marker = chars_of("progress=end");
    while i < ls.len()
        invariant
            spec_lines == lines_of(snapshot@),
            ls@.len() == spec_lines.len(),
            forall|j: int| 0 <= j < ls@.len() ==> #[trigger] ls@[j]@ == spec_lines[j],
            progress_lines_ok(spec_lines),
            i <= ls.len(),
            end_marker@ == "progress=end"@,
            (opt_u64_view(last_time), opt_u64_view(last_frame), ended) == progress_state(
                spec_lines.subrange(0, i as int),
            ),
        decreases ls.len() - i,
    {
        let ghost prefix = spec_lines.subrange(0, i as int);
        assert(spec_lines.subrange(0, i + 1).drop_last() =~= prefix);
        assert(spec_lines.subrange(0, i + 1).last() == spec_lines[i as int]);
        let line = trim_ws(&ls[i]);
        if line.len() > 0 {
            let (t, _) = progress_time_exec(&line);
            if t.is_some() {
                last_time = t;
            } else {
                let f = progress_frame_exec(&line);
                if f.is_some() {
                    last_frame = f;
                } else if chars_eq(&line, &end_marker) {
                    ended = true;
                }
            }
        }
        i += 1;
    }
    assert(spec_lines.subrange(0, ls.len() as int) =~= spec_lines);
    (last_time, last_frame, ended)
}

/// `true` when `parse_ffmpeg_progress_snapshot` would panic on `snapshot`.
pub fn progress_snapshot_panics(snapshot: &str) -> (b: bool)
    ensures
        b == !progress_lines_ok(lines_of(snapshot@)),
{
    let s = chars_of(snapshot);
    let ls = lines(&s);
    let mut i: usize = 0;
    while i < ls.len()
        invariant
            ls@.len() == lines_of(s@).len(),
            forall|j: int| 0 <= j < ls@.len() ==> #[trigger] ls@[j]@ == lines_of(s@)[j],
            s@ == snapshot@,
            i <= ls.len(),
            forall|j: int|
                0 <= j < i ==> trim(#[trigger] lines_of(s@)[j]).len() == 0 || !progress_time_panics(
                    trim(lines_of(s@)[j]),
                ),
        decreases ls.len() - i,
    {
        let line = trim_ws(&ls[i]);
        if line.len() > 0 {
            let (_, p) = progress_time_exec(&line);
            if p {
                return true;
            }
        }
        i += 1;
    }
    false
}

// ---------------------------------------------------------------------------
// Video stream size
// ---------------------------------------------------------------------------

pub open spec fn video_token_sep(c: char) -> bool {
    is_ws(c) || c == ',' || c == '[' || c == ']'
}

/// The size that one token like `1920x1080` denotes, when both sides hold a
/// `u32` of at least 64 once their non-digit ends are trimmed.
pub open spec fn token_size(token: Seq<char>) -> Option<(nat, nat)> {
    match crate::text::find_str(token, seq!['x']) {
        None => None,
        Some(i) => {
            let w = trim_by(token.subrange(0, i), non_digit_pred());
            let h = trim_by(token.subrange(i + 1, token.len() as int), non_digit_pred());
            if w.len() == 0 || h.len() == 0 {
                None
            } else {
                match (parse_unsigned(w, u32::MAX as int), parse_unsigned(h, u32::MAX as int)) {
                    (Some(wv), Some(hv)) => if wv >= 64 && hv >= 64 {
                        Some((wv, hv))
                    } else {
                        None
                    },
                    _ => None,
                }
            }
        },
    }
}

/// The first size among `tokens`.
pub open spec fn first_token_size(tokens: Seq<Seq<char>>) -> Option<(nat, nat)>
    decreases tokens.len(),
{
    if tokens.len() == 0 {
        None
    } else {
        match first_token_size(tokens.drop_last()) {
            Some(sz) => Some(sz),
            None => token_size(tokens.last()),
        }
    }
}

/// The frame size of a ` Video: ` stream line.
pub open spec fn video_size(line: Seq<char>) -> Option<(nat, nat)> {
    if !crate::text::contains_str(line, " Video: "@) {
        None
    } else {
        first_token_size(split_by(line, |c: char| video_token_sep(c)))
    }
}

fn token_size_exec(token: &Vec<char>) -> (r: Option<(u32, u32)>)
    ensures
        match r {
            Some((w, h)) => token_size(token@) == Some((w as nat, h as nat)),
            None => token_size(token@) is None,
        },
{
    let mut xv: Vec<char> = Vec::new();
    xv.push('x');
    assert(xv@ =~= seq!['x']);
    let i = match find(token, &xv) {
        Some(i) => i,
        None => {
            return None;
        },
    };
    proof {
        crate::text::lemma_find_str(token@, xv@);
        assert(occurs_at_int(token@, xv@, i as int));
        assert(i + xv@.len() <= token@.len());
    }
    assert(i + 1 <= token.len());
    let left = subvec(token, 0, i);
    let right = subvec(token, i + 1, token.len());
    let w = trim_non_digits(&left);
    let h = trim_non_digits(&right);
    if w.len() == 0 || h.len() == 0 {
        return None;
    }
    match (parse_u32(&w), parse_u32(&h)) {
        (Some(wv), Some(hv)) => if wv >= 64 && hv >= 64 {
            Some((wv, hv))
        } else {
            None
        },
        _ => None,
    }
}

fn split_video_tokens(s: &Vec<char>) -> (pieces: Vec<Vec<char>>)
    ensures
        pieces@.len() == split_by(s@, |c: char| video_token_sep(c)).len(),
        forall|i: int|
            0 <= i < pieces@.len() ==> #[trigger] pieces@[i]@ == split_by(
                s@,
                |c: char| video_token_sep(c),
            )[i],
{
    let ghost p = |c: char| video_token_sep(c);
    let mut pieces: Vec<Vec<char>> = Vec::new();
    let mut current: Vec<char> = Vec::new();
    let mut i: usize = 0;
    while i < s.len()
        invariant
            p == (|c: char| video_token_sep(c)),
            i <= s.len(),
            pieces@.len() + 1 == split_by(s@.subrange(0, i as int), p).len(),
            forall|j: int|
                0 <= j < pieces@.len() ==> #[trigger] pieces@[j]@ == split_by(
                    s@.subrange(0, i as int),
                    p,
                )[j],
            current@ == split_by(s@.subrange(0, i as int), p).last(),
        decreases s.len() - i,
    {
        let ghost prefix = s@.subrange(0, i as int);
        let ghost next = s@.subrange(0, i + 1);
        assert(next.drop_last() =~= prefix);
        proof {
            lemma_split_by_nonempty(prefix, p);
        }
        let c = s[i];
        if is_whitespace_char(c) || c == ',' || c == '[' || c == ']' {
            let done = current;
            pieces.push(done);
            current = Vec::new();
        } else {
            current.push(c);
        }
        i += 1;
    }
    assert(s@.subrange(0, s.len() as int) =~= s@);
    pieces.push(current);
    pieces
}

/// The frame size of a stream line such as
/// `Stream #0:0: Video: h264, yuv420p, 1920x1080, 30 fps`: the first token
/// `WxH` with both sides at least 64.
pub fn extract_ffmpeg_video_size(line: &str) -> (r: Option<(u32, u32)>)
    ensures
        match r {
            Some((w, h)) => video_size(line@) == Some((w as nat, h as nat)),
            None => video_size(line@) is None,
        },
{
    let l = chars_of(line);
    let marker = chars_of(" Video: ");
    if find(&l, &marker).is_none() {
        return None;
    }
    assert(crate::text::contains_str(line@, " Video: "@));
    let tokens = split_video_tokens(&l);
    let ghost spec_tokens = split_by(l@, |c: char| video_token_sep(c));
    let mut i: usize = 0;
    while i < tokens.len()
        invariant
            tokens@.len() == spec_tokens.len(),
            spec_tokens == split_by(line@, |c: char| video_token_sep(c)),
            forall|j: int| 0 <= j < tokens@.len() ==> #[trigger] tokens@[j]@ == spec_tokens[j],
            crate::text::contains_str(line@, " Video: "@),
            i <= tokens.len(),
            first_token_size(spec_tokens.subrange(0, i as int)) is None,
        decreases tokens.len() - i,
    {
        let ghost prefix = spec_tokens.subrange(0, i as int);
        assert(spec_tokens.subrange(0, i + 1).drop_last() =~= prefix);
        assert(spec_tokens.subrange(0, i + 1).last() == spec_tokens[i as int]);
        let r = token_size_exec(&tokens[i]);
        if r.is_some() {
            proof {
                lemma_first_token_size_prefix(spec_tokens, i + 1);
            }
            return r;
        }
        i += 1;
    }
    assert(spec_tokens.subrange(0, tokens.len() as int) =~= spec_tokens);
    None
}

proof fn lemma_first_token_size_prefix(tokens: Seq<Seq<char>>, k: int)
    requires
        0 <= k <= tokens.len(),
        first_token_size(tokens.subrange(0, k)) is Some,
    ensures
        first_token_size(tokens) == first_token_size(tokens.subrange(0, k)),
    decreases tokens.len(),
{
    if k < tokens.len() {
        assert(tokens.drop_last().subrange(0, k) =~= tokens.subrange(0, k));
        lemma_first_token_size_prefix(tokens.drop_last(), k);
    } else {
        assert(tokens.subrange(0, k) =~= tokens);
    }
}

// ---------------------------------------------------------------------------
// Laws of the progress file
// ---------------------------------------------------------------------------

/// Line `i` of a progress file, trimmed, is the end marker: it reads
/// `progress=end` and is neither a time line nor a frame line.
pub open spec fn ends_progress(ls: Seq<Seq<char>>, i: int) -> bool {
    &&& trim(ls[i]) == "progress=end"@
    &&& progress_time(trim(ls[i])) is None
    &&& progress_frame(trim(ls[i])) is None
}

proof fn lemma_progress_end(ls: Seq<Seq<char>>)
    ensures
        progress_state(ls).2 <==> exists|i: int| 0 <= i < ls.len() && #[trigger] ends_progress(ls, i),
    decreases ls.len(),
{
    if ls.len() > 0 {
        let prev = ls.drop_last();
        lemma_progress_end(prev);
        let n = ls.len() - 1;
        reveal_strlit("progress=end");
        if progress_state(prev).2 {
            let i = choose|i: int| 0 <= i < prev.len() && #[trigger] ends_progress(prev, i);
            assert(prev[i] == ls[i]);
            assert(ends_progress(ls, i));
        }
        if exists|i: int| 0 <= i < ls.len() && #[trigger] ends_progress(ls, i) {
            let i = choose|i: int| 0 <= i < ls.len() && #[trigger] ends_progress(ls, i);
            if i < n {
                assert(prev[i] == ls[i]);
                assert(ends_progress(prev, i));
            } else {
                assert(ls.last() == ls[i]);
                assert(trim(ls.last()).len() > 0);
            }
        }
        if ends_progress(ls, n) {
            assert(ls.last() == ls[n]);
        }
    }
}

proof fn lemma_progress_time(ls: Seq<Seq<char>>)
    ensures
        progress_state(ls).0 is Some <==> exists|i: int|
            0 <= i < ls.len() && trim(ls[i]).len() > 0 && #[trigger] progress_time(trim(ls[i])) is Some,
        progress_state(ls).0 is Some ==> exists|i: int|
            0 <= i < ls.len() && #[trigger] progress_time(trim(ls[i])) == progress_state(ls).0,
    decreases ls.len(),
{
    if ls.len() > 0 {
        let prev = ls.drop_last();
        lemma_progress_time(prev);
        let n = ls.len() - 1;
        if progress_state(prev).0 is Some {
            let i = choose|i: int| 0 <= i < prev.len() && #[trigger] progress_time(trim(prev[i])) == progress_state(prev).0;
            assert(prev[i] == ls[i]);
            let k = choose|k: int| 0 <= k < prev.len() && trim(prev[k]).len() > 0 && #[trigger] progress_time(trim(prev[k])) is Some;
            assert(prev[k] == ls[k]);
            assert(progress_time(trim(ls[k])) is Some);
        }
        if exists|i: int| 0 <= i < ls.len() && trim(ls[i]).len() > 0 && #[trigger] progress_time(trim(ls[i])) is Some {
            let i = choose|i: int| 0 <= i < ls.len() && trim(ls[i]).len() > 0 && #[trigger] progress_time(trim(ls[i])) is Some;
            if i < n {
                assert(prev[i] == ls[i]);
                assert(progress_time(trim(prev[i])) is Some);
            } else {
                assert(ls.last() == ls[i]);
            }
        }
        assert(ls.last() == ls[n]);
        if progress_time(trim(ls[n])) is Some && trim(ls[n]).len() > 0 {
            assert(progress_time(trim(ls[n])) == progress_state(ls).0);
        }
    }
}

proof fn lemma_progress_frame(ls: Seq<Seq<char>>)
    ensures
        progress_state(ls).1 is Some <==> exists|i: int|
            0 <= i < ls.len() && trim(ls[i]).len() > 0 && progress_time(trim(ls[i])) is None
                && #[trigger] progress_frame(trim(ls[i])) is Some,
        progress_state(ls).1 is Some ==> exists|i: int|
            0 <= i < ls.len() && #[trigger] progress_frame(trim(ls[i])) == progress_state(ls).1,
    decreases ls.len(),
{
    if ls.len() > 0 {
        let prev = ls.drop_last();
        lemma_progress_frame(prev);
        let n = ls.len() - 1;
        if progress_state(prev).1 is Some {
            let i = choose|i: int| 0 <= i < prev.len() && #[trigger] progress_frame(trim(prev[i])) == progress_state(prev).1;
            assert(prev[i] == ls[i]);
            let k = choose|k: int|
                0 <= k < prev.len() && trim(prev[k]).len() > 0 && progress_time(trim(prev[k])) is None
                    && #[trigger] progress_frame(trim(prev[k])) is Some;
            assert(prev[k] == ls[k]);
            assert(progress_frame(trim(ls[k])) is Some);
        }
        if exists|i: int|
            0 <= i < ls.len() && trim(ls[i]).len() > 0 && progress_time(trim(ls[i])) is None
                && #[trigger] progress_frame(trim(ls[i])) is Some {
            let i = choose|i: int|
                0 <= i < ls.len() && trim(ls[i]).len() > 0 && progress_time(trim(ls[i])) is None
                    && #[trigger] progress_frame(trim(ls[i])) is Some;
            if i < n {
                assert(prev[i] == ls[i]);
                assert(progress_frame(trim(prev[i])) is Some);
            } else {
                assert(ls.last() == ls[i]);
            }
        }
        assert(ls.last() == ls[n]);
        if progress_frame(trim(ls[n])) is Some && progress_time(trim(ls[n])) is None && trim(ls[n]).len() > 0 {
            assert(progress_frame(trim(ls[n])) == progress_state(ls).1);
        }
    }
}

/// Law of a progress file: it has ended exactly when one of its lines is the
/// `progress=end` marker (so `progress=continue` alone never ends it); it
/// reports a time exactly when some non-blank line gives one, and that time
/// is the time of one of its lines; likewise for the frame number, counting
/// the non-blank lines that give a frame and no time.
pub proof fn law_progress_snapshot_reads_its_lines(ls: Seq<Seq<char>>)
    ensures
        progress_state(ls).2 <==> exists|i: int| 0 <= i < ls.len() && #[trigger] ends_progress(ls, i),
        progress_state(ls).0 is Some <==> exists|i: int|
            0 <= i < ls.len() && trim(ls[i]).len() > 0 && #[trigger] progress_time(trim(ls[i])) is Some,
        progress_state(ls).0 is Some ==> exists|i: int|
            0 <= i < ls.len() && #[trigger] progress_time(trim(ls[i])) == progress_state(ls).0,
        progress_state(ls).1 is Some <==> exists|i: int|
            0 <= i < ls.len() && trim(ls[i]).len() > 0 && progress_time(trim(ls[i])) is None
                && #[trigger] progress_frame(trim(ls[i])) is Some,
        progress_state(ls).1 is Some ==> exists|i: int|
            0 <= i < ls.len() && #[trigger] progress_frame(trim(ls[i])) == progress_state(ls).1,
{
    lemma_progress_end(ls);
    lemma_progress_time(ls);
    lemma_progress_frame(ls);
}

proof fn lemma_first_token_size_is_first(tokens: Seq<Seq<char>>)
    ensures
        first_token_size(tokens) is Some ==> exists|i: int|
            0 <= i < tokens.len() && #[trigger] token_size(tokens[i]) == first_token_size(tokens) && forall|j: int|
                0 <= j < i ==> token_size(#[trigger] tokens[j]) is None,
        first_token_size(tokens) is None ==> forall|j: int| 0 <= j < tokens.len() ==> token_size(#[trigger] tokens[j]) is None,
    decreases tokens.len(),
{
    if tokens.len() > 0 {
        let prev = tokens.drop_last();
        lemma_first_token_size_is_first(prev);
        if first_token_size(prev) is Some {
            let i = choose|i: int|
                0 <= i < prev.len() && #[trigger] token_size(prev[i]) == first_token_size(prev) && forall|j: int|
                    0 <= j < i ==> token_size(#[trigger] prev[j]) is None;
            assert(prev[i] == tokens[i]);
            assert forall|j: int| 0 <= j < i implies token_size(#[trigger] tokens[j]) is None by {
                assert(prev[j] == tokens[j]);
            }
        } else {
            let n = tokens.len() - 1;
            assert forall|j: int| 0 <= j < n implies token_size(#[trigger] tokens[j]) is None by {
                assert(prev[j] == tokens[j]);
            }
            assert(token_size(tokens[n]) == first_token_size(tokens));
        }
    }
}

/// The tokens of a stream line, split at blanks, commas and brackets.
pub open spec fn video_tokens(line: Seq<char>) -> Seq<Seq<char>> {
    split_by(line, |c: char| video_token_sep(c))
}

/// Law of the video frame size: a line reports a size only when it holds
/// ` Video: `, and then it is the size of the first of its tokens (split at
/// blanks, commas and brackets) that reads as `WxH`; both sides are at least
/// 64 pixels (so numbers such as a codec tag `0x31637661` are never taken
/// for a frame size) and fit in a `u32`. No size is reported when no token
/// reads as one.
pub proof fn law_video_size_is_at_least_64(line: Seq<char>)
    ensures
        video_size(line) matches Some((w, h)) ==> 64 <= w <= u32::MAX && 64 <= h <= u32::MAX,
        video_size(line) is Some ==> crate::text::contains_str(line, " Video: "@) && exists|i: int|
            0 <= i < video_tokens(line).len() && #[trigger] token_size(
                video_tokens(line)[i],
            ) == video_size(line) && forall|j: int|
                0 <= j < i ==> token_size(#[trigger] video_tokens(line)[j]) is None,
        crate::text::contains_str(line, " Video: "@) && video_size(line) is None ==> forall|j: int|
            0 <= j < video_tokens(line).len() ==> token_size(
                #[trigger] video_tokens(line)[j],
            ) is None,
{
    let tokens = video_tokens(line);
    lemma_first_token_size_is_first(tokens);
    if video_size(line) is Some {
        let i = choose|i: int|
            0 <= i < tokens.len() && #[trigger] token_size(tokens[i]) == first_token_size(tokens) && forall|j: int|
                0 <= j < i ==> token_size(#[trigger] tokens[j]) is None;
        let tok = tokens[i];
        assert(token_size(tok) is Some);
    }
}

} // verus!
