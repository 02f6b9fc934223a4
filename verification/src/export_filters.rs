//! The ffmpeg filter graph of an export and the pieces of text it is made
//! of: time formats, escaped paths, subtitle events and click pulses.

use vstd::prelude::*;
use vstd::arithmetic::div_mod::{
    lemma_div_is_ordered, lemma_div_multiples_vanish, lemma_fundamental_div_mod, lemma_fundamental_div_mod_converse,
    lemma_mod_bound, lemma_mod_multiples_vanish,
};
use vstd::arithmetic::mul::lemma_mul_inequality;
use crate::text::{chars_of, decimal, decimal_padded, push_all, push_decimal, push_decimal_padded, push_str, string_from_chars};

verus! {

broadcast use vstd::string::group_string_axioms;

/// Cursor positions are drawn this much later than they were recorded, to
/// match what the preview shows.
pub const CURSOR_TIMING_OFFSET_MS: u64 = 45;

/// Clicks closer together than this pulse the cursor only once.
pub const MIN_CLICK_PULSE_GAP_MS: u64 = 120;

/// At most this many clicks go into the pulse expression.
pub const MAX_CLICK_EVENTS_FOR_EXPR: usize = 90;

// ---------------------------------------------------------------------------
// Time
// ---------------------------------------------------------------------------

/// Moves a cursor time later by the timing offset, not past the end.
pub fn apply_cursor_timing_offset_ms(ts_ms: u64, duration_ms: u64) -> (t: u64)
    ensures
        t == if ts_ms + CURSOR_TIMING_OFFSET_MS < duration_ms { (ts_ms + CURSOR_TIMING_OFFSET_MS) as int } else { duration_ms as int },
{
    let shifted = ts_ms.saturating_add(CURSOR_TIMING_OFFSET_MS);
    if shifted < duration_ms { shifted } else { duration_ms }
}

/// `ts * to / from` rounded to the nearest integer (halves up), and at most
/// `to`; zero when either duration is zero.
pub open spec fn mapped_time(ts: u64, from_ms: u64, to_ms: u64) -> int {
    if from_ms == 0 || to_ms == 0 {
        0
    } else {
        let p = ts * to_ms;
        let q = p / (from_ms as int) + if 2 * (p % (from_ms as int)) >= from_ms { 1int } else { 0int };
        if q < to_ms { q } else { to_ms as int }
    }
}

proof fn lemma_wide_product(a: u128, b: u128)
    requires
        a <= u64::MAX,
        b <= u64::MAX,
    ensures
        a * b < u128::MAX,
{
    assert(a * b <= (u64::MAX as int) * (u64::MAX as int)) by (nonlinear_arith)
        requires a <= u64::MAX, b <= u64::MAX, 0 <= a, 0 <= b;
}

/// Maps a time on a timeline of `from_duration_ms` onto one of
/// `to_duration_ms`, proportionally.
pub fn map_time_ms(ts: u64, from_duration_ms: u64, to_duration_ms: u64) -> (t: u64)
    ensures
        t == mapped_time(ts, from_duration_ms, to_duration_ms),
{
    if from_duration_ms == 0 || to_duration_ms == 0 {
        return 0;
    }
    proof {
        lemma_wide_product(ts as u128, to_duration_ms as u128);
    }
    let p: u128 = ts as u128 * to_duration_ms as u128;
    let f = from_duration_ms as u128;
    assert(p / f <= p) by (nonlinear_arith)
        requires f >= 1, p >= 0;
    let r = p % f;
    let q = p / f + if 2 * r >= f { 1u128 } else { 0u128 };
    if q < to_duration_ms as u128 {
        q as u64
    } else {
        to_duration_ms
    }
}

/// Mapping between timelines of the same length moves no time: every time of
/// the timeline maps onto itself.
pub proof fn law_map_time_between_equal_durations_is_identity(ts: u64, duration_ms: u64)
    requires
        ts <= duration_ms,
    ensures
        mapped_time(ts, duration_ms, duration_ms) == (if duration_ms == 0 { 0 } else { ts as int }),
{
    if duration_ms > 0 {
        let d = duration_ms as int;
        lemma_div_multiples_vanish(ts as int, d);
        lemma_mod_multiples_vanish(ts as int, 0, d);
        assert((ts * duration_ms) / d == ts) by {
            assert(ts * duration_ms == d * ts) by (nonlinear_arith)
                requires d == duration_ms;
        }
        assert((ts * duration_ms) % d == 0) by {
            assert(ts * duration_ms == d * ts + 0) by (nonlinear_arith)
                requires d == duration_ms;
        }
    }
}

/// Mapping keeps the order of times: a later time never maps before an
/// earlier one.
pub proof fn law_map_time_keeps_order(t1: u64, t2: u64, from_ms: u64, to_ms: u64)
    requires
        t1 <= t2,
    ensures
        mapped_time(t1, from_ms, to_ms) <= mapped_time(t2, from_ms, to_ms),
{
    if from_ms > 0 && to_ms > 0 {
        let f = from_ms as int;
        let a1 = t1 * to_ms;
        let a2 = t2 * to_ms;
        lemma_mul_inequality(t1 as int, t2 as int, to_ms as int);
        assert(a1 <= a2);
        lemma_div_is_ordered(a1, a2, f);
        lemma_fundamental_div_mod(a1, f);
        lemma_fundamental_div_mod(a2, f);
        let q1 = a1 / f + if 2 * (a1 % f) >= f { 1int } else { 0int };
        let q2 = a2 / f + if 2 * (a2 % f) >= f { 1int } else { 0int };
        if a1 / f == a2 / f {
            assert(a1 % f <= a2 % f);
        } else {
            assert(a1 / f + 1 <= a2 / f);
        }
        assert(q1 <= q2);
    }
}

/// `h:mm:ss.cc`, the time format of ASS subtitles.
pub open spec fn ass_time_text(ms: u64) -> Seq<char> {
    let total_centis = ms / 10;
    let total_seconds = total_centis / 100;
    let total_minutes = total_seconds / 60;
    decimal((total_minutes / 60) as nat) + ":"@ + decimal_padded((total_minutes % 60) as nat, 2) + ":"@
        + decimal_padded((total_seconds % 60) as nat, 2) + "."@ + decimal_padded((total_centis % 100) as nat, 2)
}

pub fn format_ass_time(ms: u64) -> (s: String)
    ensures
        s@ == ass_time_text(ms),
{
    let total_centis = ms / 10;
    let centis = total_centis % 100;
    let total_seconds = total_centis / 100;
    let seconds = total_seconds % 60;
    let total_minutes = total_seconds / 60;
    let minutes = total_minutes % 60;
    let hours = total_minutes / 60;
    let mut out: Vec<char> = Vec::new();
    push_decimal(&mut out, hours);
    push_str(&mut out, ":");
    push_decimal_padded(&mut out, minutes, 2);
    push_str(&mut out, ":");
    push_decimal_padded(&mut out, seconds, 2);
    push_str(&mut out, ".");
    push_decimal_padded(&mut out, centis, 2);
    string_from_chars(out.as_slice())
}

// ---------------------------------------------------------------------------
// Paths inside filter graphs
// ---------------------------------------------------------------------------

/// One character of a path written into a filter argument: backslashes
/// become slashes, and colons and single quotes are escaped.
pub open spec fn filter_path_char(c: char) -> Seq<char> {
    if c == '\\' {
        seq!['/']
    } else if c == ':' {
        seq!['\\', ':']
    } else if c == '\'' {
        seq!['\\', '\'']
    } else {
        seq![c]
    }
}

pub open spec fn filter_path_text(s: Seq<char>) -> Seq<char>
    decreases s.len(),
{
    if s.len() == 0 {
        seq![]
    } else {
        filter_path_text(s.drop_last()) + filter_path_char(s.last())
    }
}

/// Escapes a path for a filter argument (`\` to `/`, then `:` to `\:`, then
/// `'` to `\'`).
pub fn escape_filter_path(path: &str) -> (r: String)
    ensures
        r@ == filter_path_text(path@),
{
    let cs = chars_of(path);
    let mut out: Vec<char> = Vec::new();
    let mut i: usize = 0;
    while i < cs.len()
        invariant
            i <= cs@.len(),
            cs@ == path@,
            out@ == filter_path_text(cs@.subrange(0, i as int)),
        decreases cs.len() - i,
    {
        proof {
            assert(cs@.subrange(0, i + 1).drop_last() =~= cs@.subrange(0, i as int));
        }
        let c = cs[i];
        if c == '\\' {
            out.push('/');
        } else if c == ':' {
            out.push('\\');
            out.push(':');
        } else if c == '\'' {
            out.push('\\');
            out.push('\'');
        } else {
            out.push(c);
        }
        i += 1;
        proof {
            assert(out@ =~= filter_path_text(cs@.subrange(0, i as int)));
        }
    }
    assert(cs@.subrange(0, cs@.len() as int) =~= cs@);
    string_from_chars(out.as_slice())
}

// ---------------------------------------------------------------------------
// The filter graph
// ---------------------------------------------------------------------------

/// The filter that draws the cursor subtitles at `ass_path` onto the framed
/// video.
pub open spec fn subtitles_overlay_text(ass_path: Seq<char>) -> Seq<char> {
    "[framed]subtitles=filename='"@ + filter_path_text(ass_path) + "'[vout]"@
}

pub fn subtitles_overlay_filter(ass_path: &str) -> (s: String)
    ensures
        s@ == subtitles_overlay_text(ass_path@),
{
    let escaped = escape_filter_path(ass_path);
    let mut out: Vec<char> = Vec::new();
    push_str(&mut out, "[framed]subtitles=filename='");
    push_str(&mut out, escaped.as_str());
    push_str(&mut out, "'[vout]");
    string_from_chars(out.as_slice())
}

/// The export's filter graph: resample to the target frame rate, zoom and pan
/// the picture by the camera expressions, fit it into the target size with
/// black bars, and draw the cursor overlay when there is one.
pub open spec fn export_filter_graph_text(
    fps: u32,
    width: u32,
    height: u32,
    zoom: Seq<char>,
    x: Seq<char>,
    y: Seq<char>,
    overlay: Option<Seq<char>>,
) -> Seq<char> {
    let w = decimal(width as nat);
    let h = decimal(height as nat);
    let framing = "[cam]scale="@ + w + ":"@ + h + ":force_original_aspect_ratio=decrease,pad="@ + w + ":"@ + h
        + ":(ow-iw)/2:(oh-ih)/2:black"@;
    let post = match overlay {
        Some(o) => framing + "[framed];"@ + o,
        None => framing + "[vout]"@,
    };
    "fps="@ + decimal(fps as nat) + ",split=2[base][zoom];[zoom]scale=w='iw*("@ + zoom + ")':h='ih*("@ + zoom
        + ")':eval=frame[scaled];[base][scaled]overlay=x='-max(0,min("@ + x + ",overlay_w-main_w))':y='-max(0,min("@
        + y + ",overlay_h-main_h))':eval=frame[cam];"@ + post
}

pub fn export_filter_graph(
    fps: u32,
    width: u32,
    height: u32,
    zoom_expr: &str,
    offset_x_expr: &str,
    offset_y_expr: &str,
    cursor_overlay: Option<&str>,
) -> (g: String)
    ensures
        g@ == export_filter_graph_text(
            fps,
            width,
            height,
            zoom_expr@,
            offset_x_expr@,
            offset_y_expr@,
            match cursor_overlay {
                Some(o) => Some(o@),
                None => None,
            },
        ),
{
    let mut out: Vec<char> = Vec::new();
    push_str(&mut out, "fps=");
    push_decimal(&mut out, fps as u64);
    push_str(&mut out, ",split=2[base][zoom];[zoom]scale=w='iw*(");
    push_str(&mut out, zoom_expr);
    push_str(&mut out, ")':h='ih*(");
    push_str(&mut out, zoom_expr);
    push_str(&mut out, ")':eval=frame[scaled];[base][scaled]overlay=x='-max(0,min(");
    push_str(&mut out, offset_x_expr);
    push_str(&mut out, ",overlay_w-main_w))':y='-max(0,min(");
    push_str(&mut out, offset_y_expr);
    push_str(&mut out, ",overlay_h-main_h))':eval=frame[cam];");
    push_str(&mut out, "[cam]scale=");
    push_decimal(&mut out, width as u64);
    push_str(&mut out, ":");
    push_decimal(&mut out, height as u64);
    push_str(&mut out, ":force_original_aspect_ratio=decrease,pad=");
    push_decimal(&mut out, width as u64);
    push_str(&mut out, ":");
    push_decimal(&mut out, height as u64);
    push_str(&mut out, ":(ow-iw)/2:(oh-ih)/2:black");
    match cursor_overlay {
        Some(o) => {
            push_str(&mut out, "[framed];");
            push_str(&mut out, o);
        },
        None => {
            push_str(&mut out, "[vout]");
        },
    }
    proof {
        let w = decimal(width as nat);
        let h = decimal(height as nat);
        assert(out@ =~= export_filter_graph_text(
            fps,
            width,
            height,
            zoom_expr@,
            offset_x_expr@,
            offset_y_expr@,
            match cursor_overlay {
                Some(o) => Some(o@),
                None => None,
            },
        ));
    }
    string_from_chars(out.as_slice())
}

// ---------------------------------------------------------------------------
// Subtitle file of the cursor
// ---------------------------------------------------------------------------

/// The header of the cursor subtitle file for a `width` x `height` video.
pub open spec fn ass_header_text(width: u32, height: u32) -> Seq<char> {
    "[Script Info]\nScriptType: v4.00+\nPlayResX: "@ + decimal(width as nat) + "\nPlayResY: "@ + decimal(height as nat)
        + "\n\n[V4+ Styles]\nFormat: Name, Fontname, Fontsize, PrimaryColour, SecondaryColour, OutlineColour, BackColour, Bold, Italic, Underline, StrikeOut, ScaleX, ScaleY, Spacing, Angle, BorderStyle, Outline, Shadow, Alignment, MarginL, MarginR, MarginV, Encoding\nStyle: Cursor,Arial,12,&H00000000,&H00000000,&H00FFFFFF,&H00000000,0,0,0,0,100,100,0,0,1,2,0,7,0,0,0,1\n\n[Events]\nFormat: Layer, Start, End, Style, Name, MarginL, MarginR, MarginV, Effect, Text\n"@
}

pub fn ass_header(width: u32, height: u32) -> (s: String)
    ensures
        s@ == ass_header_text(width, height),
{
    let mut out: Vec<char> = Vec::new();
    push_str(&mut out, "[Script Info]\nScriptType: v4.00+\nPlayResX: ");
    push_decimal(&mut out, width as u64);
    push_str(&mut out, "\nPlayResY: ");
    push_decimal(&mut out, height as u64);
    push_str(&mut out, "\n\n[V4+ Styles]\nFormat: Name, Fontname, Fontsize, PrimaryColour, SecondaryColour, OutlineColour, BackColour, Bold, Italic, Underline, StrikeOut, ScaleX, ScaleY, Spacing, Angle, BorderStyle, Outline, Shadow, Alignment, MarginL, MarginR, MarginV, Encoding\nStyle: Cursor,Arial,12,&H00000000,&H00000000,&H00FFFFFF,&H00000000,0,0,0,0,100,100,0,0,1,2,0,7,0,0,0,1\n\n[Events]\nFormat: Layer, Start, End, Style, Name, MarginL, MarginR, MarginV, Effect, Text\n");
    string_from_chars(out.as_slice())
}

/// Decimal text of a signed integer.
pub open spec fn signed_text(v: i64) -> Seq<char> {
    if v < 0 { "-"@ + decimal((-(v as int)) as nat) } else { decimal(v as nat) }
}

fn push_signed(out: &mut Vec<char>, v: i64)
    ensures
        final(out)@ == old(out)@ + signed_text(v),
{
    if v < 0 {
        push_str(out, "-");
        let m: u64 = if v == i64::MIN { 9223372036854775808u64 } else { (-v) as u64 };
        push_decimal(out, m);
    } else {
        push_decimal(out, v as u64);
    }
}

/// The cursor arrow drawn by each subtitle event.
pub open spec fn cursor_vector_path() -> Seq<char> {
    "m 0 0 l 0 90 l 22 70 l 35 110 l 50 102 l 38 63 l 72 63 l 0 0"@
}

/// One subtitle event: the cursor, scaled and outlined as given, moving from
/// `(x1, y1)` to `(x2, y2)` between `start_ms` and `end_ms`.
pub open spec fn ass_dialogue_text(start_ms: u64, end_ms: u64, scale: Seq<char>, outline: Seq<char>, x1: i64, y1: i64, x2: i64, y2: i64) -> Seq<char> {
    "Dialogue: 0,"@ + ass_time_text(start_ms) + ","@ + ass_time_text(end_ms) + ",Cursor,,0,0,0,,{\\an7\\p1\\fscx"@ + scale
        + "\\fscy"@ + scale + "\\bord"@ + outline + "\\shad0\\move("@ + signed_text(x1) + ","@ + signed_text(y1) + ","@
        + signed_text(x2) + ","@ + signed_text(y2) + ")}"@ + cursor_vector_path() + "\n"@
}

/// A subtitle event line; `scale` and `outline` are the percent scale and the
/// outline width as the event shows them (two decimals).
pub fn ass_dialogue_line(start_ms: u64, end_ms: u64, scale: &str, outline: &str, x1: i64, y1: i64, x2: i64, y2: i64) -> (s: String)
    ensures
        s@ == ass_dialogue_text(start_ms, end_ms, scale@, outline@, x1, y1, x2, y2),
{
    let mut out: Vec<char> = Vec::new();
    push_str(&mut out, "Dialogue: 0,");
    let st = format_ass_time(start_ms);
    push_str(&mut out, st.as_str());
    push_str(&mut out, ",");
    let et = format_ass_time(end_ms);
    push_str(&mut out, et.as_str());
    push_str(&mut out, ",Cursor,,0,0,0,,{\\an7\\p1\\fscx");
    push_str(&mut out, scale);
    push_str(&mut out, "\\fscy");
    push_str(&mut out, scale);
    push_str(&mut out, "\\bord");
    push_str(&mut out, outline);
    push_str(&mut out, "\\shad0\\move(");
    push_signed(&mut out, x1);
    push_str(&mut out, ",");
    push_signed(&mut out, y1);
    push_str(&mut out, ",");
    push_signed(&mut out, x2);
    push_str(&mut out, ",");
    push_signed(&mut out, y2);
    push_str(&mut out, ")}");
    push_str(&mut out, "m 0 0 l 0 90 l 22 70 l 35 110 l 50 102 l 38 63 l 72 63 l 0 0");
    push_str(&mut out, "\n");
    string_from_chars(out.as_slice())
}

// ---------------------------------------------------------------------------
// Click pulses
// ---------------------------------------------------------------------------

/// `n` milliseconds as seconds with four decimals, the format of the
/// expressions (`1234` gives `1.2340`).
pub open spec fn seconds4_text(n: int) -> Seq<char> {
    decimal((n / 1000) as nat) + "."@ + decimal_padded((n % 1000) as nat, 3) + "0"@
}

fn push_seconds4(out: &mut Vec<char>, n: u128)
    requires
        n / 1000 <= u64::MAX,
    ensures
        final(out)@ == old(out)@ + seconds4_text(n as int),
{
    push_decimal(out, (n / 1000) as u64);
    push_str(out, ".");
    push_decimal_padded(out, (n % 1000) as u64, 3);
    push_str(out, "0");
}

/// The two terms of the pulse of a click at `ms`: the cursor shrinks to 82%
/// over 65 ms, then grows back over 85 ms.
pub open spec fn click_pulse_terms(ms: u64) -> Seq<char> {
    let s = seconds4_text(ms as int);
    let d = seconds4_text(ms + 65);
    let u = seconds4_text(ms + 150);
    "if(gte(t,"@ + s + ")*lt(t,"@ + d + "),(1-(0.1800)*((t-"@ + s + ")/0.0650))-1,0)+if(gte(t,"@ + d + ")*lt(t,"@ + u
        + "),(0.8200+(0.1800)*((t-"@ + d + ")/0.0850))-1,0)"@
}

/// The pulse terms of the first `n` clicks, each preceded by `+`.
pub open spec fn click_pulse_sum(clicks: Seq<u64>, n: nat) -> Seq<char>
    decreases n,
{
    if n == 0 {
        seq![]
    } else {
        click_pulse_sum(clicks, (n - 1) as nat) + "+"@ + click_pulse_terms(clicks[n - 1])
    }
}

/// Appends `+` and the pulse terms of a click at `ms`.
fn push_click_pulse(out: &mut Vec<char>, ms: u64)
    ensures
        final(out)@ == old(out)@ + "+"@ + click_pulse_terms(ms),
{
    let s = ms as u128;
    let d = ms as u128 + 65;
    let u = ms as u128 + 150;
    let ghost start = out@;
    push_str(out, "+");
    push_str(out, "if(gte(t,");
    push_seconds4(out, s);
    push_str(out, ")*lt(t,");
    push_seconds4(out, d);
    push_str(out, "),(1-(0.1800)*((t-");
    push_seconds4(out, s);
    push_str(out, ")/0.0650))-1,0)+if(gte(t,");
    push_seconds4(out, d);
    push_str(out, ")*lt(t,");
    push_seconds4(out, u);
    push_str(out, "),(0.8200+(0.1800)*((t-");
    push_seconds4(out, d);
    push_str(out, ")/0.0850))-1,0)");
    assert(out@ =~= start + "+"@ + click_pulse_terms(ms));
}

/// The factor by which clicks scale the cursor, as an ffmpeg expression of
/// the time `t` in seconds: 1 plus a pulse per click.
pub fn build_click_pulse_factor_expr(click_times_ms: &Vec<u64>) -> (e: String)
    ensures
        e@ == "1"@ + click_pulse_sum(click_times_ms@, click_times_ms@.len() as nat),
{
    let mut out: Vec<char> = Vec::new();
    push_str(&mut out, "1");
    let mut k: usize = 0;
    while k < click_times_ms.len()
        invariant
            k <= click_times_ms@.len(),
            out@ == "1"@ + click_pulse_sum(click_times_ms@, k as nat),
        decreases click_times_ms.len() - k,
    {
        let ms = click_times_ms[k];
        let ghost before = out@;
        push_click_pulse(&mut out, ms);
        k += 1;
        proof {
            assert(out@ =~= "1"@ + click_pulse_sum(click_times_ms@, k as nat));
        }
    }
    string_from_chars(out.as_slice())
}

// ---------------------------------------------------------------------------
// Thinning point lists
// ---------------------------------------------------------------------------

/// Index of the `i`-th of `m` samples spread evenly over `0..=last`.
pub open spec fn spread_index(i: int, last: int, m: int) -> int {
    i * last / (m - 1)
}

/// The evenly spread samples among the first `k` of `m`, skipping repeats.
pub open spec fn spread_samples(points: Seq<u64>, m: int, k: int) -> Seq<u64>
    decreases k,
{
    if k <= 0 {
        seq![]
    } else {
        let prev = spread_samples(points, m, k - 1);
        let idx = spread_index(k - 1, points.len() - 1, m);
        if k - 1 > 0 && idx == spread_index(k - 2, points.len() - 1, m) {
            prev
        } else {
            prev.push(points[idx])
        }
    }
}

/// At most `max_points` of `points`, spread evenly and keeping both ends;
/// lists that are short enough (or a limit below 2) are kept whole.
pub open spec fn decimated(points: Seq<u64>, max_points: usize) -> Seq<u64> {
    if points.len() <= max_points || max_points < 2 {
        points
    } else {
        let s = spread_samples(points, max_points as int, max_points as int);
        if s.len() > 0 && s.last() == points.last() { s } else { s.push(points.last()) }
    }
}

proof fn lemma_spread_index_bounds(i: int, last: int, m: int)
    requires
        0 <= i < m,
        m >= 2,
        last >= 0,
    ensures
        0 <= spread_index(i, last, m) <= last,
{
    assert(0 <= i * last / (m - 1) <= last) by (nonlinear_arith)
        requires 0 <= i < m, m >= 2, last >= 0;
}

pub fn decimate_u64_points(points: &Vec<u64>, max_points: usize) -> (r: Vec<u64>)
    ensures
        r@ == decimated(points@, max_points),
{
    if points.len() <= max_points || max_points < 2 {
        return points.clone();
    }
    let n = points.len();
    let last_index = n - 1;
    let max_index = max_points - 1;
    let mut result: Vec<u64> = Vec::new();
    let mut prev_idx: usize = 0;
    let mut index: usize = 0;
    while index < max_points
        invariant
            n == points@.len(),
            n > max_points >= 2,
            last_index == n - 1,
            max_index == max_points - 1,
            index <= max_points,
            index > 0 ==> prev_idx == spread_index(index - 1, last_index as int, max_points as int),
            result@ == spread_samples(points@, max_points as int, index as int),
        decreases max_points - index,
    {
        proof {
            lemma_spread_index_bounds(index as int, last_index as int, max_points as int);
            lemma_wide_product(index as u128, last_index as u128);
        }
        let sample_idx = ((index as u128 * last_index as u128) / max_index as u128) as usize;
        if !(index > 0 && sample_idx == prev_idx) {
            result.push(points[sample_idx]);
        }
        prev_idx = sample_idx;
        index += 1;
    }
    let lst = points[last_index];
    if !(result.len() > 0 && result[result.len() - 1] == lst) {
        result.push(lst);
    }
    result
}

proof fn lemma_spread_samples_shape(points: Seq<u64>, m: int, k: int)
    requires
        m >= 2,
        points.len() > m,
        1 <= k <= m,
    ensures
        spread_samples(points, m, k).len() <= k,
        spread_samples(points, m, k).len() > 0,
        spread_samples(points, m, k)[0] == points[0],
        spread_samples(points, m, k).last() == points[spread_index(k - 1, points.len() - 1, m)],
    decreases k,
{
    lemma_spread_index_bounds(k - 1, points.len() - 1, m);
    if k == 1 {
        assert(spread_index(0, points.len() - 1, m) == 0) by (nonlinear_arith)
            requires m >= 2;
        assert(spread_samples(points, m, 0) =~= Seq::<u64>::empty());
    } else {
        lemma_spread_samples_shape(points, m, k - 1);
        lemma_spread_index_bounds(k - 2, points.len() - 1, m);
    }
}

/// Thinning a list keeps its first and its last point and, when it thins at
/// all, leaves at most `max_points`.
pub proof fn law_decimation_keeps_both_ends(points: Seq<u64>, max_points: usize)
    requires
        points.len() > 0,
    ensures
        decimated(points, max_points).len() > 0,
        decimated(points, max_points)[0] == points[0],
        decimated(points, max_points).last() == points.last(),
        points.len() > max_points >= 2 ==> decimated(points, max_points).len() <= max_points,
{
    if !(points.len() <= max_points || max_points < 2) {
        let m = max_points as int;
        lemma_spread_samples_shape(points, m, m);
        let last = points.len() - 1;
        assert(spread_index(m - 1, last, m) == last) by (nonlinear_arith)
            requires m >= 2, last >= 0;
    }
}

proof fn lemma_spread_samples_exact(points: Seq<u64>, m: int, k: int)
    requires
        m >= 2,
        points.len() > m,
        0 <= k <= m,
    ensures
        spread_samples(points, m, k) == Seq::new(k as nat, |i: int| points[spread_index(i, points.len() - 1, m)]),
    decreases k,
{
    if k > 0 {
        let last = points.len() - 1;
        lemma_spread_samples_exact(points, m, k - 1);
        lemma_spread_index_bounds(k - 1, last, m);
        if k > 1 {
            assert((k - 1) * last == (k - 2) * last + last) by (nonlinear_arith);
            assert((k - 2) * last >= 0) by (nonlinear_arith)
                requires k >= 2, last >= 0;
            lemma_div_step((k - 2) * last, last, m - 1);
        }
        assert(spread_samples(points, m, k) =~= Seq::new(k as nat, |i: int| points[spread_index(i, last, m)]));
    }
}

/// A list that is thinned keeps exactly `max_points` of its points, the
/// `i`-th being the point at `i * (len - 1) / (max_points - 1)`.
pub proof fn law_decimation_samples_evenly(points: Seq<u64>, max_points: usize)
    requires
        points.len() > max_points >= 2,
    ensures
        decimated(points, max_points).len() == max_points,
        forall|i: int| 0 <= i < max_points ==> #[trigger] decimated(points, max_points)[i] == points[spread_index(
            i,
            points.len() - 1,
            max_points as int,
        )],
{
    let m = max_points as int;
    let last = points.len() - 1;
    lemma_spread_samples_exact(points, m, m);
    lemma_spread_samples_shape(points, m, m);
    assert(spread_index(m - 1, last, m) == last) by (nonlinear_arith)
        requires m >= 2, last >= 0;
}

/// Greedy thinning of sorted times: a time is kept when it is at least
/// `min_gap_ms` after the last kept one.
pub open spec fn gap_compacted(sorted: Seq<u64>, min_gap_ms: u64) -> Seq<u64>
    decreases sorted.len(),
{
    if sorted.len() == 0 {
        seq![]
    } else {
        let prev = gap_compacted(sorted.drop_last(), min_gap_ms);
        if prev.len() > 0 && sorted.last().saturating_sub(prev.last()) < min_gap_ms {
            prev
        } else {
            prev.push(sorted.last())
        }
    }
}

/// The click times, sorted, without clicks that follow a kept one by less
/// than `min_gap_ms`.
pub fn compact_click_times(points: &Vec<u64>, min_gap_ms: u64) -> (r: Vec<u64>)
    ensures
        exists|sorted: Seq<u64>| #![trigger gap_compacted(sorted, min_gap_ms)]
            sorted.to_multiset() == points@.to_multiset()
                && (forall|i: int, j: int| 0 <= i <= j < sorted.len() ==> #[trigger] sorted[i] <= #[trigger] sorted[j])
                && r@ == gap_compacted(sorted, min_gap_ms),
{
    let sorted = crate::order::sorted_u64(points);
    let mut result: Vec<u64> = Vec::new();
    let mut i: usize = 0;
    while i < sorted.len()
        invariant
            i <= sorted@.len(),
            result@ == gap_compacted(sorted@.subrange(0, i as int), min_gap_ms),
        decreases sorted.len() - i,
    {
        proof {
            assert(sorted@.subrange(0, i + 1).drop_last() =~= sorted@.subrange(0, i as int));
        }
        let ts = sorted[i];
        let n = result.len();
        if !(n > 0 && ts.saturating_sub(result[n - 1]) < min_gap_ms) {
            result.push(ts);
        }
        i += 1;
    }
    assert(sorted@.subrange(0, sorted@.len() as int) =~= sorted@);
    assert(result@ == gap_compacted(sorted@, min_gap_ms));
    result
}

/// Evenly spread interior indices `1..len-1`, at most `count` of them.
pub open spec fn uniform_slot_index(slot: int, interior: int, target: int) -> int {
    1 + (slot + 1) * interior / (target + 1)
}

/// The evenly spread indices of the first `k` slots, skipping repeats.
pub open spec fn uniform_indices(interior: int, target: int, k: int) -> Seq<usize>
    decreases k,
{
    if k <= 0 {
        seq![]
    } else {
        let prev = uniform_indices(interior, target, k - 1);
        let idx = uniform_slot_index(k - 1, interior, target);
        if prev.len() > 0 && prev.last() == idx { prev } else { prev.push(idx as usize) }
    }
}

/// `base` topped up with the interior indices `1..k` it lacks, in order, until
/// it holds `target` indices.
pub open spec fn topped_up(base: Seq<usize>, target: int, k: int) -> Seq<usize>
    decreases k,
{
    if k <= 1 {
        base
    } else {
        let prev = topped_up(base, target, k - 1);
        if prev.len() >= target || prev.contains((k - 1) as usize) { prev } else { prev.push((k - 1) as usize) }
    }
}

/// `count` interior indices of a list of `len` points (neither end), spread
/// evenly; none when the list has no interior or nothing is asked for.
pub open spec fn uniform_internal_indices(len: usize, count: usize) -> Seq<usize> {
    if len <= 2 || count == 0 {
        seq![]
    } else {
        let interior = len - 2;
        let target = if count < interior { count as int } else { interior as int };
        let base = uniform_indices(interior as int, target, target);
        if base.len() < target { topped_up(base, target, len - 1) } else { base }
    }
}

proof fn lemma_uniform_slot_bounds(slot: int, interior: int, target: int)
    requires
        0 <= slot < target,
        1 <= target <= interior,
    ensures
        1 <= uniform_slot_index(slot, interior, target) <= interior,
{
    assert(0 <= (slot + 1) * interior / (target + 1) < interior) by (nonlinear_arith)
        requires 0 <= slot < target, 1 <= target <= interior;
}

/// Adding at least the divisor to a non-negative dividend raises the
/// quotient.
proof fn lemma_div_step(a: int, l: int, d: int)
    requires
        a >= 0,
        d > 0,
        l >= d,
    ensures
        a / d < (a + l) / d,
{
    lemma_fundamental_div_mod(a, d);
    lemma_mod_bound(a, d);
    let q = a / d;
    assert(d * (q + 1) <= a + l) by (nonlinear_arith)
        requires a == d * q + a % d, 0 <= a % d < d, l >= d;
    lemma_div_is_ordered(d * (q + 1), a + l, d);
    lemma_div_multiples_vanish(q + 1, d);
}

/// Consecutive slots of the even spread get distinct, increasing indices.
proof fn lemma_uniform_slot_increasing(slot: int, interior: int, target: int)
    requires
        0 <= slot,
        slot + 1 < target,
        1 <= target <= interior,
    ensures
        uniform_slot_index(slot, interior, target) < uniform_slot_index(slot + 1, interior, target),
{
    let d = target + 1;
    let a = (slot + 1) * interior;
    assert((slot + 2) * interior == a + interior) by (nonlinear_arith)
        requires a == (slot + 1) * interior;
    assert(a >= 0) by (nonlinear_arith)
        requires a == (slot + 1) * interior, slot >= 0, interior >= 1;
    if interior >= d {
        lemma_div_step(a, interior, d);
    } else {
        assert(interior == target);
        assert(a == slot * d + (target - slot)) by (nonlinear_arith)
            requires a == (slot + 1) * interior, interior == target, d == target + 1;
        lemma_fundamental_div_mod_converse(a, d, slot, target - slot);
        assert(a + interior == (slot + 1) * d + (target - slot - 1)) by (nonlinear_arith)
            requires a == (slot + 1) * interior, interior == target, d == target + 1;
        lemma_fundamental_div_mod_converse(a + interior, d, slot + 1, target - slot - 1);
    }
}

/// Without repeats to skip, the spread holds one index per slot.
proof fn lemma_uniform_indices_exact(interior: int, target: int, k: int)
    requires
        1 <= target <= interior,
        0 <= k <= target,
    ensures
        uniform_indices(interior, target, k) == Seq::new(k as nat, |i: int| uniform_slot_index(i, interior, target) as usize),
    decreases k,
{
    if k > 0 {
        lemma_uniform_indices_exact(interior, target, k - 1);
        lemma_uniform_slot_bounds(k - 1, interior, target);
        if k > 1 {
            lemma_uniform_slot_increasing(k - 2, interior, target);
            lemma_uniform_slot_bounds(k - 2, interior, target);
        }
        assert(uniform_indices(interior, target, k) =~= Seq::new(
            k as nat,
            |i: int| uniform_slot_index(i, interior, target) as usize,
        ));
    }
}

/// The spread interior indices are strictly increasing, lie strictly inside
/// the list (neither end), and there are as many as asked for, but no more
/// than the interior holds.
pub proof fn law_uniform_indices_are_increasing_inside_and_counted(len: usize, count: usize)
    ensures
        len <= 2 || count == 0 ==> uniform_internal_indices(len, count).len() == 0,
        uniform_internal_indices(len, count).len() == (if len <= 2 || count == 0 {
            0
        } else if count < len - 2 {
            count as int
        } else {
            len - 2
        }),
        forall|i: int| 0 <= i < uniform_internal_indices(len, count).len() ==>
            1 <= #[trigger] uniform_internal_indices(len, count)[i] <= len - 2,
        forall|i: int, j: int| 0 <= i < j < uniform_internal_indices(len, count).len() ==>
            #[trigger] uniform_internal_indices(len, count)[i] < #[trigger] uniform_internal_indices(len, count)[j],
{
    if !(len <= 2 || count == 0) {
        let interior = len - 2;
        let target = if count < interior { count as int } else { interior as int };
        lemma_uniform_indices_exact(interior as int, target, target);
        let r = uniform_internal_indices(len, count);
        assert forall|i: int| 0 <= i < r.len() implies 1 <= #[trigger] r[i] <= len - 2 by {
            lemma_uniform_slot_bounds(i, interior as int, target);
        }
        assert forall|i: int, j: int| 0 <= i < j < r.len() implies #[trigger] r[i] < #[trigger] r[j] by {
            lemma_uniform_increasing_between(i, j, interior as int, target);
            lemma_uniform_slot_bounds(i, interior as int, target);
            lemma_uniform_slot_bounds(j, interior as int, target);
        }
    }
}

proof fn lemma_uniform_increasing_between(i: int, j: int, interior: int, target: int)
    requires
        0 <= i < j < target,
        1 <= target <= interior,
    ensures
        uniform_slot_index(i, interior, target) < uniform_slot_index(j, interior, target),
    decreases j - i,
{
    lemma_uniform_slot_increasing(j - 1, interior, target);
    if i < j - 1 {
        lemma_uniform_increasing_between(i, j - 1, interior, target);
    }
}

pub fn select_uniform_internal_indices(len: usize, count: usize) -> (r: Vec<usize>)
    ensures
        r@ == uniform_internal_indices(len, count),
{
    if len <= 2 || count == 0 {
        return Vec::new();
    }
    let interior = len - 2;
    let target = if count < interior { count } else { interior };
    let mut result: Vec<usize> = Vec::new();
    let mut slot: usize = 0;
    while slot < target
        invariant
            interior == len - 2,
            1 <= target <= interior,
            slot <= target,
            result@ == uniform_indices(interior as int, target as int, slot as int),
        decreases target - slot,
    {
        proof {
            lemma_uniform_slot_bounds(slot as int, interior as int, target as int);
            lemma_wide_product((slot + 1) as u128, interior as u128);
        }
        let idx = (1 + ((slot as u128 + 1) * interior as u128) / (target as u128 + 1)) as usize;
        let n = result.len();
        if !(n > 0 && result[n - 1] == idx) {
            result.push(idx);
        }
        slot += 1;
    }
    if result.len() < target {
        let ghost base = result@;
        let mut idx: usize = 1;
        while idx < len - 1
            invariant
                len > 2,
                count > 0,
                interior == len - 2,
                target == (if count < interior { count } else { interior }),
                base == uniform_indices(interior as int, target as int, target as int),
                base.len() < target,
                1 <= idx <= len - 1,
                result@ == topped_up(base, target as int, idx as int),
            decreases len - 1 - idx,
        {
            if result.len() >= target {
                proof {
                    lemma_topped_up_full(base, target as int, idx as int, (len - 1) as int);
                }
                return result;
            }
            let mut present = false;
            let mut j: usize = 0;
            while j < result.len()
                invariant
                    j <= result@.len(),
                    present == exists|m: int| 0 <= m < j && result@[m] == idx,
                decreases result.len() - j,
            {
                if result[j] == idx {
                    present = true;
                }
                j += 1;
            }
            proof {
                if present {
                    let m = choose|m: int| 0 <= m < result@.len() && result@[m] == idx;
                    assert(result@.contains(idx));
                } else {
                    assert(!result@.contains(idx));
                }
            }
            if !present {
                result.push(idx);
            }
            idx += 1;
        }
    }
    result
}

proof fn lemma_topped_up_full(base: Seq<usize>, target: int, k: int, n: int)
    requires
        1 <= k <= n,
        topped_up(base, target, k).len() >= target,
    ensures
        topped_up(base, target, n) == topped_up(base, target, k),
    decreases n - k,
{
    if k < n {
        lemma_topped_up_full(base, target, k + 1, n);
    }
}

/// Every time kept by the gap thinning is one of the input times.
proof fn lemma_gap_compacted_from(sorted: Seq<u64>, min_gap_ms: u64)
    ensures
        forall|i: int| 0 <= i < gap_compacted(sorted, min_gap_ms).len() ==> sorted.contains(
            #[trigger] gap_compacted(sorted, min_gap_ms)[i],
        ),
    decreases sorted.len(),
{
    if sorted.len() > 0 {
        let d = sorted.drop_last();
        lemma_gap_compacted_from(d, min_gap_ms);
        let prev = gap_compacted(d, min_gap_ms);
        assert forall|i: int| 0 <= i < gap_compacted(sorted, min_gap_ms).len() implies sorted.contains(
            #[trigger] gap_compacted(sorted, min_gap_ms)[i],
        ) by {
            let r = gap_compacted(sorted, min_gap_ms);
            if i < prev.len() {
                assert(r[i] == prev[i]);
                assert(d.contains(prev[i]));
                let m = choose|m: int| 0 <= m < d.len() && d[m] == prev[i];
                assert(sorted[m] == prev[i]);
            } else {
                assert(r[i] == sorted.last());
                assert(sorted[sorted.len() - 1] == sorted.last());
            }
        }
    }
}

/// Click pulses are thinned so that kept clicks, in order, lie at least the
/// least gap apart.
pub proof fn law_compacted_clicks_are_spaced(sorted: Seq<u64>, min_gap_ms: u64)
    requires
        forall|i: int, j: int| 0 <= i <= j < sorted.len() ==> #[trigger] sorted[i] <= #[trigger] sorted[j],
    ensures
        forall|i: int| 0 <= i < gap_compacted(sorted, min_gap_ms).len() - 1 ==> gap_compacted(sorted, min_gap_ms)[i]
            + min_gap_ms <= #[trigger] gap_compacted(sorted, min_gap_ms)[i + 1],
    decreases sorted.len(),
{
    if sorted.len() > 0 {
        let d = sorted.drop_last();
        law_compacted_clicks_are_spaced(d, min_gap_ms);
        lemma_gap_compacted_from(d, min_gap_ms);
        let prev = gap_compacted(d, min_gap_ms);
        let r = gap_compacted(sorted, min_gap_ms);
        assert forall|i: int| 0 <= i < r.len() - 1 implies r[i] + min_gap_ms <= #[trigger] r[i + 1] by {
            if i + 1 < prev.len() {
                assert(r[i] == prev[i] && r[i + 1] == prev[i + 1]);
            } else {
                assert(r.len() == prev.len() + 1);
                assert(r[i] == prev.last());
                assert(d.contains(prev.last()));
                let m = choose|m: int| 0 <= m < d.len() && d[m] == prev.last();
                assert(sorted[m] <= sorted[sorted.len() - 1]);
                assert(r[i + 1] == sorted.last());
            }
        }
    }
}

proof fn lemma_compacted_shape(sorted: Seq<u64>, g: u64)
    requires
        forall|i: int, j: int| 0 <= i <= j < sorted.len() ==> #[trigger] sorted[i] <= #[trigger] sorted[j],
    ensures
        forall|i: int, j: int| 0 <= i < j < gap_compacted(sorted, g).len() ==>
            #[trigger] gap_compacted(sorted, g)[i] <= #[trigger] gap_compacted(sorted, g)[j],
        forall|i: int| 0 <= i < gap_compacted(sorted, g).len() ==>
            sorted.len() > 0 && #[trigger] gap_compacted(sorted, g)[i] <= sorted.last(),
        gap_compacted(sorted, g).to_multiset().subset_of(sorted.to_multiset()),
        (gap_compacted(sorted, g).len() == 0) == (sorted.len() == 0),
        sorted.len() > 0 ==> gap_compacted(sorted, g)[0] == sorted[0],
        forall|i: int| 0 <= i < sorted.len() ==> exists|j: int| #![trigger gap_compacted(sorted, g)[j]]
            0 <= j < gap_compacted(sorted, g).len() && gap_compacted(sorted, g)[j] <= #[trigger] sorted[i]
                && (sorted[i] == gap_compacted(sorted, g)[j] || sorted[i] - gap_compacted(sorted, g)[j] < g),
    decreases sorted.len(),
{
    broadcast use vstd::seq_lib::group_to_multiset_ensures;
    let r = gap_compacted(sorted, g);
    if sorted.len() == 0 {
        assert(r.to_multiset() =~= sorted.to_multiset());
    } else {
        let d = sorted.drop_last();
        let x = sorted.last();
        assert(sorted =~= d.push(x));
        assert forall|i: int, j: int| 0 <= i <= j < d.len() implies #[trigger] d[i] <= #[trigger] d[j] by {
            assert(d[i] == sorted[i] && d[j] == sorted[j]);
        }
        lemma_compacted_shape(d, g);
        let prev = gap_compacted(d, g);
        assert forall|i: int| 0 <= i < prev.len() implies #[trigger] prev[i] <= x by {
            assert(d.len() > 0 && prev[i] <= d.last());
            assert(d.last() == sorted[d.len() - 1]);
            assert(sorted[d.len() - 1] <= sorted[sorted.len() - 1]);
        }
        let dropped = prev.len() > 0 && x.saturating_sub(prev.last()) < g;
        if dropped {
            assert(r == prev);
            assert(prev.to_multiset().subset_of(sorted.to_multiset())) by {
                assert forall|v: u64| prev.to_multiset().count(v) <= sorted.to_multiset().count(v) by {
                    assert(d.to_multiset().count(v) <= d.push(x).to_multiset().count(v));
                }
            }
        } else {
            assert(r == prev.push(x));
            assert(r.to_multiset().subset_of(sorted.to_multiset())) by {
                assert forall|v: u64| r.to_multiset().count(v) <= sorted.to_multiset().count(v) by {
                    assert(prev.to_multiset().count(v) <= d.to_multiset().count(v));
                }
            }
            assert forall|i: int, j: int| 0 <= i < j < r.len() implies #[trigger] r[i] <= #[trigger] r[j] by {
                if j == r.len() - 1 {
                    assert(r[i] == prev[i]);
                } else {
                    assert(r[i] == prev[i] && r[j] == prev[j]);
                }
            }
        }
        assert forall|i: int| 0 <= i < r.len() implies sorted.len() > 0 && #[trigger] r[i] <= sorted.last() by {
            if i < prev.len() {
                assert(r[i] == prev[i]);
            }
        }
        if d.len() > 0 {
            assert(r[0] == prev[0]);
            assert(d[0] == sorted[0]);
        }
        assert forall|i: int| 0 <= i < sorted.len() implies exists|j: int| #![trigger r[j]]
            0 <= j < r.len() && r[j] <= #[trigger] sorted[i] && (sorted[i] == r[j] || sorted[i] - r[j] < g) by {
            if i < d.len() {
                assert(sorted[i] == d[i]);
                let j = choose|j: int| #![trigger prev[j]]
                    0 <= j < prev.len() && prev[j] <= d[i] && (d[i] == prev[j] || d[i] - prev[j] < g);
                assert(r[j] == prev[j]);
            } else if dropped {
                let j = prev.len() - 1;
                assert(r[j] == prev.last());
                assert(prev[j] <= x);
                assert(sorted[i] == x);
            } else {
                let j = r.len() - 1;
                assert(r[j] == x);
                assert(sorted[i] == x);
            }
        }
    }
}

/// Thinning sorted click times keeps a sorted selection of them that starts
/// with the earliest, and drops only times that follow a kept one by less
/// than the gap.
pub proof fn law_compacted_clicks_keep_the_earliest_and_cover_the_dropped(sorted: Seq<u64>, min_gap_ms: u64)
    requires
        forall|i: int, j: int| 0 <= i <= j < sorted.len() ==> #[trigger] sorted[i] <= #[trigger] sorted[j],
    ensures
        forall|i: int, j: int| 0 <= i < j < gap_compacted(sorted, min_gap_ms).len() ==>
            #[trigger] gap_compacted(sorted, min_gap_ms)[i] <= #[trigger] gap_compacted(sorted, min_gap_ms)[j],
        gap_compacted(sorted, min_gap_ms).to_multiset().subset_of(sorted.to_multiset()),
        (gap_compacted(sorted, min_gap_ms).len() == 0) == (sorted.len() == 0),
        sorted.len() > 0 ==> gap_compacted(sorted, min_gap_ms)[0] == sorted[0],
        forall|i: int| 0 <= i < sorted.len() ==> exists|j: int| #![trigger gap_compacted(sorted, min_gap_ms)[j]]
            0 <= j < gap_compacted(sorted, min_gap_ms).len() && gap_compacted(sorted, min_gap_ms)[j] <= #[trigger] sorted[i]
                && (sorted[i] == gap_compacted(sorted, min_gap_ms)[j] || sorted[i] - gap_compacted(sorted, min_gap_ms)[j]
                < min_gap_ms),
{
    lemma_compacted_shape(sorted, min_gap_ms);
}

#[verifier::spinoff_prover]
proof fn lemma_click_pulse_prefix(a: Seq<u64>, b: Seq<u64>, k: nat)
    requires
        k <= a.len(),
    ensures
        click_pulse_sum(a + b, k) == click_pulse_sum(a, k),
    decreases k,
{
    if k > 0 {
        lemma_click_pulse_prefix(a, b, (k - 1) as nat);
        assert((a + b)[k - 1] == a[k - 1]);
    }
}

#[verifier::spinoff_prover]
#[verifier::rlimit(50)]
proof fn lemma_click_pulse_concat(a: Seq<u64>, b: Seq<u64>, m: nat)
    requires
        m <= b.len(),
    ensures
        click_pulse_sum(a + b, a.len() + m) == click_pulse_sum(a, a.len()) + click_pulse_sum(b, m),
    decreases m,
{
    if m == 0 {
        lemma_click_pulse_prefix(a, b, a.len());
        assert(click_pulse_sum(a, a.len()) + click_pulse_sum(b, 0) =~= click_pulse_sum(a, a.len()));
    } else {
        lemma_click_pulse_concat(a, b, (m - 1) as nat);
        assert((a + b)[a.len() + m - 1] == b[m - 1]);
        assert(click_pulse_sum(a + b, a.len() + m) == click_pulse_sum(a + b, (a.len() + m - 1) as nat) + "+"@
            + click_pulse_terms(b[m - 1]));
        assert(click_pulse_sum(a, a.len()) + click_pulse_sum(b, m) =~= click_pulse_sum(a, a.len()) + click_pulse_sum(
            b,
            (m - 1) as nat,
        ) + "+"@ + click_pulse_terms(b[m - 1]));
    }
}

/// Law of the click pulse expression: each click adds its own pulse, in the
/// order of the clicks. One click gives `+` and the pulse terms of that
/// click, and the expression for the clicks of `a` followed by those of `b`
/// is the expression for `a` followed by the one for `b`; so the pulse terms
/// of the `k`-th click are built from the `k`-th click time.
#[verifier::spinoff_prover]
pub proof fn law_click_pulses_follow_the_clicks(a: Seq<u64>, b: Seq<u64>, c: u64)
    ensures
        click_pulse_sum(seq![c], 1) == "+"@ + click_pulse_terms(c),
        click_pulse_sum(a + b, (a.len() + b.len()) as nat) == click_pulse_sum(a, a.len()) + click_pulse_sum(
            b,
            b.len(),
        ),
        click_pulse_sum(a.push(c), (a.len() + 1) as nat) == click_pulse_sum(a, a.len()) + "+"@ + click_pulse_terms(c),
{
    assert(click_pulse_sum(seq![c], 0) =~= seq![]);
    assert(click_pulse_sum(seq![c], 1) =~= "+"@ + click_pulse_terms(c));
    lemma_click_pulse_concat(a, b, b.len());
    lemma_click_pulse_concat(a, seq![c], 1);
    assert(a + seq![c] =~= a.push(c));
    assert(click_pulse_sum(a, a.len()) + ("+"@ + click_pulse_terms(c)) =~= click_pulse_sum(a, a.len()) + "+"@
        + click_pulse_terms(c));
}

} // verus!
