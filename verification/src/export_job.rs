//! An export job: checking the request, the ffmpeg command line, reading
//! ffmpeg's error output, and the status the job ends in.

use vstd::prelude::*;
use crate::text::{
    chars_of, contains, contains_str, lowercase, push_all, push_str, string_from_chars, subvec, to_lowercase, trim,
    trim_string, trim_ws,
};

verus! {

broadcast use vstd::string::group_string_axioms;

/// The error text by which a cancelled job reports that it was cancelled.
pub open spec fn cancelled_sentinel() -> Seq<char> {
    "__NSC_EXPORT_CANCELLED__"@
}

/// Why an export request or command was refused.
#[derive(Clone, Debug, PartialEq, Eq)]
pub enum ExportError {
    UnsupportedCodec(String),
    AlreadyRunning,
    NotRunning,
    ResetWhileRunning,
}

impl ExportError {
    pub fn message(&self) -> (m: String)
        ensures
            m@ == match self {
                ExportError::UnsupportedCodec(c) => "Unsupported codec: "@ + c@,
                ExportError::AlreadyRunning => "Another export is already running"@,
                ExportError::NotRunning => "No active export to cancel"@,
                ExportError::ResetWhileRunning => "Cannot reset status while export is running"@,
            },
    {
        match self {
            ExportError::UnsupportedCodec(c) => {
                let mut out: Vec<char> = Vec::new();
                push_str(&mut out, "Unsupported codec: ");
                push_str(&mut out, c.as_str());
                string_from_chars(out.as_slice())
            },
            ExportError::AlreadyRunning => "Another export is already running".to_string(),
            ExportError::NotRunning => "No active export to cancel".to_string(),
            ExportError::ResetWhileRunning => "Cannot reset status while export is running".to_string(),
        }
    }
}

// ---------------------------------------------------------------------------
// The request
// ---------------------------------------------------------------------------

/// The target of an export.
#[derive(Clone, Debug)]
pub struct ExportTarget {
    pub width: u32,
    pub height: u32,
    pub fps: u32,
    pub codec: String,
}

pub open spec fn clamp_u32(v: u32, lo: u32, hi: u32) -> u32 {
    if v < lo { lo } else if v > hi { hi } else { v }
}

/// The codecs an export can use.
pub open spec fn is_supported_codec(c: Seq<char>) -> bool {
    c == "h264"@ || c == "h265"@ || c == "vp9"@
}

/// The target of an export from the request and the project's settings:
/// each missing value comes from the project, the size is kept within
/// 320x240 and 7680x4320, the frame rate within 10 and 120, and the codec is
/// trimmed and lower-cased; a codec other than h264, h265 and vp9 is refused.
pub fn resolve_export_target(
    width: Option<u32>,
    height: Option<u32>,
    fps: Option<u32>,
    codec: Option<String>,
    project: &crate::models::ExportSettings,
) -> (r: Result<ExportTarget, ExportError>)
    ensures
        ({
            let c = lowercase(trim(match codec { Some(c) => c@, None => project.codec@ }));
            &&& is_supported_codec(c) ==> r is Ok && r->Ok_0.codec@ == c
                && r->Ok_0.width == clamp_u32(match width { Some(w) => w, None => project.width }, 320, 7680)
                && r->Ok_0.height == clamp_u32(match height { Some(h) => h, None => project.height }, 240, 4320)
                && r->Ok_0.fps == clamp_u32(match fps { Some(f) => f, None => project.fps }, 10, 120)
            &&& !is_supported_codec(c) ==> (r is Err && (r->Err_0 matches ExportError::UnsupportedCodec(e) && e@ == c))
        }),
{
    let w = match width { Some(w) => w, None => project.width };
    let h = match height { Some(h) => h, None => project.height };
    let f = match fps { Some(f) => f, None => project.fps };
    let raw = match codec {
        Some(c) => c,
        None => project.codec.clone(),
    };
    let trimmed = trim_string(raw.as_str());
    let c = to_lowercase(trimmed.as_str());
    let supported = c == "h264".to_string() || c == "h265".to_string() || c == "vp9".to_string();
    if !supported {
        return Err(ExportError::UnsupportedCodec(c));
    }
    Ok(ExportTarget {
        width: if w < 320 { 320 } else if w > 7680 { 7680 } else { w },
        height: if h < 240 { 240 } else if h > 4320 { 4320 } else { h },
        fps: if f < 10 { 10 } else if f > 120 { 120 } else { f },
        codec: c,
    })
}

/// What is known of the source video: ffmpeg's probe where it gave a value,
/// the project's record otherwise, and never zero.
pub fn source_or_recorded(probed: Option<u64>, recorded: u64) -> (v: u64)
    ensures
        v == ({
            let x = match probed { Some(p) => p, None => recorded };
            if x > 1 { x } else { 1 }
        }),
{
    let x = match probed {
        Some(p) => p,
        None => recorded,
    };
    if x > 1 { x } else { 1 }
}

// ---------------------------------------------------------------------------
// Paths
// ---------------------------------------------------------------------------

/// Why a path given to a command is not usable.
#[derive(Clone, Copy, Debug, PartialEq, Eq, Structural)]
pub enum PathError {
    EmptyProjectPath,
    EmptyMediaPath,
}

impl PathError {
    pub fn message(&self) -> (m: String)
        ensures
            m@ == match *self {
                PathError::EmptyProjectPath => "Project path is empty"@,
                PathError::EmptyMediaPath => "Project videoPath is empty"@,
            },
    {
        match self {
            PathError::EmptyProjectPath => "Project path is empty".to_string(),
            PathError::EmptyMediaPath => "Project videoPath is empty".to_string(),
        }
    }
}

/// Where a project file is: `path` itself, or `project.json` inside the
/// directory `path`.
#[derive(Clone, Debug)]
pub struct ProjectFile {
    pub path: String,
    pub in_directory: bool,
}

/// Index of the last occurrence of `c` in `s`, if it has one.
pub open spec fn last_index_of(s: Seq<char>, c: char) -> Option<int>
    decreases s.len(),
{
    if s.len() == 0 {
        None
    } else if s.last() == c {
        Some(s.len() - 1)
    } else {
        last_index_of(s.drop_last(), c)
    }
}

/// The text after the last `/` of a path (the whole path when it has none).
pub open spec fn last_component(p: Seq<char>) -> Seq<char> {
    match last_index_of(p, '/') {
        None => p,
        Some(i) => p.subrange(i + 1, p.len() as int),
    }
}

/// A path that is one plain file name on every platform: not empty, not `.`
/// or `..`, and without `/`, `\` or `:` (no separator, no drive prefix).
pub open spec fn plain_file_name(p: Seq<char>) -> bool {
    &&& p.len() > 0
    &&& !p.contains('/')
    &&& !p.contains('\\')
    &&& !p.contains(':')
    &&& p != "."@
    &&& p != ".."@
}

/// A path whose last component is read alike on every platform: it holds no
/// `\` and no `:` and does not begin with `//` (so it has no drive, UNC or
/// verbatim prefix), and its text after the last `/` is a plain file name.
/// `/` separates components on Unix and on Windows alike.
pub open spec fn simple_path(p: Seq<char>) -> bool {
    &&& !p.contains('\\')
    &&& !p.contains(':')
    &&& !(p.len() >= 2 && p[0] == '/' && p[1] == '/')
    &&& plain_file_name(last_component(p))
}

/// The extension std gives a plain file name: the text after the last `.`,
/// none when there is no `.` or the only one opens the name.
pub open spec fn file_name_extension(p: Seq<char>) -> Option<Seq<char>> {
    match last_index_of(p, '.') {
        None => None,
        Some(i) => if i == 0 { None } else { Some(p.subrange(i + 1, p.len() as int)) },
    }
}

/// What holds of an extension `e` that `Path::extension` reports for `path`
/// on any platform: it holds no `.` and follows a `.` in the path; for a
/// simple path it is exactly the extension of the text after the last `/`.
pub open spec fn ext_ok(path: Seq<char>, e: Option<Seq<char>>) -> bool {
    &&& match e {
        Some(x) => !x.contains('.') && contains_str(path, "."@ + x),
        None => true,
    }
    &&& simple_path(path) ==> e == file_name_extension(last_component(path))
}

/// The extension of the last component of `path`, by std's `Path::extension`
/// (and `OsStr::to_str`).
///
/// Which characters separate components depends on the platform, so for a
/// general path the contract claims only what holds everywhere: an extension
/// holds no `.`, and the path contains it preceded by a `.`. For a simple
/// path (no `\`, no `:`, no leading `//`, and a last `/`-component that is a
/// plain file name, not `.` or `..`) the last component is that text on Unix
/// and on Windows, and the result is what std documents: the text after its
/// final `.`, or `None` when there is no `.` or the name begins with its only
/// `.`. Paths outside that class (backslashes, drive or UNC prefixes, a
/// trailing `/`, `.` or `..`) are left to the platform and not stated.
#[verifier::external_body]
fn path_extension(path: &str) -> (r: Option<String>)
    ensures
        ext_ok(path@, match r { Some(e) => Some(e@), None => None }),
{
    std::path::Path::new(path).extension().and_then(|e| e.to_str()).map(|e| e.to_string())
}

/// The project file named by a trimmed path and its extension: the path
/// itself when the extension is `json` (in any ASCII case), else
/// `project.json` inside it.
pub fn project_file_choice(trimmed: String, extension: Option<String>) -> (f: ProjectFile)
    ensures
        f.path@ == trimmed@,
        f.in_directory == !(extension is Some && crate::text::eq_ignore_ascii_case(extension->0@, "json"@)),
{
    let is_json = match &extension {
        Some(e) => {
            let ec = chars_of(e.as_str());
            let el = crate::text::ascii_lowercase(&ec);
            let json = chars_of("json");
            proof {
                reveal_strlit("json");
                assert(crate::text::ascii_lower_seq("json"@) =~= "json"@);
            }
            crate::text::chars_eq(&el, &json)
        },
        None => false,
    };
    ProjectFile { path: trimmed, in_directory: !is_json }
}

/// The project file a command names; refused when the path is blank. A
/// path whose extension is `json` in any ASCII case is the file itself;
/// any other path is a project folder holding `project.json`.
pub fn resolve_project_file(path: &str) -> (r: Result<ProjectFile, PathError>)
    ensures
        trim(path@).len() == 0 ==> r == Err::<ProjectFile, PathError>(PathError::EmptyProjectPath),
        trim(path@).len() > 0 ==> r is Ok && r->Ok_0.path@ == trim(path@),
        trim(path@).len() > 0 ==> exists|e: Option<Seq<char>>| #![trigger ext_ok(trim(path@), e)]
            ext_ok(trim(path@), e) && r->Ok_0.in_directory == !(e is Some && crate::text::eq_ignore_ascii_case(
                e->0,
                "json"@,
            )),
        trim(path@).len() > 0 && simple_path(trim(path@)) ==> r->Ok_0.in_directory == !(
            file_name_extension(last_component(trim(path@))) is Some
                && crate::text::eq_ignore_ascii_case(
                file_name_extension(last_component(trim(path@)))->0,
                "json"@,
            )),
{
    let trimmed = trim_string(path);
    if trimmed.as_str().is_empty() {
        return Err(PathError::EmptyProjectPath);
    }
    let ext = path_extension(trimmed.as_str());
    let ghost e = match &ext { Some(x) => Some(x@), None => None::<Seq<char>> };
    let f = project_file_choice(trimmed, ext);
    proof {
        assert(ext_ok(trim(path@), e));
    }
    Ok(f)
}

/// The text of a project's media path, trimmed; refused when blank. This
/// only checks and trims the text: joining a relative path to the project's
/// directory is left to the caller, since what counts as absolute depends on
/// the platform.
pub fn media_path_text(raw_path: &str) -> (r: Result<String, PathError>)
    ensures
        trim(raw_path@).len() == 0 ==> r == Err::<String, PathError>(PathError::EmptyMediaPath),
        trim(raw_path@).len() > 0 ==> r is Ok && r->Ok_0@ == trim(raw_path@),
{
    let trimmed = trim_string(raw_path);
    if trimmed.as_str().is_empty() {
        return Err(PathError::EmptyMediaPath);
    }
    Ok(trimmed)
}

/// The output path asked for, trimmed, unless it is missing or blank.
pub fn explicit_output_path(output_path: Option<String>) -> (r: Option<String>)
    ensures
        match output_path {
            Some(p) => if trim(p@).len() > 0 { r is Some && r->0@ == trim(p@) } else { r is None },
            None => r is None,
        },
{
    match output_path {
        Some(raw) => {
            let trimmed = trim_string(raw.as_str());
            if trimmed.as_str().is_empty() {
                None
            } else {
                Some(trimmed)
            }
        },
        None => None,
    }
}

/// File name of an export without an output path:
/// `export-{project id}-{timestamp}.mp4`.
pub fn default_export_file_name(project_id: &str, timestamp: &str) -> (s: String)
    ensures
        s@ == "export-"@ + project_id@ + "-"@ + timestamp@ + ".mp4"@,
{
    let mut out: Vec<char> = Vec::new();
    push_str(&mut out, "export-");
    push_str(&mut out, project_id);
    push_str(&mut out, "-");
    push_str(&mut out, timestamp);
    push_str(&mut out, ".mp4");
    string_from_chars(out.as_slice())
}

// ---------------------------------------------------------------------------
// The command line
// ---------------------------------------------------------------------------

pub open spec fn views(v: Seq<String>) -> Seq<Seq<char>> {
    v.map_values(|s: String| s@)
}

/// Encoder arguments of a codec.
pub open spec fn codec_args(codec: Seq<char>) -> Option<Seq<Seq<char>>> {
    if codec == "h264"@ {
        Some(seq!["-c:v"@, "libx264"@, "-preset"@, "ultrafast"@, "-crf"@, "18"@, "-pix_fmt"@, "yuv420p"@])
    } else if codec == "h265"@ {
        Some(seq!["-c:v"@, "libx265"@, "-preset"@, "ultrafast"@, "-crf"@, "24"@, "-pix_fmt"@, "yuv420p"@])
    } else if codec == "vp9"@ {
        Some(seq!["-c:v"@, "libvpx-vp9"@, "-b:v"@, "0"@, "-crf"@, "33"@, "-pix_fmt"@, "yuv420p"@])
    } else {
        None
    }
}

pub(crate) fn push_args(out: &mut Vec<String>, items: &[&str])
    ensures
        views(final(out)@) == views(old(out)@) + items@.map_values(|s: &str| s@),
{
    let ghost start = views(out@);
    let mut i: usize = 0;
    while i < items.len()
        invariant
            i <= items@.len(),
            views(out@) == start + items@.subrange(0, i as int).map_values(|s: &str| s@),
        decreases items.len() - i,
    {
        let item: &str = items[i];
        let ghost old_out = out@;
        let owned = item.to_string();
        assert(owned@ == item@);
        out.push(owned);
        assert(views(out@) =~= views(old_out).push(item@));
        assert(items@.subrange(0, i + 1) =~= items@.subrange(0, i as int).push(item));
        i += 1;
        proof {
            assert(views(out@) =~= start + items@.subrange(0, i as int).map_values(|s: &str| s@));
        }
    }
    assert(items@.subrange(0, items@.len() as int) =~= items@);
}

/// The full ffmpeg command line of an export, or `None` for a codec it
/// cannot use.
pub open spec fn export_args_spec(
    progress: Seq<char>,
    source: Seq<char>,
    cursor_image: Option<Seq<char>>,
    filter_script: Seq<char>,
    codec: Seq<char>,
    output: Seq<char>,
) -> Option<Seq<Seq<char>>> {
    match codec_args(codec) {
        None => None,
        Some(c) => Some(
            seq!["-y"@, "-hide_banner"@, "-stats_period"@, "0.5"@, "-progress"@, progress, "-i"@, source]
                + match cursor_image { Some(p) => seq!["-loop"@, "1"@, "-i"@, p], None => seq![] }
                + seq!["-filter_complex_script"@, filter_script, "-map"@, "[vout]"@, "-map"@, "0:a?"@] + c
                + seq!["-c:a"@, "aac"@, "-b:a"@, "192k"@, output],
        ),
    }
}

/// The ffmpeg arguments of an export; a codec other than h264, h265 and vp9
/// is refused.
pub fn ffmpeg_export_args(
    progress_path: &str,
    source_video: &str,
    cursor_image: Option<&str>,
    filter_script_path: &str,
    codec: &str,
    output_video: &str,
) -> (r: Result<Vec<String>, ExportError>)
    ensures
        match export_args_spec(
            progress_path@,
            source_video@,
            match cursor_image { Some(p) => Some(p@), None => None },
            filter_script_path@,
            codec@,
            output_video@,
        ) {
            Some(a) => r is Ok && views(r->Ok_0@) == a,
            None => r is Err && (r->Err_0 matches ExportError::UnsupportedCodec(c) && c@ == codec@),
        },
{
    let cs = codec.to_string();
    let kind: u8 = if cs == "h264".to_string() {
        0
    } else if cs == "h265".to_string() {
        1
    } else if cs == "vp9".to_string() {
        2
    } else {
        return Err(ExportError::UnsupportedCodec(cs));
    };
    let mut args: Vec<String> = Vec::new();
    push_args(&mut args, &["-y", "-hide_banner", "-stats_period", "0.5", "-progress", progress_path, "-i", source_video]);
    match cursor_image {
        Some(p) => push_args(&mut args, &["-loop", "1", "-i", p]),
        None => {},
    }
    push_args(&mut args, &["-filter_complex_script", filter_script_path, "-map", "[vout]", "-map", "0:a?"]);
    if kind == 0 {
        push_args(&mut args, &["-c:v", "libx264", "-preset", "ultrafast", "-crf", "18", "-pix_fmt", "yuv420p"]);
    } else if kind == 1 {
        push_args(&mut args, &["-c:v", "libx265", "-preset", "ultrafast", "-crf", "24", "-pix_fmt", "yuv420p"]);
    } else {
        push_args(&mut args, &["-c:v", "libvpx-vp9", "-b:v", "0", "-crf", "33", "-pix_fmt", "yuv420p"]);
    }
    push_args(&mut args, &["-c:a", "aac", "-b:a", "192k", output_video]);
    proof {
        let a = export_args_spec(
            progress_path@,
            source_video@,
            match cursor_image { Some(p) => Some(p@), None => None },
            filter_script_path@,
            codec@,
            output_video@,
        );
        assert(views(args@) =~= a->0);
    }
    Ok(args)
}

// ---------------------------------------------------------------------------
// ffmpeg's error output
// ---------------------------------------------------------------------------

/// The pieces of `s` ended by `\n` or `\r`, and what follows the last one.
pub open spec fn is_line_break(c: char) -> bool {
    c == '\n' || c == '\r'
}

pub open spec fn split_breaks(s: Seq<char>) -> (Seq<Seq<char>>, Seq<char>)
    decreases s.len(),
{
    if s.len() == 0 {
        (seq![], seq![])
    } else {
        let (lines, rest) = split_breaks(s.drop_last());
        if is_line_break(s.last()) {
            (lines.push(rest), seq![])
        } else {
            (lines, rest.push(s.last()))
        }
    }
}

/// Splits buffered error output into complete lines (ended by `\n` or `\r`,
/// empty ones included) and the unfinished rest.
pub fn split_stderr_lines(buffer: &str) -> (r: (Vec<String>, String))
    ensures
        views(r.0@) == split_breaks(buffer@).0,
        r.1@ == split_breaks(buffer@).1,
{
    let cs = chars_of(buffer);
    let mut lines: Vec<String> = Vec::new();
    let mut rest: Vec<char> = Vec::new();
    let mut i: usize = 0;
    while i < cs.len()
        invariant
            i <= cs@.len(),
            cs@ == buffer@,
            views(lines@) == split_breaks(cs@.subrange(0, i as int)).0,
            rest@ == split_breaks(cs@.subrange(0, i as int)).1,
        decreases cs.len() - i,
    {
        proof {
            assert(cs@.subrange(0, i + 1).drop_last() =~= cs@.subrange(0, i as int));
        }
        let c = cs[i];
        if c == '\n' || c == '\r' {
            lines.push(string_from_chars(rest.as_slice()));
            rest = Vec::new();
        } else {
            rest.push(c);
        }
        i += 1;
        proof {
            assert(views(lines@) =~= split_breaks(cs@.subrange(0, i as int)).0);
        }
    }
    assert(cs@.subrange(0, cs@.len() as int) =~= cs@);
    (lines, string_from_chars(rest.as_slice()))
}

/// How many lines of error output a job keeps.
pub const STDERR_TAIL_LINES: usize = 120;

/// The last `n` elements of `s` (all of them when there are fewer).
pub open spec fn last_n<T>(s: Seq<T>, n: nat) -> Seq<T> {
    if s.len() <= n { s } else { s.subrange(s.len() - n, s.len() as int) }
}

/// The last lines of ffmpeg's error output.
pub struct StderrTail {
    pub lines: Vec<String>,
}

impl StderrTail {
    pub fn new() -> (t: StderrTail)
        ensures
            t.lines@.len() == 0,
    {
        StderrTail { lines: Vec::new() }
    }

    /// Keeps a line of output, trimmed, unless it is blank; the oldest lines
    /// go while more than 120 are kept.
    pub fn push_line(&mut self, line: &str)
        ensures
            old(self).lines@.len() <= STDERR_TAIL_LINES ==> final(self).lines@.len() <= STDERR_TAIL_LINES,
            trim(line@).len() == 0 ==> views(final(self).lines@) == views(old(self).lines@),
            trim(line@).len() > 0 ==> views(final(self).lines@) == last_n(
                views(old(self).lines@).push(trim(line@)),
                STDERR_TAIL_LINES as nat,
            ),
            trim(line@).len() > 0 ==> final(self).lines@.len() <= STDERR_TAIL_LINES,
    {
        let trimmed = trim_string(line);
        if trimmed.as_str().is_empty() {
            return;
        }
        let ghost full = views(self.lines@).push(trim(line@));
        self.lines.push(trimmed);
        assert(views(self.lines@) =~= full);
        while self.lines.len() > STDERR_TAIL_LINES
            invariant
                views(self.lines@).len() <= full.len(),
                views(self.lines@) =~= full.subrange(full.len() - views(self.lines@).len(), full.len() as int),
                full.len() <= STDERR_TAIL_LINES ==> views(self.lines@) =~= full,
                views(self.lines@).len() >= STDERR_TAIL_LINES || views(self.lines@) =~= full,
            decreases self.lines.len(),
        {
            let ghost before = views(self.lines@);
            self.lines.remove(0);
            assert(views(self.lines@) =~= before.subrange(1, before.len() as int));
        }
    }
}

/// A line of output reports a problem: it mentions `Error`, `error`,
/// `Invalid`, `Failed` or `failed`.
pub open spec fn is_error_line(line: Seq<char>) -> bool {
    contains_str(line, "Error"@) || contains_str(line, "error"@) || contains_str(line, "Invalid"@)
        || contains_str(line, "Failed"@) || contains_str(line, "failed"@)
}

/// Lines of `tail` that report problems, joined by line breaks.
pub open spec fn error_excerpt(lines: Seq<Seq<char>>) -> Seq<Seq<char>> {
    lines.filter(|l: Seq<char>| is_error_line(l))
}

pub open spec fn joined_lines(lines: Seq<Seq<char>>) -> Seq<char>
    decreases lines.len(),
{
    if lines.len() == 0 {
        seq![]
    } else if lines.len() == 1 {
        lines[0]
    } else {
        joined_lines(lines.drop_last()) + "\n"@ + lines.last()
    }
}

/// The error of a failed export: its exit status, then the lines of the
/// error output that report problems, if there are any.
pub open spec fn failure_text(status: Seq<char>, tail: Seq<Seq<char>>) -> Seq<char> {
    let excerpt = error_excerpt(tail);
    "FFmpeg export failed with status: "@ + status + if excerpt.len() == 0 { seq![] } else { "\n"@ + joined_lines(excerpt) }
}

/// The error message of an export whose ffmpeg exited with `status` (its
/// text) after printing `tail`.
pub fn export_failure_message(status: &str, tail: &StderrTail) -> (m: String)
    ensures
        m@ == failure_text(status@, views(tail.lines@)),
{
    let ghost tv = views(tail.lines@);
    let mut excerpt: Vec<String> = Vec::new();
    let mut i: usize = 0;
    while i < tail.lines.len()
        invariant
            i <= tail.lines@.len(),
            tv == views(tail.lines@),
            views(excerpt@) == error_excerpt(tv.subrange(0, i as int)),
        decreases tail.lines.len() - i,
    {
        proof {
            reveal(Seq::filter);
            assert(tv.subrange(0, i + 1).drop_last() =~= tv.subrange(0, i as int));
        }
        let lc = chars_of(tail.lines[i].as_str());
        if contains(&lc, "Error") || contains(&lc, "error") || contains(&lc, "Invalid") || contains(&lc, "Failed")
            || contains(&lc, "failed") {
            let l = tail.lines[i].clone();
            excerpt.push(l);
            proof {
                assert(views(excerpt@) =~= error_excerpt(tv.subrange(0, i as int)).push(tv[i as int]));
            }
        }
        i += 1;
    }
    assert(tv.subrange(0, tv.len() as int) =~= tv);
    let mut out: Vec<char> = Vec::new();
    push_str(&mut out, "FFmpeg export failed with status: ");
    push_str(&mut out, status);
    if excerpt.len() > 0 {
        push_str(&mut out, "\n");
        let ghost base = out@;
        let mut k: usize = 0;
        while k < excerpt.len()
            invariant
                k <= excerpt@.len(),
                excerpt@.len() > 0,
                out@ == base + joined_lines(views(excerpt@).subrange(0, k as int)),
            decreases excerpt.len() - k,
        {
            proof {
                let s = views(excerpt@).subrange(0, k + 1);
                assert(s.drop_last() =~= views(excerpt@).subrange(0, k as int));
            }
            if k > 0 {
                push_str(&mut out, "\n");
            }
            push_str(&mut out, excerpt[k].as_str());
            k += 1;
            proof {
                assert(out@ =~= base + joined_lines(views(excerpt@).subrange(0, k as int)));
            }
        }
        assert(views(excerpt@).subrange(0, excerpt@.len() as int) =~= views(excerpt@));
    }
    string_from_chars(out.as_slice())
}

// ---------------------------------------------------------------------------
// The job's status
// ---------------------------------------------------------------------------

/// How a job ends, as the status shows it.
#[derive(Clone, Debug)]
pub struct ExportEnd {
    /// The status message key.
    pub message: String,
    pub error: Option<String>,
    /// The job produced the output file.
    pub succeeded: bool,
}

/// The end of a job from its result: finished; cancelled (the result is the
/// cancellation sentinel); or failed with the result's error.
pub fn export_job_end(result: Result<(), String>) -> (e: ExportEnd)
    ensures
        result is Ok ==> e.message@ == "export.finished"@ && e.error is None && e.succeeded,
        result is Err && result->Err_0@ == cancelled_sentinel() ==> e.message@ == "export.cancelled"@ && e.error is None
            && !e.succeeded,
        result is Err && result->Err_0@ != cancelled_sentinel() ==> e.message@ == "export.failed"@ && e.error is Some
            && e.error->0@ == result->Err_0@ && !e.succeeded,
{
    match result {
        Ok(()) => ExportEnd { message: "export.finished".to_string(), error: None, succeeded: true },
        Err(err) => {
            if err == "__NSC_EXPORT_CANCELLED__".to_string() {
                ExportEnd { message: "export.cancelled".to_string(), error: None, succeeded: false }
            } else {
                ExportEnd { message: "export.failed".to_string(), error: Some(err), succeeded: false }
            }
        },
    }
}

/// A new export may start only when none is running.
pub fn check_export_can_start(is_running: bool) -> (r: Result<(), ExportError>)
    ensures
        is_running ==> r == Err::<(), ExportError>(ExportError::AlreadyRunning),
        !is_running ==> r is Ok,
{
    if is_running { Err(ExportError::AlreadyRunning) } else { Ok(()) }
}

/// Only a running export can be cancelled.
pub fn check_export_can_cancel(is_running: bool) -> (r: Result<(), ExportError>)
    ensures
        !is_running ==> r == Err::<(), ExportError>(ExportError::NotRunning),
        is_running ==> r is Ok,
{
    if is_running { Ok(()) } else { Err(ExportError::NotRunning) }
}

/// The status can be reset only when no export is running.
pub fn check_export_can_reset(is_running: bool) -> (r: Result<(), ExportError>)
    ensures
        is_running ==> r == Err::<(), ExportError>(ExportError::ResetWhileRunning),
        !is_running ==> r is Ok,
{
    if is_running { Err(ExportError::ResetWhileRunning) } else { Ok(()) }
}

} // verus!
