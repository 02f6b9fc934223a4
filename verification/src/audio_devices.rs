//! Audio capture devices as ffmpeg's DirectShow backend lists them, and the
//! choice of the device to record from.

use vstd::prelude::*;
use crate::text::{
    lowercase, to_lowercase,
    chars_of, contains, contains_str, find, find_str, lines, lines_of, push_str, string_from_chars,
    subvec, trim, trim_ws, ascii_lower_seq, eq_ignore_ascii_case, ascii_lowercase,
};

verus! {

broadcast use vstd::string::group_string_axioms;

// ---------------------------------------------------------------------------
// The device listing
// ---------------------------------------------------------------------------

/// A double quote, as a one-character pattern.
pub open spec fn quote_pattern() -> Seq<char> {
    seq!['"']
}

/// The device name on one line of ffmpeg's `-list_devices` output: on a line
/// marked `(audio)`, the trimmed text between the first two double quotes,
/// when it is not empty.
pub open spec fn dshow_device_name(line: Seq<char>) -> Option<Seq<char>> {
    if !contains_str(line, "(audio)"@) {
        None
    } else {
        match find_str(line, quote_pattern()) {
            None => None,
            Some(q1) => {
                let rem = line.subrange(q1 + 1, line.len() as int);
                match find_str(rem, quote_pattern()) {
                    None => None,
                    Some(q2) => {
                        let name = trim(rem.subrange(0, q2));
                        if name.len() == 0 { None } else { Some(name) }
                    },
                }
            },
        }
    }
}

/// The devices named on the first `k` lines, each kept the first time its
/// lower-cased name appears.
pub open spec fn dshow_devices(lines: Seq<Seq<char>>, k: int) -> Seq<Seq<char>>
    decreases k,
{
    if k <= 0 {
        seq![]
    } else {
        let prev = dshow_devices(lines, k - 1);
        match dshow_device_name(lines[k - 1]) {
            None => prev,
            Some(n) => if prev.map_values(|d: Seq<char>| lowercase(d)).contains(lowercase(n)) {
                prev
            } else {
                prev.push(n)
            },
        }
    }
}

/// No two devices of a listing share a name, case aside.
pub proof fn law_listed_devices_are_distinct(lines: Seq<Seq<char>>, k: int)
    ensures
        forall|i: int, j: int| 0 <= i < j < dshow_devices(lines, k).len() ==>
            lowercase(#[trigger] dshow_devices(lines, k)[i]) != lowercase(#[trigger] dshow_devices(lines, k)[j]),
    decreases k,
{
    if k > 0 {
        law_listed_devices_are_distinct(lines, k - 1);
        let prev = dshow_devices(lines, k - 1);
        let cur = dshow_devices(lines, k);
        match dshow_device_name(lines[k - 1]) {
            None => {},
            Some(n) => {
                let lows = prev.map_values(|d: Seq<char>| lowercase(d));
                if !lows.contains(lowercase(n)) {
                    assert forall|i: int, j: int| 0 <= i < j < cur.len() implies
                        lowercase(#[trigger] cur[i]) != lowercase(#[trigger] cur[j]) by {
                        if j == cur.len() - 1 {
                            assert(cur[j] == n);
                            assert(cur[i] == prev[i]);
                            assert(lows[i] == lowercase(prev[i]));
                        } else {
                            assert(cur[i] == prev[i] && cur[j] == prev[j]);
                        }
                    }
                }
            },
        }
    }
}

fn device_name_of_line(line: &Vec<char>) -> (r: Option<Vec<char>>)
    ensures
        match r {
            Some(n) => dshow_device_name(line@) == Some(n@),
            None => dshow_device_name(line@) is None,
        },
{
    if !contains(line, "(audio)") {
        return None;
    }
    let mut quote: Vec<char> = Vec::new();
    quote.push('"');
    assert(quote@ =~= quote_pattern());
    let q1 = match find(line, &quote) {
        Some(q) => q,
        None => return None,
    };
    proof {
        crate::text::lemma_find_str(line@, quote@);
        assert(find_str(line@, quote@) == Some(q1 as int));
        assert(crate::text::occurs_at(line@, quote@, q1 as int));
        assert(q1 + 1 <= line@.len());
        assert(line@.len() == line.len());
    }
    let rem = subvec(line, q1 + 1, line.len());
    let q2 = match find(&rem, &quote) {
        Some(q) => q,
        None => return None,
    };
    proof {
        crate::text::lemma_find_str(rem@, quote@);
    }
    let raw = subvec(&rem, 0, q2);
    let name = trim_ws(&raw);
    if name.len() == 0 {
        None
    } else {
        Some(name)
    }
}

/// The audio devices of an ffmpeg DirectShow device listing, in the order
/// listed, without repeats (names that differ only in case count as one).
pub fn parse_dshow_audio_devices(listing: &str) -> (devices: Vec<String>)
    ensures
        devices@.len() == dshow_devices(lines_of(listing@), lines_of(listing@).len() as int).len(),
        forall|i: int| 0 <= i < devices@.len() ==> #[trigger] devices@[i]@ == dshow_devices(
            lines_of(listing@),
            lines_of(listing@).len() as int,
        )[i],
{
    let cs = chars_of(listing);
    let all_lines = lines(&cs);
    let ghost ls = lines_of(listing@);
    let mut devices: Vec<String> = Vec::new();
    let mut seen: Vec<String> = Vec::new();
    let mut k: usize = 0;
    while k < all_lines.len()
        invariant
            ls == lines_of(listing@),
            all_lines@.len() == ls.len(),
            forall|i: int| 0 <= i < all_lines@.len() ==> #[trigger] all_lines@[i]@ == ls[i],
            k <= all_lines.len(),
            devices@.len() == dshow_devices(ls, k as int).len(),
            forall|i: int| 0 <= i < devices@.len() ==> #[trigger] devices@[i]@ == dshow_devices(ls, k as int)[i],
            seen@.len() == devices@.len(),
            forall|i: int| 0 <= i < seen@.len() ==> #[trigger] seen@[i]@ == lowercase(devices@[i]@),
        decreases all_lines.len() - k,
    {
        let ghost prev = dshow_devices(ls, k as int);
        match device_name_of_line(&all_lines[k]) {
            Some(name_chars) => {
                let name = string_from_chars(name_chars.as_slice());
                let lower = to_lowercase(name.as_str());
                let mut found = false;
                let mut j: usize = 0;
                while j < seen.len()
                    invariant
                        j <= seen@.len(),
                        found == exists|i: int| 0 <= i < j && #[trigger] seen@[i]@ == lower@,
                    decreases seen.len() - j,
                {
                    if seen[j] == lower {
                        found = true;
                    }
                    j += 1;
                }
                proof {
                    let lows = prev.map_values(|d: Seq<char>| lowercase(d));
                    if found {
                        let i = choose|i: int| 0 <= i < seen@.len() && #[trigger] seen@[i]@ == lower@;
                        assert(lows[i] == lowercase(prev[i]));
                        assert(lows.contains(lowercase(name@)));
                    } else {
                        assert(!lows.contains(lowercase(name@))) by {
                            if lows.contains(lowercase(name@)) {
                                let i = choose|i: int| 0 <= i < lows.len() && lows[i] == lowercase(name@);
                                assert(seen@[i]@ == lower@);
                            }
                        }
                    }
                }
                if !found {
                    devices.push(name);
                    seen.push(lower);
                }
            },
            None => {},
        }
        k += 1;
    }
    devices
}

// ---------------------------------------------------------------------------
// Choosing devices
// ---------------------------------------------------------------------------

/// Name fragments of devices that capture what the system plays rather than
/// a microphone.
pub open spec fn system_audio_markers() -> Seq<Seq<char>> {
    seq!["stereo mix"@, "what u hear"@, "wave out"@, "virtual-audio-capturer"@, "loopback"@, "mixage st"@]
}

/// The device's lower-cased name contains one of the loopback markers.
pub open spec fn is_system_audio_name(name: Seq<char>) -> bool {
    exists|i: int| 0 <= i < system_audio_markers().len() && contains_str(lowercase(name), #[trigger] system_audio_markers()[i])
}

/// The device likely records the system's output (a loopback device).
pub fn is_likely_system_audio_device(name: &str) -> (b: bool)
    ensures
        b == is_system_audio_name(name@),
{
    let lower_s = to_lowercase(name);
    let lower = chars_of(lower_s.as_str());
    let b = contains(&lower, "stereo mix") || contains(&lower, "what u hear") || contains(&lower, "wave out")
        || contains(&lower, "virtual-audio-capturer") || contains(&lower, "loopback") || contains(&lower, "mixage st");
    proof {
        let m = system_audio_markers();
        if b {
            if contains_str(lower@, "stereo mix"@) { assert(m[0] == "stereo mix"@); }
            else if contains_str(lower@, "what u hear"@) { assert(m[1] == "what u hear"@); }
            else if contains_str(lower@, "wave out"@) { assert(m[2] == "wave out"@); }
            else if contains_str(lower@, "virtual-audio-capturer"@) { assert(m[3] == "virtual-audio-capturer"@); }
            else if contains_str(lower@, "loopback"@) { assert(m[4] == "loopback"@); }
            else { assert(m[5] == "mixage st"@); }
        } else {
            assert forall|i: int| 0 <= i < m.len() implies !contains_str(lowercase(name@), #[trigger] m[i]) by {
            }
        }
    }
    b
}

/// The names of `devices` that are not loopback devices.
pub open spec fn non_system_names(devices: Seq<Seq<char>>) -> Seq<Seq<char>> {
    devices.filter(|d: Seq<char>| !is_system_audio_name(d))
}

pub open spec fn names(devices: Seq<String>) -> Seq<Seq<char>> {
    devices.map_values(|d: String| d@)
}

fn non_system_devices(all: &Vec<String>) -> (r: Vec<String>)
    ensures
        names(r@) == non_system_names(names(all@)),
{
    let mut r: Vec<String> = Vec::new();
    let mut i: usize = 0;
    while i < all.len()
        invariant
            i <= all.len(),
            names(r@) == non_system_names(names(all@.subrange(0, i as int))),
        decreases all.len() - i,
    {
        proof {
            reveal(Seq::filter);
            assert(names(all@.subrange(0, i + 1)).drop_last() =~= names(all@.subrange(0, i as int)));
        }
        if !is_likely_system_audio_device(all[i].as_str()) {
            let d = all[i].clone();
            r.push(d);
            proof {
                assert(names(r@) =~= non_system_names(names(all@.subrange(0, i as int))).push(all@[i as int]@));
            }
        }
        i += 1;
    }
    assert(all@.subrange(0, all.len() as int) =~= all@);
    r
}

/// The devices offered as microphones: those that are not loopback devices,
/// or all of them when every device is one.
pub open spec fn microphone_names(all: Seq<Seq<char>>) -> Seq<Seq<char>> {
    if non_system_names(all).len() == 0 { all } else { non_system_names(all) }
}

/// The microphones among the listed devices.
pub fn list_microphone_input_devices(all_devices: &Vec<String>) -> (r: Vec<String>)
    ensures
        names(r@) == microphone_names(names(all_devices@)),
{
    let mics = non_system_devices(all_devices);
    if mics.len() == 0 {
        all_devices.clone()
    } else {
        mics
    }
}

/// Loopback markers, most wanted first.
pub open spec fn system_audio_priority() -> Seq<Seq<char>> {
    seq!["virtual-audio-capturer"@, "stereo mix"@, "what u hear"@, "wave out"@, "loopback"@, "mixage st"@]
}

/// The first device whose lower-cased name contains `token`.
pub open spec fn first_with_token(devices: Seq<Seq<char>>, token: Seq<char>) -> Option<Seq<char>>
    decreases devices.len(),
{
    if devices.len() == 0 {
        None
    } else {
        match first_with_token(devices.drop_last(), token) {
            Some(d) => Some(d),
            None => if contains_str(lowercase(devices.last()), token) { Some(devices.last()) } else { None },
        }
    }
}

/// The device to capture the system's output from: for the first marker (in
/// priority order) that some device contains, the first such device.
pub open spec fn system_device_choice(devices: Seq<Seq<char>>, k: int) -> Option<Seq<char>>
    decreases k,
{
    if k <= 0 {
        None
    } else {
        match system_device_choice(devices, k - 1) {
            Some(d) => Some(d),
            None => first_with_token(devices, system_audio_priority()[k - 1]),
        }
    }
}

fn find_with_token(all: &Vec<String>, token: &str) -> (r: Option<String>)
    ensures
        match r {
            Some(d) => first_with_token(names(all@), token@) == Some(d@),
            None => first_with_token(names(all@), token@) is None,
        },
{
    let mut i: usize = 0;
    while i < all.len()
        invariant
            i <= all.len(),
            first_with_token(names(all@.subrange(0, i as int)), token@) is None,
        decreases all.len() - i,
    {
        proof {
            assert(names(all@.subrange(0, i + 1)).drop_last() =~= names(all@.subrange(0, i as int)));
        }
        let lower_s = to_lowercase(all[i].as_str());
        let lower = chars_of(lower_s.as_str());
        if contains(&lower, token) {
            proof {
                assert(lower@ == lowercase(all@[i as int]@));
                assert(contains_str(lowercase(all@[i as int]@), token@));
                assert(names(all@.subrange(0, i + 1)).last() == all@[i as int]@);
                assert(first_with_token(names(all@.subrange(0, i + 1)), token@) == Some(all@[i as int]@));
                assert(names(all@.subrange(0, i + 1)) =~= names(all@).subrange(0, i + 1));
                lemma_first_with_token_prefix(names(all@), token@, i + 1);
            }
            return Some(all[i].clone());
        }
        i += 1;
    }
    assert(all@.subrange(0, all.len() as int) =~= all@);
    None
}

proof fn lemma_first_with_token_prefix(devices: Seq<Seq<char>>, token: Seq<char>, k: int)
    requires
        0 <= k <= devices.len(),
        first_with_token(devices.subrange(0, k), token) is Some,
    ensures
        first_with_token(devices, token) == first_with_token(devices.subrange(0, k), token),
    decreases devices.len() - k,
{
    if k < devices.len() {
        assert(devices.subrange(0, k + 1).drop_last() =~= devices.subrange(0, k));
        lemma_first_with_token_prefix(devices, token, k + 1);
    } else {
        assert(devices.subrange(0, k) =~= devices);
    }
}

/// The device to capture the system's output from, if any.
pub fn resolve_system_audio_device(all_devices: &Vec<String>) -> (r: Option<String>)
    ensures
        match r {
            Some(d) => system_device_choice(names(all_devices@), 6) == Some(d@),
            None => system_device_choice(names(all_devices@), 6) is None,
        },
{
    let tokens = ["virtual-audio-capturer", "stereo mix", "what u hear", "wave out", "loopback", "mixage st"];
    let mut k: usize = 0;
    while k < 6
        invariant
            k <= 6,
            tokens@.len() == 6,
            forall|j: int| 0 <= j < 6 ==> #[trigger] tokens@[j]@ == system_audio_priority()[j],
            system_device_choice(names(all_devices@), k as int) is None,
        decreases 6 - k,
    {
        let found = find_with_token(all_devices, tokens[k]);
        if found.is_some() {
            proof {
                assert(system_device_choice(names(all_devices@), k + 1) == Some(found->0@));
                lemma_system_choice_stable(names(all_devices@), k + 1, 6);
            }
            return found;
        }
        k += 1;
    }
    None
}

proof fn lemma_system_choice_stable(devices: Seq<Seq<char>>, k: int, n: int)
    requires
        1 <= k <= n,
        system_device_choice(devices, k) is Some,
    ensures
        system_device_choice(devices, n) == system_device_choice(devices, k),
    decreases n - k,
{
    if k < n {
        lemma_system_choice_stable(devices, k + 1, n);
    }
}

/// Why no microphone could be chosen.
#[derive(Clone, Copy, Debug, PartialEq, Eq, Structural)]
pub enum AudioDeviceError {
    /// The device listing holds no device at all.
    NoMicrophoneDevices,
    /// Microphone capture was asked for, and no device is listed.
    NoMicrophoneInputs,
}

impl AudioDeviceError {
    pub fn message(&self) -> (m: String)
        ensures
            m@ == match *self {
                AudioDeviceError::NoMicrophoneDevices => "No microphone devices found via ffmpeg dshow"@,
                AudioDeviceError::NoMicrophoneInputs => "No microphone input devices available via ffmpeg dshow. Unable to start microphone capture."@,
            },
    {
        match self {
            AudioDeviceError::NoMicrophoneDevices => "No microphone devices found via ffmpeg dshow".to_string(),
            AudioDeviceError::NoMicrophoneInputs => "No microphone input devices available via ffmpeg dshow. Unable to start microphone capture.".to_string(),
        }
    }
}

/// The first name of `available` equal to `requested` up to ASCII case.
pub open spec fn first_ascii_match(available: Seq<Seq<char>>, requested: Seq<char>) -> Option<Seq<char>>
    decreases available.len(),
{
    if available.len() == 0 {
        None
    } else {
        match first_ascii_match(available.drop_last(), requested) {
            Some(d) => Some(d),
            None => if eq_ignore_ascii_case(available.last(), requested) { Some(available.last()) } else { None },
        }
    }
}

/// The microphone to record from: among the microphones (see
/// `microphone_names`), the requested one (compared without regard to ASCII
/// case) or else the first; refused when there is none.
pub fn resolve_microphone_device(all_devices: &Vec<String>, requested: Option<&str>) -> (r: Result<String, AudioDeviceError>)
    ensures
        microphone_names(names(all_devices@)).len() == 0 ==> r == Err::<String, AudioDeviceError>(AudioDeviceError::NoMicrophoneDevices),
        microphone_names(names(all_devices@)).len() > 0 ==> r is Ok && r->Ok_0@ == match requested {
            Some(q) => match first_ascii_match(microphone_names(names(all_devices@)), q@) {
                Some(d) => d,
                None => microphone_names(names(all_devices@))[0],
            },
            None => microphone_names(names(all_devices@))[0],
        },
{
    let available = list_microphone_input_devices(all_devices);
    if available.len() == 0 {
        return Err(AudioDeviceError::NoMicrophoneDevices);
    }
    proof {
        assert(names(available@)[0] == available@[0]@);
    }
    if let Some(q) = requested {
        let qc = chars_of(q);
        let ql = ascii_lowercase(&qc);
        let mut i: usize = 0;
        while i < available.len()
            invariant
                i <= available.len(),
                ql@ == ascii_lower_seq(q@),
                available@.len() > 0,
                requested == Some(q),
                names(available@) == microphone_names(names(all_devices@)),
                first_ascii_match(names(available@.subrange(0, i as int)), q@) is None,
            decreases available.len() - i,
        {
            proof {
                assert(names(available@.subrange(0, i + 1)).drop_last() =~= names(available@.subrange(0, i as int)));
            }
            let dc = chars_of(available[i].as_str());
            let dl = ascii_lowercase(&dc);
            let same = crate::text::chars_eq(&dl, &ql);
            if same {
                proof {
                    assert(dl@ == ascii_lower_seq(available@[i as int]@));
                    assert(names(available@.subrange(0, i + 1)).last() == available@[i as int]@);
                    assert(eq_ignore_ascii_case(available@[i as int]@, q@));
                    assert(first_ascii_match(names(available@.subrange(0, i + 1)), q@) == Some(available@[i as int]@));
                    assert(names(available@.subrange(0, i + 1)) =~= names(available@).subrange(0, i + 1));
                    lemma_first_ascii_match_prefix(names(available@), q@, i + 1);
                    assert(first_ascii_match(microphone_names(names(all_devices@)), q@) == Some(available@[i as int]@));
                }
                return Ok(available[i].clone());
            }
            i += 1;
        }
        assert(available@.subrange(0, available.len() as int) =~= available@);
    }
    Ok(available[0].clone())
}

proof fn lemma_first_ascii_match_prefix(devices: Seq<Seq<char>>, q: Seq<char>, k: int)
    requires
        0 <= k <= devices.len(),
        first_ascii_match(devices.subrange(0, k), q) is Some,
    ensures
        first_ascii_match(devices, q) == first_ascii_match(devices.subrange(0, k), q),
    decreases devices.len() - k,
{
    if k < devices.len() {
        assert(devices.subrange(0, k + 1).drop_last() =~= devices.subrange(0, k));
        lemma_first_ascii_match_prefix(devices, q, k + 1);
    } else {
        assert(devices.subrange(0, k) =~= devices);
    }
}

/// Microphone capture cannot start when no device is listed at all.
pub fn check_microphone_inputs(wants_microphone: bool, device_count: usize) -> (r: Result<(), AudioDeviceError>)
    ensures
        r is Err <==> wants_microphone && device_count == 0,
        r is Err ==> r == Err::<(), AudioDeviceError>(AudioDeviceError::NoMicrophoneInputs),
{
    if wants_microphone && device_count == 0 {
        Err(AudioDeviceError::NoMicrophoneInputs)
    } else {
        Ok(())
    }
}

/// The ffmpeg arguments that record the DirectShow device `device_name` to
/// `output_path` as 48 kHz stereo 16-bit PCM.
pub fn dshow_capture_args(device_name: &str, output_path: &str) -> (args: Vec<String>)
    ensures
        args@.len() == 15,
        args@[0]@ == "-y"@ && args@[1]@ == "-hide_banner"@ && args@[2]@ == "-loglevel"@ && args@[3]@ == "error"@,
        args@[4]@ == "-f"@ && args@[5]@ == "dshow"@ && args@[6]@ == "-i"@,
        args@[7]@ == "audio="@ + device_name@,
        args@[8]@ == "-ac"@ && args@[9]@ == "2"@ && args@[10]@ == "-ar"@ && args@[11]@ == "48000"@,
        args@[12]@ == "-c:a"@ && args@[13]@ == "pcm_s16le"@ && args@[14]@ == output_path@,
{
    let mut device: Vec<char> = Vec::new();
    push_str(&mut device, "audio=");
    push_str(&mut device, device_name);
    let mut args: Vec<String> = Vec::new();
    args.push("-y".to_string());
    args.push("-hide_banner".to_string());
    args.push("-loglevel".to_string());
    args.push("error".to_string());
    args.push("-f".to_string());
    args.push("dshow".to_string());
    args.push("-i".to_string());
    args.push(string_from_chars(device.as_slice()));
    args.push("-ac".to_string());
    args.push("2".to_string());
    args.push("-ar".to_string());
    args.push("48000".to_string());
    args.push("-c:a".to_string());
    args.push("pcm_s16le".to_string());
    args.push(output_path.to_string());
    args
}

} // verus!
