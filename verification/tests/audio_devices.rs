use neuroscreencaster::audio_devices::{
    check_microphone_inputs, dshow_capture_args, is_likely_system_audio_device, list_microphone_input_devices,
    parse_dshow_audio_devices, resolve_microphone_device, resolve_system_audio_device,
};

fn names(v: &[&str]) -> Vec<String> {
    v.iter().map(|s| s.to_string()).collect()
}

#[test]
fn listing_yields_each_audio_device_once() {
    let listing = "[dshow @ 000001] \"Microphone (Realtek Audio)\" (audio)\n\
[dshow @ 000001]   Alternative name \"@device_cm_{33D9A762}\"\n\
[dshow @ 000001] \"Integrated Camera\" (video)\r\n\
[dshow @ 000001] \"Stereo Mix (Realtek Audio)\" (audio)\n\
[dshow @ 000001] \"microphone (realtek audio)\" (audio)\n\
[dshow @ 000001] \"   \" (audio)\n";
    assert_eq!(
        parse_dshow_audio_devices(listing),
        names(&["Microphone (Realtek Audio)", "Stereo Mix (Realtek Audio)"])
    );
    assert!(parse_dshow_audio_devices("").is_empty());
}

#[test]
fn loopback_devices_are_recognised_in_any_case() {
    assert!(is_likely_system_audio_device("Stereo Mix (Realtek)"));
    assert!(is_likely_system_audio_device("STEREO MIX"));
    assert!(is_likely_system_audio_device("Mixage stéréo (Realtek)"));
    assert!(is_likely_system_audio_device("virtual-audio-capturer"));
    assert!(!is_likely_system_audio_device("Microphone (USB)"));
}

#[test]
fn microphones_exclude_loopback_devices_when_possible() {
    assert_eq!(list_microphone_input_devices(&names(&["Mic", "Stereo Mix"])), names(&["Mic"]));
    assert_eq!(list_microphone_input_devices(&names(&["Stereo Mix", "Loopback"])), names(&["Stereo Mix", "Loopback"]));
    assert!(list_microphone_input_devices(&vec![]).is_empty());
}

#[test]
fn system_device_follows_the_marker_priority() {
    assert_eq!(
        resolve_system_audio_device(&names(&["Mic", "Stereo Mix", "virtual-audio-capturer"])).as_deref(),
        Some("virtual-audio-capturer")
    );
    assert_eq!(resolve_system_audio_device(&names(&["Mic", "What U Hear (SB)"])).as_deref(), Some("What U Hear (SB)"));
    assert_eq!(resolve_system_audio_device(&names(&["Mic"])), None);
}

#[test]
fn microphone_is_the_requested_one_or_the_first() {
    let all = names(&["Mic A", "Mic B", "Stereo Mix"]);
    assert_eq!(resolve_microphone_device(&all, Some("mic b")).unwrap(), "Mic B");
    assert_eq!(resolve_microphone_device(&all, None).unwrap(), "Mic A");
    assert_eq!(resolve_microphone_device(&all, Some("zzz")).unwrap(), "Mic A");
    assert_eq!(resolve_microphone_device(&all, Some("stereo mix")).unwrap(), "Mic A");
    let err = resolve_microphone_device(&vec![], Some("x")).unwrap_err();
    assert_eq!(err.message(), "No microphone devices found via ffmpeg dshow");
}

#[test]
fn microphone_capture_needs_a_listed_device() {
    let err = check_microphone_inputs(true, 0).unwrap_err();
    assert_eq!(
        err.message(),
        "No microphone input devices available via ffmpeg dshow. Unable to start microphone capture."
    );
    assert!(check_microphone_inputs(false, 0).is_ok());
    assert!(check_microphone_inputs(true, 2).is_ok());
}

#[test]
fn capture_arguments_name_the_device() {
    let args = dshow_capture_args("Mic A", "out.wav");
    assert_eq!(
        args,
        names(&[
            "-y", "-hide_banner", "-loglevel", "error", "-f", "dshow", "-i", "audio=Mic A", "-ac", "2", "-ar", "48000",
            "-c:a", "pcm_s16le", "out.wav"
        ])
    );
}

#[test]
fn listed_devices_differ_even_ignoring_case() {
    let listing = "\"Headset\" (audio)\n\"HEADSET\" (audio)\n\"Line In\" (audio)\n\"headset\" (audio)\n\"line in\" (audio)\n";
    let devices = parse_dshow_audio_devices(listing);
    assert_eq!(devices, names(&["Headset", "Line In"]));
    for (i, a) in devices.iter().enumerate() {
        for b in &devices[i + 1..] {
            assert_ne!(a.to_lowercase(), b.to_lowercase());
        }
    }
}
