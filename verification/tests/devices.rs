//! Devices by index, name and part of a name.
use midi_sampler_to_m8::devices::{
    contains_text, device_listing, numbered, parse_index, resolve_index, DeviceError,
};

fn names() -> Vec<String> {
    vec![
        "BlackHole 2ch".to_string(),
        "MacBook Pro Microphone".to_string(),
        "Aggregate Device".to_string(),
    ]
}

#[test]
fn resolves_by_index() {
    assert_eq!(resolve_index("0", &names(), "audio input").unwrap(), 0);
    assert_eq!(resolve_index("2", &names(), "audio input").unwrap(), 2);
}

#[test]
fn index_out_of_range_errors() {
    assert!(resolve_index("9", &names(), "audio input").is_err());
    let e = resolve_index("9", &names(), "audio input").unwrap_err();
    assert!(matches!(e, DeviceError::OutOfRange { .. }));
    assert_eq!(e.message(), "audio input index 9 is out of range (have 3 devices)");
}

#[test]
fn resolves_by_exact_and_substring() {
    assert_eq!(resolve_index("BlackHole 2ch", &names(), "x").unwrap(), 0);
    assert_eq!(resolve_index("blackhole", &names(), "x").unwrap(), 0);
    assert_eq!(resolve_index("Microphone", &names(), "x").unwrap(), 1);
}

#[test]
fn ambiguous_substring_errors() {
    let n = vec!["Device A".to_string(), "Device B".to_string()];
    assert!(resolve_index("device", &n, "x").is_err());
    let e = resolve_index("device", &n, "x").unwrap_err();
    assert!(matches!(e, DeviceError::Ambiguous { .. }));
    assert_eq!(e.message(), "multiple xs match \"device\":\n  [0] Device A\n  [1] Device B");
}

#[test]
fn nothing_found_lists_what_there_is() {
    let e = resolve_index("usb", &names(), "MIDI output").unwrap_err();
    assert!(matches!(e, DeviceError::NoMatch { .. }));
    assert_eq!(
        e.message(),
        "no MIDI output matching \"usb\". Available:\n  [0] BlackHole 2ch\n  [1] MacBook Pro Microphone\n  [2] Aggregate Device"
    );
}

#[test]
fn an_exact_name_wins_over_parts() {
    let n = vec!["Synth Two".to_string(), "Synth".to_string(), "Synth".to_string()];
    assert_eq!(resolve_index("Synth", &n, "x").unwrap(), 1);
    assert!(resolve_index("synth", &n, "x").is_err());
}

#[test]
fn case_is_folded_beyond_ascii() {
    let n = vec!["ÉCLAIR".to_string(), "other".to_string()];
    assert_eq!(resolve_index("éclair", &n, "x").unwrap(), 0);
}

#[test]
fn indices_read_like_numbers() {
    for t in ["0", "7", "+3", "007", "18446744073709551615", "18446744073709551616", "", "+", "-0", "1x", " 1", "٣"] {
        assert_eq!(parse_index(t), t.parse::<usize>().ok(), "{t}");
    }
}

#[test]
fn parts_are_found_anywhere() {
    assert!(contains_text("abc", ""));
    assert!(contains_text("", ""));
    assert!(contains_text("abcabd", "abd"));
    assert!(contains_text("aab", "ab"));
    assert!(!contains_text("abc", "abcd"));
    assert!(!contains_text("abc", "ac"));
}

#[test]
fn listings_number_the_devices() {
    assert_eq!(device_listing(&[]), vec!["  (none)"]);
    assert_eq!(device_listing(&names())[2], "  [2] Aggregate Device");
    assert_eq!(numbered(&[]), "");
    assert_eq!(numbered(&names()[..2]), "  [0] BlackHole 2ch\n  [1] MacBook Pro Microphone");
}

#[test]
fn a_listed_index_finds_its_device() {
    let n = names();
    for i in 0..n.len() {
        assert_eq!(resolve_index(&format!("{i}"), &n, "x").unwrap(), i);
    }
}
