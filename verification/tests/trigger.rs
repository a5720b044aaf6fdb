use emojoy::hotkey::HotkeyState;
use std::time::{Duration, Instant};

fn wait_ms(ms: u64) {
    let start = Instant::now();
    while start.elapsed() < Duration::from_millis(ms) {
        std::hint::spin_loop();
    }
}

#[test]
fn test_trigger_detection() {
    let mut state = HotkeyState::new("::");
    assert!(!state.push_char('h'));
    assert!(!state.push_char('e'));
    assert!(!state.push_char(':'));
    assert!(state.push_char(':'));
}

#[test]
fn test_trigger_resets_after_match() {
    let mut state = HotkeyState::new("::");
    assert!(!state.push_char(':'));
    assert!(state.push_char(':'));
    assert!(!state.push_char(':'));
    assert!(state.push_char(':'));
}

#[test]
fn test_no_false_trigger() {
    let mut state = HotkeyState::new("::");
    assert!(!state.push_char(':'));
    assert!(!state.push_char('a'));
    assert!(!state.push_char(':'));
    assert!(state.push_char(':'));
}

#[test]
fn long_pause_breaks_the_sequence() {
    let mut state = HotkeyState::new("::");
    assert!(!state.step(':', 10));
    assert!(!state.step(':', 501));
    assert!(state.step(':', 500));
}

#[test]
fn trigger_found_after_long_typing() {
    let mut state = HotkeyState::new(";em");
    for c in "the quick brown fox jumps over the lazy dog".chars() {
        assert!(!state.step(c, 5));
    }
    assert!(!state.step(';', 5));
    assert!(!state.step('e', 5));
    assert!(state.step('m', 5));
}

#[test]
fn eleven_character_trigger_survives_buffer_cuts() {
    let mut state = HotkeyState::new("abcdefghijk");
    for _ in 0..19 {
        assert!(!state.step('x', 1));
    }
    let mut fired = false;
    for c in "abcdefghijk".chars() {
        fired = state.step(c, 1);
    }
    assert!(fired);
}

#[test]
fn multibyte_trigger_characters() {
    let mut state = HotkeyState::new("éé");
    assert!(!state.step('é', 0));
    assert!(state.step('é', 0));
}

#[test]
fn key_event_text_is_fed_character_by_character() {
    let mut state = HotkeyState::new("::");
    // one event carrying "a::" fires once
    assert_eq!(state.push_utf16(&[0x61, 0x3A, 0x3A]), 1);
    // "::::" fires twice
    assert_eq!(state.push_utf16(&[0x3A, 0x3A, 0x3A, 0x3A]), 2);
    // a single ':' per event still forms the sequence
    assert_eq!(state.push_utf16(&[0x3A]), 0);
    assert_eq!(state.push_utf16(&[0x3A]), 1);
}

#[test]
fn surrogate_pairs_decode_to_one_character() {
    let mut state = HotkeyState::new("😀😀");
    // U+1F600 is D83D DE00 in UTF-16
    assert_eq!(state.push_utf16(&[0xD83D, 0xDE00]), 0);
    assert_eq!(state.push_utf16(&[0xD83D, 0xDE00]), 1);
}

#[test]
fn undecodable_key_event_is_ignored() {
    let mut state = HotkeyState::new("::");
    assert_eq!(state.push_utf16(&[0x3A]), 0);
    // an unpaired surrogate: the event is dropped, the buffer is kept
    assert_eq!(state.push_utf16(&[0xD800]), 0);
    assert_eq!(state.push_utf16(&[0x3A]), 1);
}

#[test]
fn clock_timed_keys_apart_do_not_trigger() {
    let mut state = HotkeyState::new("::");
    assert!(!state.push_char(':'));
    wait_ms(600);
    assert!(!state.push_char(':'));
    assert!(state.push_char(':'));
}

#[test]
fn clock_timed_pause_is_measured_from_the_latest_key() {
    let mut state = HotkeyState::new("ab");
    wait_ms(300);
    assert!(!state.push_char('a'));
    wait_ms(300);
    assert!(state.push_char('b'));
}
