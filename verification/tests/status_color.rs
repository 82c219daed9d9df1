use rumor::status_color::{exited_color, PENDING};
use rumor::style::Color;

#[test]
fn exit_color_truth_table() {
    // (label, code, has_signal, long_lived, expected)
    let cases: &[(&str, u32, bool, bool, Color)] = &[
        // Signal-killed: always gray, regardless of kind.
        ("sigterm long-lived",  143, true,  true,  Color::DarkGray),
        ("sigterm short-lived", 143, true,  false, Color::DarkGray),
        ("sigint short-lived",  130, true,  false, Color::DarkGray),
        ("sigkill long-lived",  137, true,  true,  Color::DarkGray),
        // Clean exit 0, short-lived: green (one-shot success).
        ("oneshot success", 0, false, false, Color::Green),
        // Clean exit 0, long-lived: red (shouldn't have stopped).
        ("long-lived clean exit", 0, false, true, Color::Red),
        // Non-zero, any kind: red.
        ("oneshot fail 1",   1,   false, false, Color::Red),
        ("oneshot fail 127", 127, false, false, Color::Red),
        ("long-lived fail",  1,   false, true,  Color::Red),
    ];
    for (label, code, has_signal, long_lived, expected) in cases {
        let got = exited_color(*code, *has_signal, *long_lived);
        assert_eq!(
            got, *expected,
            "case '{label}': code={code} has_signal={has_signal} long_lived={long_lived}",
        );
    }
}

#[test]
fn pending_is_distinct_from_running() {
    assert_ne!(PENDING, Color::Green);
    assert_ne!(PENDING, Color::Yellow);
    assert_eq!(PENDING.palette_index(), Some(208));
    assert_eq!(Color::Green.palette_index(), None);
}
