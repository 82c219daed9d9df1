use rumor::config::ProcessConfig;
use rumor::env::Env;
use rumor::logfile::{
    assign_log_paths, restart_mark, sanitize_name, session_dir_name, session_expired,
    AnsiLogWriter, TextExtractor,
};

fn cfg(name: &str) -> ProcessConfig {
    ProcessConfig {
        name: name.into(),
        command: "true".into(),
        args: vec![],
        cwd: "/".into(),
        env_files: vec![],
        global_env_files: vec![],
        env: Env::new(),
        dynamic_ports: Env::new(),
        depends_on: vec![],
        long_lived: true,
        tags: vec![],
        retry: None,
    }
}

#[test]
fn sanitize_name_cases() {
    assert_eq!(sanitize_name("web server"), "web_server");
    assert_eq!(sanitize_name("a/b"), "a_b");
    assert_eq!(sanitize_name("åäö"), "___");
    assert_eq!(sanitize_name(""), "process");
    assert_eq!(sanitize_name("..."), "process");
    assert_eq!(sanitize_name(".hidden"), "hidden");
    assert_eq!(sanitize_name(&"x".repeat(200)).len(), 100);
}

#[test]
fn sanitizing_a_safe_name_keeps_it() {
    for name in ["api", "web_server", "a-b.c", "X9"] {
        assert_eq!(sanitize_name(name), name);
        assert_eq!(sanitize_name(&sanitize_name(name)), name);
    }
}

#[test]
fn assign_log_paths_dedupes_sanitization_collisions() {
    let paths = assign_log_paths(&[cfg("a b"), cfg("a_b")], "/tmp/s");
    assert_eq!(paths[0].as_deref(), Some("/tmp/s/a_b.log"));
    assert_eq!(paths[1].as_deref(), Some("/tmp/s/a_b-2.log"));
    let three = assign_log_paths(&[cfg("a/b"), cfg("c"), cfg("a b"), cfg("a_b")], "/tmp/s");
    assert_eq!(three[1].as_deref(), Some("/tmp/s/c.log"));
    assert_eq!(three[3].as_deref(), Some("/tmp/s/a_b-3.log"));
}

#[test]
fn process_names_are_sanitized_for_filenames() {
    let paths = assign_log_paths(&[cfg("web server/dev")], "/tmp/session");
    assert_eq!(paths[0].as_deref(), Some("/tmp/session/web_server_dev.log"));
}

fn strip(chunks: &[&[u8]]) -> Vec<u8> {
    let mut w = AnsiLogWriter::new();
    let mut out = Vec::new();
    for c in chunks {
        out.extend(w.write_chunk(c));
    }
    out.extend(w.flush());
    out
}

#[test]
fn strips_csi_color_codes() {
    assert_eq!(strip(&[b"\x1b[31mred\x1b[0m line\n"]), b"red line\n");
}

#[test]
fn handles_escape_split_across_chunks() {
    assert_eq!(strip(&[b"\x1b[3", b"1mred\x1b[0m\n"]), b"red\n");
}

#[test]
fn normalizes_crlf_and_lone_cr() {
    assert_eq!(strip(&[b"a\r\nb\n"]), b"a\nb\n");
    assert_eq!(strip(&[b"50%\r100%\n"]), b"50%\n100%\n");
    // Trailing CR resolves to a newline at flush.
    assert_eq!(strip(&[b"tail\r"]), b"tail\n");
}

#[test]
fn drops_osc_sequences() {
    assert_eq!(strip(&[b"\x1b]0;title\x07hello\n"]), b"hello\n");
}

#[test]
fn output_is_captured_ansi_stripped() {
    let got = strip(&["\x1b[1mhé\x1b[0mllo\tx\r\n".as_bytes()]);
    assert_eq!(got, "héllo\tx\n".as_bytes());
}

#[test]
fn a_disabled_writer_writes_nothing() {
    let mut w = AnsiLogWriter::new();
    assert_eq!(w.write_chunk(b"a\r"), b"a");
    w.disable();
    assert_eq!(w.write_chunk(b"b\n"), b"");
    assert_eq!(w.flush(), b"");
}

#[test]
fn an_extractor_holds_a_carriage_return_back() {
    let mut e = TextExtractor::new();
    e.print('a');
    e.execute(b'\r');
    assert_eq!(e.drain(), b"a");
    e.execute(b'\r');
    assert_eq!(e.drain(), b"\n");
    e.execute(b'\n');
    assert_eq!(e.drain(), b"\n");
    e.execute(b'\r');
    e.resolve_cr();
    assert_eq!(e.drain(), b"\n");
}

#[test]
fn cleanup_respects_max_age() {
    // A session that was just touched survives a threshold of an hour...
    assert!(!session_expired(10_000, 9_999, &[9_999], 3600));
    // ...and is removed when everything counts as old.
    assert!(session_expired(10_000, 9_999, &[9_999], 0));
    // One file that is still written to keeps the session.
    assert!(!session_expired(10_000, 0, &[1, 9_000, 2], 3600));
    assert!(session_expired(10_000, 0, &[1, 2], 3600));
}

#[test]
fn restart_appends_with_separator() {
    assert_eq!(restart_mark(0, 3661), None);
    assert_eq!(
        restart_mark(12, 3661).as_deref(),
        Some("\n----- restarted at 01:01:01 -----\n")
    );
}

#[test]
fn sessions_are_named_after_the_config() {
    assert_eq!(session_dir_name("my conf", "20260622-101500"), "my_conf-20260622-101500");
}

#[test]
fn a_numbered_name_is_not_given_twice() {
    let paths = assign_log_paths(&[cfg("a b"), cfg("a_b"), cfg("a_b-2")], "/tmp/s");
    assert_eq!(paths[0].as_deref(), Some("/tmp/s/a_b.log"));
    assert_eq!(paths[1].as_deref(), Some("/tmp/s/a_b-2.log"));
    assert_eq!(paths[2].as_deref(), Some("/tmp/s/a_b-2-2.log"));
    let paths = assign_log_paths(&[cfg("a_b-2"), cfg("a b"), cfg("a_b")], "/tmp/s");
    assert_eq!(paths[0].as_deref(), Some("/tmp/s/a_b-2.log"));
    assert_eq!(paths[1].as_deref(), Some("/tmp/s/a_b.log"));
    assert_eq!(paths[2].as_deref(), Some("/tmp/s/a_b-3.log"));
}

#[test]
fn chunks_come_to_the_same_as_the_whole() {
    let all = "a\r\n\x1b[31mhé\x1b[0m\rb\x1b]0;t\x07\tc\n".as_bytes();
    let whole = strip(&[all]);
    assert_eq!(whole, "a\nhé\nb\tc\n".as_bytes());
    for k in 0..=all.len() {
        assert_eq!(strip(&[&all[..k], &all[k..]]), whole, "cut at {k}");
    }
}

/// Whether a cut runs through a character of two bytes that is a control
/// character, or that is followed by ASCII and then by something else.
fn torn(a: &[u8], b: &[u8]) -> bool {
    let lead = a.last().copied().unwrap_or(0);
    (0xc2..=0xdf).contains(&lead)
        && !b.is_empty()
        && (0x80..=0xbf).contains(&b[0])
        && ((lead == 0xc2 && b[0] < 0xa0) || (b.len() >= 3 && b[1] < 0x80 && b[2] >= 0x80))
}

#[test]
fn short_chunks_come_to_the_same_wherever_they_are_cut() {
    // ASCII, an escape, first bytes of characters of two, three and four bytes,
    // and bytes that follow, among them some that do not fit.
    let alphabet: [u8; 9] = [b'a', 0x1b, b']', 0xc2, 0xc3, 0xe0, 0xf0, 0x85, 0xa9];
    let mut cuts = 0;
    for len in 0..=5u32 {
        for number in 0..9usize.pow(len) {
            let mut rest = number;
            let mut all = Vec::new();
            for _ in 0..len {
                all.push(alphabet[rest % 9]);
                rest /= 9;
            }
            let whole = strip(&[&all, b"\xa9b"]);
            for k in 0..=all.len() {
                if !torn(&all[..k], &all[k..]) {
                    let got = strip(&[&all[..k], &all[k..], b"\xa9b"]);
                    assert_eq!(got, whole, "{all:x?} cut at {k}");
                    cuts += 1;
                }
            }
        }
    }
    assert!(cuts > 300_000);
}

#[test]
fn a_character_may_be_cut() {
    for text in ["éab", "é", "é\x1b[1mb", "a€b", "€€", "x😀é", "ßü\r\n"] {
        let all = text.as_bytes();
        for k in 0..=all.len() {
            assert_eq!(strip(&[&all[..k], &all[k..]]), strip(&[all]), "{text} cut at {k}");
        }
    }
}
