use rumor::output::Output;
use rumor::raw::RAW_CAP;

fn shown(o: &Output) -> String {
    o.screen().contents()
}

#[test]
fn clear_display_wipes_view_keeps_file_and_shows_new_output() {
    let mut o = Output::new(24, 80);
    o.feed(b"got before-clear\r\n");
    assert!(shown(&o).contains("got before-clear"));
    let generation = o.generation;
    o.clear_display();
    assert!(!shown(&o).contains("before-clear"));
    assert_ne!(o.generation, generation);
    assert_eq!(o.screen().size(), (24, 80));

    // What was cleared does not come back with a resize.
    o.resize(24, 120);
    assert!(!shown(&o).contains("before-clear"));
    o.feed(b"got after-clear\r\n");
    assert!(shown(&o).contains("got after-clear"));
    assert!(!shown(&o).contains("before-clear"));
}

#[test]
fn pty_smoke_resize_replays_history_at_new_width() {
    let mut o = Output::new(10, 40);
    o.feed("A".repeat(80).as_bytes());
    o.feed(b"\r\n");
    assert!(shown(&o).chars().filter(|&c| c == 'A').count() >= 80);
    o.resize(10, 120);
    let full = "A".repeat(80);
    assert!(o.screen().rows(0, 120).any(|row| row.trim_end() == full));
}

#[test]
fn output_is_kept_up_to_the_cap() {
    let mut o = Output::new(5, 20);
    assert_eq!(o.raw_snapshot(), b"");
    o.feed(b"first\n");
    o.feed(&vec![b'x'; RAW_CAP - 6]);
    assert_eq!(o.raw_snapshot().len(), RAW_CAP);
    o.feed(b"y");
    let kept = o.raw_snapshot();
    assert_eq!(kept.len(), RAW_CAP - 5);
    assert_eq!(kept[0], b'x');
    assert_eq!(kept[kept.len() - 1], b'y');
    assert_eq!(o.generation, RAW_CAP as u64 + 1);
}

#[test]
fn scrolling_stops_at_both_ends() {
    let mut o = Output::new(5, 20);
    for i in 0..30 {
        o.feed(format!("line {i}\r\n").as_bytes());
    }
    o.scroll_by(-3);
    assert_eq!(o.screen().scrollback(), 0);
    o.scroll_by(10);
    assert_eq!(o.screen().scrollback(), 10);
    o.scroll_by(-4);
    assert_eq!(o.screen().scrollback(), 6);
    o.scroll_by(1000);
    assert_eq!(o.screen().scrollback(), 26);
    o.set_scroll(usize::MAX / 2);
    assert_eq!(o.screen().scrollback(), 26);
    o.set_scroll(3);
    o.resize(5, 30);
    assert_eq!(o.screen().scrollback(), 3);
}

#[test]
fn the_smallest_terminals_take_any_character() {
    // A character that takes up three columns, and one that takes up two.
    for text in ["\u{17d8}\u{17d8}\u{17d8}", "漢字漢字漢字", "a\u{17d8}漢\tb\r\n\u{17d8}"] {
        let mut o = Output::new(2, 3);
        o.feed(text.as_bytes());
        o.feed(b"\x1b[2;3H\x1b[5@\x1b[5P\x1b[1J\x1b[K");
        o.feed(text.as_bytes());
        assert_eq!(o.screen().size(), (2, 3));
    }
    let mut o = Output::new(2, 65527);
    o.feed(b"\x1b[1;65527Hx\ty");
    assert_eq!(o.screen().size(), (2, 65527));
}
