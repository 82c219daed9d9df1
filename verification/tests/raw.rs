use std::collections::VecDeque;

use rumor::raw::{
    check_only, evict_to_cap, normalize_cr, printed_line, prints, raw_step, RawAction, RawEmitter,
    RawLine, RawPhase, RawSight,
};

fn lines(list: Vec<RawLine>) -> Vec<Vec<u8>> {
    list.into_iter().map(|l| l.line).collect()
}

fn texts(list: &[&str]) -> Vec<String> {
    list.iter().map(|s| s.to_string()).collect()
}

#[test]
fn lines_are_emitted_once_they_are_whole() {
    let mut e = RawEmitter::new("api", true);
    assert!(e.feed(b"\x1b[31mhel").is_empty());
    let got = e.feed(b"lo\x1b[0m\nwor");
    assert_eq!(got[0].name, "api");
    assert_eq!(lines(got), vec![b"hello".to_vec()]);
    assert_eq!(lines(e.feed(b"ld\r\nlast")), vec![b"world".to_vec()]);
    assert_eq!(lines(e.finish()), vec![b"last".to_vec()]);
    assert!(e.finish().is_empty());
}

#[test]
fn colors_are_kept_where_they_are_wanted() {
    let mut e = RawEmitter::new("api", false);
    assert_eq!(
        lines(e.feed(b"\x1b[31mred\x1b[0m\r\n50%\r100%\n")),
        vec![b"\x1b[31mred\x1b[0m".to_vec(), b"50%".to_vec(), b"100%".to_vec()]
    );
    assert!(e.feed(b"tail\r").is_empty());
    assert_eq!(lines(e.finish()), vec![b"tail".to_vec()]);
}

#[test]
fn carriage_returns_become_line_ends() {
    let mut pending = false;
    let mut acc = Vec::new();
    normalize_cr(b"a\r", &mut pending, &mut acc);
    assert!(pending);
    assert_eq!(acc, b"a");
    normalize_cr(b"\nb\r\rc", &mut pending, &mut acc);
    assert!(!pending);
    assert_eq!(acc, b"a\nb\n\nc");
}

#[test]
fn a_line_is_printed_with_its_name() {
    let line = RawLine { name: "api".to_string(), line: b"up \xff".to_vec() };
    assert_eq!(printed_line(&line), b"[api] up \xff\n");
}

#[test]
fn only_narrows_what_is_printed() {
    assert!(prints(&[], "api"));
    assert!(prints(&texts(&["web", "api"]), "api"));
    assert!(!prints(&texts(&["web"]), "api"));
    assert!(check_only(&texts(&["web"]), &texts(&["api", "web"])).is_ok());
    assert_eq!(
        check_only(&texts(&["web", "x", "y"]), &texts(&["web"])),
        Err("--only: no process named 'x' in this config".to_string())
    );
}

#[test]
fn whole_lines_are_dropped_first() {
    let keep = |bytes: &[u8], cap: usize| {
        let mut buf: VecDeque<u8> = bytes.iter().copied().collect();
        evict_to_cap(&mut buf, cap);
        buf.into_iter().collect::<Vec<u8>>()
    };
    assert_eq!(keep(b"ab\ncd\nef", 8), b"ab\ncd\nef");
    assert_eq!(keep(b"ab\ncd\nef", 7), b"cd\nef");
    assert_eq!(keep(b"ab\ncd\nef", 2), b"ef");
    assert_eq!(keep(b"ab\ncd\nef", 1), b"");
    assert_eq!(keep(b"abcdef", 3), b"");
}

#[test]
fn a_run_ends_when_it_is_asked_to_or_has_nothing_left() {
    let sight = |asked, finished, exited, now| RawSight { asked, finished, exited, now };
    let running = RawPhase::Running;
    assert_eq!(raw_step(running, sight(false, false, false, 5)), (running, RawAction::Wait));
    // All slots wait for one another: nothing runs, but nothing has finished.
    assert_eq!(raw_step(running, sight(false, false, true, 5)), (running, RawAction::Wait));
    let ending = RawPhase::Ending { since: 10 };
    assert_eq!(raw_step(running, sight(true, false, false, 10)), (ending, RawAction::Shutdown));
    assert_eq!(raw_step(running, sight(false, true, true, 10)), (ending, RawAction::Wait));
    assert_eq!(raw_step(ending, sight(true, false, false, 3009)), (ending, RawAction::Wait));
    let over = (RawPhase::Over, RawAction::KillAll);
    assert_eq!(raw_step(ending, sight(false, false, false, 3010)), over);
    assert_eq!(raw_step(ending, sight(false, false, true, 11)), over);
    assert_eq!(
        raw_step(RawPhase::Over, sight(true, true, true, 99)),
        (RawPhase::Over, RawAction::Wait)
    );
}

#[test]
fn lines_do_not_depend_on_the_chunks() {
    let all = "\x1b[31mone\x1b[0m\r\ntwö\r50%\rthr€e\nlast".as_bytes();
    let mut at_once = RawEmitter::new("api", true);
    let mut whole = lines(at_once.feed(all));
    whole.extend(lines(at_once.finish()));
    assert_eq!(whole.len(), 5);
    for k in 0..=all.len() {
        let mut e = RawEmitter::new("api", true);
        let mut got = lines(e.feed(&all[..k]));
        got.extend(lines(e.feed(&all[k..])));
        got.extend(lines(e.finish()));
        assert_eq!(got, whole, "cut at {k}");
    }
}
