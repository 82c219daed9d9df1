use rumor::app::{App, KeyCode, KeyEvent, Mode, Reply};
use rumor::config::ProcessConfig;
use rumor::env::Env;
use rumor::highlight::{log_highlights, style_of_match, Area};
use rumor::manager::{Command, Process, ProcessManager};
use rumor::search::probe_total;
use rumor::status::{ExitInfo, Status};
use rumor::style::{flatten_line, Color};
use rumor::ui::{details_lines, status_line};

fn cfg(name: &str) -> ProcessConfig {
    ProcessConfig {
        name: name.into(),
        command: "bash".into(),
        args: vec![],
        cwd: "/tmp".into(),
        env_files: vec![],
        global_env_files: vec![],
        env: Env::new(),
        dynamic_ports: Env::new(),
        depends_on: vec![],
        long_lived: false,
        tags: vec![],
        retry: None,
    }
}

fn key(code: KeyCode) -> KeyEvent {
    KeyEvent::plain(code)
}

fn press(app: &mut App, code: KeyCode) -> Reply {
    app.handle_key(key(code), 1000)
}

fn type_str(app: &mut App, s: &str) {
    for c in s.chars() {
        press(app, KeyCode::Char(c));
    }
}

fn app_of(names: &[&str], rows: u16, cols: u16) -> App {
    let configs = names.iter().map(|n| cfg(n)).collect();
    let (mgr, _) = ProcessManager::new(configs, rows, cols, None);
    App::new(mgr, rows, cols)
}

fn empty_app() -> App {
    app_of(&[], 24, 80)
}

/// An application with one process that wrote some lines and ended.
fn app_with_output(lines: &[&str], rows: u16, cols: u16) -> App {
    let mut app = app_of(&["logs"], rows, cols);
    let process = Process::new(&app.mgr.configs[0], &Env::new(), rows, cols, 4242, 1);
    app.mgr.set_process(0, process);
    for line in lines {
        app.mgr.feed(0, 1, line.as_bytes());
        app.mgr.feed(0, 1, b"\r\n");
    }
    app.mgr.set_status(0, 1, Status::Exited(ExitInfo { code: 0, signal: None }));
    app.mgr.watcher_done(0);
    app
}

fn numbered(n: usize) -> Vec<String> {
    (1..=n).map(|i| format!("line {i}")).collect()
}

fn refs(lines: &[String]) -> Vec<&str> {
    lines.iter().map(|s| s.as_str()).collect()
}

fn scroll(app: &App) -> usize {
    app.mgr.process(0).unwrap().output.screen().scrollback()
}

// ---- help ----

#[test]
fn h_opens_help_in_nav() {
    let mut app = empty_app();
    press(&mut app, KeyCode::Char('h'));
    assert!(app.help_visible);
    assert_eq!(app.mode, Mode::Nav);
}

#[test]
fn esc_h_and_q_close_help() {
    for close in [KeyCode::Esc, KeyCode::Char('h'), KeyCode::Char('q')] {
        let mut app = empty_app();
        press(&mut app, KeyCode::Char('h'));
        assert!(app.help_visible);
        press(&mut app, close);
        assert!(!app.help_visible, "{close:?} should close help");
        // q closed the overlay, it must not have started a shutdown
        assert!(!app.shutting_down);
        assert!(!app.should_quit);
    }
}

#[test]
fn other_keys_are_swallowed_while_help_open() {
    let mut app = empty_app();
    press(&mut app, KeyCode::Char('h'));
    press(&mut app, KeyCode::Char('d'));
    assert!(app.help_visible, "d should be swallowed, not enter details");
    assert_eq!(app.mode, Mode::Nav);
}

#[test]
fn scroll_keys_move_help_offset() {
    let mut app = empty_app();
    press(&mut app, KeyCode::Char('h'));
    assert_eq!(app.help_scroll, 0);
    press(&mut app, KeyCode::Down);
    press(&mut app, KeyCode::Down);
    assert_eq!(app.help_scroll, 2);
    press(&mut app, KeyCode::Up);
    assert_eq!(app.help_scroll, 1);
    press(&mut app, KeyCode::PageDown);
    assert_eq!(app.help_scroll, 11);
    press(&mut app, KeyCode::Home);
    assert_eq!(app.help_scroll, 0);
    // saturates at the top instead of underflowing
    press(&mut app, KeyCode::Up);
    assert_eq!(app.help_scroll, 0);
    assert!(app.help_visible);
}

#[test]
fn reopening_help_resets_scroll() {
    let mut app = empty_app();
    press(&mut app, KeyCode::Char('h'));
    press(&mut app, KeyCode::Down);
    assert_eq!(app.help_scroll, 1);
    press(&mut app, KeyCode::Esc);
    press(&mut app, KeyCode::Char('h'));
    assert_eq!(app.help_scroll, 0);
}

#[test]
fn h_does_not_open_help_in_focus() {
    let mut app = empty_app();
    app.mode = Mode::Focus;
    press(&mut app, KeyCode::Char('h'));
    assert!(!app.help_visible);
    assert_eq!(app.mode, Mode::Focus);
}

#[test]
fn help_from_details_returns_to_details() {
    let mut app = empty_app();
    press(&mut app, KeyCode::Char('d'));
    assert_eq!(app.mode, Mode::Details);
    press(&mut app, KeyCode::Char('h'));
    assert!(app.help_visible);
    press(&mut app, KeyCode::Esc);
    assert!(!app.help_visible);
    assert_eq!(app.mode, Mode::Details);
}

// ---- details search ----

#[test]
fn slash_opens_details_search_and_chars_edit_query() {
    let mut app = empty_app();
    press(&mut app, KeyCode::Char('d'));
    assert_eq!(app.mode, Mode::Details);
    press(&mut app, KeyCode::Char('/'));
    assert!(app.details_search.editing);
    assert!(app.details_search.active);
    type_str(&mut app, "path");
    assert_eq!(app.details_search.query, "path");
    press(&mut app, KeyCode::Backspace);
    assert_eq!(app.details_search.query, "pat");
}

#[test]
fn q_while_editing_types_a_q_instead_of_quitting() {
    let mut app = empty_app();
    press(&mut app, KeyCode::Char('d'));
    press(&mut app, KeyCode::Char('/'));
    press(&mut app, KeyCode::Char('q'));
    assert_eq!(app.details_search.query, "q");
    assert!(!app.should_quit);
    assert!(!app.shutting_down);
    assert_eq!(app.mode, Mode::Details, "d must not close details either");
}

#[test]
fn enter_confirms_and_esc_clears_details_search() {
    let mut app = empty_app();
    press(&mut app, KeyCode::Char('d'));
    press(&mut app, KeyCode::Char('/'));
    type_str(&mut app, "x");
    press(&mut app, KeyCode::Enter);
    assert!(!app.details_search.editing);
    assert!(app.details_search.active, "stays active after confirm");
    // First Esc clears the search, second closes details.
    press(&mut app, KeyCode::Esc);
    assert!(!app.details_search.active);
    assert_eq!(app.mode, Mode::Details);
    press(&mut app, KeyCode::Esc);
    assert_eq!(app.mode, Mode::Nav);
}

#[test]
fn confirming_empty_query_deactivates() {
    let mut app = empty_app();
    press(&mut app, KeyCode::Char('d'));
    press(&mut app, KeyCode::Char('/'));
    press(&mut app, KeyCode::Enter);
    assert!(!app.details_search.active);
    assert!(!app.details_search.editing);
}

#[test]
fn ctrl_u_clears_the_query() {
    let mut app = empty_app();
    press(&mut app, KeyCode::Char('d'));
    press(&mut app, KeyCode::Char('/'));
    type_str(&mut app, "abc");
    app.handle_key(KeyEvent::control(KeyCode::Char('u')), 1000);
    assert_eq!(app.details_search.query, "");
    assert!(app.details_search.editing, "clearing keeps the bar open");
}

#[test]
fn help_overlay_swallows_slash() {
    let mut app = empty_app();
    press(&mut app, KeyCode::Char('h'));
    press(&mut app, KeyCode::Char('/'));
    assert!(!app.log_search.editing);
    assert!(!app.details_search.editing);
    assert!(app.help_visible);
}

#[test]
fn slash_without_process_shows_notice_not_search() {
    let mut app = empty_app();
    press(&mut app, KeyCode::Char('/'));
    assert!(!app.log_search.editing);
    assert!(!app.log_search.active);
    assert!(app.notice(1000).is_some());
}

#[test]
fn reopening_details_clears_previous_search() {
    let mut app = empty_app();
    press(&mut app, KeyCode::Char('d'));
    press(&mut app, KeyCode::Char('/'));
    type_str(&mut app, "x");
    press(&mut app, KeyCode::Enter);
    press(&mut app, KeyCode::Char('d')); // close
    press(&mut app, KeyCode::Char('d')); // reopen
    assert!(!app.details_search.active);
    assert_eq!(app.details_search.query, "");
}

#[test]
fn details_matches_are_marked() {
    let mut app = app_with_output(&[], 10, 40);
    press(&mut app, KeyCode::Char('d'));
    press(&mut app, KeyCode::Char('/'));
    type_str(&mut app, "TERM");
    press(&mut app, KeyCode::Enter);
    let lines = app.details_view();
    assert_eq!(app.details_search.matches.len(), 2, "TERM=xterm-256color");
    let plain = details_lines(&app.mgr, 0);
    assert_eq!(lines.len(), plain.len());
    for (a, b) in lines.iter().zip(plain.iter()) {
        assert_eq!(flatten_line(a), flatten_line(b), "marking keeps the text");
    }
    let at = app.details_search.matches[0].0;
    let first = &lines[at].spans[0];
    assert_eq!(first.content, "TERM");
    assert_eq!(first.style.bg, Some(Color::Yellow));
    let second = &lines[at].spans[3];
    assert_eq!(second.content, "term");
    assert_eq!(second.style.bg, Some(Color::DarkGray));
    press(&mut app, KeyCode::Char('n'));
    assert_eq!(app.details_search.current, 1);
    press(&mut app, KeyCode::Char('N'));
    assert_eq!(app.details_search.current, 0);
    assert_eq!(app.details_scroll, (at - 5) as u16, "the match is in the middle");
}

// ---- log search ----

#[test]
fn log_search_finds_matches_and_steps() {
    let mut lines = numbered(40);
    lines.push("needle one".to_string());
    lines.push("needle two".to_string());
    let mut app = app_with_output(&refs(&lines), 10, 40);

    press(&mut app, KeyCode::Char('/'));
    assert!(app.log_search.editing);
    type_str(&mut app, "needle");
    press(&mut app, KeyCode::Enter);
    assert!(!app.log_search.editing);
    assert_eq!(app.log_search.matches.len(), 2);
    assert_eq!(app.log_search.current, 1, "starts at the newest match");

    // n = older, N = newer, both wrap.
    press(&mut app, KeyCode::Char('n'));
    assert_eq!(app.log_search.current, 0);
    press(&mut app, KeyCode::Char('n'));
    assert_eq!(app.log_search.current, 1, "wraps past the oldest");
    press(&mut app, KeyCode::Char('N'));
    assert_eq!(app.log_search.current, 0, "wraps past the newest");

    // Esc clears highlights and the query.
    press(&mut app, KeyCode::Esc);
    assert!(!app.log_search.active);
    assert!(app.log_search.matches.is_empty());
}

#[test]
fn search_is_case_insensitive_literal() {
    let mut app = app_with_output(&["ERROR alpha", "error beta"], 10, 40);
    press(&mut app, KeyCode::Char('/'));
    type_str(&mut app, "error");
    assert_eq!(app.log_search.matches.len(), 2);
}

#[test]
fn esc_while_editing_restores_scroll_position() {
    let lines = numbered(60);
    let mut app = app_with_output(&refs(&lines), 10, 40);
    for _ in 0..5 {
        press(&mut app, KeyCode::Up);
    }
    let before = scroll(&app);
    assert_eq!(before, 5);

    press(&mut app, KeyCode::Char('/'));
    type_str(&mut app, "line 2"); // jumps the view to a match
    assert_ne!(scroll(&app), before);
    press(&mut app, KeyCode::Esc);
    assert_eq!(scroll(&app), before, "Esc must restore the pre-search scroll");
    assert!(!app.log_search.active);
}

#[test]
fn confirm_jumps_to_match_in_scrollback() {
    let mut lines = vec!["needle here".to_string()];
    lines.extend(numbered(60));
    let mut app = app_with_output(&refs(&lines), 10, 40);
    press(&mut app, KeyCode::Char('/'));
    type_str(&mut app, "needle");
    press(&mut app, KeyCode::Enter);
    assert_eq!(app.log_search.matches.len(), 1);
    assert!(scroll(&app) > 0, "view should have scrolled back to the match");
    assert_eq!(scroll(&app), 52);
}

#[test]
fn highlights_and_indicator_render_into_the_buffer() {
    // A body of 10 rows and 58 columns within its borders.
    let mut app = app_with_output(&["a needle b"], 10, 58);
    press(&mut app, KeyCode::Char('/'));
    type_str(&mut app, "needle");
    press(&mut app, KeyCode::Enter);
    assert_eq!(app.log_search.matches.len(), 1);

    let area = Area { x: 0, y: 3, width: 60, height: 12 };
    let mut output = rumor::output::Output::new(10, 58);
    output.feed(b"a needle b\r\n");
    let total = probe_total(&mut output.terminal);
    let cells =
        log_highlights(&app.log_search.matches, app.log_search.current, total, scroll(&app), area);
    assert_eq!(cells.len(), 1);
    assert_eq!((cells[0].x, cells[0].y, cells[0].width), (3, 4, 6));
    assert!(cells[0].current);
    assert_eq!(style_of_match(cells[0].current).bg, Some(Color::Yellow));
    assert_ne!(style_of_match(false).bg, Some(Color::Yellow));

    // The status line shows the match, and the keys of a search.
    let status = flatten_line(&status_line(&app, 1000));
    assert!(status.contains("(1/1) /needle"), "status line: {status:?}");
    assert!(status.contains("n older"), "status line: {status:?}");

    press(&mut app, KeyCode::Esc);
    let status = flatten_line(&status_line(&app, 1000));
    assert!(
        !status.contains("n older") && status.contains("tabs"),
        "nav hints should be back after Esc: {status:?}"
    );
}

#[test]
fn new_output_is_searched_no_more_often_than_is_good() {
    let mut app = app_with_output(&["needle"], 10, 40);
    press(&mut app, KeyCode::Char('/'));
    type_str(&mut app, "needle");
    press(&mut app, KeyCode::Enter);
    app.mgr.feed(0, 1, b"needle\r\n");
    app.pre_draw(1249);
    assert_eq!(app.log_search.matches.len(), 1);
    app.pre_draw(1250);
    assert_eq!(app.log_search.matches.len(), 2);
    // Another size is searched at once.
    app.apply_resize(10, 50);
    app.mgr.feed(0, 1, b"needle\r\n");
    app.pre_draw(1251);
    assert_eq!(app.log_search.matches.len(), 3);
}

// ---- navigation ----

#[test]
fn tabs_go_around() {
    let mut app = app_of(&["a", "b", "c"], 24, 80);
    press(&mut app, KeyCode::Left);
    assert_eq!(app.selected, 2);
    press(&mut app, KeyCode::Right);
    assert_eq!(app.selected, 0);
    press(&mut app, KeyCode::Right);
    assert_eq!(app.selected, 1);
    let mut none = empty_app();
    none.next_tab();
    none.prev_tab();
    assert_eq!(none.selected, 0);
}

#[test]
fn the_selected_tab_is_kept_in_view() {
    let mut app = app_of(&["a", "b", "c", "d", "e"], 24, 80);
    app.selected = 4;
    app.ensure_selected_visible(12);
    assert_eq!(app.tab_offset, 3);
    assert_eq!(app.visible_tab_range(12), (3, 5));
}

#[test]
fn wrapping_is_toggled_per_tab() {
    let mut app = app_with_output(&[&"x".repeat(60)], 10, 40);
    assert!(app.wrap_of(0));
    let reply = press(&mut app, KeyCode::Char('w'));
    assert!(!app.wrap_of(0));
    assert_eq!(reply.commands, vec![Command::Resize { idx: 0, rows: 10, cols: 1000 }]);
    assert_eq!(app.mgr.process(0).unwrap().output.screen().size(), (10, 1000));
    let commands = app.apply_resize(20, 50);
    assert_eq!(commands, vec![Command::Resize { idx: 0, rows: 20, cols: 1000 }]);
    let reply = press(&mut app, KeyCode::Char('w'));
    assert_eq!(reply.commands, vec![Command::Resize { idx: 0, rows: 20, cols: 50 }]);
    assert!(app.wrap_of(7), "wrapping is the default");
}

#[test]
fn keys_go_to_the_process_in_focus() {
    let mut app = app_with_output(&["x"], 10, 40);
    press(&mut app, KeyCode::Enter);
    assert_eq!(app.mode, Mode::Focus);
    let reply = press(&mut app, KeyCode::Char('q'));
    assert_eq!(reply.input, Some(0));
    assert!(!app.shutting_down);
    let escaped = app.handle_key(
        KeyEvent { code: KeyCode::Esc, ctrl: false, bare: false },
        1000,
    );
    assert_eq!(escaped.input, Some(0));
    let reply = press(&mut app, KeyCode::Esc);
    assert_eq!(reply.input, None);
    assert_eq!(app.mode, Mode::Nav);
}

#[test]
fn enter_needs_a_process() {
    let mut app = app_of(&["a"], 24, 80);
    press(&mut app, KeyCode::Enter);
    assert_eq!(app.mode, Mode::Nav);
}

#[test]
fn output_is_scrolled_and_cleared() {
    let lines = numbered(60);
    let mut app = app_with_output(&refs(&lines), 10, 40);
    press(&mut app, KeyCode::PageUp);
    assert_eq!(scroll(&app), 10);
    press(&mut app, KeyCode::Down);
    assert_eq!(scroll(&app), 9);
    press(&mut app, KeyCode::Home);
    assert_eq!(scroll(&app), 51);
    press(&mut app, KeyCode::End);
    assert_eq!(scroll(&app), 0);
    press(&mut app, KeyCode::Char('c'));
    let output = &app.mgr.process(0).unwrap().output;
    assert_eq!(output.raw_snapshot(), b"");
    assert_eq!(output.screen().contents(), "");
}

#[test]
fn the_log_path_is_copied() {
    let (mgr, _) = ProcessManager::new(vec![cfg("a b")], 24, 80, Some("/s"));
    let mut app = App::new(mgr, 24, 80);
    let reply = press(&mut app, KeyCode::Char('y'));
    assert_eq!(reply.copy.as_deref(), Some("/s/a_b.log"));
    app.copied(true, 1000);
    assert_eq!(app.notice(1000), Some("log path copied"));
    assert_eq!(app.notice(2999), Some("log path copied"));
    assert_eq!(app.notice(3000), None);
    app.copied(false, 4000);
    assert_eq!(app.notice(4000), Some("copy failed"));
    let mut bare = app_of(&["a"], 24, 80);
    assert!(press(&mut bare, KeyCode::Char('y')).copy.is_none());
    assert_eq!(bare.notice(1000), Some("no log file (capture disabled)"));
}

// ---- the end ----

#[test]
fn quitting_with_nothing_running_is_immediate() {
    let mut app = app_with_output(&["x"], 10, 40);
    let reply = press(&mut app, KeyCode::Char('q'));
    assert!(app.should_quit);
    assert!(!app.shutting_down);
    assert!(reply.commands.is_empty());
}

fn running_app() -> App {
    let mut app = app_of(&["one", "two"], 10, 40);
    let process = Process::new(&app.mgr.configs[0], &Env::new(), 10, 40, 77, 1);
    app.mgr.set_process(0, process);
    app
}

#[test]
fn quitting_waits_for_the_processes() {
    for quit in [key(KeyCode::Char('q')), KeyEvent::control(KeyCode::Char('c'))] {
        let mut app = running_app();
        let reply = app.handle_key(quit, 5000);
        assert!(app.shutting_down);
        assert!(!app.should_quit);
        assert_eq!(
            reply.commands,
            vec![
                Command::AbortWatcher { idx: 0 },
                Command::AbortWatcher { idx: 1 },
                Command::Terminate { pid: 77, id: 1 },
            ]
        );
        assert!(!app.shutdown_complete(5000));
        assert!(!app.shutdown_complete(8499));
        assert!(app.shutdown_complete(8500), "the time is up");
        app.mgr.set_status(0, 1, Status::Exited(ExitInfo { code: 143, signal: None }));
        assert!(app.shutdown_complete(5001));
    }
}

#[test]
fn a_second_key_forces_the_end() {
    let mut app = running_app();
    press(&mut app, KeyCode::Char('q'));
    press(&mut app, KeyCode::Char('d'));
    assert_eq!(app.mode, Mode::Nav, "nothing else is possible now");
    press(&mut app, KeyCode::Char('q'));
    assert!(app.should_quit);
}

#[test]
fn restart_and_kill_reach_the_manager() {
    let mut app = running_app();
    let reply = press(&mut app, KeyCode::Char('r'));
    assert_eq!(
        reply.commands,
        vec![
            Command::Terminate { pid: 77, id: 1 },
            Command::AbortWatcher { idx: 0 },
            Command::StartWatcher { idx: 0, prior: Some(1) },
        ]
    );
    let mut app = running_app();
    let reply = press(&mut app, KeyCode::Char('k'));
    assert_eq!(reply.commands, vec![Command::Terminate { pid: 77, id: 1 }]);
    assert!(app.mgr.slots[0].suppress_retry);
    let mut app = running_app();
    let reply = app.handle_key(KeyEvent::control(KeyCode::Char('k')), 1000);
    assert_eq!(reply.commands, vec![Command::Terminate { pid: 77, id: 1 }]);
    let mut app = running_app();
    let reply = app.handle_key(KeyEvent::control(KeyCode::Char('r')), 1000);
    assert_eq!(reply.commands.len(), 5);
}

#[test]
fn a_signal_ends_everything_in_any_mode() {
    let mut app = app_of(&["a"], 24, 80);
    let process = Process::new(&app.mgr.configs[0], &Env::new(), 24, 80, 4242, 1);
    app.mgr.set_process(0, process);
    app.mode = Mode::Focus;
    let reply = app.begin_shutdown(7);
    assert_eq!(
        reply.commands,
        vec![Command::AbortWatcher { idx: 0 }, Command::Terminate { pid: 4242, id: 1 }]
    );
    assert!(app.shutting_down);
    assert!(!app.shutdown_complete(3506));
    assert!(app.shutdown_complete(3507));

    let mut idle = app_of(&["a"], 24, 80);
    assert!(idle.begin_shutdown(7).commands.is_empty());
    assert!(idle.should_quit && !idle.shutting_down);
}
