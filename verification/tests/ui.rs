use rumor::app::{App, Mode};
use rumor::config::{Dependency, ProcessConfig, ReadinessCondition};
use rumor::diag::Diag;
use rumor::env::Env;
use rumor::highlight::{highlight_line, log_highlights, Area, Highlight};
use rumor::manager::{Process, ProcessManager};
use rumor::search::Match;
use rumor::status::{ExitInfo, Status};
use rumor::style::{flatten_line, Color, Line, Span, Style};
use rumor::ui::{
    body_of, details_lines, help_box, help_lines, shutdown_lines, slot_status_span, status_line,
    tab_arrows, tab_dot_color, tab_titles, update_badge, Body,
};
use rumor::update::UpdateInfo;
use rumor::watch::Effect;

fn cfg(name: &str) -> ProcessConfig {
    ProcessConfig {
        name: name.into(),
        command: "bash".into(),
        args: vec![],
        cwd: "/tmp".into(),
        env_files: vec![],
        global_env_files: vec![],
        env: Env::new(),
        dynamic_ports: Env::new(),
        depends_on: vec![],
        long_lived: true,
        tags: vec![],
        retry: None,
    }
}

fn manager(configs: Vec<ProcessConfig>) -> ProcessManager {
    ProcessManager::new(configs, 10, 40, None).0
}

fn start(mgr: &mut ProcessManager, idx: usize, status: Status) {
    let process = Process::new(&mgr.configs[idx], &Env::new(), 10, 40, 100 + idx as u32, 7);
    mgr.set_process(idx, process);
    mgr.set_status(idx, 7, status);
}

fn exited(code: u32, signal: Option<&str>) -> Status {
    Status::Exited(ExitInfo { code, signal: signal.map(|s| s.to_string()) })
}

fn texts(lines: &[Line]) -> Vec<String> {
    lines.iter().map(flatten_line).collect()
}

#[test]
fn states_have_words_and_colors() {
    let mut mgr = manager(vec![cfg("a")]);
    let mut check = |mgr: &ProcessManager, text: &str, color: Color, dot: Color| {
        let span = slot_status_span(mgr, 0);
        assert_eq!(span.content, text);
        assert_eq!(span.style.fg, Some(color));
        assert_eq!(tab_dot_color(mgr, 0), dot);
    };
    check(&mgr, "waiting", Color::Orange, Color::Orange);
    mgr.apply(0, Effect::SetBlocked("dep b".to_string()), 0);
    check(&mgr, "blocked: dep b", Color::Magenta, Color::Magenta);
    mgr.apply(0, Effect::SetSpawnFailed("gone".to_string()), 0);
    check(&mgr, "spawn failed: gone", Color::Red, Color::Red);
    start(&mut mgr, 0, Status::Starting);
    check(&mgr, "starting", Color::Orange, Color::Orange);
    start(&mut mgr, 0, Status::Running);
    check(&mgr, "running", Color::Green, Color::Green);
    start(&mut mgr, 0, exited(1, None));
    check(&mgr, "exited (exit 1)", Color::Red, Color::Red);
    start(&mut mgr, 0, exited(15, Some("Terminated")));
    check(&mgr, "exited (signal Terminated)", Color::DarkGray, Color::DarkGray);
    start(&mut mgr, 0, Status::SpawnFailed("wait".to_string()));
    check(&mgr, "spawn failed: wait", Color::Magenta, Color::Magenta);
    start(&mut mgr, 0, exited(1, None));
    mgr.apply(0, Effect::MarkExhausted, 0);
    check(&mgr, "exited (exit 1) (retries exhausted)", Color::Red, Color::Red);
}

#[test]
fn details_say_all_there_is() {
    let mut config = cfg("api");
    config.args = vec!["-c".into(), "run".into()];
    config.env_files = vec!["/tmp/.env".into()];
    config.env.insert("B", "2");
    config.env.insert("A", "1");
    config.depends_on = vec![
        Dependency { name: "db".into(), until: ReadinessCondition::Port(5432) },
        Dependency { name: "log".into(), until: ReadinessCondition::Log("a\"b".into()) },
    ];
    let mut mgr = ProcessManager::new(vec![config], 10, 40, Some("/s")).0;
    assert_eq!(
        texts(&details_lines(&mgr, 0)),
        vec![
            "api",
            "",
            "PID:    —",
            "Status: waiting",
            "",
            "Command: bash",
            "Args:    -c run",
            "CWD:     /tmp",
            "Long-lived: true",
            "Log:     /s/api.log  (y to copy)",
            "",
            "Env files:",
            "  /tmp/.env",
            "",
            "Depends on:",
            "  db until Port(5432)",
            "  log until Log(\"a\\\"b\")",
            "",
            "Environment:",
            "  (not spawned — env not yet resolved)",
            "",
            "Config env overrides (2):",
            "A=1",
            "B=2",
        ]
    );
    let mut env = Env::new();
    env.insert("ZED", "1");
    env.insert("PATH", "/bin");
    let process = Process::new(&mgr.configs[0], &env, 10, 40, 4242, 1);
    mgr.set_process(0, process);
    let lines = texts(&details_lines(&mgr, 0));
    assert_eq!(lines[2], "PID:    4242");
    assert_eq!(lines[3], "Status: running");
    assert_eq!(
        lines[18..].to_vec(),
        vec!["Environment (3 vars):", "PATH=/bin", "TERM=xterm-256color", "ZED=1"]
    );
    assert!(details_lines(&mgr, 1).is_empty());

    let plain = manager(vec![cfg("x")]);
    let lines = texts(&details_lines(&plain, 0));
    assert!(lines.contains(&"Args:    (none)".to_string()));
    assert!(lines.contains(&"Env files: (none)".to_string()));
    assert!(lines.contains(&"Log:     (session log capture disabled)".to_string()));
}

#[test]
fn the_help_lists_every_key() {
    let lines = texts(&help_lines());
    assert_eq!(lines.len(), 37);
    assert_eq!(lines[0], "Navigation");
    assert_eq!(lines[1], "  ←/→         previous / next tab");
    assert_eq!(lines[9], "  c           clear log view (display only)");
    assert_eq!(lines[36], "  ^U          clear the query while typing");
}

#[test]
fn the_help_fits_the_screen() {
    let screen = Area { x: 0, y: 0, width: 100, height: 50 };
    let full = help_box(screen, 37, 5);
    assert_eq!(full.area, Area { x: 22, y: 5, width: 56, height: 39 });
    assert_eq!(full.scroll, 0, "nothing to scroll");
    assert!(full.hint.is_none());

    let small = Area { x: 0, y: 0, width: 40, height: 12 };
    let top = help_box(small, 37, 0);
    assert_eq!(top.area, Area { x: 0, y: 0, width: 40, height: 12 });
    assert_eq!(top.hint.as_deref(), Some(" ↓ more "));
    let middle = help_box(small, 37, 4);
    assert_eq!(middle.scroll, 4);
    assert_eq!(middle.hint.as_deref(), Some(" ↑/↓ more "));
    let bottom = help_box(small, 37, 999);
    assert_eq!(bottom.scroll, 27);
    assert_eq!(bottom.hint.as_deref(), Some(" ↑ more "));
}

#[test]
fn the_shutdown_counts_what_has_stopped() {
    let mut mgr = manager(vec![cfg("api"), cfg("db"), cfg("web")]);
    start(&mut mgr, 0, Status::Running);
    start(&mut mgr, 1, exited(0, Some("Terminated")));
    assert_eq!(
        texts(&shutdown_lines(&mgr, Some(250))),
        vec![
            "",
            "  Stopped 2/3 processes",
            "",
            "  api                  - terminating...",
            "  db                   stopped (signal Terminated)",
            "  web                  not running",
        ]
    );
    assert!(texts(&shutdown_lines(&mgr, None))[3].contains("| terminating"));
    assert!(texts(&shutdown_lines(&mgr, Some(399)))[3].contains("\\ terminating"));
    assert!(texts(&shutdown_lines(&mgr, Some(400)))[3].contains("| terminating"));
}

#[test]
fn the_body_shows_what_the_watcher_said() {
    let mut mgr = manager(vec![cfg("a")]);
    match body_of(&mgr, 0, 10) {
        Body::Diagnostics(lines) => assert_eq!(
            texts(&lines),
            vec!["(waiting for dependencies)", "", "  (no diagnostics yet)"]
        ),
        _ => panic!("expected diagnostics"),
    }
    for pid in 1..=9 {
        mgr.apply(0, Effect::Say(Diag::Spawned { pid }), 3661);
    }
    mgr.apply(0, Effect::SetBlocked("why".to_string()), 0);
    match body_of(&mgr, 0, 6) {
        Body::Diagnostics(lines) => assert_eq!(
            texts(&lines),
            vec![
                "(blocked: why)",
                "",
                "  [01:01:01] spawned (pid 8)",
                "  [01:01:01] spawned (pid 9)",
            ]
        ),
        _ => panic!("expected diagnostics"),
    }
    mgr.apply(0, Effect::SetSpawnFailed("x".to_string()), 0);
    assert!(matches!(body_of(&mgr, 0, 6), Body::Failed(text) if text == "(spawn failed: x)"));
    start(&mut mgr, 0, Status::Running);
    assert!(matches!(body_of(&mgr, 0, 6), Body::Terminal));
}

#[test]
fn the_selected_tab_stands_out() {
    let mut app = App::new(manager(vec![cfg("a"), cfg("b")]), 10, 40);
    app.selected = 1;
    let titles = tab_titles(&app, 0, 2);
    assert_eq!(texts(&titles), vec!["● a", "● b"]);
    assert_eq!(titles[0].spans[1].style.bg, None);
    assert_eq!(titles[1].spans[1].style.bg, Some(Color::Cyan));
    assert_eq!(titles[1].spans[0].style.fg, Some(Color::Orange));
    app.mode = Mode::Focus;
    assert_eq!(tab_titles(&app, 1, 2)[0].spans[1].style.bg, Some(Color::Yellow));
    assert_eq!(tab_arrows(&app, 0, 2), (false, false));
    assert_eq!(tab_arrows(&app, 1, 1), (true, true));
}

#[test]
fn a_newer_version_shows_a_badge() {
    let mut app = App::new(manager(vec![cfg("a")]), 10, 40);
    assert!(update_badge(&app).is_none());
    app.update_available = Some(UpdateInfo {
        latest: "0.11.0".to_string(),
        action: "brew upgrade rumor".to_string(),
    });
    let badge = update_badge(&app).unwrap();
    assert_eq!(badge.content, " ↑ 0.11.0 · brew upgrade rumor ");
    assert!(badge.style.bold);
}

#[test]
fn the_status_line_follows_the_mode() {
    let mut app = App::new(manager(vec![cfg("a")]), 10, 40);
    let line = flatten_line(&status_line(&app, 0));
    assert!(line.starts_with(" NAV  waiting  wrap:on   ←/→ tabs"), "{line}");
    app.mode = Mode::Focus;
    assert!(flatten_line(&status_line(&app, 0)).contains("all other keys go to the process"));
    app.mode = Mode::Details;
    app.details_search.editing = true;
    app.details_search.active = true;
    app.details_search.query = "x".to_string();
    let line = flatten_line(&status_line(&app, 0));
    assert!(line.ends_with(" /x   Enter confirm · Esc cancel"), "{line}");
    app.details_search.editing = false;
    let line = flatten_line(&status_line(&app, 0));
    assert!(line.contains(" no matches /x   n/N next/prev match"), "{line}");
    app.copied(true, 10);
    assert!(flatten_line(&status_line(&app, 11)).contains(" log path copied "));
    assert!(!flatten_line(&status_line(&app, 2010)).contains("copied"));
}

fn line(parts: &[(&str, Color)]) -> Line {
    Line {
        spans: parts.iter().map(|(t, c)| Span::styled(t, Style::color(*c))).collect(),
    }
}

#[test]
fn a_mark_splits_the_spans_it_crosses() {
    let plain = line(&[("abc", Color::Green), ("=", Color::Gray), ("déf", Color::White)]);
    // Bytes 2..7 are "c=dé".
    let marked = highlight_line(&plain, &[((2, 7), true)]);
    let got: Vec<(&str, Option<Color>, Option<Color>)> = marked
        .spans
        .iter()
        .map(|s| (s.content.as_str(), s.style.fg, s.style.bg))
        .collect();
    assert_eq!(
        got,
        vec![
            ("ab", Some(Color::Green), None),
            ("c", Some(Color::Black), Some(Color::Yellow)),
            ("=", Some(Color::Black), Some(Color::Yellow)),
            ("dé", Some(Color::Black), Some(Color::Yellow)),
            ("f", Some(Color::White), None),
        ]
    );
    assert_eq!(flatten_line(&marked), flatten_line(&plain));
}

#[test]
fn marks_follow_one_another() {
    let plain = line(&[("aXbXc", Color::Green)]);
    let marked = highlight_line(&plain, &[((1, 2), false), ((3, 4), true)]);
    let got: Vec<(&str, Option<Color>)> =
        marked.spans.iter().map(|s| (s.content.as_str(), s.style.bg)).collect();
    assert_eq!(
        got,
        vec![
            ("a", None),
            ("X", Some(Color::DarkGray)),
            ("b", None),
            ("X", Some(Color::Yellow)),
            ("c", None),
        ]
    );
    assert_eq!(highlight_line(&plain, &[]).spans.len(), 1);
}

#[test]
fn only_matches_in_view_are_drawn() {
    let at = |row, col_start, col_end| Match { row, col_start, col_end };
    let matches = [at(3, 0, 2), at(10, 4, 6), at(11, 8, 30), at(12, 9, 12), at(15, 0, 1)];
    let area = Area { x: 2, y: 1, width: 10, height: 7 };
    // Rows 10 to 14 are in view, with 8 columns.
    assert_eq!(
        log_highlights(&matches, 1, 20, 10, area),
        vec![Highlight { x: 7, y: 2, width: 2, current: true }]
    );
    let wider = Area { width: 12, ..area };
    assert_eq!(
        log_highlights(&matches, 9, 20, 10, wider),
        vec![
            Highlight { x: 7, y: 2, width: 2, current: false },
            Highlight { x: 11, y: 3, width: 2, current: false },
            Highlight { x: 12, y: 4, width: 1, current: false },
        ]
    );
    let flat = Area { height: 2, ..area };
    assert!(log_highlights(&matches, 0, 20, 10, flat).is_empty());
}
