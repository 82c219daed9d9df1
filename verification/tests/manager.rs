use rumor::config::{Dependency, ProcessConfig, ReadinessCondition, RetryConfig, BackoffStrategy};
use rumor::diag::{now_hms, Diag, DiagLog};
use rumor::env::Env;
use rumor::manager::{
    child_env, grace_step, Command, GraceStep, Process, ProcessManager, Slot,
};
use rumor::status::{describe_exit, ExitInfo, Status};
use rumor::watch::{Action, DepState, Effect, Event};

fn cfg(name: &str) -> ProcessConfig {
    ProcessConfig {
        name: name.into(),
        command: "bash".into(),
        args: vec![],
        cwd: "/tmp".into(),
        env_files: vec![],
        global_env_files: vec![],
        env: Env::new(),
        dynamic_ports: Env::new(),
        depends_on: vec![],
        long_lived: true,
        tags: vec![],
        retry: None,
    }
}

fn exited(code: u32) -> Status {
    Status::Exited(ExitInfo { code, signal: None })
}

fn start(mgr: &mut ProcessManager, idx: usize, pid: u32, id: u64) {
    let process = Process::new(&mgr.configs[idx], &Env::new(), 10, 40, pid, id);
    mgr.set_process(idx, process);
}

#[test]
fn every_slot_begins_with_a_watcher() {
    let (mgr, commands) = ProcessManager::new(vec![cfg("a"), cfg("b")], 10, 40, None);
    assert_eq!(
        commands,
        vec![
            Command::StartWatcher { idx: 0, prior: None },
            Command::StartWatcher { idx: 1, prior: None },
        ]
    );
    assert_eq!(mgr.count(), 2);
    assert!(matches!(mgr.slots[0].slot, Slot::Waiting));
    assert!(mgr.process(0).is_none());
    assert!(mgr.process(9).is_none());
    assert!(mgr.log_path(0).is_none());
    assert!(mgr.all_exited(), "nothing runs");
    assert!(!mgr.all_finished(), "but nothing has run either");
}

/// Let the watcher of `idx` run to its end, with processes that end at once;
/// answer the pids that were started.
fn run_watcher(mgr: &mut ProcessManager, idx: usize, first_pid: u32) -> Vec<u32> {
    let watch = mgr.watch_of(idx);
    let mut pids = Vec::new();
    let mut turn = watch.begin(mgr.process(idx).is_some());
    loop {
        for effect in turn.effects {
            mgr.apply(idx, effect, 0);
        }
        let pid = first_pid + pids.len() as u32;
        let event = match watch.action(turn.phase) {
            Action::Spawn => {
                start(mgr, idx, pid, pid as u64);
                pids.push(pid);
                Event::Spawned { pid }
            },
            Action::AwaitExit => {
                mgr.set_status(idx, pid as u64 - 1, exited(0));
                Event::Exited { status: exited(0), suppressed: mgr.slots[idx].suppress_retry }
            },
            Action::Sleep { .. } => Event::Woke { suppressed: mgr.slots[idx].suppress_retry },
            _ => break,
        };
        turn = watch.step(turn.phase, &event);
    }
    mgr.watcher_done(idx);
    pids
}

fn flaky(max_retries: u32, delay_ms: u64) -> ProcessConfig {
    let mut config = cfg("flaky");
    config.args = vec!["-c".into(), "exit 0".into()];
    config.retry = Some(RetryConfig {
        max_retries,
        strategy: BackoffStrategy::Fixed,
        delay_ms,
        max_delay_ms: None,
    });
    config
}

#[test]
fn restart_resets_retry_budget() {
    let (mut mgr, _) = ProcessManager::new(vec![flaky(1, 30)], 10, 40, None);
    // One start and one retry, then no more.
    let first = run_watcher(&mut mgr, 0, 50);
    assert_eq!(first, vec![50, 51]);
    assert!(mgr.retries_exhausted(0));
    assert!(mgr.all_finished());

    let mut commands = Vec::new();
    mgr.restart(0, &mut commands);
    assert_eq!(commands, vec![Command::StartWatcher { idx: 0, prior: Some(51) }]);
    assert!(!mgr.retries_exhausted(0));
    assert!(mgr.diagnostics(0).is_empty());
    assert!(matches!(mgr.slots[0].slot, Slot::Waiting));
    assert!(!mgr.all_finished());

    let second = run_watcher(&mut mgr, 0, 60);
    assert_eq!(second, vec![60, 61]);
    assert!(mgr.retries_exhausted(0));
}

#[test]
fn shutdown_during_backoff_no_respawn() {
    let (mut mgr, _) = ProcessManager::new(vec![flaky(5, 2000), cfg("late")], 10, 40, None);
    let watch = mgr.watch_of(0);
    let turn = watch.begin(false);
    start(&mut mgr, 0, 50, 1);
    let turn = watch.step(turn.phase, &Event::Spawned { pid: 50 });
    mgr.set_status(0, 1, exited(0));
    let turn = watch.step(turn.phase, &Event::Exited { status: exited(0), suppressed: false });
    assert_eq!(watch.action(turn.phase), Action::Sleep { ms: 2000 });
    for effect in turn.effects {
        mgr.apply(0, effect, 0);
    }
    assert!(mgr.diagnostics(0).join("\n").contains("retry 1/5 in"));
    assert!(!mgr.all_finished(), "a retry may still come");

    let mut commands = Vec::new();
    mgr.begin_shutdown(&mut commands);
    // The watchers go first; what the ended process left in its group is asked
    // to end too.
    assert_eq!(
        commands,
        vec![
            Command::AbortWatcher { idx: 0 },
            Command::AbortWatcher { idx: 1 },
            Command::Term { pid: 50 },
        ]
    );
    assert!(mgr.slots.iter().all(|s| s.suppress_retry && !s.watching));
    assert!(mgr.all_exited());
    // Even a watcher that woke after all would not start it again.
    let turn = watch.step(turn.phase, &Event::Woke { suppressed: mgr.slots[0].suppress_retry });
    assert_eq!(watch.action(turn.phase), Action::Stop);
    assert_eq!(mgr.process(0).unwrap().pid, 50);
}

#[test]
fn a_running_process_is_asked_to_end_and_then_killed() {
    let (mut mgr, _) = ProcessManager::new(vec![cfg("forever")], 10, 40, None);
    start(&mut mgr, 0, 50, 1);
    assert!(mgr.process(0).unwrap().is_running());
    let mut commands = Vec::new();
    mgr.begin_shutdown(&mut commands);
    assert_eq!(
        commands,
        vec![Command::AbortWatcher { idx: 0 }, Command::Terminate { pid: 50, id: 1 }]
    );
    assert!(!mgr.all_exited());
    let mut commands = Vec::new();
    mgr.force_kill_all(&mut commands);
    assert_eq!(commands, vec![Command::Kill { pid: 50 }]);
    mgr.set_status(0, 1, exited(137));
    assert!(mgr.all_exited());
}

#[test]
fn a_process_that_was_replaced_is_not_heard() {
    let (mut mgr, _) = ProcessManager::new(vec![cfg("a")], 10, 40, None);
    start(&mut mgr, 0, 50, 1);
    mgr.feed(0, 1, b"hello");
    start(&mut mgr, 0, 51, 2);
    mgr.feed(0, 1, b"late");
    mgr.set_status(0, 1, exited(1));
    let p = mgr.process(0).unwrap();
    assert!(p.is_running());
    assert_eq!(p.output.raw_snapshot(), b"");
    mgr.feed(0, 2, b"new");
    assert_eq!(mgr.process(0).unwrap().output.raw_snapshot(), b"new");
}

#[test]
fn a_size_is_kept_for_the_next_start() {
    let (mut mgr, _) = ProcessManager::new(vec![cfg("a")], 10, 40, None);
    let mut commands = Vec::new();
    mgr.set_size(0, 20, 90, &mut commands);
    assert!(commands.is_empty(), "no terminal yet");
    assert_eq!((mgr.slots[0].rows, mgr.slots[0].cols), (20, 90));
    start(&mut mgr, 0, 50, 1);
    mgr.set_size(0, 30, 95, &mut commands);
    assert_eq!(commands, vec![Command::Resize { idx: 0, rows: 30, cols: 95 }]);
    assert_eq!(mgr.process(0).unwrap().output.screen().size(), (30, 95));
}

#[test]
fn a_child_has_a_terminal_type() {
    let mut env = Env::new();
    env.insert("A", "1");
    let full = child_env(&env);
    assert_eq!(full.get("TERM").map(|v| v.as_str()), Some("xterm-256color"));
    assert_eq!(full.len(), 2);
    env.insert("TERM", "dumb");
    assert_eq!(child_env(&env).get("TERM").map(|v| v.as_str()), Some("dumb"));
    let p = Process::new(&cfg("x"), &child_env(&env), 10, 40, 1, 1);
    let names: Vec<&str> = p.env.iter().map(|(k, _)| k.as_str()).collect();
    assert_eq!(names, ["A", "TERM"]);
}

#[test]
fn a_watcher_knows_its_process() {
    let mut web = cfg("web");
    web.depends_on = vec![
        Dependency { name: "db".into(), until: ReadinessCondition::Port(1) },
        Dependency { name: "ghost".into(), until: ReadinessCondition::Exit(0) },
    ];
    web.retry = Some(RetryConfig {
        max_retries: 1,
        strategy: BackoffStrategy::Fixed,
        delay_ms: 5,
        max_delay_ms: None,
    });
    let (mut mgr, _) = ProcessManager::new(vec![cfg("db"), web], 10, 40, None);
    let watch = mgr.watch_of(1);
    assert_eq!(watch.known, vec![true, false]);
    assert!(watch.retry.is_some());
    assert!(matches!(mgr.dep_state(0), DepState::Waiting));
    mgr.apply(0, Effect::SetBlocked("x".into()), 0);
    assert!(matches!(mgr.dep_state(0), DepState::Blocked(why) if why == "x"));
    mgr.apply(0, Effect::SetSpawnFailed("y".into()), 0);
    assert!(matches!(mgr.dep_state(0), DepState::SpawnFailed(why) if why == "y"));
    start(&mut mgr, 0, 50, 1);
    assert!(matches!(mgr.dep_state(0), DepState::Process));

    // A whole start, effect by effect.
    let lone = mgr.watch_of(0);
    let turn = lone.begin(false);
    assert_eq!(lone.action(turn.phase), Action::Spawn);
    for effect in turn.effects {
        mgr.apply(0, effect, 59);
    }
    let turn = lone.step(turn.phase, &Event::Spawned { pid: 50 });
    for effect in turn.effects {
        mgr.apply(0, effect, 60);
    }
    assert_eq!(
        mgr.diagnostics(0),
        vec![
            "[00:00:59] no dependencies, spawning",
            "[00:00:59] all dependencies ready; spawning",
            "[00:01:00] spawned (pid 50)",
        ]
    );
}

#[test]
fn diagnostics_keep_the_last_lines() {
    let mut log = DiagLog::new();
    for pid in 0..250 {
        log.push(86_399, &Diag::Spawned { pid });
    }
    let lines = log.lines();
    assert_eq!(lines.len(), 200);
    assert_eq!(lines[0], "[23:59:59] spawned (pid 50)");
    assert_eq!(now_hms(86_400 + 61), "00:01:01");
}

#[test]
fn ends_read_as_they_should() {
    assert_eq!(describe_exit(&exited(3)), "exit 3");
    let killed = Status::Exited(ExitInfo { code: 1, signal: Some("Killed".into()) });
    assert_eq!(describe_exit(&killed), "signal Killed");
    assert_eq!(describe_exit(&Status::SpawnFailed("x".into())), "spawn failed: x");
    assert_eq!(describe_exit(&Status::Starting), "starting");
    assert_eq!(describe_exit(&Status::Running), "running");
}

#[test]
fn a_group_has_three_seconds() {
    assert_eq!(grace_step(true, 0), GraceStep::Wait);
    assert_eq!(grace_step(true, 2999), GraceStep::Wait);
    assert_eq!(grace_step(true, 3000), GraceStep::Kill);
    assert_eq!(grace_step(false, 0), GraceStep::Done);
    assert_eq!(grace_step(false, 9000), GraceStep::Done);
}

#[test]
fn a_process_tells_of_itself() {
    let (mut mgr, _) = ProcessManager::new(vec![cfg("a"), cfg("b")], 10, 40, None);
    start(&mut mgr, 0, 50, 1);
    mgr.feed(0, 1, b"hi");
    let p = mgr.process(0).unwrap();
    assert_eq!(p.pid(), 50);
    assert_eq!(p.raw_snapshot(), b"hi");
    assert_eq!(p.generation(), 2);
    assert!(matches!(p.status(), Status::Running));
    let mut commands = Vec::new();
    p.terminate(&mut commands);
    assert_eq!(commands, vec![Command::Terminate { pid: 50, id: 1 }]);
    mgr.set_status(0, 1, exited(0));
    let mut commands = Vec::new();
    mgr.process(0).unwrap().terminate(&mut commands);
    assert!(commands.is_empty(), "it has ended");
    assert_eq!(mgr.configs().len(), 2);
    assert!(matches!(mgr.slot(0), Slot::Process(_)));
    assert!(matches!(mgr.slot(1), Slot::Waiting));
}

#[test]
fn starting_all_begins_anew() {
    let (mut mgr, _) = ProcessManager::new(vec![cfg("a"), cfg("b")], 10, 40, None);
    start(&mut mgr, 0, 50, 1);
    mgr.watcher_done(0);
    let mut commands = Vec::new();
    mgr.start_all(&mut commands);
    assert_eq!(
        commands,
        vec![
            Command::StartWatcher { idx: 0, prior: None },
            Command::AbortWatcher { idx: 1 },
            Command::StartWatcher { idx: 1, prior: None },
        ]
    );
    assert!(matches!(mgr.slot(0), Slot::Waiting));
}
