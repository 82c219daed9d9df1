use rumor::config::{
    BackoffStrategy, Dependency, ProcessConfig, ReadinessCondition, RetryConfig,
};
use rumor::env::Env;
use rumor::manager::{Command, Process, ProcessManager, Slot};
use rumor::retry::backoff_delay;
use rumor::status::{ExitInfo, Status};
use rumor::watch::{failed, Action, DepState, Effect, Event, Phase, Turn, Watch};

fn cfg(strategy: BackoffStrategy, delay_ms: u64, max_delay_ms: Option<u64>) -> RetryConfig {
    RetryConfig { max_retries: 10, strategy, delay_ms, max_delay_ms }
}

#[test]
fn backoff_fixed_is_constant() {
    let c = cfg(BackoffStrategy::Fixed, 500, None);
    for attempt in 1..=5 {
        assert_eq!(backoff_delay(&c, attempt), 500);
    }
}

#[test]
fn backoff_linear_scales_with_attempt() {
    let c = cfg(BackoffStrategy::Linear, 100, None);
    assert_eq!(backoff_delay(&c, 1), 100);
    assert_eq!(backoff_delay(&c, 2), 200);
    assert_eq!(backoff_delay(&c, 3), 300);
}

#[test]
fn backoff_exponential_doubles() {
    let c = cfg(BackoffStrategy::Exponential, 100, None);
    assert_eq!(backoff_delay(&c, 1), 100);
    assert_eq!(backoff_delay(&c, 2), 200);
    assert_eq!(backoff_delay(&c, 3), 400);
    assert_eq!(backoff_delay(&c, 4), 800);
}

#[test]
fn backoff_respects_max_delay_cap() {
    let c = cfg(BackoffStrategy::Exponential, 1000, Some(3000));
    assert_eq!(backoff_delay(&c, 1), 1000);
    assert_eq!(backoff_delay(&c, 2), 2000);
    assert_eq!(backoff_delay(&c, 3), 3000); // 4000 capped
    assert_eq!(backoff_delay(&c, 9), 3000);
}

#[test]
fn backoff_saturates_without_panic() {
    let c = cfg(BackoffStrategy::Exponential, u64::MAX / 2, None);
    // Large attempt + huge base must not panic.
    let a = backoff_delay(&c, 32);
    let b = backoff_delay(&c, u32::MAX);
    assert_eq!(a, b);
}

// ---- a watcher's life ----

fn fixed_retry(max_retries: u32, delay_ms: u64) -> RetryConfig {
    RetryConfig { max_retries, strategy: BackoffStrategy::Fixed, delay_ms, max_delay_ms: None }
}

fn lone(long_lived: bool, retry: Option<RetryConfig>) -> Watch {
    Watch { depends_on: vec![], known: vec![], long_lived, retry }
}

fn said(turn: &Turn) -> String {
    let mut all = String::new();
    for effect in &turn.effects {
        if let Effect::Say(diag) = effect {
            all.push_str(&diag.text());
            all.push('\n');
        }
    }
    all
}

fn service(name: &str, command: &str, retry: Option<RetryConfig>) -> ProcessConfig {
    ProcessConfig {
        name: name.into(),
        command: "bash".into(),
        args: vec!["-c".into(), command.into()],
        cwd: "/tmp".into(),
        env_files: vec![],
        global_env_files: vec![],
        env: Env::new(),
        dynamic_ports: Env::new(),
        depends_on: vec![],
        long_lived: true,
        tags: vec![],
        retry,
    }
}

fn exited(code: u32) -> Status {
    Status::Exited(ExitInfo { code, signal: None })
}

/// Run a watcher whose process ends at once with `code`; count its starts.
fn run(watch: &Watch, code: u32) -> (u32, String, bool) {
    let mut turn = watch.begin(false);
    let mut text = said(&turn);
    let mut spawns = 0;
    let mut exhausted = false;
    while turn.phase != Phase::Done {
        let event = match watch.action(turn.phase) {
            Action::Spawn => {
                spawns += 1;
                Event::Spawned { pid: 100 + spawns }
            },
            Action::AwaitExit => Event::Exited { status: exited(code), suppressed: false },
            Action::Sleep { ms } => {
                assert_eq!(ms, 30);
                Event::Woke { suppressed: false }
            },
            other => panic!("unexpected {other:?}"),
        };
        turn = watch.step(turn.phase, &event);
        text.push_str(&said(&turn));
        if turn.effects.iter().any(|e| matches!(e, Effect::MarkExhausted)) {
            exhausted = true;
        }
    }
    (spawns, text, exhausted)
}

#[test]
fn retry_respawns_long_lived_until_exhausted() {
    // Every end of a long-lived process is a failure: one start, two retries.
    let (spawns, text, exhausted) = run(&lone(true, Some(fixed_retry(2, 30))), 0);
    assert_eq!(spawns, 3);
    assert!(exhausted);
    assert!(text.contains("retries exhausted"), "{text}");
    assert!(text.contains("exited (exit 0); retry 1/2 in 30ms"), "{text}");
    assert!(text.contains("exited (exit 0); retries exhausted (2/2)"), "{text}");

    // The same with a slot that the processes are put into.
    let config = service("flaky", "exit 0", Some(fixed_retry(2, 30)));
    let (mut mgr, _) = ProcessManager::new(vec![config], 24, 80, None);
    let watch = mgr.watch_of(0);
    let mut turn = watch.begin(false);
    let mut pids = Vec::new();
    while turn.phase != Phase::Done {
        let event = match watch.action(turn.phase) {
            Action::Spawn => {
                let pid = 100 + pids.len() as u32;
                let process = Process::new(&mgr.configs[0], &Env::new(), 24, 80, pid, pid as u64);
                mgr.set_process(0, process);
                pids.push(pid);
                Event::Spawned { pid }
            },
            Action::AwaitExit => {
                let id = mgr.process(0).unwrap().pid() as u64;
                mgr.set_status(0, id, exited(0));
                Event::Exited { status: exited(0), suppressed: mgr.slots[0].suppress_retry }
            },
            _ => Event::Woke { suppressed: mgr.slots[0].suppress_retry },
        };
        assert!(!mgr.retries_exhausted(0));
        turn = watch.step(turn.phase, &event);
        for effect in std::mem::take(&mut turn.effects) {
            mgr.apply(0, effect, 0);
        }
    }
    mgr.watcher_done(0);
    assert_eq!(pids, vec![100, 101, 102]);
    assert!(mgr.retries_exhausted(0), "should be flagged exhausted");

    // The slot still holds the last process, which has ended.
    match mgr.slot(0) {
        Slot::Process(p) => {
            assert_eq!(p.pid(), 102);
            assert!(matches!(p.status(), Status::Exited(_)));
        },
        _ => panic!("expected a process"),
    }
    let diags = mgr.diagnostics(0).join("\n");
    assert!(diags.contains("retries exhausted"), "diags:\n{diags}");
}

#[test]
fn no_retry_block_spawns_once() {
    let (spawns, _, exhausted) = run(&lone(true, None), 1);
    assert_eq!(spawns, 1);
    assert!(!exhausted);
}

#[test]
fn oneshot_exit_zero_not_retried() {
    let (spawns, text, exhausted) = run(&lone(false, Some(fixed_retry(3, 20))), 0);
    assert_eq!(spawns, 1);
    assert!(!exhausted);
    assert!(text.contains("exited successfully"), "{text}");
}

#[test]
fn oneshot_nonzero_retried() {
    let (spawns, _, exhausted) = run(&lone(false, Some(fixed_retry(2, 30))), 1);
    assert_eq!(spawns, 3);
    assert!(exhausted);
}

#[test]
fn kill_suppresses_retry() {
    // A long-lived service that would be started again when it ends.
    let config = service("svc", "sleep 30", Some(fixed_retry(5, 20)));
    let (mut mgr, _) = ProcessManager::new(vec![config], 24, 80, None);
    let watch = mgr.watch_of(0);
    let turn = watch.begin(false);
    assert_eq!(watch.action(turn.phase), Action::Spawn);
    assert!(mgr.may_start(0));
    let process = Process::new(&mgr.configs[0], &Env::new(), 24, 80, 500, 1);
    mgr.set_process(0, process);
    assert!(mgr.process(0).unwrap().is_running());

    // The kill comes before the watcher has told of the start.
    let mut commands = Vec::new();
    mgr.kill(0, &mut commands);
    assert_eq!(commands, vec![Command::Terminate { pid: 500, id: 1 }]);
    let turn = watch.step(turn.phase, &Event::Spawned { pid: 500 });
    for effect in turn.effects {
        mgr.apply(0, effect, 0);
    }
    assert!(!mgr.may_start(0), "the kill is not forgotten");

    mgr.set_status(0, 1, exited(143));
    let suppressed = mgr.slots[0].suppress_retry;
    let turn = watch.step(turn.phase, &Event::Exited { status: exited(143), suppressed });
    assert_eq!(turn.phase, Phase::Done);
    for effect in turn.effects {
        mgr.apply(0, effect, 0);
    }
    mgr.watcher_done(0);

    assert!(!mgr.retries_exhausted(0));
    match mgr.slot(0) {
        Slot::Process(p) => {
            assert_eq!(p.pid(), 500, "should not have respawned after kill");
            assert!(!p.is_running(), "killed process should be stopped");
        },
        _ => panic!("expected a process"),
    }
    let diags = mgr.diagnostics(0).join("\n");
    assert!(diags.contains("terminated by request"), "diags:\n{diags}");
}

#[test]
fn a_kill_before_the_next_start_prevents_it() {
    let config = service("svc", "exit 0", Some(fixed_retry(5, 20)));
    let (mut mgr, _) = ProcessManager::new(vec![config], 24, 80, None);
    let mut commands = Vec::new();
    mgr.kill(0, &mut commands);
    assert!(commands.is_empty(), "there is nothing to kill yet");
    assert!(mgr.may_start(0));

    let watch = mgr.watch_of(0);
    let turn = watch.begin(false);
    let process = Process::new(&mgr.configs[0], &Env::new(), 24, 80, 500, 1);
    mgr.set_process(0, process);
    let turn = watch.step(turn.phase, &Event::Spawned { pid: 500 });
    mgr.set_status(0, 1, exited(0));
    let turn = watch.step(turn.phase, &Event::Exited { status: exited(0), suppressed: false });
    assert_eq!(watch.action(turn.phase), Action::Sleep { ms: 20 });
    let turn = watch.step(turn.phase, &Event::Woke { suppressed: false });
    assert_eq!(watch.action(turn.phase), Action::Spawn);

    mgr.kill(0, &mut commands);
    assert!(!mgr.may_start(0));
    let turn = watch.step(turn.phase, &Event::StartRefused);
    assert_eq!(turn.phase, Phase::Done);
    assert!(said(&turn).contains("not retrying"));
    for effect in turn.effects {
        mgr.apply(0, effect, 0);
    }
    assert!(!mgr.retries_exhausted(0));
    assert_eq!(mgr.process(0).unwrap().pid(), 500);

    // A restart asks for it again.
    mgr.restart(0, &mut commands);
    assert!(mgr.may_start(0));
}

#[test]
fn a_kill_during_backoff_suppresses_the_retry() {
    let watch = lone(true, Some(fixed_retry(5, 2000)));
    let turn = watch.step(Phase::Sleeping { used: 1 }, &Event::Woke { suppressed: true });
    assert_eq!(turn.phase, Phase::Done);
    assert!(said(&turn).contains("during backoff; not retrying"));
}

#[test]
fn ends_are_judged_by_kind() {
    let killed = Status::Exited(ExitInfo { code: 0, signal: Some("Terminated".to_string()) });
    assert!(failed(false, &killed));
    assert!(!failed(false, &exited(0)));
    assert!(failed(false, &exited(2)));
    assert!(failed(true, &exited(0)));
    assert!(failed(false, &Status::SpawnFailed("x".to_string())));
}

#[test]
fn pty_smoke_dep_with_exit_condition_gates_dependent_spawn() {
    let watch = Watch {
        depends_on: vec![Dependency {
            name: "migrate".to_string(),
            until: ReadinessCondition::Exit(0),
        }],
        known: vec![true],
        long_lived: true,
        retry: None,
    };
    let turn = watch.begin(false);
    assert!(said(&turn).contains("waiting on dependencies: migrate"));
    assert_eq!(watch.action(turn.phase), Action::ReadSlot { dep: 0 });
    // Not started yet: the watcher waits, and says so.
    let turn = watch.step(turn.phase, &Event::DepSlot(DepState::Waiting));
    assert!(said(&turn).contains("dep 'migrate' not spawned yet"));
    assert_eq!(watch.action(turn.phase), Action::AwaitSlotChange { dep: 0 });
    let turn = watch.step(turn.phase, &Event::DepChanged);
    let turn = watch.step(turn.phase, &Event::DepSlot(DepState::Process));
    assert!(said(&turn).contains("checking dep 'migrate' (Exit(0))"));
    assert_eq!(watch.action(turn.phase), Action::Probe { dep: 0 });
    let turn = watch.step(turn.phase, &Event::ProbeReady);
    assert!(said(&turn).contains("dep 'migrate' ready"));
    assert_eq!(watch.action(turn.phase), Action::Spawn);
}

#[test]
fn a_dependency_that_failed_is_looked_at_again() {
    let watch = Watch {
        depends_on: vec![
            Dependency { name: "db".to_string(), until: ReadinessCondition::Port(5432) },
            Dependency {
                name: "log".to_string(),
                until: ReadinessCondition::Log("up\n".to_string()),
            },
        ],
        known: vec![true, true],
        long_lived: true,
        retry: None,
    };
    let turn = watch.begin(false);
    let turn = watch.step(turn.phase, &Event::DepSlot(DepState::Process));
    assert!(said(&turn).contains("checking dep 'db' (Port(5432))"));
    let turn = watch.step(turn.phase, &Event::ProbeFailed("gone".to_string()));
    assert!(turn
        .effects
        .iter()
        .any(|e| matches!(e, Effect::SetBlocked(why) if why == "dep db: gone")));
    let turn = watch.step(turn.phase, &Event::DepChanged);
    let turn = watch.step(turn.phase, &Event::DepSlot(DepState::Process));
    let turn = watch.step(turn.phase, &Event::ProbeReady);
    let turn = watch.step(turn.phase, &Event::DepSlot(DepState::Process));
    assert!(said(&turn).contains("checking dep 'log' (Log(\"up\\n\"))"));
    // One was found wanting on the way, so all are looked at once more.
    let turn = watch.step(turn.phase, &Event::ProbeReady);
    assert_eq!(watch.action(turn.phase), Action::ReadSlot { dep: 0 });
}

#[test]
fn an_unknown_dependency_is_fatal() {
    let watch = Watch {
        depends_on: vec![Dependency {
            name: "ghost".to_string(),
            until: ReadinessCondition::Exit(0),
        }],
        known: vec![false],
        long_lived: true,
        retry: None,
    };
    let turn = watch.begin(false);
    assert_eq!(turn.phase, Phase::Done);
    assert!(turn.effects.iter().any(
        |e| matches!(e, Effect::SetSpawnFailed(why) if why == "unknown dependency 'ghost'")
    ));
}

#[test]
fn a_restart_waits_for_the_old_process() {
    let watch = lone(true, None);
    let turn = watch.begin(true);
    assert!(said(&turn).contains("waiting for previous instance to exit"));
    assert_eq!(watch.action(turn.phase), Action::AwaitOldExit);
    let turn = watch.step(turn.phase, &Event::OldExited);
    assert!(said(&turn).contains("previous instance exited"));
    assert_eq!(watch.action(turn.phase), Action::Spawn);
    let turn = watch.step(turn.phase, &Event::SpawnFailed("no such file".to_string()));
    assert_eq!(turn.phase, Phase::Done);
    assert!(said(&turn).contains("spawn failed: no such file"));
}
