//! The processes of a run, each in its slot.
//!
//! The manager decides; what has to be done to the operating system it hands
//! out as commands.

use vstd::prelude::*;

use crate::config::{copy_dependencies, find_process, ProcessConfig};
#[allow(unused_imports)]
use crate::config::{index_of, located, process_models, ProcessModel};
use crate::diag::{DiagLog, DIAG_CAP};
#[allow(unused_imports)]
use crate::diag::{diag_line, diag_text, last_of};
use crate::env::Env;
#[allow(unused_imports)]
use crate::env::{assigned, in_name_order};
use crate::logfile::assign_log_paths;
#[allow(unused_imports)]
use crate::logfile::{bases, log_file};
#[allow(unused_imports)]
use crate::output::{at_least, at_most};
use crate::output::Output;
use crate::status::Status;
#[allow(unused_imports)]
use crate::status::{alive, StatusModel};
#[allow(unused_imports)]
use crate::terminal::{
    blank_terminal, fair_size, fed, screen_offset, screen_size, screen_total, scrolled, shown,
};
use crate::watch::{DepState, Effect, Watch};
#[allow(unused_imports)]
use crate::watch::{gives_up, law_exhausted_iff_budget_used, EventModel, Phase, WatchModel};

verus! {

// ---- a process ----

/// How long a process has to end before it is killed, in milliseconds.
pub const TERMINATE_GRACE_MS: u64 = 3000;

/// What to do about a group that was asked to end.
#[derive(Clone, Copy, Debug, PartialEq, Eq, Structural)]
pub enum GraceStep {
    /// Look again later.
    Wait,
    /// Kill it.
    Kill,
    /// Nothing; it has ended.
    Done,
}

/// What to do about a group some time after it was asked to end, where it is
/// still there or not.
pub fn grace_step(lives: bool, elapsed_ms: u64) -> (step: GraceStep)
    ensures
        step == (if !lives {
            GraceStep::Done
        } else if elapsed_ms < TERMINATE_GRACE_MS {
            GraceStep::Wait
        } else {
            GraceStep::Kill
        }),
        step is Done <==> !lives,
        step is Kill <==> lives && elapsed_ms >= 3000,
{
    if !lives {
        GraceStep::Done
    } else if elapsed_ms < TERMINATE_GRACE_MS {
        GraceStep::Wait
    } else {
        GraceStep::Kill
    }
}

/// A process that was started.
pub struct Process {
    pub name: String,
    pub long_lived: bool,
    /// The environment that it was started with, in the order of the names.
    pub env: Vec<(String, String)>,
    pub output: Output,
    pub status: Status,
    pub pid: u32,
    /// Tells apart the processes of a run.
    pub id: u64,
}

/// The environment that a child gets: a terminal type is added where there is
/// none.
pub open spec fn with_term(env: Map<Seq<char>, Seq<char>>) -> Map<Seq<char>, Seq<char>> {
    if env.contains_key("TERM"@) {
        env
    } else {
        env.insert("TERM"@, "xterm-256color"@)
    }
}

/// The environment that a child gets.
pub fn child_env(env: &Env) -> (full: Env)
    ensures
        full@ == with_term(env@),
{
    let mut full = env.clone();
    if full.get("TERM").is_none() {
        full.insert("TERM", "xterm-256color");
    }
    full
}

/// What it takes to end a process.
pub open spec fn terminate_commands(p: Process) -> Seq<Command> {
    if alive(p.status@) {
        seq![Command::Terminate { pid: p.pid, id: p.id }]
    } else {
        Seq::empty()
    }
}

impl Process {
    /// Whether the terminal is in order, and the environment: by name, each
    /// once.
    pub open spec fn wf(self) -> bool {
        self.output.wf() && in_name_order(self.env@)
    }

    /// A process that was just started for a configuration, on a terminal of
    /// some rows and columns.
    pub fn new(cfg: &ProcessConfig, env: &Env, rows: u16, cols: u16, pid: u32, id: u64) -> (p:
        Process)
        requires
            fair_size(rows, cols),
        ensures
            p.wf(),
            p.name@ == cfg.name@,
            p.long_lived == cfg.long_lived,
            assigned(p.env@) == with_term(env@),
            in_name_order(p.env@),
            p.output.raw@ == Seq::<u8>::empty(),
            p.output.terminal == blank_terminal(rows, cols),
            p.output.generation == 0,
            p.status@ == StatusModel::Running,
            p.pid == pid,
            p.id == id,
    {
        Process {
            name: cfg.name.clone(),
            long_lived: cfg.long_lived,
            env: child_env(env).sorted(),
            output: Output::new(rows, cols),
            status: Status::Running,
            pid,
            id,
        }
    }

    /// What the process is doing.
    pub fn status(&self) -> (status: &Status)
        ensures
            *status == self.status,
    {
        &self.status
    }

    /// The number that the operating system gave the process.
    pub fn pid(&self) -> (pid: u32)
        ensures
            pid == self.pid,
    {
        self.pid
    }

    /// The last of the output, byte by byte.
    pub fn raw_snapshot(&self) -> (bytes: Vec<u8>)
        ensures
            bytes@ == self.output.raw@,
    {
        self.output.raw_snapshot()
    }

    /// A number that changes whenever the output does.
    pub fn generation(&self) -> (number: u64)
        ensures
            number == self.output.generation,
    {
        self.output.generation
    }

    /// Whether the process has not ended yet.
    pub fn is_running(&self) -> (yes: bool)
        ensures
            yes == alive(self.status@),
    {
        self.status.is_running()
    }

    /// Ask the process to end, where it runs.
    pub fn terminate(&self, commands: &mut Vec<Command>)
        ensures
            final(commands)@ == old(commands)@ + terminate_commands(*self),
    {
        let ghost said = commands@;
        if self.is_running() {
            commands.push(Command::Terminate { pid: self.pid, id: self.id });
        }
        assert(commands@ =~= said + terminate_commands(*self));
    }
}

// ---- a slot ----

/// What a slot holds.
pub enum Slot {
    /// Nothing was started yet.
    Waiting,
    /// A dependency is not ready, for this reason.
    Blocked(String),
    /// A process was started; it may have ended.
    Process(Process),
    /// The process could not be started, for this reason.
    SpawnFailed(String),
}

/// What a slot holds, as a value.
pub enum SlotModel {
    Waiting,
    Blocked(Seq<char>),
    Process(Process),
    SpawnFailed(Seq<char>),
}

impl View for Slot {
    type V = SlotModel;

    open spec fn view(&self) -> SlotModel {
        match *self {
            Slot::Waiting => SlotModel::Waiting,
            Slot::Blocked(why) => SlotModel::Blocked(why@),
            Slot::Process(p) => SlotModel::Process(p),
            Slot::SpawnFailed(why) => SlotModel::SpawnFailed(why@),
        }
    }
}

/// A slot and what is known about it.
pub struct SlotState {
    pub slot: Slot,
    pub diagnostics: DiagLog,
    /// The size of terminal to start the process with.
    pub rows: u16,
    pub cols: u16,
    pub log_path: Option<String>,
    /// Whether an end of the process was asked for since its watcher began.
    pub suppress_retry: bool,
    pub retries_exhausted: bool,
    /// Whether a watcher is at work.
    pub watching: bool,
}

/// A slot and what is known about it, as a value.
pub struct StateModel {
    pub slot: SlotModel,
    pub diagnostics: Seq<Seq<char>>,
    pub rows: u16,
    pub cols: u16,
    pub log_path: Option<Seq<char>>,
    pub suppress_retry: bool,
    pub retries_exhausted: bool,
    pub watching: bool,
}

impl View for SlotState {
    type V = StateModel;

    open spec fn view(&self) -> StateModel {
        StateModel {
            slot: self.slot@,
            diagnostics: self.diagnostics@,
            rows: self.rows,
            cols: self.cols,
            log_path: match self.log_path {
                Some(p) => Some(p@),
                None => None,
            },
            suppress_retry: self.suppress_retry,
            retries_exhausted: self.retries_exhausted,
            watching: self.watching,
        }
    }
}

/// What is to be done to the operating system. Signals go to the process and
/// everything in its group.
#[derive(Clone, Copy, Debug, PartialEq, Eq, Structural)]
pub enum Command {
    /// Stop the watcher of a slot.
    AbortWatcher { idx: usize },
    /// Start a watcher for a slot; `prior` is a process that has to end first.
    StartWatcher { idx: usize, prior: Option<u64> },
    /// Ask a process to end, and kill it if it has not after the grace.
    Terminate { pid: u32, id: u64 },
    /// Ask a group to end.
    Term { pid: u32 },
    /// Kill a group.
    Kill { pid: u32 },
    /// Give the terminal of a slot another size.
    Resize { idx: usize, rows: u16, cols: u16 },
}

impl StateModel {
    /// Whether a process runs in the slot.
    pub open spec fn runs(self) -> bool {
        self.slot matches SlotModel::Process(p) && alive(p.status@)
    }

    /// Whether the slot has come to an end by itself: its process ended and
    /// nothing will start it again, or it could not be started.
    pub open spec fn is_finished(self) -> bool {
        match self.slot {
            SlotModel::Process(p) => !alive(p.status@) && !self.watching,
            SlotModel::SpawnFailed(_) => true,
            _ => false,
        }
    }

    /// The slot with a fresh watcher.
    pub open spec fn started(self) -> StateModel {
        StateModel {
            slot: SlotModel::Waiting,
            diagnostics: Seq::empty(),
            suppress_retry: false,
            retries_exhausted: false,
            watching: true,
            ..self
        }
    }

    /// What it takes to start a fresh watcher.
    pub open spec fn start_commands(self, idx: int, prior: Option<u64>) -> Seq<Command> {
        let start = Command::StartWatcher { idx: idx as usize, prior };
        if self.watching {
            seq![Command::AbortWatcher { idx: idx as usize }, start]
        } else {
            seq![start]
        }
    }

    /// What it takes to end the process of the slot.
    pub open spec fn end_commands(self) -> Seq<Command> {
        match self.slot {
            SlotModel::Process(p) => terminate_commands(p),
            _ => Seq::empty(),
        }
    }

    /// The process that has to end before the slot is started again.
    pub open spec fn occupant(self) -> Option<u64> {
        match self.slot {
            SlotModel::Process(p) => Some(p.id),
            _ => None,
        }
    }

    /// What it takes to restart the slot.
    pub open spec fn restart_commands(self, idx: int) -> Seq<Command> {
        self.end_commands() + self.start_commands(idx, self.occupant())
    }

    /// The slot after its process was asked to end.
    pub open spec fn killed(self) -> StateModel {
        match self.slot {
            SlotModel::Process(_) => StateModel { suppress_retry: true, ..self },
            _ => self,
        }
    }

    /// The slot after its watcher was stopped.
    pub open spec fn unwatched(self) -> StateModel {
        StateModel { suppress_retry: true, watching: false, ..self }
    }

    /// What it takes to stop the watcher of the slot.
    pub open spec fn abort_commands(self, idx: int) -> Seq<Command> {
        if self.watching {
            seq![Command::AbortWatcher { idx: idx as usize }]
        } else {
            Seq::empty()
        }
    }

    /// What it takes to begin the end of the slot: a process that runs gets its
    /// grace, and where the process has ended what it left in its group is
    /// asked to end too.
    pub open spec fn shutdown_commands(self) -> Seq<Command> {
        match self.slot {
            SlotModel::Process(p) => if alive(p.status@) {
                seq![Command::Terminate { pid: p.pid, id: p.id }]
            } else {
                seq![Command::Term { pid: p.pid }]
            },
            _ => Seq::empty(),
        }
    }

    /// What it takes to end everything of the slot at once.
    pub open spec fn force_commands(self) -> Seq<Command> {
        match self.slot {
            SlotModel::Process(p) => seq![Command::Kill { pid: p.pid }],
            _ => Seq::empty(),
        }
    }

    /// Whether the terminals of the slot are of a size that can be handled.
    pub open spec fn wf(self) -> bool {
        &&& fair_size(self.rows, self.cols)
        &&& self.slot matches SlotModel::Process(p) ==> p.wf()
    }
}

// ---- all slots ----

/// The processes of a run.
pub struct ProcessManager {
    pub configs: Vec<ProcessConfig>,
    pub slots: Vec<SlotState>,
}

/// The slots of a list as values.
pub open spec fn state_models(list: Seq<SlotState>) -> Seq<StateModel> {
    Seq::new(list.len(), |i: int| list[i]@)
}

impl View for ProcessManager {
    type V = Seq<StateModel>;

    open spec fn view(&self) -> Seq<StateModel> {
        state_models(self.slots@)
    }
}

/// The commands for the first `n` slots, in order.
pub open spec fn commands_for(
    states: Seq<StateModel>,
    of: spec_fn(StateModel, int) -> Seq<Command>,
    n: int,
) -> Seq<Command>
    decreases n,
{
    if n <= 0 {
        Seq::empty()
    } else {
        commands_for(states, of, n - 1) + of(states[n - 1], n - 1)
    }
}

/// Each slot changed in the same way.
pub open spec fn each(states: Seq<StateModel>, f: spec_fn(StateModel) -> StateModel) -> Seq<
    StateModel,
> {
    Seq::new(states.len(), |i: int| f(states[i]))
}

/// The slot of a process before anything happened.
pub open spec fn fresh_state(rows: u16, cols: u16, log_path: Option<Seq<char>>) -> StateModel {
    StateModel {
        slot: SlotModel::Waiting,
        diagnostics: Seq::empty(),
        rows,
        cols,
        log_path,
        suppress_retry: false,
        retries_exhausted: false,
        watching: false,
    }
}

/// The log path of slot `i`, where sessions are logged.
pub open spec fn slot_log_path(models: Seq<ProcessModel>, session_dir: Option<Seq<char>>, i: int) ->
    Option<Seq<char>> {
    match session_dir {
        Some(dir) => Some(located(dir, log_file(bases(models), i))),
        None => None,
    }
}

/// A text that there may be, as a value.
pub open spec fn optional_text(text: Option<&str>) -> Option<Seq<char>> {
    match text {
        Some(t) => Some(t@),
        None => None,
    }
}

proof fn lemma_first_starts(states: Seq<StateModel>, n: int)
    requires
        0 <= n <= states.len(),
        forall|i: int| 0 <= i < states.len() ==> !(#[trigger] states[i]).watching,
    ensures
        ({
            let commands = commands_for(
                states,
                |s: StateModel, i: int| s.start_commands(i, None),
                n,
            );
            commands.len() == n && forall|i: int|
                0 <= i < n ==> #[trigger] commands[i] == (Command::StartWatcher {
                    idx: i as usize,
                    prior: None,
                })
        }),
    decreases n,
{
    if n > 0 {
        lemma_first_starts(states, n - 1);
    }
}

impl ProcessManager {
    /// Whether there is a slot for each process, in order.
    pub open spec fn wf(self) -> bool {
        &&& self.slots@.len() == self.configs@.len()
        &&& forall|i: int| 0 <= i < self.slots@.len() ==> (#[trigger] self@[i]).wf()
    }

    /// A slot for each process, with a watcher started for each.
    pub fn new(
        configs: Vec<ProcessConfig>,
        rows: u16,
        cols: u16,
        session_dir: Option<&str>,
    ) -> (res: (ProcessManager, Vec<Command>))
        requires
            fair_size(rows, cols),
        ensures
            res.0.wf(),
            res.0.configs == configs,
            forall|i: int|
                0 <= i < configs@.len() ==> #[trigger] res.0@[i] == fresh_state(
                    rows,
                    cols,
                    slot_log_path(
                        process_models(configs@),
                        optional_text(session_dir),
                        i,
                    ),
                ).started(),
            res.1@.len() == configs@.len(),
            forall|i: int|
                0 <= i < configs@.len() ==> #[trigger] res.1@[i] == (Command::StartWatcher {
                    idx: i as usize,
                    prior: None,
                }),
    {
        let paths: Vec<Option<String>> = match session_dir {
            Some(dir) => assign_log_paths(&configs, dir),
            None => Vec::new(),
        };
        let mut slots: Vec<SlotState> = Vec::new();
        let mut i: usize = 0;
        while i < configs.len()
            invariant
                i <= configs@.len(),
                fair_size(rows, cols),
                session_dir is Some ==> paths@.len() == configs@.len() && forall|j: int|
                    0 <= j < paths@.len() ==> (#[trigger] paths@[j] matches Some(path) && path@
                        == located(
                        session_dir->0@,
                        log_file(bases(process_models(configs@)), j),
                    )),
                slots@.len() == i,
                forall|j: int|
                    0 <= j < i ==> (#[trigger] slots@[j])@ == fresh_state(
                        rows,
                        cols,
                        slot_log_path(
                            process_models(configs@),
                            optional_text(session_dir),
                            j,
                        ),
                    ),
            decreases configs@.len() - i,
        {
            let log_path = match session_dir {
                Some(_) => match &paths[i] {
                    Some(path) => Some(path.clone()),
                    None => None,
                },
                None => None,
            };
            let state = SlotState {
                slot: Slot::Waiting,
                diagnostics: DiagLog::new(),
                rows,
                cols,
                log_path,
                suppress_retry: false,
                retries_exhausted: false,
                watching: false,
            };
            slots.push(state);
            i = i + 1;
        }
        let mut mgr = ProcessManager { configs, slots };
        let mut commands: Vec<Command> = Vec::new();
        let ghost fresh = mgr@;
        mgr.start_all(&mut commands);
        proof {
            lemma_first_starts(fresh, fresh.len() as int);
        }
        (mgr, commands)
    }

    /// The number of slots.
    pub fn count(&self) -> (n: usize)
        requires
            self.wf(),
        ensures
            n == self@.len(),
            n == self.configs@.len(),
    {
        self.configs.len()
    }

    /// The processes as they are configured.
    pub fn configs(&self) -> (configs: &Vec<ProcessConfig>)
        ensures
            *configs == self.configs,
    {
        &self.configs
    }

    /// What a slot holds.
    pub fn slot(&self, idx: usize) -> (slot: &Slot)
        requires
            idx < self@.len(),
        ensures
            slot@ == self@[idx as int].slot,
    {
        &self.slots[idx].slot
    }

    /// The process in a slot, where one was started.
    pub fn process(&self, idx: usize) -> (p: Option<&Process>)
        ensures
            match p {
                Some(process) => idx < self@.len() && self@[idx as int].slot == SlotModel::Process(
                    *process,
                ),
                None => idx >= self@.len() || !(self@[idx as int].slot is Process),
            },
    {
        if idx < self.slots.len() {
            assert(self@[idx as int] == self.slots@[idx as int]@);
            match &self.slots[idx].slot {
                Slot::Process(p) => Some(p),
                _ => None,
            }
        } else {
            None
        }
    }

    /// The diagnostics of a slot, oldest first.
    pub fn diagnostics(&self, idx: usize) -> (lines: Vec<String>)
        requires
            idx < self@.len(),
        ensures
            crate::text::texts(lines@) == self@[idx as int].diagnostics,
    {
        self.slots[idx].diagnostics.lines()
    }

    /// The log file of a slot, where there is one.
    pub fn log_path(&self, idx: usize) -> (path: Option<&String>)
        ensures
            match path {
                Some(p) => idx < self@.len() && self@[idx as int].log_path == Some(p@),
                None => idx >= self@.len() || self@[idx as int].log_path is None,
            },
    {
        if idx < self.slots.len() {
            assert(self@[idx as int] == self.slots@[idx as int]@);
            match &self.slots[idx].log_path {
                Some(p) => Some(p),
                None => None,
            }
        } else {
            None
        }
    }

    /// Whether the retries of a slot are used up.
    pub fn retries_exhausted(&self, idx: usize) -> (yes: bool)
        requires
            idx < self@.len(),
        ensures
            yes == self@[idx as int].retries_exhausted,
    {
        self.slots[idx].retries_exhausted
    }

    /// Start a fresh watcher for a slot, with a fresh budget of retries; `prior`
    /// is a process that has to end first.
    fn start_internal(&mut self, idx: usize, prior: Option<u64>, commands: &mut Vec<Command>)
        requires
            old(self).wf(),
            idx < old(self)@.len(),
        ensures
            final(self).wf(),
            final(self).configs == old(self).configs,
            final(self)@ == old(self)@.update(idx as int, old(self)@[idx as int].started()),
            final(commands)@ == old(commands)@ + old(self)@[idx as int].start_commands(
                idx as int,
                prior,
            ),
    {
        let ghost before = self@;
        let ghost said = commands@;
        if self.slots[idx].watching {
            commands.push(Command::AbortWatcher { idx });
        }
        self.slots[idx].suppress_retry = false;
        self.slots[idx].retries_exhausted = false;
        self.slots[idx].diagnostics = DiagLog::new();
        self.slots[idx].slot = Slot::Waiting;
        self.slots[idx].watching = true;
        commands.push(Command::StartWatcher { idx, prior });
        assert(commands@ =~= said + before[idx as int].start_commands(idx as int, prior));
        assert(self@ =~= before.update(idx as int, before[idx as int].started()));
    }

    /// Start a fresh watcher for each slot.
    pub fn start_all(&mut self, commands: &mut Vec<Command>)
        requires
            old(self).wf(),
        ensures
            final(self).wf(),
            final(self).configs == old(self).configs,
            final(self)@ == each(old(self)@, |s: StateModel| s.started()),
            final(commands)@ == old(commands)@ + commands_for(
                old(self)@,
                |s: StateModel, i: int| s.start_commands(i, None),
                old(self)@.len() as int,
            ),
    {
        let ghost before = self@;
        let ghost said = commands@;
        let ghost of = |s: StateModel, i: int| s.start_commands(i, None);
        let ghost f = |s: StateModel| s.started();
        let n = self.slots.len();
        let mut i: usize = 0;
        assert(said + Seq::<Command>::empty() =~= said);
        while i < n
            invariant
                i <= n,
                n == before.len(),
                self.wf(),
                self.configs == old(self).configs,
                self@ == each(before, f).take(i as int) + before.skip(i as int),
                commands@ == said + commands_for(before, of, i as int),
                of == (|s: StateModel, i: int| s.start_commands(i, None)),
                f == (|s: StateModel| s.started()),
            decreases n - i,
        {
            let ghost now = self@;
            assert(now[i as int] == before[i as int]);
            self.start_internal(i, None, commands);
            assert(self@ =~= each(before, f).take(i + 1) + before.skip(i + 1));
            assert(commands@ =~= said + commands_for(before, of, i + 1));
            i = i + 1;
        }
        assert(self@ =~= each(before, f));
    }

    /// Restart the process of a slot.
    pub fn restart(&mut self, idx: usize, commands: &mut Vec<Command>)
        requires
            old(self).wf(),
            idx < old(self)@.len(),
        ensures
            final(self).wf(),
            final(self).configs == old(self).configs,
            final(self)@ == old(self)@.update(idx as int, old(self)@[idx as int].started()),
            final(commands)@ == old(commands)@ + old(self)@[idx as int].restart_commands(
                idx as int,
            ),
    {
        let ghost before = self@;
        let ghost said = commands@;
        assert(before[idx as int] == self.slots@[idx as int]@);
        let mut prior: Option<u64> = None;
        if let Slot::Process(p) = &self.slots[idx].slot {
            prior = Some(p.id);
            p.terminate(commands);
        }
        assert(commands@ =~= said + before[idx as int].end_commands());
        self.start_internal(idx, prior, commands);
        assert(commands@ =~= said + before[idx as int].restart_commands(idx as int));
    }

    /// End the process of a slot, and do not start it again.
    pub fn kill(&mut self, idx: usize, commands: &mut Vec<Command>)
        requires
            old(self).wf(),
            idx < old(self)@.len(),
        ensures
            final(self).wf(),
            final(self).configs == old(self).configs,
            final(self)@ == old(self)@.update(idx as int, old(self)@[idx as int].killed()),
            final(commands)@ == old(commands)@ + old(self)@[idx as int].end_commands(),
    {
        let ghost before = self@;
        let ghost said = commands@;
        assert(before[idx as int] == self.slots@[idx as int]@);
        let mut occupied = false;
        if let Slot::Process(p) = &self.slots[idx].slot {
            occupied = true;
            p.terminate(commands);
        }
        if occupied {
            self.slots[idx].suppress_retry = true;
        }
        assert(commands@ =~= said + before[idx as int].end_commands());
        assert(self@ =~= before.update(idx as int, before[idx as int].killed()));
    }

    /// Restart all processes.
    pub fn restart_all(&mut self, commands: &mut Vec<Command>)
        requires
            old(self).wf(),
        ensures
            final(self).wf(),
            final(self).configs == old(self).configs,
            final(self)@ == each(old(self)@, |s: StateModel| s.started()),
            final(commands)@ == old(commands)@ + commands_for(
                old(self)@,
                |s: StateModel, i: int| s.restart_commands(i),
                old(self)@.len() as int,
            ),
    {
        let ghost before = self@;
        let ghost said = commands@;
        let ghost of = |s: StateModel, i: int| s.restart_commands(i);
        let ghost f = |s: StateModel| s.started();
        let n = self.slots.len();
        let mut i: usize = 0;
        assert(said + Seq::<Command>::empty() =~= said);
        while i < n
            invariant
                i <= n,
                n == before.len(),
                self.wf(),
                self.configs == old(self).configs,
                self@ == each(before, f).take(i as int) + before.skip(i as int),
                commands@ == said + commands_for(before, of, i as int),
                of == (|s: StateModel, i: int| s.restart_commands(i)),
                f == (|s: StateModel| s.started()),
            decreases n - i,
        {
            let ghost now = self@;
            assert(now[i as int] == before[i as int]);
            self.restart(i, commands);
            assert(self@ =~= each(before, f).take(i + 1) + before.skip(i + 1));
            assert(commands@ =~= said + commands_for(before, of, i + 1));
            i = i + 1;
        }
        assert(self@ =~= each(before, f));
    }

    /// End all processes, and start none of them again.
    pub fn kill_all(&mut self, commands: &mut Vec<Command>)
        requires
            old(self).wf(),
        ensures
            final(self).wf(),
            final(self).configs == old(self).configs,
            final(self)@ == each(old(self)@, |s: StateModel| s.killed()),
            final(commands)@ == old(commands)@ + commands_for(
                old(self)@,
                |s: StateModel, i: int| s.end_commands(),
                old(self)@.len() as int,
            ),
    {
        let ghost before = self@;
        let ghost said = commands@;
        let ghost of = |s: StateModel, i: int| s.end_commands();
        let ghost f = |s: StateModel| s.killed();
        let n = self.slots.len();
        let mut i: usize = 0;
        assert(said + Seq::<Command>::empty() =~= said);
        while i < n
            invariant
                i <= n,
                n == before.len(),
                self.wf(),
                self.configs == old(self).configs,
                self@ == each(before, f).take(i as int) + before.skip(i as int),
                commands@ == said + commands_for(before, of, i as int),
                of == (|s: StateModel, i: int| s.end_commands()),
                f == (|s: StateModel| s.killed()),
            decreases n - i,
        {
            let ghost now = self@;
            assert(now[i as int] == before[i as int]);
            self.kill(i, commands);
            assert(self@ =~= each(before, f).take(i + 1) + before.skip(i + 1));
            assert(commands@ =~= said + commands_for(before, of, i + 1));
            i = i + 1;
        }
        assert(self@ =~= each(before, f));
    }

    /// Stop all watchers, so that nothing is started any more.
    fn abort_watchers(&mut self, commands: &mut Vec<Command>)
        requires
            old(self).wf(),
        ensures
            final(self).wf(),
            final(self).configs == old(self).configs,
            final(self)@ == each(old(self)@, |s: StateModel| s.unwatched()),
            final(commands)@ == old(commands)@ + commands_for(
                old(self)@,
                |s: StateModel, i: int| s.abort_commands(i),
                old(self)@.len() as int,
            ),
    {
        let ghost before = self@;
        let ghost said = commands@;
        let ghost of = |s: StateModel, i: int| s.abort_commands(i);
        let ghost f = |s: StateModel| s.unwatched();
        let n = self.slots.len();
        let mut i: usize = 0;
        assert(said + Seq::<Command>::empty() =~= said);
        while i < n
            invariant
                i <= n,
                n == before.len(),
                n == self.slots@.len(),
                self.wf(),
                self.configs == old(self).configs,
                self@ == each(before, f).take(i as int) + before.skip(i as int),
                commands@ == said + commands_for(before, of, i as int),
                of == (|s: StateModel, i: int| s.abort_commands(i)),
                f == (|s: StateModel| s.unwatched()),
            decreases n - i,
        {
            let ghost now = self@;
            assert(now[i as int] == before[i as int]);
            assert(now[i as int] == self.slots@[i as int]@);
            if self.slots[i].watching {
                commands.push(Command::AbortWatcher { idx: i });
            }
            self.slots[i].suppress_retry = true;
            self.slots[i].watching = false;
            assert(self@ =~= now.update(i as int, now[i as int].unwatched()));
            assert(self@ =~= each(before, f).take(i + 1) + before.skip(i + 1));
            assert(commands@ =~= said + commands_for(before, of, i + 1));
            assert forall|j: int| 0 <= j < self.slots@.len() implies (#[trigger] self@[j]).wf() by {
                if j != i {
                    assert(self@[j] == now[j]);
                } else {
                    assert(now[j].wf());
                }
            }
            i = i + 1;
        }
        assert(self@ =~= each(before, f));
    }

    /// Begin to end everything: stop the watchers, and ask every process and
    /// what it left behind to end.
    pub fn begin_shutdown(&mut self, commands: &mut Vec<Command>)
        requires
            old(self).wf(),
        ensures
            final(self).wf(),
            final(self).configs == old(self).configs,
            final(self)@ == each(old(self)@, |s: StateModel| s.unwatched()),
            final(commands)@ == old(commands)@ + commands_for(
                old(self)@,
                |s: StateModel, i: int| s.abort_commands(i),
                old(self)@.len() as int,
            ) + commands_for(
                old(self)@,
                |s: StateModel, i: int| s.shutdown_commands(),
                old(self)@.len() as int,
            ),
    {
        let ghost before = self@;
        self.abort_watchers(commands);
        let ghost said = commands@;
        let ghost of = |s: StateModel, i: int| s.shutdown_commands();
        let mut i: usize = 0;
        assert(said + Seq::<Command>::empty() =~= said);
        while i < self.slots.len()
            invariant
                i <= self.slots@.len(),
                before.len() == self.slots@.len(),
                forall|j: int|
                    0 <= j < before.len() ==> (#[trigger] self@[j]).slot == before[j].slot,
                commands@ == said + commands_for(before, of, i as int),
                of == (|s: StateModel, i: int| s.shutdown_commands()),
            decreases self.slots@.len() - i,
        {
            assert(self@[i as int] == self.slots@[i as int]@);
            if let Slot::Process(p) = &self.slots[i].slot {
                if p.is_running() {
                    commands.push(Command::Terminate { pid: p.pid, id: p.id });
                } else {
                    commands.push(Command::Term { pid: p.pid });
                }
            }
            assert(commands@ =~= said + commands_for(before, of, i + 1));
            i = i + 1;
        }
    }

    /// Kill everything that may still be there, whether or not the process that
    /// started it has ended.
    pub fn force_kill_all(&mut self, commands: &mut Vec<Command>)
        requires
            old(self).wf(),
        ensures
            final(self).wf(),
            final(self).configs == old(self).configs,
            final(self)@ == each(old(self)@, |s: StateModel| s.unwatched()),
            final(commands)@ == old(commands)@ + commands_for(
                old(self)@,
                |s: StateModel, i: int| s.abort_commands(i),
                old(self)@.len() as int,
            ) + commands_for(
                old(self)@,
                |s: StateModel, i: int| s.force_commands(),
                old(self)@.len() as int,
            ),
    {
        let ghost before = self@;
        self.abort_watchers(commands);
        let ghost said = commands@;
        let ghost of = |s: StateModel, i: int| s.force_commands();
        let mut i: usize = 0;
        assert(said + Seq::<Command>::empty() =~= said);
        while i < self.slots.len()
            invariant
                i <= self.slots@.len(),
                before.len() == self.slots@.len(),
                forall|j: int|
                    0 <= j < before.len() ==> (#[trigger] self@[j]).slot == before[j].slot,
                commands@ == said + commands_for(before, of, i as int),
                of == (|s: StateModel, i: int| s.force_commands()),
            decreases self.slots@.len() - i,
        {
            assert(self@[i as int] == self.slots@[i as int]@);
            if let Slot::Process(p) = &self.slots[i].slot {
                commands.push(Command::Kill { pid: p.pid });
            }
            assert(commands@ =~= said + commands_for(before, of, i + 1));
            i = i + 1;
        }
    }

    /// Whether no process runs.
    pub fn all_exited(&self) -> (yes: bool)
        ensures
            yes == forall|i: int| 0 <= i < self@.len() ==> !(#[trigger] self@[i]).runs(),
    {
        let mut i: usize = 0;
        while i < self.slots.len()
            invariant
                i <= self.slots@.len(),
                forall|j: int| 0 <= j < i ==> !(#[trigger] self@[j]).runs(),
            decreases self.slots@.len() - i,
        {
            assert(self@[i as int] == self.slots@[i as int]@);
            if let Slot::Process(p) = &self.slots[i].slot {
                if p.is_running() {
                    assert(self@[i as int].runs());
                    return false;
                }
            }
            i = i + 1;
        }
        true
    }

    /// Whether every slot has come to an end by itself.
    pub fn all_finished(&self) -> (yes: bool)
        ensures
            yes == forall|i: int| 0 <= i < self@.len() ==> (#[trigger] self@[i]).is_finished(),
    {
        let mut i: usize = 0;
        while i < self.slots.len()
            invariant
                i <= self.slots@.len(),
                forall|j: int| 0 <= j < i ==> (#[trigger] self@[j]).is_finished(),
            decreases self.slots@.len() - i,
        {
            assert(self@[i as int] == self.slots@[i as int]@);
            let done = match &self.slots[i].slot {
                Slot::Process(p) => !p.is_running() && !self.slots[i].watching,
                Slot::SpawnFailed(_) => true,
                _ => false,
            };
            assert(done == self@[i as int].is_finished());
            if !done {
                return false;
            }
            i = i + 1;
        }
        true
    }

    /// Set the size of terminal for a slot, and resize the one that is there.
    pub fn set_size(&mut self, idx: usize, rows: u16, cols: u16, commands: &mut Vec<Command>)
        requires
            old(self).wf(),
            idx < old(self)@.len(),
            fair_size(rows, cols),
        ensures
            final(self).wf(),
            final(self).configs == old(self).configs,
            final(self)@ == old(self)@.update(
                idx as int,
                resized(old(self)@[idx as int], rows, cols),
            ),
            final(commands)@ == old(commands)@ + resize_commands(
                old(self)@[idx as int],
                idx as int,
                rows,
                cols,
            ),
    {
        let ghost before = self@;
        let ghost said = commands@;
        assert(before[idx as int] == self.slots@[idx as int]@);
        assert(before[idx as int].wf());
        self.slots[idx].rows = rows;
        self.slots[idx].cols = cols;
        if let Slot::Process(p) = &mut self.slots[idx].slot {
            p.output.resize(rows, cols);
            commands.push(Command::Resize { idx, rows, cols });
        }
        assert(commands@ =~= said + resize_commands(before[idx as int], idx as int, rows, cols));
        assert(self@ =~= before.update(idx as int, resized(before[idx as int], rows, cols)));
        assert forall|j: int| 0 <= j < self.slots@.len() implies (#[trigger] self@[j]).wf() by {
            if j != idx {
                assert(self@[j] == before[j]);
            }
        }
    }
}

/// A slot with another size of terminal.
pub open spec fn resized(s: StateModel, rows: u16, cols: u16) -> StateModel {
    StateModel {
        rows,
        cols,
        slot: match s.slot {
            SlotModel::Process(p) => SlotModel::Process(
                Process {
                    output: Output {
                        terminal: scrolled(
                            fed(blank_terminal(rows, cols), p.output.raw@),
                            screen_offset(shown(p.output.terminal)),
                        ),
                        ..p.output
                    },
                    ..p
                },
            ),
            other => other,
        },
        ..s
    }
}

/// What it takes to resize the terminal of a slot.
pub open spec fn resize_commands(s: StateModel, idx: int, rows: u16, cols: u16) -> Seq<Command> {
    if s.slot is Process {
        seq![Command::Resize { idx: idx as usize, rows, cols }]
    } else {
        Seq::empty()
    }
}

// ---- what happens to a slot ----

/// A slot after an effect of its watcher. The start of a process is not among
/// them: see `set_process`.
pub open spec fn applied(s: StateModel, effect: Effect<Seq<char>>, secs: nat) -> StateModel {
    match effect {
        Effect::Say(diag) => StateModel {
            diagnostics: last_of(
                s.diagnostics.push(diag_line(secs, diag_text(diag))),
                DIAG_CAP as int,
            ),
            ..s
        },
        Effect::SetBlocked(why) => StateModel { slot: SlotModel::Blocked(why), ..s },
        Effect::SetSpawnFailed(why) => StateModel { slot: SlotModel::SpawnFailed(why), ..s },
        Effect::SetProcess => s,
        Effect::MarkExhausted => StateModel { retries_exhausted: true, ..s },
    }
}

/// The dependencies of process `idx`, each with whether there is a process of
/// that name.
pub open spec fn watch_model(models: Seq<ProcessModel>, idx: int) -> WatchModel {
    WatchModel {
        depends_on: models[idx].depends_on,
        known: Seq::new(
            models[idx].depends_on.len(),
            |k: int| index_of(models, models[idx].depends_on[k].name) is Some,
        ),
        long_lived: models[idx].long_lived,
        retry: models[idx].retry,
    }
}

impl ProcessManager {
    /// What the watcher of a slot has to know.
    pub fn watch_of(&self, idx: usize) -> (watch: Watch)
        requires
            self.wf(),
            idx < self@.len(),
        ensures
            watch@.wf(),
            watch@ == watch_model(process_models(self.configs@), idx as int),
    {
        let ghost models = process_models(self.configs@);
        let cfg = &self.configs[idx];
        assert(models[idx as int] == cfg@);
        let mut known: Vec<bool> = Vec::new();
        let mut k: usize = 0;
        while k < cfg.depends_on.len()
            invariant
                k <= cfg.depends_on@.len(),
                models == process_models(self.configs@),
                idx < self.configs@.len(),
                *cfg == self.configs@[idx as int],
                known@.len() == k,
                forall|j: int|
                    0 <= j < k ==> #[trigger] known@[j] == (index_of(
                        models,
                        models[idx as int].depends_on[j].name,
                    ) is Some),
            decreases cfg.depends_on@.len() - k,
        {
            assert(models[idx as int].depends_on[k as int].name == cfg.depends_on@[k as int].name@);
            known.push(find_process(&self.configs, &cfg.depends_on[k].name).is_some());
            k = k + 1;
        }
        let watch = Watch {
            depends_on: copy_dependencies(&cfg.depends_on),
            known,
            long_lived: cfg.long_lived,
            retry: cfg.retry,
        };
        assert(watch@.known =~= watch_model(models, idx as int).known);
        watch
    }

    /// What a watcher sees of a slot that its process depends on.
    pub fn dep_state(&self, idx: usize) -> (state: DepState)
        requires
            idx < self@.len(),
        ensures
            match self@[idx as int].slot {
                SlotModel::Waiting => state is Waiting,
                SlotModel::Blocked(why) => state is Blocked && state->Blocked_0@ == why,
                SlotModel::Process(_) => state is Process,
                SlotModel::SpawnFailed(why) => state is SpawnFailed && state->SpawnFailed_0@ == why,
            },
    {
        assert(self@[idx as int] == self.slots@[idx as int]@);
        match &self.slots[idx].slot {
            Slot::Waiting => DepState::Waiting,
            Slot::Blocked(why) => DepState::Blocked(why.clone()),
            Slot::Process(_) => DepState::Process,
            Slot::SpawnFailed(why) => DepState::SpawnFailed(why.clone()),
        }
    }

    /// Let an effect of its watcher take place in a slot.
    pub fn apply(&mut self, idx: usize, effect: Effect<String>, secs: u64)
        requires
            old(self).wf(),
            idx < old(self)@.len(),
        ensures
            final(self).wf(),
            final(self).configs == old(self).configs,
            final(self)@ == old(self)@.update(
                idx as int,
                applied(old(self)@[idx as int], effect@, secs as nat),
            ),
    {
        let ghost before = self@;
        let ghost what = effect@;
        assert(before[idx as int] == self.slots@[idx as int]@);
        assert(before[idx as int].wf());
        match effect {
            Effect::Say(diag) => self.slots[idx].diagnostics.push(secs, &diag),
            Effect::SetBlocked(why) => {
                self.slots[idx].slot = Slot::Blocked(why);
            },
            Effect::SetSpawnFailed(why) => {
                self.slots[idx].slot = Slot::SpawnFailed(why);
            },
            Effect::SetProcess => {},
            Effect::MarkExhausted => {
                self.slots[idx].retries_exhausted = true;
            },
        }
        assert(self@ =~= before.update(
            idx as int,
            applied(before[idx as int], what, secs as nat),
        ));
        assert forall|j: int| 0 <= j < self.slots@.len() implies (#[trigger] self@[j]).wf() by {
            if j != idx {
                assert(self@[j] == before[j]);
            }
        }
    }

    /// Whether the process of a slot may be started: no one has asked for its
    /// end since its watcher began.
    pub fn may_start(&self, idx: usize) -> (yes: bool)
        requires
            idx < self@.len(),
        ensures
            yes == !self@[idx as int].suppress_retry,
    {
        !self.slots[idx].suppress_retry
    }

    /// Put a process that was just started into its slot.
    pub fn set_process(&mut self, idx: usize, process: Process)
        requires
            old(self).wf(),
            idx < old(self)@.len(),
            process.wf(),
        ensures
            final(self).wf(),
            final(self).configs == old(self).configs,
            final(self)@ == old(self)@.update(
                idx as int,
                (StateModel { slot: SlotModel::Process(process), ..old(self)@[idx as int] }),
            ),
    {
        let ghost before = self@;
        assert(before[idx as int] == self.slots@[idx as int]@);
        assert(before[idx as int].wf());
        self.slots[idx].slot = Slot::Process(process);
        assert(self@ =~= before.update(
            idx as int,
            StateModel { slot: SlotModel::Process(process), ..before[idx as int] },
        ));
        assert forall|j: int| 0 <= j < self.slots@.len() implies (#[trigger] self@[j]).wf() by {
            if j != idx {
                assert(self@[j] == before[j]);
            }
        }
    }

    /// The watcher of a slot has come to its end.
    pub fn watcher_done(&mut self, idx: usize)
        requires
            old(self).wf(),
            idx < old(self)@.len(),
        ensures
            final(self).wf(),
            final(self).configs == old(self).configs,
            final(self)@ == old(self)@.update(
                idx as int,
                (StateModel { watching: false, ..old(self)@[idx as int] }),
            ),
    {
        let ghost before = self@;
        assert(before[idx as int] == self.slots@[idx as int]@);
        assert(before[idx as int].wf());
        self.slots[idx].watching = false;
        assert(self@ =~= before.update(
            idx as int,
            StateModel { watching: false, ..before[idx as int] },
        ));
        assert forall|j: int| 0 <= j < self.slots@.len() implies (#[trigger] self@[j]).wf() by {
            if j != idx {
                assert(self@[j] == before[j]);
            }
        }
    }

    /// Take in what a process wrote, if it is still the one in its slot.
    pub fn feed(&mut self, idx: usize, id: u64, bytes: &[u8])
        requires
            old(self).wf(),
            idx < old(self)@.len(),
        ensures
            final(self).wf(),
            final(self).configs == old(self).configs,
            match old(self)@[idx as int].slot {
                SlotModel::Process(p) => if p.id == id {
                    exists|o: Output| #[trigger]
                        fed_output(p.output, bytes@, o) && final(self)@ == old(self)@.update(
                            idx as int,
                            StateModel {
                                slot: SlotModel::Process(Process { output: o, ..p }),
                                ..old(self)@[idx as int]
                            },
                        )
                } else {
                    final(self)@ == old(self)@
                },
                _ => final(self)@ == old(self)@,
            },
    {
        let ghost before = self@;
        assert(before[idx as int] == self.slots@[idx as int]@);
        assert(before[idx as int].wf());
        let ghost mut o: Option<Output> = None;
        if let Slot::Process(p) = &mut self.slots[idx].slot {
            if p.id == id {
                p.output.feed(bytes);
                proof {
                    o = Some(p.output);
                }
            }
        }
        proof {
            if let SlotModel::Process(p) = before[idx as int].slot {
                if p.id == id {
                    assert(fed_output(p.output, bytes@, o->0));
                    assert(self@ =~= before.update(
                        idx as int,
                        StateModel {
                            slot: SlotModel::Process(Process { output: o->0, ..p }),
                            ..before[idx as int]
                        },
                    ));
                } else {
                    assert(self@ =~= before);
                }
            } else {
                assert(self@ =~= before);
            }
            assert forall|j: int| 0 <= j < self.slots@.len() implies (#[trigger] self@[j]).wf() by {
                if j != idx {
                    assert(self@[j] == before[j]);
                }
            }
        }
    }

    /// Note how a process is doing, if it is still the one in its slot.
    pub fn set_status(&mut self, idx: usize, id: u64, status: Status)
        requires
            old(self).wf(),
            idx < old(self)@.len(),
        ensures
            final(self).wf(),
            final(self).configs == old(self).configs,
            match old(self)@[idx as int].slot {
                SlotModel::Process(p) => final(self)@ == (if p.id == id {
                    old(self)@.update(
                        idx as int,
                        StateModel {
                            slot: SlotModel::Process(Process { status, ..p }),
                            ..old(self)@[idx as int]
                        },
                    )
                } else {
                    old(self)@
                }),
                _ => final(self)@ == old(self)@,
            },
    {
        let ghost before = self@;
        let ghost new_status = status;
        assert(before[idx as int] == self.slots@[idx as int]@);
        assert(before[idx as int].wf());
        if let Slot::Process(p) = &mut self.slots[idx].slot {
            if p.id == id {
                p.status = status;
            }
        }
        proof {
            if let SlotModel::Process(p) = before[idx as int].slot {
                if p.id == id {
                    assert(self@ =~= before.update(
                        idx as int,
                        StateModel {
                            slot: SlotModel::Process(Process { status: new_status, ..p }),
                            ..before[idx as int]
                        },
                    ));
                } else {
                    assert(self@ =~= before);
                }
            } else {
                assert(self@ =~= before);
            }
            assert forall|j: int| 0 <= j < self.slots@.len() implies (#[trigger] self@[j]).wf() by {
                if j != idx {
                    assert(self@[j] == before[j]);
                }
            }
        }
    }
}

/// A slot whose output is scrolled back by some rows.
pub open spec fn scrolled_to(s: StateModel, offset: usize) -> StateModel {
    match s.slot {
        SlotModel::Process(p) => StateModel {
            slot: SlotModel::Process(
                Process {
                    output: Output { terminal: scrolled(p.output.terminal, offset), ..p.output },
                    ..p
                },
            ),
            ..s
        },
        _ => s,
    }
}

/// How many rows the output of a slot is scrolled back.
pub open spec fn scroll_of(s: StateModel) -> usize {
    match s.slot {
        SlotModel::Process(p) => screen_offset(shown(p.output.terminal)),
        _ => 0,
    }
}

/// How many rows of the output of a slot have scrolled off.
pub open spec fn total_of(s: StateModel) -> int {
    match s.slot {
        SlotModel::Process(p) => screen_total(shown(p.output.terminal)),
        _ => 0,
    }
}

/// A slot whose output is scrolled on by some rows, but not past the newest.
pub open spec fn scrolled_by(s: StateModel, delta: int) -> StateModel {
    scrolled_to(s, at_least(scroll_of(s) + delta, 0) as usize)
}

/// Whether `after` is an output that was cleared.
pub open spec fn cleared_output(before: Output, after: Output) -> bool {
    &&& after.raw@ == Seq::<u8>::empty()
    &&& after.terminal == blank_terminal(
        screen_size(shown(before.terminal)).0,
        screen_size(shown(before.terminal)).1,
    )
    &&& after.generation == (before.generation + 1) as u64
}

/// Whether `after` is a slot whose output was cleared.
pub open spec fn cleared_state(before: StateModel, after: StateModel) -> bool {
    match before.slot {
        SlotModel::Process(p) => exists|o: Output| #[trigger]
            cleared_output(p.output, o) && after == (StateModel {
                slot: SlotModel::Process(Process { output: o, ..p }),
                ..before
            }),
        _ => after == before,
    }
}

impl ProcessManager {
    /// Scroll the output of a slot back by some rows, or as far as there is.
    pub fn set_scroll(&mut self, idx: usize, offset: usize)
        requires
            old(self).wf(),
            idx < old(self)@.len(),
        ensures
            final(self).wf(),
            final(self).configs == old(self).configs,
            final(self)@ == old(self)@.update(
                idx as int,
                scrolled_to(old(self)@[idx as int], offset),
            ),
            total_of(final(self)@[idx as int]) == total_of(old(self)@[idx as int]),
            old(self)@[idx as int].slot is Process ==> scroll_of(final(self)@[idx as int])
                == at_most(offset as int, total_of(old(self)@[idx as int])),
    {
        let ghost before = self@;
        assert(before[idx as int] == self.slots@[idx as int]@);
        assert(before[idx as int].wf());
        if let Slot::Process(p) = &mut self.slots[idx].slot {
            p.output.set_scroll(offset);
        }
        assert(self@ =~= before.update(idx as int, scrolled_to(before[idx as int], offset)));
        assert forall|j: int| 0 <= j < self.slots@.len() implies (#[trigger] self@[j]).wf() by {
            if j != idx {
                assert(self@[j] == before[j]);
            }
        }
    }

    /// Scroll the output of a slot by some rows, back where `delta` is positive.
    pub fn scroll_by(&mut self, idx: usize, delta: i32)
        requires
            old(self).wf(),
            idx < old(self)@.len(),
        ensures
            final(self).wf(),
            final(self).configs == old(self).configs,
            final(self)@ == old(self)@.update(
                idx as int,
                scrolled_by(old(self)@[idx as int], delta as int),
            ),
    {
        let ghost before = self@;
        assert(before[idx as int] == self.slots@[idx as int]@);
        assert(before[idx as int].wf());
        if let Slot::Process(p) = &mut self.slots[idx].slot {
            p.output.scroll_by(delta);
        }
        assert(self@ =~= before.update(idx as int, scrolled_by(before[idx as int], delta as int)));
        assert forall|j: int| 0 <= j < self.slots@.len() implies (#[trigger] self@[j]).wf() by {
            if j != idx {
                assert(self@[j] == before[j]);
            }
        }
    }

    /// Forget the output of a slot.
    pub fn clear_display(&mut self, idx: usize)
        requires
            old(self).wf(),
            idx < old(self)@.len(),
        ensures
            final(self).wf(),
            final(self).configs == old(self).configs,
            cleared_state(old(self)@[idx as int], final(self)@[idx as int]),
            final(self)@ == old(self)@.update(idx as int, final(self)@[idx as int]),
    {
        let ghost before = self@;
        assert(before[idx as int] == self.slots@[idx as int]@);
        assert(before[idx as int].wf());
        let ghost mut o: Option<Output> = None;
        if let Slot::Process(p) = &mut self.slots[idx].slot {
            p.output.clear_display();
            proof {
                o = Some(p.output);
            }
        }
        proof {
            if let SlotModel::Process(p) = before[idx as int].slot {
                assert(cleared_output(p.output, o->0));
            }
            assert(self@ =~= before.update(idx as int, self@[idx as int]));
            assert forall|j: int| 0 <= j < self.slots@.len() implies (#[trigger] self@[j]).wf() by {
                if j != idx {
                    assert(self@[j] == before[j]);
                }
            }
        }
    }
}

/// Whether `after` is an output once it took in some bytes.
pub open spec fn fed_output(before: Output, bytes: Seq<u8>, after: Output) -> bool {
    &&& after.raw@ == crate::raw::evicted(before.raw@ + bytes, crate::raw::RAW_CAP as int)
    &&& after.terminal == fed(before.terminal, bytes)
    &&& after.generation == (before.generation + bytes.len()) as u64
}

// ---- what holds of every run ----

proof fn lemma_commands_hold(
    states: Seq<StateModel>,
    of: spec_fn(StateModel, int) -> Seq<Command>,
    n: int,
    i: int,
    c: Command,
)
    requires
        0 <= i < n <= states.len(),
        of(states[i], i).contains(c),
    ensures
        commands_for(states, of, n).contains(c),
    decreases n,
{
    let before = commands_for(states, of, n - 1);
    let here = of(states[n - 1], n - 1);
    if i == n - 1 {
        let k = choose|k: int| 0 <= k < here.len() && here[k] == c;
        assert((before + here)[before.len() + k] == c);
    } else {
        lemma_commands_hold(states, of, n - 1, i, c);
        let k = choose|k: int| 0 <= k < before.len() && before[k] == c;
        assert((before + here)[k] == c);
    }
}

/// A shutdown leaves no process out: each that runs is asked to end, and so is
/// what each that has ended may have left behind.
pub proof fn law_shutdown_reaches_every_group(states: Seq<StateModel>, i: int)
    requires
        0 <= i < states.len(),
        states[i].slot is Process,
    ensures
        ({
            let commands = commands_for(
                states,
                |s: StateModel, k: int| s.shutdown_commands(),
                states.len() as int,
            );
            let p = states[i].slot->Process_0;
            if alive(p.status@) {
                commands.contains(Command::Terminate { pid: p.pid, id: p.id })
            } else {
                commands.contains(Command::Term { pid: p.pid })
            }
        }),
{
    let of = |s: StateModel, k: int| s.shutdown_commands();
    let p = states[i].slot->Process_0;
    let c = if alive(p.status@) {
        Command::Terminate { pid: p.pid, id: p.id }
    } else {
        Command::Term { pid: p.pid }
    };
    assert(of(states[i], i)[0] == c);
    lemma_commands_hold(states, of, states.len() as int, i, c);
}

/// A forced end leaves no process out either: the group of each is killed.
pub proof fn law_force_kill_reaches_every_group(states: Seq<StateModel>, i: int)
    requires
        0 <= i < states.len(),
        states[i].slot is Process,
    ensures
        commands_for(
            states,
            |s: StateModel, k: int| s.force_commands(),
            states.len() as int,
        ).contains(Command::Kill { pid: states[i].slot->Process_0.pid }),
{
    let of = |s: StateModel, k: int| s.force_commands();
    let c = Command::Kill { pid: states[i].slot->Process_0.pid };
    assert(of(states[i], i)[0] == c);
    lemma_commands_hold(states, of, states.len() as int, i, c);
}

/// Once a shutdown began no slot has a watcher, and every end counts as asked
/// for: nothing is started any more.
pub proof fn law_shutdown_stops_watchers(states: Seq<StateModel>, i: int)
    requires
        0 <= i < states.len(),
    ensures
        !each(states, |s: StateModel| s.unwatched())[i].watching,
        each(states, |s: StateModel| s.unwatched())[i].suppress_retry,
        each(states, |s: StateModel| s.unwatched())[i].slot == states[i].slot,
        states[i].watching ==> commands_for(
            states,
            |s: StateModel, k: int| s.abort_commands(k),
            states.len() as int,
        ).contains(Command::AbortWatcher { idx: i as usize }),
{
    if states[i].watching {
        let of = |s: StateModel, k: int| s.abort_commands(k);
        let c = Command::AbortWatcher { idx: i as usize };
        assert(of(states[i], i)[0] == c);
        lemma_commands_hold(states, of, states.len() as int, i, c);
    }
}

/// A restart gives a slot a clean record: no diagnostics, no end asked for, and
/// all retries to use.
pub proof fn law_restart_resets_the_slot(s: StateModel)
    ensures
        s.started().slot is Waiting,
        s.started().diagnostics.len() == 0,
        !s.started().suppress_retry,
        !s.started().retries_exhausted,
        s.started().log_path == s.log_path,
        s.started().rows == s.rows && s.started().cols == s.cols,
{
}

/// A slot that waits for its next retry is not finished, nor is one whose
/// process has not been started.
pub proof fn law_unfinished_slots(s: StateModel)
    requires
        s.slot is Waiting || s.slot is Blocked || (s.slot is Process && s.watching) || s.runs(),
    ensures
        !s.is_finished(),
{
}

// ---- a slot and its watcher together ----

/// A slot, the phase of its watcher, and what the watcher has yet to do to the
/// slot.
pub struct Life {
    pub state: StateModel,
    pub phase: Phase,
    pub pending: Seq<Effect<Seq<char>>>,
}

/// What can happen to a slot and its watcher. Between any two of these, others
/// may come.
pub enum Move {
    /// Someone kills the process of the slot.
    Kill,
    /// A process is started and put into the slot.
    Start(Process),
    /// The process of the slot is seen with another status or another output.
    See(Process),
    /// The watcher is told of an event.
    Tell(EventModel),
    /// The next effect of the watcher takes place.
    Carry { secs: nat },
}

/// Whether an event says of the slot what holds: whether an end was asked for.
pub open spec fn tells_truly(event: EventModel, s: StateModel) -> bool {
    match event {
        EventModel::Exited { suppressed, .. } => suppressed == s.suppress_retry,
        EventModel::Woke { suppressed } => suppressed == s.suppress_retry,
        _ => true,
    }
}

impl Life {
    /// Whether something can happen now: a process is started only where the
    /// watcher waits for that and the slot may be started, and the watcher is
    /// told of an event only after it did what the last one asked for.
    pub open spec fn allows(self, m: Move) -> bool {
        match m {
            Move::Kill => true,
            Move::Start(_) => self.phase is Spawning && self.pending.len() == 0
                && !self.state.suppress_retry,
            Move::See(p) => self.state.slot matches SlotModel::Process(q) && p.id == q.id,
            Move::Tell(event) => self.pending.len() == 0 && tells_truly(event, self.state),
            Move::Carry { .. } => self.pending.len() > 0,
        }
    }

    /// What follows.
    pub open spec fn moved(self, w: WatchModel, m: Move) -> Life {
        match m {
            Move::Kill => Life { state: self.state.killed(), ..self },
            Move::Start(p) => Life {
                state: StateModel { slot: SlotModel::Process(p), ..self.state },
                ..self
            },
            Move::See(p) => Life {
                state: StateModel { slot: SlotModel::Process(p), ..self.state },
                ..self
            },
            Move::Tell(event) => {
                let (phase, effects) = w.next(self.phase, event);
                Life { phase, pending: effects, ..self }
            },
            Move::Carry { secs } => Life {
                state: applied(self.state, self.pending[0], secs),
                pending: self.pending.skip(1),
                ..self
            },
        }
    }

    /// Whether a list of moves can happen, one after the other.
    pub open spec fn allows_all(self, w: WatchModel, moves: Seq<Move>) -> bool
        decreases moves.len(),
    {
        moves.len() == 0 || {
            &&& self.allows_all(w, moves.drop_last())
            &&& self.after(w, moves.drop_last()).allows(moves.last())
        }
    }

    /// What follows a list of moves.
    pub open spec fn after(self, w: WatchModel, moves: Seq<Move>) -> Life
        decreases moves.len(),
    {
        if moves.len() == 0 {
            self
        } else {
            self.after(w, moves.drop_last()).moved(w, moves.last())
        }
    }
}

/// Once an end was asked for, nothing but a fresh watcher starts the process
/// again, whatever the watcher was about to do: no further start can happen,
/// the request is not forgotten, and the retries do not count as used up on
/// account of it.
pub proof fn law_requested_end_is_not_forgotten(w: WatchModel, life: Life, moves: Seq<Move>)
    requires
        life.state.suppress_retry,
        !life.pending.contains(Effect::<Seq<char>>::MarkExhausted),
        life.allows_all(w, moves),
    ensures
        life.after(w, moves).state.suppress_retry,
        life.after(w, moves).state.retries_exhausted == life.state.retries_exhausted,
        !life.after(w, moves).pending.contains(Effect::<Seq<char>>::MarkExhausted),
        forall|i: int| 0 <= i < moves.len() ==> !(#[trigger] moves[i] is Start),
    decreases moves.len(),
{
    if moves.len() > 0 {
        let first = moves.drop_last();
        law_requested_end_is_not_forgotten(w, life, first);
        let before = life.after(w, first);
        let now = life.after(w, moves);
        assert forall|i: int| 0 <= i < moves.len() implies !(#[trigger] moves[i] is Start) by {
            if i < moves.len() - 1 {
                assert(first[i] == moves[i]);
            }
        }
        match moves.last() {
            Move::Tell(event) => {
                law_exhausted_iff_budget_used(w, before.phase, event);
                assert(!gives_up(w, before.phase, event));
            },
            Move::Carry { .. } => {
                assert(before.pending.contains(before.pending[0]));
                if now.pending.contains(Effect::<Seq<char>>::MarkExhausted) {
                    let k = choose|k: int|
                        0 <= k < now.pending.len() && now.pending[k] == Effect::<
                            Seq<char>,
                        >::MarkExhausted;
                    assert(before.pending[k + 1] == now.pending[k]);
                }
            },
            _ => {},
        }
    }
}

/// A kill of a process that is in its slot is a request for its end, also where
/// the watcher has not yet taken notice of the start.
pub proof fn law_kill_asks_for_the_end(w: WatchModel, life: Life, p: Process, moves: Seq<Move>)
    requires
        life.allows(Move::Start(p)),
        life.moved(w, Move::Start(p)).moved(w, Move::Kill).allows_all(w, moves),
    ensures
        ({
            let end = life.moved(w, Move::Start(p)).moved(w, Move::Kill).after(w, moves);
            &&& end.state.suppress_retry
            &&& end.state.retries_exhausted == life.state.retries_exhausted
            &&& forall|i: int| 0 <= i < moves.len() ==> !(#[trigger] moves[i] is Start)
            &&& forall|status: StatusModel, suppressed: bool|
                end.phase is Monitoring && end.allows(
                    Move::Tell(EventModel::Exited { status, suppressed }),
                ) ==> #[trigger] w.next(
                    end.phase,
                    EventModel::Exited { status, suppressed },
                ).0 is Done
            &&& forall|suppressed: bool|
                end.phase is Sleeping && end.allows(Move::Tell(EventModel::Woke { suppressed }))
                    ==> #[trigger] w.next(end.phase, EventModel::Woke { suppressed }).0 is Done
        }),
{
    let killed = life.moved(w, Move::Start(p)).moved(w, Move::Kill);
    law_requested_end_is_not_forgotten(w, killed, moves);
}

// ---- what reaches the operating system ----

/// Whether the process of a slot has not ended yet.
pub open spec fn lives(s: StateModel) -> bool {
    s.slot matches SlotModel::Process(p) && (p.status@ is Starting || p.status@ is Running)
}

/// The command that asks the process of a slot to end.
pub open spec fn ask_to_end(s: StateModel) -> Command {
    Command::Terminate { pid: s.slot->Process_0.pid, id: s.slot->Process_0.id }
}

proof fn lemma_commands_come_from(
    states: Seq<StateModel>,
    of: spec_fn(StateModel, int) -> Seq<Command>,
    n: int,
    c: Command,
) -> (i: int)
    requires
        0 <= n <= states.len(),
        commands_for(states, of, n).contains(c),
    ensures
        0 <= i < n,
        of(states[i], i).contains(c),
    decreases n,
{
    let before = commands_for(states, of, n - 1);
    let here = of(states[n - 1], n - 1);
    let all = commands_for(states, of, n);
    let k = choose|k: int| 0 <= k < all.len() && all[k] == c;
    if k < before.len() {
        assert(before[k] == c);
        lemma_commands_come_from(states, of, n - 1, c)
    } else {
        assert(here[k - before.len()] == c);
        n - 1
    }
}

/// Killing all asks every process that lives to end, and asks for nothing else.
/// Every process counts as asked to end, and nothing else changes.
pub proof fn law_killing_all_reaches_all(states: Seq<StateModel>, i: int, c: Command)
    ensures
        ({
            let commands = commands_for(
                states,
                |s: StateModel, k: int| s.end_commands(),
                states.len() as int,
            );
            let after = each(states, |s: StateModel| s.killed());
            &&& after.len() == states.len()
            &&& 0 <= i < states.len() && lives(states[i]) ==> commands.contains(
                ask_to_end(states[i]),
            )
            &&& 0 <= i < states.len() ==> after[i] == (StateModel {
                suppress_retry: states[i].suppress_retry || states[i].slot is Process,
                ..states[i]
            })
            &&& commands.contains(c) ==> exists|j: int|
                0 <= j < states.len() && #[trigger] lives(states[j]) && c == ask_to_end(states[j])
        }),
{
    let of = |s: StateModel, k: int| s.end_commands();
    let commands = commands_for(states, of, states.len() as int);
    if 0 <= i < states.len() && lives(states[i]) {
        assert(of(states[i], i)[0] == ask_to_end(states[i]));
        lemma_commands_hold(states, of, states.len() as int, i, ask_to_end(states[i]));
    }
    if commands.contains(c) {
        let j = lemma_commands_come_from(states, of, states.len() as int, c);
        assert(lives(states[j]));
    }
}

/// Killing one slot asks its process to end where it lives, and changes nothing
/// but that its end counts as asked for.
pub proof fn law_killing_asks_once(s: StateModel)
    ensures
        lives(s) ==> s.end_commands() == seq![ask_to_end(s)],
        !lives(s) ==> s.end_commands() == Seq::<Command>::empty(),
        s.killed() == (StateModel {
            suppress_retry: s.suppress_retry || s.slot is Process,
            ..s
        }),
{
}

/// A restart asks the process to end where it lives, then stops the watcher
/// where there is one, and then starts a fresh one, which waits for the process
/// that was there.
pub proof fn law_restart_ends_and_starts(s: StateModel, idx: int)
    ensures
        s.restart_commands(idx) == (if lives(s) {
            seq![ask_to_end(s)]
        } else {
            Seq::empty()
        }) + (if s.watching {
            seq![Command::AbortWatcher { idx: idx as usize }]
        } else {
            Seq::empty()
        }) + seq![
            Command::StartWatcher {
                idx: idx as usize,
                prior: if s.slot is Process {
                    Some(s.slot->Process_0.id)
                } else {
                    None
                },
            },
        ],
        s.started() == (StateModel {
            slot: SlotModel::Waiting,
            diagnostics: Seq::empty(),
            suppress_retry: false,
            retries_exhausted: false,
            watching: true,
            rows: s.rows,
            cols: s.cols,
            log_path: s.log_path,
        }),
{
    assert(s.restart_commands(idx) =~= (if lives(s) {
        seq![ask_to_end(s)]
    } else {
        Seq::empty()
    }) + (if s.watching {
        seq![Command::AbortWatcher { idx: idx as usize }]
    } else {
        Seq::empty()
    }) + seq![
        Command::StartWatcher {
            idx: idx as usize,
            prior: if s.slot is Process {
                Some(s.slot->Process_0.id)
            } else {
                None
            },
        },
    ]);
}

/// A start of all slots gives each a fresh watcher, which waits for nobody, in
/// place of the one that there was.
pub proof fn law_starting_all_reaches_all(states: Seq<StateModel>, i: int)
    requires
        0 <= i < states.len(),
    ensures
        ({
            let commands = commands_for(
                states,
                |s: StateModel, k: int| s.start_commands(k, None),
                states.len() as int,
            );
            &&& commands.contains(Command::StartWatcher { idx: i as usize, prior: None })
            &&& states[i].watching ==> commands.contains(Command::AbortWatcher { idx: i as usize })
        }),
{
    let of = |s: StateModel, k: int| s.start_commands(k, None);
    let start = Command::StartWatcher { idx: i as usize, prior: None };
    let here = of(states[i], i);
    assert(here[here.len() - 1] == start);
    lemma_commands_hold(states, of, states.len() as int, i, start);
    if states[i].watching {
        assert(here[0] == (Command::AbortWatcher { idx: i as usize }));
        lemma_commands_hold(
            states,
            of,
            states.len() as int,
            i,
            Command::AbortWatcher { idx: i as usize },
        );
    }
}

/// A restart of all slots restarts each, and does nothing else.
pub proof fn law_restarting_all_reaches_all(states: Seq<StateModel>, i: int, c: Command)
    requires
        0 <= i < states.len(),
    ensures
        ({
            let commands = commands_for(
                states,
                |s: StateModel, k: int| s.restart_commands(k),
                states.len() as int,
            );
            let after = each(states, |s: StateModel| s.started());
            &&& after.len() == states.len()
            &&& after[i].slot is Waiting && after[i].watching
            &&& !after[i].suppress_retry && !after[i].retries_exhausted
            &&& lives(states[i]) ==> commands.contains(ask_to_end(states[i]))
            &&& states[i].watching ==> commands.contains(Command::AbortWatcher { idx: i as usize })
            &&& commands.contains(
                Command::StartWatcher {
                    idx: i as usize,
                    prior: if states[i].slot is Process {
                        Some(states[i].slot->Process_0.id)
                    } else {
                        None
                    },
                },
            )
            &&& commands.contains(c) ==> c is Terminate || c is AbortWatcher || c is StartWatcher
        }),
{
    let of = |s: StateModel, k: int| s.restart_commands(k);
    let n = states.len() as int;
    let commands = commands_for(states, of, n);
    law_restart_ends_and_starts(states[i], i);
    let here = of(states[i], i);
    let start = Command::StartWatcher {
        idx: i as usize,
        prior: if states[i].slot is Process {
            Some(states[i].slot->Process_0.id)
        } else {
            None
        },
    };
    assert(here[here.len() - 1] == start);
    lemma_commands_hold(states, of, n, i, start);
    if states[i].watching {
        assert(here[here.len() - 2] == (Command::AbortWatcher { idx: i as usize }));
        lemma_commands_hold(states, of, n, i, Command::AbortWatcher { idx: i as usize });
    }
    if lives(states[i]) {
        assert(here[0] == ask_to_end(states[i]));
        lemma_commands_hold(states, of, n, i, ask_to_end(states[i]));
    }
    if commands.contains(c) {
        let j = lemma_commands_come_from(states, of, n, c);
        law_restart_ends_and_starts(states[j], j);
        let k = of(states[j], j).index_of(c);
        assert(of(states[j], j)[k] == c);
    }
}

/// A shutdown does what it has to and no more: it stops watchers, gives those
/// that live the grace that they get, and asks the groups of those that have
/// ended. A forced end kills the group of every process.
pub proof fn law_shutdown_asks_each(s: StateModel, idx: int)
    ensures
        s.abort_commands(idx) == (if s.watching {
            seq![Command::AbortWatcher { idx: idx as usize }]
        } else {
            Seq::empty()
        }),
        s.shutdown_commands() == (if lives(s) {
            seq![ask_to_end(s)]
        } else if s.slot is Process {
            seq![Command::Term { pid: s.slot->Process_0.pid }]
        } else {
            Seq::empty()
        }),
        s.force_commands() == (if s.slot is Process {
            seq![Command::Kill { pid: s.slot->Process_0.pid }]
        } else {
            Seq::empty()
        }),
        s.unwatched() == (StateModel { suppress_retry: true, watching: false, ..s }),
{
}

/// A slot runs exactly where its process lives, and is finished exactly where it
/// could not be started, or its process has ended and no watcher is left.
pub proof fn law_slots_run_and_finish(s: StateModel)
    ensures
        s.runs() <==> lives(s),
        s.is_finished() <==> s.slot is SpawnFailed || (s.slot is Process && !lives(s)
            && !s.watching),
{
}

/// What a watcher does to a slot: a reason for waiting or failing takes the
/// place of what was there, a mark stays, and a word is added to the
/// diagnostics. Nothing else of the slot changes.
pub proof fn law_effects_change_one_thing(
    s: StateModel,
    why: Seq<char>,
    diag: crate::diag::Diag<Seq<char>>,
    secs: nat,
)
    ensures
        applied(s, Effect::SetBlocked(why), secs) == (StateModel {
            slot: SlotModel::Blocked(why),
            ..s
        }),
        applied(s, Effect::SetSpawnFailed(why), secs) == (StateModel {
            slot: SlotModel::SpawnFailed(why),
            ..s
        }),
        applied(s, Effect::<Seq<char>>::SetProcess, secs) == s,
        applied(s, Effect::<Seq<char>>::MarkExhausted, secs) == (StateModel {
            retries_exhausted: true,
            ..s
        }),
        applied(s, Effect::Say(diag), secs) == (StateModel {
            diagnostics: applied(s, Effect::Say(diag), secs).diagnostics,
            ..s
        }),
        s.diagnostics.len() < DIAG_CAP ==> applied(s, Effect::Say(diag), secs).diagnostics
            == s.diagnostics.push(diag_line(secs, diag_text(diag))),
        s.diagnostics.len() == DIAG_CAP ==> applied(s, Effect::Say(diag), secs).diagnostics
            == s.diagnostics.skip(1).push(diag_line(secs, diag_text(diag))),
{
    let more = s.diagnostics.push(diag_line(secs, diag_text(diag)));
    if s.diagnostics.len() == DIAG_CAP {
        assert(last_of(more, DIAG_CAP as int) =~= s.diagnostics.skip(1).push(
            diag_line(secs, diag_text(diag)),
        ));
    }
}

/// A watcher knows of each dependency whether there is a process of that name,
/// and otherwise what the configuration says.
pub proof fn law_watchers_know_the_configuration(models: Seq<ProcessModel>, idx: int, k: int)
    requires
        0 <= idx < models.len(),
        crate::config::names_differ(models),
        0 <= k < models[idx].depends_on.len(),
    ensures
        ({
            let w = watch_model(models, idx);
            &&& w.depends_on == models[idx].depends_on
            &&& w.known.len() == models[idx].depends_on.len()
            &&& w.known[k] <==> exists|t: int|
                0 <= t < models.len() && (#[trigger] models[t]).name
                    == models[idx].depends_on[k].name
            &&& w.long_lived == models[idx].long_lived
            &&& w.retry == models[idx].retry
        }),
{
    crate::config::law_names_lead_to_processes(models, models[idx].depends_on[k].name);
}

/// A child has a terminal type: its own where it has one, and else that of a
/// terminal with 256 colours. No other variable changes.
pub proof fn law_children_have_a_terminal(env: Map<Seq<char>, Seq<char>>, name: Seq<char>)
    ensures
        with_term(env).contains_key("TERM"@),
        env.contains_key("TERM"@) ==> with_term(env)["TERM"@] == env["TERM"@],
        !env.contains_key("TERM"@) ==> with_term(env)["TERM"@] == "xterm-256color"@,
        name != "TERM"@ ==> (with_term(env).contains_key(name) <==> env.contains_key(name)),
        name != "TERM"@ && env.contains_key(name) ==> with_term(env)[name] == env[name],
{
}

/// Another size shows what was kept on a fresh terminal of that size, scrolled
/// as before, and tells the operating system where there is a process. Nothing
/// else changes.
pub proof fn law_resizing_shows_what_was_kept(s: StateModel, idx: int, rows: u16, cols: u16)
    ensures
        ({
            let after = resized(s, rows, cols);
            &&& after.rows == rows && after.cols == cols
            &&& after == (StateModel { rows, cols, slot: after.slot, ..s })
            &&& !(s.slot is Process) ==> after.slot == s.slot && resize_commands(
                s,
                idx,
                rows,
                cols,
            ) == Seq::<Command>::empty()
            &&& s.slot matches SlotModel::Process(p) ==> after.slot matches SlotModel::Process(q)
                && q.output.terminal == scrolled(
                fed(blank_terminal(rows, cols), p.output.raw@),
                screen_offset(shown(p.output.terminal)),
            ) && q.output.raw == p.output.raw && q.output.generation == p.output.generation
                && q.pid == p.pid && q.id == p.id && q.status == p.status && q.env == p.env
                && resize_commands(s, idx, rows, cols) == seq![
                Command::Resize { idx: idx as usize, rows, cols },
            ]
        }),
{
}

/// Scrolling moves the view by as many rows as it is told, but not past the
/// newest row, and touches nothing but the view.
pub proof fn law_scrolling_moves_the_view(s: StateModel, delta: int, offset: usize)
    requires
        s.slot is Process,
        scroll_of(s) + delta <= usize::MAX,
    ensures
        ({
            let p = s.slot->Process_0;
            let at = screen_offset(shown(p.output.terminal));
            let to = scrolled_to(s, offset);
            let by = scrolled_by(s, delta);
            let q = to.slot->Process_0;
            let r = by.slot->Process_0;
            &&& to.slot is Process && by.slot is Process
            &&& q.output.terminal == scrolled(p.output.terminal, offset)
            &&& at + delta >= 0 ==> r.output.terminal == scrolled(
                p.output.terminal,
                (at + delta) as usize,
            )
            &&& at + delta < 0 ==> r.output.terminal == scrolled(p.output.terminal, 0)
            &&& q.output.raw == p.output.raw && r.output.raw == p.output.raw
            &&& q.status == p.status && r.status == p.status
            &&& q.pid == p.pid && r.pid == p.pid
            &&& to == (StateModel { slot: to.slot, ..s })
            &&& by == (StateModel { slot: by.slot, ..s })
        }),
{
}

/// A cleared slot keeps its process and forgets all that it wrote.
pub proof fn law_clearing_forgets_the_output(before: StateModel, after: StateModel)
    requires
        cleared_state(before, after),
    ensures
        before.slot matches SlotModel::Process(p) ==> after.slot matches SlotModel::Process(q)
            && q.output.raw@.len() == 0 && q.output.terminal == blank_terminal(
            screen_size(shown(p.output.terminal)).0,
            screen_size(shown(p.output.terminal)).1,
        ) && q.pid == p.pid && q.id == p.id && q.status == p.status,
        !(before.slot is Process) ==> after == before,
        after == (StateModel { slot: after.slot, ..before }),
{
}

/// What a process writes goes to its terminal and to the record, of which the
/// last bytes are kept.
pub proof fn law_output_is_recorded(before: Output, bytes: Seq<u8>, after: Output)
    requires
        fed_output(before, bytes, after),
        before.raw@.len() + bytes.len() <= crate::raw::RAW_CAP,
    ensures
        after.raw@ == before.raw@ + bytes,
        after.terminal == fed(before.terminal, bytes),
{
    crate::raw::law_eviction(before.raw@ + bytes, crate::raw::RAW_CAP as int);
}

/// A slot begins with nothing started, nothing said and nothing asked for; its
/// log lies in the directory of the session, where there is one.
pub proof fn law_slots_begin_empty(
    models: Seq<ProcessModel>,
    dir: Seq<char>,
    rows: u16,
    cols: u16,
    i: int,
)
    requires
        dir.len() > 0,
        dir.last() != '/',
        0 <= i < models.len(),
    ensures
        slot_log_path(models, None, i) is None,
        slot_log_path(models, Some(dir), i) is Some,
        fresh_state(rows, cols, None).slot is Waiting,
        fresh_state(rows, cols, None).diagnostics.len() == 0,
        !fresh_state(rows, cols, None).suppress_retry,
        !fresh_state(rows, cols, None).retries_exhausted,
        fresh_state(rows, cols, None).rows == rows && fresh_state(rows, cols, None).cols == cols,
{
}

/// A watcher sees of a slot what is there, and a process is started unless its
/// end was asked for.
pub proof fn law_watchers_see_what_is_there(mgr: &ProcessManager, idx: usize, state: DepState)
    requires
        idx < mgr@.len(),
        call_ensures(ProcessManager::dep_state, (mgr, idx), state),
    ensures
        state is Process <==> mgr@[idx as int].slot is Process,
        state is Waiting <==> mgr@[idx as int].slot is Waiting,
        state is Blocked <==> mgr@[idx as int].slot is Blocked,
        state is SpawnFailed <==> mgr@[idx as int].slot is SpawnFailed,
        mgr@[idx as int].slot matches SlotModel::Blocked(why) ==> state->Blocked_0@ == why,
        mgr@[idx as int].slot matches SlotModel::SpawnFailed(why) ==> state->SpawnFailed_0@ == why,
{
}

/// A slot as a value is what its fields say.
pub proof fn law_slots_are_seen_as_they_are(mgr: ProcessManager, i: int)
    requires
        0 <= i < mgr.slots@.len(),
    ensures
        ({
            let s = mgr.slots@[i];
            let m = mgr@[i];
            &&& mgr@.len() == mgr.slots@.len()
            &&& m.rows == s.rows && m.cols == s.cols
            &&& m.suppress_retry == s.suppress_retry
            &&& m.retries_exhausted == s.retries_exhausted
            &&& m.watching == s.watching
            &&& m.diagnostics == s.diagnostics@
            &&& match s.slot {
                Slot::Waiting => m.slot is Waiting,
                Slot::Blocked(why) => m.slot == SlotModel::Blocked(why@),
                Slot::Process(p) => m.slot == SlotModel::Process(p),
                Slot::SpawnFailed(why) => m.slot == SlotModel::SpawnFailed(why@),
            }
        }),
{
}

} // verus!
