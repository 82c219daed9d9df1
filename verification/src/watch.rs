//! The watcher of one process: it waits for the dependencies, starts the
//! process, and starts it again when it fails.
//!
//! A watcher is a state machine. [`Watch::begin`] gives its first phase;
//! [`Watch::action`] says what a phase waits for; [`Watch::step`] takes what
//! came of that, and gives the next phase and what is to be said and done on
//! the way.

use vstd::prelude::*;
use vstd::string::StringExecFns;

use crate::config::{Dependency, ReadinessCondition, RetryConfig};
#[allow(unused_imports)]
use crate::config::{dependency_models, ConditionModel, DependencyModel};
use crate::diag::Diag;
use crate::retry::backoff_delay;
#[allow(unused_imports)]
use crate::retry::delay_before;
use crate::status::{describe_exit, Status};
#[allow(unused_imports)]
use crate::status::{status_text, StatusModel};
#[allow(unused_imports)]
use crate::text::{decimal, joined, quoted, signed_decimal, texts};
use crate::text::{decimal_text, join, quote, signed_decimal_text};

verus! {

// ---- what a watcher is told, and what it answers ----

/// Where a watcher is.
#[derive(Clone, Copy, Debug, PartialEq, Eq, Structural)]
pub enum Phase {
    /// Waiting for the previous instance to end.
    AwaitOld,
    /// About to look at dependency `dep`; `blocked` says whether one was found
    /// wanting since the first was looked at.
    Look { dep: usize, blocked: bool },
    /// Waiting until dependency `dep` is ready.
    Probing { dep: usize, blocked: bool },
    /// Waiting for dependency `dep` to change.
    AwaitChange { dep: usize, blocked: bool },
    /// Starting the process, after `used` retries.
    Spawning { used: u32 },
    /// Waiting for the process to end.
    Monitoring { used: u32 },
    /// Waiting before retry `used`.
    Sleeping { used: u32 },
    /// Nothing more will happen.
    Done,
}

/// What a watcher waits for.
#[derive(Clone, Copy, Debug, PartialEq, Eq, Structural)]
pub enum Action {
    AwaitOldExit,
    ReadSlot { dep: usize },
    Probe { dep: usize },
    AwaitSlotChange { dep: usize },
    Spawn,
    AwaitExit,
    Sleep { ms: u128 },
    Stop,
}

/// What a watcher sees of a dependency.
pub enum DepState {
    Waiting,
    Blocked(String),
    Process,
    SpawnFailed(String),
}

/// What came of an action. `suppressed` says that someone asked for the end of
/// the process.
pub enum Event {
    OldExited,
    DepSlot(DepState),
    ProbeReady,
    ProbeFailed(String),
    DepChanged,
    DepGone,
    Spawned { pid: u32 },
    SpawnFailed(String),
    /// The process was not started, as someone had asked for its end.
    StartRefused,
    Exited { status: Status, suppressed: bool },
    Woke { suppressed: bool },
}

/// An event as a value.
pub enum EventModel {
    OldExited,
    DepWaiting,
    DepBlocked(Seq<char>),
    DepProcess,
    DepSpawnFailed(Seq<char>),
    ProbeReady,
    ProbeFailed(Seq<char>),
    DepChanged,
    DepGone,
    Spawned { pid: u32 },
    SpawnFailed(Seq<char>),
    StartRefused,
    Exited { status: StatusModel, suppressed: bool },
    Woke { suppressed: bool },
}

impl View for Event {
    type V = EventModel;

    open spec fn view(&self) -> EventModel {
        match *self {
            Event::OldExited => EventModel::OldExited,
            Event::DepSlot(DepState::Waiting) => EventModel::DepWaiting,
            Event::DepSlot(DepState::Blocked(why)) => EventModel::DepBlocked(why@),
            Event::DepSlot(DepState::Process) => EventModel::DepProcess,
            Event::DepSlot(DepState::SpawnFailed(why)) => EventModel::DepSpawnFailed(why@),
            Event::ProbeReady => EventModel::ProbeReady,
            Event::ProbeFailed(why) => EventModel::ProbeFailed(why@),
            Event::DepChanged => EventModel::DepChanged,
            Event::DepGone => EventModel::DepGone,
            Event::Spawned { pid } => EventModel::Spawned { pid },
            Event::SpawnFailed(why) => EventModel::SpawnFailed(why@),
            Event::StartRefused => EventModel::StartRefused,
            Event::Exited { status, suppressed } => EventModel::Exited {
                status: status@,
                suppressed,
            },
            Event::Woke { suppressed } => EventModel::Woke { suppressed },
        }
    }
}

/// What is to be said and done on the way to the next phase.
pub enum Effect<T> {
    Say(Diag<T>),
    /// The slot is blocked, for this reason.
    SetBlocked(T),
    /// The slot could not be started, for this reason.
    SetSpawnFailed(T),
    /// The slot holds the process that was just started.
    SetProcess,
    /// The retries are used up.
    MarkExhausted,
}

impl View for Effect<String> {
    type V = Effect<Seq<char>>;

    open spec fn view(&self) -> Effect<Seq<char>> {
        match *self {
            Effect::Say(d) => Effect::Say(d@),
            Effect::SetBlocked(why) => Effect::SetBlocked(why@),
            Effect::SetSpawnFailed(why) => Effect::SetSpawnFailed(why@),
            Effect::SetProcess => Effect::SetProcess,
            Effect::MarkExhausted => Effect::MarkExhausted,
        }
    }
}

/// The effects of a list as values.
pub open spec fn effect_models(list: Seq<Effect<String>>) -> Seq<Effect<Seq<char>>> {
    Seq::new(list.len(), |i: int| list[i]@)
}

// ---- what a watcher knows ----

/// The process that a watcher is for: what it waits for, and how its end is
/// judged.
pub struct Watch {
    pub depends_on: Vec<Dependency>,
    /// For each dependency, whether there is a process of that name.
    pub known: Vec<bool>,
    pub long_lived: bool,
    pub retry: Option<RetryConfig>,
}

/// A watcher's knowledge as a value.
pub struct WatchModel {
    pub depends_on: Seq<DependencyModel>,
    pub known: Seq<bool>,
    pub long_lived: bool,
    pub retry: Option<RetryConfig>,
}

impl View for Watch {
    type V = WatchModel;

    open spec fn view(&self) -> WatchModel {
        WatchModel {
            depends_on: dependency_models(self.depends_on@),
            known: self.known@,
            long_lived: self.long_lived,
            retry: self.retry,
        }
    }
}

/// The names of the dependencies.
pub open spec fn dependency_names(list: Seq<DependencyModel>) -> Seq<Seq<char>> {
    Seq::new(list.len(), |i: int| list[i].name)
}

/// How a readiness condition reads.
pub open spec fn condition_text(until: ConditionModel) -> Seq<char> {
    match until {
        ConditionModel::Port(port) => "Port("@ + decimal(port as nat) + ")"@,
        ConditionModel::Log(pattern) => "Log("@ + quoted(pattern) + ")"@,
        ConditionModel::Exit(code) => "Exit("@ + signed_decimal(code as int) + ")"@,
    }
}

/// Whether an end is a failure: a long-lived process fails by ending at all, a
/// one-shot by a code other than 0 or a signal.
pub open spec fn is_failure(long_lived: bool, status: StatusModel) -> bool {
    match status {
        StatusModel::Exited(info) => long_lived || info.code != 0 || info.signal is Some,
        _ => true,
    }
}

// ---- the machine ----

impl WatchModel {
    /// Whether each dependency is either known or not.
    pub open spec fn wf(self) -> bool {
        self.known.len() == self.depends_on.len()
    }

    /// Turn to dependency `dep`; after the last one, start the process, or
    /// begin again where one was found wanting on the way.
    pub open spec fn turn_to(self, dep: int, blocked: bool) -> (Phase, Seq<Effect<Seq<char>>>) {
        if dep < self.depends_on.len() {
            if self.known[dep] {
                (Phase::Look { dep: dep as usize, blocked }, Seq::empty())
            } else {
                (
                    Phase::Done,
                    seq![
                        Effect::SetSpawnFailed(
                            "unknown dependency '"@ + self.depends_on[dep].name + "'"@,
                        ),
                    ],
                )
            }
        } else if blocked && self.depends_on.len() > 0 {
            if self.known[0] {
                (Phase::Look { dep: 0, blocked: false }, Seq::empty())
            } else {
                (
                    Phase::Done,
                    seq![
                        Effect::SetSpawnFailed(
                            "unknown dependency '"@ + self.depends_on[0].name + "'"@,
                        ),
                    ],
                )
            }
        } else {
            (Phase::Spawning { used: 0 }, seq![Effect::Say(Diag::Spawning)])
        }
    }

    /// Begin with the dependencies.
    pub open spec fn gate(self) -> (Phase, Seq<Effect<Seq<char>>>) {
        let said = if self.depends_on.len() == 0 {
            Diag::NoDependencies
        } else {
            Diag::WaitingOn { names: joined(dependency_names(self.depends_on), ", "@) }
        };
        let (phase, effects) = self.turn_to(0, false);
        (phase, seq![Effect::Say(said)] + effects)
    }

    /// The first phase; `prior` says that a previous instance may still run.
    pub open spec fn first(self, prior: bool) -> (Phase, Seq<Effect<Seq<char>>>) {
        if prior {
            (Phase::AwaitOld, seq![Effect::Say(Diag::WaitingForOld)])
        } else {
            self.gate()
        }
    }

    /// What a look at dependency `dep` leads to.
    pub open spec fn looked(self, dep: usize, blocked: bool, event: EventModel) -> (
        Phase,
        Seq<Effect<Seq<char>>>,
    ) {
        let name = self.depends_on[dep as int].name;
        match event {
            EventModel::DepProcess => (
                Phase::Probing { dep, blocked },
                seq![
                    Effect::Say(
                        Diag::CheckingDep {
                            name,
                            until: condition_text(self.depends_on[dep as int].until),
                        },
                    ),
                ],
            ),
            EventModel::DepBlocked(why) => (
                Phase::AwaitChange { dep, blocked: true },
                seq![
                    Effect::Say(Diag::DepBlocked { name, why }),
                    Effect::SetBlocked("dep "@ + name + " blocked ("@ + why + ")"@),
                ],
            ),
            EventModel::DepSpawnFailed(why) => (
                Phase::AwaitChange { dep, blocked: true },
                seq![
                    Effect::Say(Diag::DepSpawnFailed { name, why }),
                    Effect::SetBlocked("dep "@ + name + " spawn failed: "@ + why),
                ],
            ),
            EventModel::DepWaiting => (
                Phase::AwaitChange { dep, blocked },
                seq![Effect::Say(Diag::DepNotSpawned { name })],
            ),
            _ => (Phase::Look { dep, blocked }, Seq::empty()),
        }
    }

    /// What becomes of dependency `dep` once it was waited for.
    pub open spec fn probed(self, dep: usize, blocked: bool, event: EventModel) -> (
        Phase,
        Seq<Effect<Seq<char>>>,
    ) {
        let name = self.depends_on[dep as int].name;
        match event {
            EventModel::ProbeReady => {
                let (phase, effects) = self.turn_to(dep + 1, blocked);
                (phase, seq![Effect::Say(Diag::DepReady { name })] + effects)
            },
            EventModel::ProbeFailed(why) => (
                Phase::AwaitChange { dep, blocked: true },
                seq![
                    Effect::Say(Diag::DepFailed { name, why }),
                    Effect::SetBlocked("dep "@ + name + ": "@ + why),
                ],
            ),
            _ => (Phase::Probing { dep, blocked }, Seq::empty()),
        }
    }

    /// What follows the attempt to start the process.
    pub open spec fn started(self, used: u32, event: EventModel) -> (
        Phase,
        Seq<Effect<Seq<char>>>,
    ) {
        match event {
            EventModel::Spawned { pid } => if self.retry is Some {
                (
                    Phase::Monitoring { used },
                    seq![Effect::Say(Diag::Spawned { pid }), Effect::SetProcess],
                )
            } else {
                (
                    Phase::Done,
                    seq![Effect::Say(Diag::Spawned { pid }), Effect::SetProcess],
                )
            },
            EventModel::StartRefused => (
                Phase::Done,
                seq![Effect::Say(Diag::StoppedInBackoff)],
            ),
            EventModel::SpawnFailed(why) => (
                Phase::Done,
                seq![Effect::Say(Diag::SpawnFailed { why }), Effect::SetSpawnFailed(why)],
            ),
            _ => (Phase::Spawning { used }, Seq::empty()),
        }
    }

    /// What follows the end of the process: nothing where it was asked for or
    /// went well, else another attempt as long as the policy allows one.
    pub open spec fn ended(self, used: u32, status: StatusModel, suppressed: bool) -> (
        Phase,
        Seq<Effect<Seq<char>>>,
    ) {
        if suppressed {
            (Phase::Done, seq![Effect::Say(Diag::StoppedByRequest)])
        } else if !is_failure(self.long_lived, status) {
            (Phase::Done, seq![Effect::Say(Diag::Succeeded)])
        } else {
            match self.retry {
                None => (Phase::Done, Seq::empty()),
                Some(policy) => if used >= policy.max_retries {
                    (
                        Phase::Done,
                        seq![
                            Effect::Say(
                                Diag::Exhausted {
                                    exit: status_text(status),
                                    used,
                                    max: policy.max_retries,
                                },
                            ),
                            Effect::MarkExhausted,
                        ],
                    )
                } else {
                    (
                        Phase::Sleeping { used: (used + 1) as u32 },
                        seq![
                            Effect::Say(
                                Diag::Retrying {
                                    exit: status_text(status),
                                    attempt: (used + 1) as u32,
                                    max: policy.max_retries,
                                    delay_ms: delay_before(policy, (used + 1) as nat) as u128,
                                },
                            ),
                        ],
                    )
                },
            }
        }
    }

    /// The next phase after an event, and what is said and done on the way. An
    /// event that a phase does not wait for changes nothing.
    pub open spec fn next(self, phase: Phase, event: EventModel) -> (
        Phase,
        Seq<Effect<Seq<char>>>,
    ) {
        match phase {
            Phase::AwaitOld => if event is OldExited {
                let (next, effects) = self.gate();
                (next, seq![Effect::Say(Diag::OldExited)] + effects)
            } else {
                (phase, Seq::empty())
            },
            Phase::Look { dep, blocked } => self.looked(dep, blocked, event),
            Phase::Probing { dep, blocked } => self.probed(dep, blocked, event),
            Phase::AwaitChange { dep, blocked } => match event {
                EventModel::DepChanged => (Phase::Look { dep, blocked }, Seq::empty()),
                EventModel::DepGone => (Phase::Done, Seq::empty()),
                _ => (phase, Seq::empty()),
            },
            Phase::Spawning { used } => self.started(used, event),
            Phase::Monitoring { used } => match event {
                EventModel::Exited { status, suppressed } => self.ended(used, status, suppressed),
                _ => (phase, Seq::empty()),
            },
            Phase::Sleeping { used } => match event {
                EventModel::Woke { suppressed } => if suppressed {
                    (Phase::Done, seq![Effect::Say(Diag::StoppedInBackoff)])
                } else {
                    (Phase::Spawning { used }, seq![Effect::Say(Diag::Spawning)])
                },
                _ => (phase, Seq::empty()),
            },
            Phase::Done => (phase, Seq::empty()),
        }
    }

    /// Whether a phase speaks of a dependency that there is.
    pub open spec fn fits(self, phase: Phase) -> bool {
        match phase {
            Phase::Look { dep, .. } => dep < self.depends_on.len(),
            Phase::Probing { dep, .. } => dep < self.depends_on.len(),
            Phase::AwaitChange { dep, .. } => dep < self.depends_on.len(),
            _ => true,
        }
    }

    /// What a phase waits for.
    pub open spec fn awaits(self, phase: Phase) -> Action {
        match phase {
            Phase::AwaitOld => Action::AwaitOldExit,
            Phase::Look { dep, .. } => Action::ReadSlot { dep },
            Phase::Probing { dep, .. } => Action::Probe { dep },
            Phase::AwaitChange { dep, .. } => Action::AwaitSlotChange { dep },
            Phase::Spawning { .. } => Action::Spawn,
            Phase::Monitoring { .. } => Action::AwaitExit,
            Phase::Sleeping { used } => match self.retry {
                Some(policy) => Action::Sleep { ms: delay_before(policy, used as nat) as u128 },
                None => Action::Stop,
            },
            Phase::Done => Action::Stop,
        }
    }
}

/// What a watcher does next, and what is to be said and done on the way.
pub struct Turn {
    pub phase: Phase,
    pub effects: Vec<Effect<String>>,
}

impl Turn {
    /// The turn as a value.
    pub open spec fn model(self) -> (Phase, Seq<Effect<Seq<char>>>) {
        (self.phase, effect_models(self.effects@))
    }
}

fn silent(phase: Phase) -> (turn: Turn)
    ensures
        turn.model() == (phase, Seq::<Effect<Seq<char>>>::empty()),
{
    let turn = Turn { phase, effects: Vec::new() };
    assert(turn.model().1 =~= Seq::empty());
    turn
}

fn with_one(phase: Phase, a: Effect<String>) -> (turn: Turn)
    ensures
        turn.model() == (phase, seq![a@]),
{
    let mut effects: Vec<Effect<String>> = Vec::new();
    effects.push(a);
    let turn = Turn { phase, effects };
    assert(turn.model().1 =~= seq![a@]);
    turn
}

fn with_two(phase: Phase, a: Effect<String>, b: Effect<String>) -> (turn: Turn)
    ensures
        turn.model() == (phase, seq![a@, b@]),
{
    let mut effects: Vec<Effect<String>> = Vec::new();
    effects.push(a);
    effects.push(b);
    let turn = Turn { phase, effects };
    assert(turn.model().1 =~= seq![a@, b@]);
    turn
}

fn preceded_by(a: Effect<String>, turn: Turn) -> (longer: Turn)
    ensures
        longer.model() == (turn.phase, seq![a@] + effect_models(turn.effects@)),
{
    let ghost before = effect_models(turn.effects@);
    let phase = turn.phase;
    let mut effects = turn.effects;
    effects.insert(0, a);
    let longer = Turn { phase, effects };
    assert(longer.model().1 =~= seq![a@] + before);
    longer
}

pub(crate) fn condition_string(until: &ReadinessCondition) -> (text: String)
    ensures
        text@ == condition_text(until@),
{
    match until {
        ReadinessCondition::Port(port) => {
            let mut text = "Port(".to_owned();
            text.append(decimal_text(*port as u128).as_str());
            text.append(")");
            text
        },
        ReadinessCondition::Log(pattern) => {
            let mut text = "Log(".to_owned();
            text.append(quote(pattern.as_str()).as_str());
            text.append(")");
            text
        },
        ReadinessCondition::Exit(code) => {
            let mut text = "Exit(".to_owned();
            text.append(signed_decimal_text(*code).as_str());
            text.append(")");
            text
        },
    }
}

fn three_texts(a: &str, b: &String, c: &str) -> (text: String)
    ensures
        text@ == a@ + b@ + c@,
{
    let mut text = a.to_owned();
    text.append(b.as_str());
    text.append(c);
    text
}

/// Whether an end is a failure.
pub fn failed(long_lived: bool, status: &Status) -> (yes: bool)
    ensures
        yes == is_failure(long_lived, status@),
{
    match status {
        Status::Exited(info) => long_lived || info.code != 0 || info.signal.is_some(),
        _ => true,
    }
}

impl Watch {
    fn unknown(&self, dep: usize) -> (turn: Turn)
        requires
            dep < self.depends_on@.len(),
        ensures
            turn.model() == (
                Phase::Done,
                seq![
                    Effect::SetSpawnFailed(
                        "unknown dependency '"@ + self@.depends_on[dep as int].name + "'"@,
                    ),
                ],
            ),
    {
        with_one(
            Phase::Done,
            Effect::SetSpawnFailed(
                three_texts("unknown dependency '", &self.depends_on[dep].name, "'"),
            ),
        )
    }

    fn enter(&self, dep: usize, blocked: bool) -> (turn: Turn)
        requires
            self@.wf(),
        ensures
            turn.model() == self@.turn_to(dep as int, blocked),
            self@.fits(turn.phase),
    {
        if dep < self.depends_on.len() {
            if self.known[dep] {
                silent(Phase::Look { dep, blocked })
            } else {
                self.unknown(dep)
            }
        } else if blocked && self.depends_on.len() > 0 {
            if self.known[0] {
                silent(Phase::Look { dep: 0, blocked: false })
            } else {
                self.unknown(0)
            }
        } else {
            with_one(Phase::Spawning { used: 0 }, Effect::Say(Diag::Spawning))
        }
    }

    fn gated(&self) -> (turn: Turn)
        requires
            self@.wf(),
        ensures
            turn.model() == self@.gate(),
            self@.fits(turn.phase),
    {
        let said = if self.depends_on.len() == 0 {
            Diag::NoDependencies
        } else {
            let mut names: Vec<String> = Vec::new();
            let mut i: usize = 0;
            while i < self.depends_on.len()
                invariant
                    i <= self.depends_on@.len(),
                    names@.len() == i,
                    forall|j: int|
                        0 <= j < i ==> (#[trigger] names@[j])@ == self.depends_on@[j].name@,
                decreases self.depends_on@.len() - i,
            {
                names.push(self.depends_on[i].name.clone());
                i = i + 1;
            }
            assert(texts(names@) =~= dependency_names(self@.depends_on));
            Diag::WaitingOn { names: join(&names, ", ") }
        };
        let turn = self.enter(0, false);
        preceded_by(Effect::Say(said), turn)
    }

    /// The first phase of a watcher; `prior` says that a previous instance may
    /// still run.
    pub fn begin(&self, prior: bool) -> (turn: Turn)
        requires
            self@.wf(),
        ensures
            turn.model() == self@.first(prior),
            self@.fits(turn.phase),
    {
        if prior {
            with_one(Phase::AwaitOld, Effect::Say(Diag::WaitingForOld))
        } else {
            self.gated()
        }
    }

    fn after_look(&self, dep: usize, blocked: bool, event: &Event) -> (turn: Turn)
        requires
            dep < self.depends_on@.len(),
        ensures
            turn.model() == self@.looked(dep, blocked, event@),
            self@.fits(turn.phase),
    {
        let name = &self.depends_on[dep].name;
        match event {
            Event::DepSlot(DepState::Process) => with_one(
                Phase::Probing { dep, blocked },
                Effect::Say(
                    Diag::CheckingDep {
                        name: name.clone(),
                        until: condition_string(&self.depends_on[dep].until),
                    },
                ),
            ),
            Event::DepSlot(DepState::Blocked(why)) => {
                let mut reason = three_texts("dep ", name, " blocked (");
                reason.append(why.as_str());
                reason.append(")");
                with_two(
                    Phase::AwaitChange { dep, blocked: true },
                    Effect::Say(Diag::DepBlocked { name: name.clone(), why: why.clone() }),
                    Effect::SetBlocked(reason),
                )
            },
            Event::DepSlot(DepState::SpawnFailed(why)) => {
                let mut reason = three_texts("dep ", name, " spawn failed: ");
                reason.append(why.as_str());
                with_two(
                    Phase::AwaitChange { dep, blocked: true },
                    Effect::Say(Diag::DepSpawnFailed { name: name.clone(), why: why.clone() }),
                    Effect::SetBlocked(reason),
                )
            },
            Event::DepSlot(DepState::Waiting) => with_one(
                Phase::AwaitChange { dep, blocked },
                Effect::Say(Diag::DepNotSpawned { name: name.clone() }),
            ),
            _ => silent(Phase::Look { dep, blocked }),
        }
    }

    fn after_probe(&self, dep: usize, blocked: bool, event: &Event) -> (turn: Turn)
        requires
            self@.wf(),
            dep < self.depends_on@.len(),
        ensures
            turn.model() == self@.probed(dep, blocked, event@),
            self@.fits(turn.phase),
    {
        let name = &self.depends_on[dep].name;
        match event {
            Event::ProbeReady => {
                let count = self.depends_on.len();
                assert(dep < count);
                let turn = self.enter(dep + 1, blocked);
                preceded_by(Effect::Say(Diag::DepReady { name: name.clone() }), turn)
            },
            Event::ProbeFailed(why) => {
                let mut reason = three_texts("dep ", name, ": ");
                reason.append(why.as_str());
                with_two(
                    Phase::AwaitChange { dep, blocked: true },
                    Effect::Say(Diag::DepFailed { name: name.clone(), why: why.clone() }),
                    Effect::SetBlocked(reason),
                )
            },
            _ => silent(Phase::Probing { dep, blocked }),
        }
    }

    fn after_spawn(&self, used: u32, event: &Event) -> (turn: Turn)
        ensures
            turn.model() == self@.started(used, event@),
    {
        match event {
            Event::Spawned { pid } => {
                let said = Effect::Say(Diag::Spawned { pid: *pid });
                match self.retry {
                    Some(_) => with_two(Phase::Monitoring { used }, said, Effect::SetProcess),
                    None => with_two(Phase::Done, said, Effect::SetProcess),
                }
            },
            Event::StartRefused => with_one(Phase::Done, Effect::Say(Diag::StoppedInBackoff)),
            Event::SpawnFailed(why) => with_two(
                Phase::Done,
                Effect::Say(Diag::SpawnFailed { why: why.clone() }),
                Effect::SetSpawnFailed(why.clone()),
            ),
            _ => silent(Phase::Spawning { used }),
        }
    }

    fn after_exit(&self, used: u32, status: &Status, suppressed: bool) -> (turn: Turn)
        ensures
            turn.model() == self@.ended(used, status@, suppressed),
    {
        if suppressed {
            return with_one(Phase::Done, Effect::Say(Diag::StoppedByRequest));
        }
        if !failed(self.long_lived, status) {
            return with_one(Phase::Done, Effect::Say(Diag::Succeeded));
        }
        match self.retry {
            None => silent(Phase::Done),
            Some(policy) => {
                let exit = describe_exit(status);
                if used >= policy.max_retries {
                    with_two(
                        Phase::Done,
                        Effect::Say(Diag::Exhausted { exit, used, max: policy.max_retries }),
                        Effect::MarkExhausted,
                    )
                } else {
                    let attempt: u32 = used + 1;
                    let delay_ms: u128 = backoff_delay(&policy, attempt);
                    with_one(
                        Phase::Sleeping { used: attempt },
                        Effect::Say(
                            Diag::Retrying { exit, attempt, max: policy.max_retries, delay_ms },
                        ),
                    )
                }
            },
        }
    }

    /// The next phase after an event, and what is to be said and done on the
    /// way.
    pub fn step(&self, phase: Phase, event: &Event) -> (turn: Turn)
        requires
            self@.wf(),
            self@.fits(phase),
        ensures
            turn.model() == self@.next(phase, event@),
            self@.fits(turn.phase),
    {
        match phase {
            Phase::AwaitOld => match event {
                Event::OldExited => {
                    let turn = self.gated();
                    preceded_by(Effect::Say(Diag::OldExited), turn)
                },
                _ => silent(phase),
            },
            Phase::Look { dep, blocked } => self.after_look(dep, blocked, event),
            Phase::Probing { dep, blocked } => self.after_probe(dep, blocked, event),
            Phase::AwaitChange { dep, blocked } => match event {
                Event::DepChanged => silent(Phase::Look { dep, blocked }),
                Event::DepGone => silent(Phase::Done),
                _ => silent(phase),
            },
            Phase::Spawning { used } => self.after_spawn(used, event),
            Phase::Monitoring { used } => match event {
                Event::Exited { status, suppressed } => self.after_exit(used, status, *suppressed),
                _ => silent(phase),
            },
            Phase::Sleeping { used } => match event {
                Event::Woke { suppressed } => {
                    if *suppressed {
                        with_one(Phase::Done, Effect::Say(Diag::StoppedInBackoff))
                    } else {
                        with_one(Phase::Spawning { used }, Effect::Say(Diag::Spawning))
                    }
                },
                _ => silent(phase),
            },
            Phase::Done => silent(phase),
        }
    }

    /// What a phase waits for.
    pub fn action(&self, phase: Phase) -> (action: Action)
        ensures
            action == self@.awaits(phase),
    {
        match phase {
            Phase::AwaitOld => Action::AwaitOldExit,
            Phase::Look { dep, .. } => Action::ReadSlot { dep },
            Phase::Probing { dep, .. } => Action::Probe { dep },
            Phase::AwaitChange { dep, .. } => Action::AwaitSlotChange { dep },
            Phase::Spawning { .. } => Action::Spawn,
            Phase::Monitoring { .. } => Action::AwaitExit,
            Phase::Sleeping { used } => match self.retry {
                Some(policy) => Action::Sleep { ms: backoff_delay(&policy, used) },
                None => Action::Stop,
            },
            Phase::Done => Action::Stop,
        }
    }
}

// ---- whole runs ----

impl WatchModel {
    /// The phase after a list of events, from the first phase on.
    pub open spec fn phase_after(self, prior: bool, events: Seq<EventModel>) -> Phase
        decreases events.len(),
    {
        if events.len() == 0 {
            self.first(prior).0
        } else {
            self.next(self.phase_after(prior, events.drop_last()), events.last()).0
        }
    }

    /// How often the process was started, or its start begun, in the course of
    /// a list of events.
    pub open spec fn spawns(self, prior: bool, events: Seq<EventModel>) -> nat
        decreases events.len(),
    {
        let now = self.phase_after(prior, events);
        if events.len() == 0 {
            if now is Spawning {
                1
            } else {
                0
            }
        } else {
            let before = self.phase_after(prior, events.drop_last());
            self.spawns(prior, events.drop_last()) + (if now is Spawning && !(before is Spawning) {
                1nat
            } else {
                0nat
            })
        }
    }

    /// How many retries the policy allows.
    pub open spec fn budget(self) -> nat {
        match self.retry {
            Some(policy) => policy.max_retries as nat,
            None => 0,
        }
    }
}

proof fn lemma_spawns(w: WatchModel, prior: bool, events: Seq<EventModel>)
    requires
        w.wf(),
    ensures
        match w.phase_after(prior, events) {
            Phase::Spawning { used } => used <= w.budget() && w.spawns(prior, events) == used + 1,
            Phase::Monitoring { used } => used <= w.budget() && w.spawns(prior, events) == used + 1
                && w.retry is Some,
            Phase::Sleeping { used } => 1 <= used <= w.budget() && w.spawns(prior, events) == used,
            Phase::Done => w.spawns(prior, events) <= w.budget() + 1,
            _ => w.spawns(prior, events) == 0,
        },
    decreases events.len(),
{
    if events.len() > 0 {
        lemma_spawns(w, prior, events.drop_last());
    }
}

/// However a run goes, the process is started at most once more than the
/// policy allows retries; without a policy, at most once.
pub proof fn law_spawns_are_bounded(w: WatchModel, prior: bool, events: Seq<EventModel>)
    requires
        w.wf(),
    ensures
        w.spawns(prior, events) <= w.budget() + 1,
        w.retry is None ==> w.spawns(prior, events) <= 1,
{
    lemma_spawns(w, prior, events);
}

/// Once a watcher is done, nothing happens any more.
pub proof fn law_done_is_final(w: WatchModel, event: EventModel)
    ensures
        w.next(Phase::Done, event) == (Phase::Done, Seq::<Effect<Seq<char>>>::empty()),
        w.awaits(Phase::Done) == Action::Stop,
{
}

/// A process that was asked to end is not started again, whether it ran, waited
/// for its next attempt or was about to be started.
pub proof fn law_requested_end_is_not_retried(w: WatchModel, used: u32, status: StatusModel)
    ensures
        w.next(
            Phase::Monitoring { used },
            EventModel::Exited { status, suppressed: true },
        ).0 is Done,
        w.next(Phase::Sleeping { used }, EventModel::Woke { suppressed: true }).0 is Done,
        w.next(Phase::Spawning { used }, EventModel::StartRefused).0 is Done,
{
}

/// A one-shot that ends with code 0 is not started again.
pub proof fn law_success_is_not_retried(w: WatchModel, used: u32, status: StatusModel)
    requires
        !w.long_lived,
        status matches StatusModel::Exited(info) && info.code == 0 && info.signal is None,
    ensures
        w.next(
            Phase::Monitoring { used },
            EventModel::Exited { status, suppressed: false },
        ).0 is Done,
{
}

/// A failure within the budget is retried, after the delay of that attempt.
pub proof fn law_failure_is_retried(w: WatchModel, used: u32, status: StatusModel)
    requires
        w.retry matches Some(policy) && used < policy.max_retries,
        is_failure(w.long_lived, status),
    ensures
        ({
            let next = w.next(
                Phase::Monitoring { used },
                EventModel::Exited { status, suppressed: false },
            ).0;
            &&& next == Phase::Sleeping { used: (used + 1) as u32 }
            &&& w.awaits(next) == (Action::Sleep {
                ms: delay_before(w.retry->0, (used + 1) as nat) as u128,
            })
            &&& w.next(next, EventModel::Woke { suppressed: false }).0 == Phase::Spawning {
                used: (used + 1) as u32,
            }
        }),
{
}

/// Whether an event is a failure that comes after the last retry.
pub open spec fn gives_up(w: WatchModel, phase: Phase, event: EventModel) -> bool {
    match (phase, event) {
        (Phase::Monitoring { used }, EventModel::Exited { status, suppressed }) => !suppressed
            && is_failure(w.long_lived, status) && w.retry is Some && used
            >= w.retry->0.max_retries,
        _ => false,
    }
}

/// The retries are marked as used up exactly where a failure comes after the
/// last of them.
pub proof fn law_exhausted_iff_budget_used(w: WatchModel, phase: Phase, event: EventModel)
    ensures
        w.next(phase, event).1.contains(Effect::<Seq<char>>::MarkExhausted) <==> gives_up(
            w,
            phase,
            event,
        ),
{
    let effects = w.next(phase, event).1;
    if gives_up(w, phase, event) {
        assert(effects[1] == Effect::<Seq<char>>::MarkExhausted);
    }
}

/// The events of runs that all fail, one after the other: the process is
/// started, ends, and the watcher wakes before the next attempt. Each run has
/// a pid and the status that it ended with.
pub open spec fn runs_in_turn(runs: Seq<(u32, StatusModel)>) -> Seq<EventModel>
    decreases runs.len(),
{
    if runs.len() == 0 {
        Seq::empty()
    } else {
        let (pid, status) = runs.last();
        let before = runs_in_turn(runs.drop_last());
        (if runs.len() == 1 {
            before
        } else {
            before.push(EventModel::Woke { suppressed: false })
        }).push(EventModel::Spawned { pid }).push(EventModel::Exited { status, suppressed: false })
    }
}

/// Whether the retries are marked as used up at event `k`.
pub open spec fn marks_exhausted(w: WatchModel, prior: bool, events: Seq<EventModel>, k: int) -> bool {
    w.next(w.phase_after(prior, events.take(k)), events[k]).1.contains(
        Effect::<Seq<char>>::MarkExhausted,
    )
}

proof fn lemma_one_more_event(
    w: WatchModel,
    prior: bool,
    events: Seq<EventModel>,
    event: EventModel,
)
    ensures
        ({
            let before = w.phase_after(prior, events);
            let now = w.phase_after(prior, events.push(event));
            &&& now == w.next(before, event).0
            &&& w.spawns(prior, events.push(event)) == w.spawns(prior, events) + (if now is Spawning
                && !(before is Spawning) {
                1nat
            } else {
                0nat
            })
        }),
{
    assert(events.push(event).drop_last() =~= events);
}

proof fn lemma_done_stays(w: WatchModel, prior: bool, events: Seq<EventModel>, k: int)
    requires
        0 <= k <= events.len(),
        w.phase_after(prior, events.take(k)) is Done,
    ensures
        w.phase_after(prior, events) is Done,
    decreases events.len() - k,
{
    if k == events.len() {
        assert(events.take(k) =~= events);
    } else {
        assert(events.take(k + 1).drop_last() =~= events.take(k));
        lemma_done_stays(w, prior, events, k + 1);
    }
}

proof fn lemma_failing_runs(
    w: WatchModel,
    prior: bool,
    lead: Seq<EventModel>,
    runs: Seq<(u32, StatusModel)>,
)
    requires
        w.wf(),
        w.retry is Some,
        w.phase_after(prior, lead) == (Phase::Spawning { used: 0 }),
        1 <= runs.len() <= w.budget() + 1,
        forall|i: int| 0 <= i < runs.len() ==> is_failure(w.long_lived, (#[trigger] runs[i]).1),
    ensures
        ({
            let events = lead + runs_in_turn(runs);
            &&& events.len() > 0
            &&& w.spawns(prior, events) == runs.len()
            &&& w.phase_after(prior, events.drop_last()) == (Phase::Monitoring {
                used: (runs.len() - 1) as u32,
            })
            &&& events.last() == (EventModel::Exited { status: runs.last().1, suppressed: false })
            &&& w.phase_after(prior, events) == (if runs.len() <= w.budget() {
                Phase::Sleeping { used: runs.len() as u32 }
            } else {
                Phase::Done
            })
        }),
    decreases runs.len(),
{
    let init = runs.drop_last();
    let (pid, status) = runs.last();
    let woke = EventModel::Woke { suppressed: false };
    let spawned = EventModel::Spawned { pid };
    let ended = EventModel::Exited { status, suppressed: false };
    let before = lead + runs_in_turn(init);
    assert(runs[runs.len() - 1] == runs.last());
    let ready = if runs.len() == 1 {
        assert(before =~= lead);
        lemma_spawns(w, prior, lead);
        before
    } else {
        assert forall|i: int| 0 <= i < init.len() implies is_failure(
            w.long_lived,
            (#[trigger] init[i]).1,
        ) by {
            assert(init[i] == runs[i]);
        }
        lemma_failing_runs(w, prior, lead, init);
        lemma_one_more_event(w, prior, before, woke);
        before.push(woke)
    };
    lemma_one_more_event(w, prior, ready, spawned);
    lemma_one_more_event(w, prior, ready.push(spawned), ended);
    let events = lead + runs_in_turn(runs);
    assert(events =~= ready.push(spawned).push(ended));
    assert(events.drop_last() =~= ready.push(spawned));
}

/// Where every run fails and nobody asks for an end, the process is started
/// once and then as often again as the policy allows. The retries are marked as
/// used up at the last failure and not before, and the watcher is done.
pub proof fn law_failing_runs_use_up_the_retries(
    w: WatchModel,
    prior: bool,
    lead: Seq<EventModel>,
    runs: Seq<(u32, StatusModel)>,
)
    requires
        w.wf(),
        w.retry is Some,
        w.phase_after(prior, lead) == (Phase::Spawning { used: 0 }),
        runs.len() == w.budget() + 1,
        forall|i: int| 0 <= i < runs.len() ==> is_failure(w.long_lived, (#[trigger] runs[i]).1),
    ensures
        ({
            let events = lead + runs_in_turn(runs);
            &&& w.spawns(prior, events) == w.budget() + 1
            &&& w.phase_after(prior, events) is Done
            &&& forall|k: int|
                0 <= k < events.len() ==> (#[trigger] marks_exhausted(w, prior, events, k) <==> k
                    == events.len() - 1)
        }),
{
    lemma_failing_runs(w, prior, lead, runs);
    let events = lead + runs_in_turn(runs);
    let last = events.len() - 1;
    assert(runs[runs.len() - 1] == runs.last());
    assert(events.take(last) =~= events.drop_last());
    assert forall|k: int| 0 <= k < events.len() implies (#[trigger] marks_exhausted(
        w,
        prior,
        events,
        k,
    ) <==> k == last) by {
        let phase = w.phase_after(prior, events.take(k));
        law_exhausted_iff_budget_used(w, phase, events[k]);
        if k < last && gives_up(w, phase, events[k]) {
            assert(events.take(k + 1).drop_last() =~= events.take(k));
            assert(events.drop_last().take(k + 1) =~= events.take(k + 1));
            lemma_done_stays(w, prior, events.drop_last(), k + 1);
        }
    }
}

/// In the course of these events, dependency `dep` was waited for and found
/// ready, when nothing had been found wanting in that round.
pub open spec fn found_ready(w: WatchModel, prior: bool, events: Seq<EventModel>, dep: int) -> bool {
    exists|k: int|
        0 <= k < events.len() && #[trigger] events[k] is ProbeReady && w.phase_after(
            prior,
            events.take(k),
        ) == (Phase::Probing { dep: dep as usize, blocked: false })
}

proof fn lemma_found_ready_kept(
    w: WatchModel,
    prior: bool,
    events: Seq<EventModel>,
    dep: int,
)
    requires
        events.len() > 0,
        found_ready(w, prior, events.drop_last(), dep),
    ensures
        found_ready(w, prior, events, dep),
{
    let init = events.drop_last();
    let k = choose|k: int|
        0 <= k < init.len() && #[trigger] init[k] is ProbeReady && w.phase_after(
            prior,
            init.take(k),
        ) == (Phase::Probing { dep: dep as usize, blocked: false });
    assert(events.take(k) =~= init.take(k));
    assert(events[k] == init[k]);
}

/// In the course of these events, the first `n` dependencies were found ready.
spec fn found_ready_upto(w: WatchModel, prior: bool, events: Seq<EventModel>, n: int) -> bool {
    forall|i: int| 0 <= i < n ==> #[trigger] found_ready(w, prior, events, i)
}

/// What was found ready by the time of a phase.
spec fn ready_for(w: WatchModel, prior: bool, events: Seq<EventModel>, phase: Phase) -> bool {
    match phase {
        Phase::AwaitOld => true,
        Phase::Look { dep, blocked } => !blocked ==> found_ready_upto(
            w,
            prior,
            events,
            dep as int,
        ),
        Phase::Probing { dep, blocked } => !blocked ==> found_ready_upto(
            w,
            prior,
            events,
            dep as int,
        ),
        Phase::AwaitChange { dep, blocked } => !blocked ==> found_ready_upto(
            w,
            prior,
            events,
            dep as int,
        ),
        Phase::Done => true,
        _ => found_ready_upto(w, prior, events, w.depends_on.len() as int),
    }
}

proof fn lemma_found_ready_upto_kept(
    w: WatchModel,
    prior: bool,
    events: Seq<EventModel>,
    n: int,
)
    requires
        events.len() > 0,
        found_ready_upto(w, prior, events.drop_last(), n),
    ensures
        found_ready_upto(w, prior, events, n),
{
    assert forall|i: int| 0 <= i < n implies #[trigger] found_ready(w, prior, events, i) by {
        assert(found_ready(w, prior, events.drop_last(), i));
        lemma_found_ready_kept(w, prior, events, i);
    }
}

/// A dependency that turns out ready, in a round in which nothing was found
/// wanting, adds to those that were found ready.
proof fn lemma_one_more_ready(w: WatchModel, prior: bool, events: Seq<EventModel>, dep: usize)
    requires
        events.len() > 0,
        events.last() is ProbeReady,
        w.phase_after(prior, events.drop_last()) == (Phase::Probing { dep, blocked: false }),
        found_ready_upto(w, prior, events.drop_last(), dep as int),
    ensures
        found_ready_upto(w, prior, events, dep + 1),
{
    let k = events.len() - 1;
    lemma_found_ready_upto_kept(w, prior, events, dep as int);
    assert(events.take(k) =~= events.drop_last());
    assert(events[k] is ProbeReady);
    assert(found_ready(w, prior, events, dep as int));
}

#[verifier::spinoff_prover]
proof fn lemma_ready_for_next(w: WatchModel, prior: bool, events: Seq<EventModel>)
    requires
        w.wf(),
        w.depends_on.len() <= usize::MAX,
        events.len() > 0,
        w.fits(w.phase_after(prior, events.drop_last())),
        ready_for(
            w,
            prior,
            events.drop_last(),
            w.phase_after(prior, events.drop_last()),
        ),
    ensures
        w.fits(w.phase_after(prior, events)),
        ready_for(w, prior, events, w.phase_after(prior, events)),
{
    let n = w.depends_on.len() as int;
    match w.phase_after(prior, events.drop_last()) {
        Phase::AwaitOld => {},
        Phase::Look { dep, blocked } => {
            if !blocked {
                lemma_found_ready_upto_kept(w, prior, events, dep as int);
            }
        },
        Phase::Probing { dep, blocked } => {
            if !blocked {
                lemma_found_ready_upto_kept(w, prior, events, dep as int);
                if events.last() is ProbeReady {
                    lemma_one_more_ready(w, prior, events, dep);
                }
            }
        },
        Phase::AwaitChange { dep, blocked } => {
            if !blocked {
                lemma_found_ready_upto_kept(w, prior, events, dep as int);
            }
        },
        Phase::Done => {},
        _ => {
            lemma_found_ready_upto_kept(w, prior, events, n);
        },
    }
}

proof fn lemma_gate(w: WatchModel, prior: bool, events: Seq<EventModel>)
    requires
        w.wf(),
        w.depends_on.len() <= usize::MAX,
    ensures
        w.fits(w.phase_after(prior, events)),
        ready_for(w, prior, events, w.phase_after(prior, events)),
    decreases events.len(),
{
    if events.len() > 0 {
        lemma_gate(w, prior, events.drop_last());
        lemma_ready_for_next(w, prior, events);
    }
}

/// The process is started only after every dependency was found ready, each in
/// a round in which nothing had been found wanting.
pub proof fn law_starts_after_dependencies(w: WatchModel, prior: bool, events: Seq<EventModel>)
    requires
        w.wf(),
        w.depends_on.len() <= usize::MAX,
        w.phase_after(prior, events) is Spawning,
    ensures
        forall|i: int| 0 <= i < w.depends_on.len() ==> #[trigger] found_ready(w, prior, events, i),
{
    lemma_gate(w, prior, events);
}

// ---- progress ----

/// The phase after a list of events, from a phase on.
pub open spec fn phase_from(w: WatchModel, phase: Phase, events: Seq<EventModel>) -> Phase
    decreases events.len(),
{
    if events.len() == 0 {
        phase
    } else {
        w.next(phase_from(w, phase, events.drop_last()), events.last()).0
    }
}

/// The events of some dependencies that all turn out ready, one after the
/// other: each is found started, and then ready.
pub open spec fn ready_round(n: nat) -> Seq<EventModel> {
    Seq::new(
        2 * n,
        |i: int|
            if i % 2 == 0 {
                EventModel::DepProcess
            } else {
                EventModel::ProbeReady
            },
    )
}

proof fn lemma_round_grows(n: nat)
    ensures
        ready_round(n + 1) == ready_round(n).push(EventModel::DepProcess).push(
            EventModel::ProbeReady,
        ),
{
    assert(ready_round(n + 1) =~= ready_round(n).push(EventModel::DepProcess).push(
        EventModel::ProbeReady,
    ));
}

proof fn lemma_from_push(w: WatchModel, phase: Phase, events: Seq<EventModel>, event: EventModel)
    ensures
        phase_from(w, phase, events.push(event)) == w.next(phase_from(w, phase, events), event).0,
{
    assert(events.push(event).drop_last() =~= events);
}

/// Dependencies that are ready are done with one after the other: after the
/// first `m` of those from `dep` on, the watcher looks at the next one. After the
/// last it starts the process, or looks at all of them once more where one had
/// been found wanting on the way.
pub proof fn law_ready_dependencies_are_passed(
    w: WatchModel,
    dep: usize,
    blocked: bool,
    m: nat,
)
    requires
        w.wf(),
        w.depends_on.len() <= usize::MAX,
        forall|i: int| 0 <= i < w.known.len() ==> #[trigger] w.known[i],
        dep < w.depends_on.len(),
        dep + m <= w.depends_on.len(),
    ensures
        phase_from(w, Phase::Look { dep, blocked }, ready_round(m)) == (if dep + m
            < w.depends_on.len() {
            Phase::Look { dep: (dep + m) as usize, blocked }
        } else if blocked {
            Phase::Look { dep: 0, blocked: false }
        } else {
            Phase::Spawning { used: 0 }
        }),
        dep + m < w.depends_on.len() ==> phase_from(
            w,
            Phase::Look { dep, blocked },
            ready_round(m).push(EventModel::DepProcess),
        ) == (Phase::Probing { dep: (dep + m) as usize, blocked }),
    decreases m,
{
    let start = Phase::Look { dep, blocked };
    if m > 0 {
        let before = (m - 1) as nat;
        law_ready_dependencies_are_passed(w, dep, blocked, before);
        lemma_round_grows(before);
        lemma_from_push(
            w,
            start,
            ready_round(before).push(EventModel::DepProcess),
            EventModel::ProbeReady,
        );
        if dep + m < w.depends_on.len() {
            assert(w.known[(dep + m) as int]);
        }
        assert(w.known[0]);
    } else {
        assert(ready_round(0) =~= Seq::<EventModel>::empty());
    }
    lemma_from_push(w, start, ready_round(m), EventModel::DepProcess);
}

proof fn lemma_after_is_from(w: WatchModel, prior: bool, lead: Seq<EventModel>, rest: Seq<EventModel>)
    ensures
        w.phase_after(prior, lead + rest) == phase_from(w, w.phase_after(prior, lead), rest),
    decreases rest.len(),
{
    if rest.len() == 0 {
        assert(lead + rest =~= lead);
    } else {
        lemma_after_is_from(w, prior, lead, rest.drop_last());
        assert((lead + rest).drop_last() =~= lead + rest.drop_last());
    }
}

/// What comes before the dependencies: the end of the instance before, where
/// there was one.
pub open spec fn lead_in(prior: bool) -> Seq<EventModel> {
    if prior {
        seq![EventModel::OldExited]
    } else {
        Seq::empty()
    }
}

proof fn lemma_lead_in(w: WatchModel, prior: bool)
    requires
        w.wf(),
        forall|i: int| 0 <= i < w.known.len() ==> #[trigger] w.known[i],
    ensures
        w.phase_after(prior, lead_in(prior)) == (if w.depends_on.len() == 0 {
            Phase::Spawning { used: 0 }
        } else {
            Phase::Look { dep: 0, blocked: false }
        }),
{
    reveal_with_fuel(WatchModel::phase_after, 2);
    if w.depends_on.len() > 0 {
        assert(w.known[0]);
    }
    if prior {
        assert(lead_in(prior).drop_last() =~= Seq::<EventModel>::empty());
        assert(lead_in(prior).last() == EventModel::OldExited);
    }
}

/// A process whose dependencies are all ready is started: once the instance
/// before it has ended, where there was one, and each dependency in turn was
/// found started and ready, the watcher starts the process.
pub proof fn law_ready_dependencies_start_the_process(w: WatchModel, prior: bool)
    requires
        w.wf(),
        w.depends_on.len() <= usize::MAX,
        forall|i: int| 0 <= i < w.known.len() ==> #[trigger] w.known[i],
    ensures
        w.phase_after(prior, lead_in(prior) + ready_round(w.depends_on.len()))
            == (Phase::Spawning { used: 0 }),
        w.awaits(Phase::Spawning { used: 0 }) == Action::Spawn,
{
    let n = w.depends_on.len();
    lemma_lead_in(w, prior);
    lemma_after_is_from(w, prior, lead_in(prior), ready_round(n));
    if n > 0 {
        law_ready_dependencies_are_passed(w, 0, false, n);
    } else {
        assert(ready_round(0) =~= Seq::<EventModel>::empty());
    }
}

/// Not one of these events can be left out: as long as one of them is missing
/// the process is not started.
pub proof fn law_process_waits_for_the_last_dependency(w: WatchModel, prior: bool, k: int)
    requires
        w.wf(),
        w.depends_on.len() <= usize::MAX,
        forall|i: int| 0 <= i < w.known.len() ==> #[trigger] w.known[i],
        0 <= k < 2 * w.depends_on.len(),
    ensures
        !(w.phase_after(
            prior,
            lead_in(prior) + ready_round(w.depends_on.len()).take(k),
        ) is Spawning),
{
    let n = w.depends_on.len();
    let half = (k / 2) as nat;
    let part = ready_round(n).take(k);
    lemma_lead_in(w, prior);
    lemma_after_is_from(w, prior, lead_in(prior), part);
    law_ready_dependencies_are_passed(w, 0, false, half);
    if k % 2 == 0 {
        assert(part =~= ready_round(half));
    } else {
        assert(part =~= ready_round(half).push(EventModel::DepProcess));
    }
}

/// A watcher recovers: whatever was found wanting, once every dependency from
/// the one at hand on is ready, and then all of them once more, the process is
/// started.
pub proof fn law_blocked_process_starts_in_the_end(w: WatchModel, dep: usize)
    requires
        w.wf(),
        w.depends_on.len() <= usize::MAX,
        forall|i: int| 0 <= i < w.known.len() ==> #[trigger] w.known[i],
        dep < w.depends_on.len(),
    ensures
        ({
            let n = w.depends_on.len();
            let again = phase_from(
                w,
                Phase::AwaitChange { dep, blocked: true },
                seq![EventModel::DepChanged] + ready_round((n - dep) as nat),
            );
            &&& again == (Phase::Look { dep: 0, blocked: false })
            &&& phase_from(w, again, ready_round(n)) == (Phase::Spawning { used: 0 })
        }),
{
    let n = w.depends_on.len();
    let start = Phase::AwaitChange { dep, blocked: true };
    let rest = ready_round((n - dep) as nat);
    lemma_from_concat(w, start, seq![EventModel::DepChanged], rest);
    assert(seq![EventModel::DepChanged].drop_last() =~= Seq::<EventModel>::empty());
    reveal_with_fuel(phase_from, 2);
    assert(phase_from(w, start, seq![EventModel::DepChanged]) == (Phase::Look {
        dep,
        blocked: true,
    }));
    law_ready_dependencies_are_passed(w, dep, true, (n - dep) as nat);
    law_ready_dependencies_are_passed(w, 0, false, n);
}

proof fn lemma_from_concat(w: WatchModel, phase: Phase, a: Seq<EventModel>, b: Seq<EventModel>)
    ensures
        phase_from(w, phase, a + b) == phase_from(w, phase_from(w, phase, a), b),
    decreases b.len(),
{
    if b.len() == 0 {
        assert(a + b =~= a);
    } else {
        lemma_from_concat(w, phase, a, b.drop_last());
        assert((a + b).drop_last() =~= a + b.drop_last());
    }
}

/// A dependency that there is no process for ends the watcher when its turn
/// comes, and the slot says which one it was.
pub proof fn law_unknown_dependency_is_reported(w: WatchModel, dep: usize, blocked: bool)
    requires
        w.wf(),
        w.depends_on.len() <= usize::MAX,
        dep + 1 < w.depends_on.len(),
        !w.known[dep + 1],
    ensures
        ({
            let (phase, effects) = w.next(Phase::Probing { dep, blocked }, EventModel::ProbeReady);
            &&& phase is Done
            &&& effects.contains(
                Effect::SetSpawnFailed(
                    "unknown dependency '"@ + w.depends_on[dep + 1].name + "'"@,
                ),
            )
        }),
{
    let (phase, effects) = w.next(Phase::Probing { dep, blocked }, EventModel::ProbeReady);
    assert(effects[1] == Effect::SetSpawnFailed(
        "unknown dependency '"@ + w.depends_on[dep + 1].name + "'"@,
    ));
}

/// The same where it is the first one.
pub proof fn law_unknown_first_dependency_is_reported(w: WatchModel)
    requires
        w.wf(),
        w.depends_on.len() > 0,
        !w.known[0],
    ensures
        w.first(false).0 is Done,
        w.first(false).1.contains(
            Effect::SetSpawnFailed("unknown dependency '"@ + w.depends_on[0].name + "'"@),
        ),
{
    assert(w.first(false).1[1] == Effect::SetSpawnFailed(
        "unknown dependency '"@ + w.depends_on[0].name + "'"@,
    ));
}

/// A dependency that is wanting is waited for, and the slot says why; one that
/// was only not started yet is waited for without a word in the slot. When it
/// changes it is looked at again.
pub proof fn law_wanting_dependency_is_waited_for(
    w: WatchModel,
    dep: usize,
    blocked: bool,
    why: Seq<char>,
)
    ensures
        ({
            let look = Phase::Look { dep, blocked };
            let probing = Phase::Probing { dep, blocked };
            let name = w.depends_on[dep as int].name;
            let (a, said_a) = w.next(look, EventModel::DepBlocked(why));
            let (b, said_b) = w.next(look, EventModel::DepSpawnFailed(why));
            let (c, said_c) = w.next(probing, EventModel::ProbeFailed(why));
            let (d, said_d) = w.next(look, EventModel::DepWaiting);
            &&& a == (Phase::AwaitChange { dep, blocked: true })
            &&& said_a.contains(Effect::SetBlocked("dep "@ + name + " blocked ("@ + why + ")"@))
            &&& b == (Phase::AwaitChange { dep, blocked: true })
            &&& said_b.contains(Effect::SetBlocked("dep "@ + name + " spawn failed: "@ + why))
            &&& c == (Phase::AwaitChange { dep, blocked: true })
            &&& said_c.contains(Effect::SetBlocked("dep "@ + name + ": "@ + why))
            &&& d == (Phase::AwaitChange { dep, blocked })
            &&& forall|x: Seq<char>| !#[trigger] said_d.contains(Effect::SetBlocked(x))
            &&& w.next(Phase::AwaitChange { dep, blocked }, EventModel::DepChanged).0 == look
            &&& w.next(Phase::AwaitChange { dep, blocked }, EventModel::DepGone).0 is Done
        }),
{
    let look = Phase::Look { dep, blocked };
    let name = w.depends_on[dep as int].name;
    assert(w.next(look, EventModel::DepBlocked(why)).1[1] == Effect::SetBlocked(
        "dep "@ + name + " blocked ("@ + why + ")"@,
    ));
    assert(w.next(look, EventModel::DepSpawnFailed(why)).1[1] == Effect::SetBlocked(
        "dep "@ + name + " spawn failed: "@ + why,
    ));
    assert(w.next(Phase::Probing { dep, blocked }, EventModel::ProbeFailed(why)).1[1]
        == Effect::SetBlocked("dep "@ + name + ": "@ + why));
}

/// An end is followed by another attempt exactly where nobody asked for it, it
/// is a failure, and the policy has attempts left. A failure is any end of a
/// long-lived process, and for others an end by a signal or with a code other
/// than 0. The retries are used up exactly where only the attempts are missing.
pub proof fn law_ends_are_judged(
    w: WatchModel,
    used: u32,
    info: crate::status::ExitModel,
    suppressed: bool,
)
    ensures
        ({
            let (phase, effects) = w.next(
                Phase::Monitoring { used },
                EventModel::Exited { status: StatusModel::Exited(info), suppressed },
            );
            let failed = w.long_lived || info.code != 0 || info.signal is Some;
            let wanted = !suppressed && failed;
            let left = w.retry matches Some(policy) && used < policy.max_retries;
            &&& phase is Sleeping <==> wanted && left
            &&& phase is Sleeping ==> phase->Sleeping_used == used + 1
            &&& !(phase is Sleeping) ==> phase is Done
            &&& effects.contains(Effect::<Seq<char>>::MarkExhausted) <==> wanted && !left
                && w.retry is Some
        }),
{
    let event = EventModel::Exited { status: StatusModel::Exited(info), suppressed };
    law_exhausted_iff_budget_used(w, Phase::Monitoring { used }, event);
}

/// What comes of an attempt to start the process: with a policy the watcher
/// stays to see it end, without one it is done; a start that failed or was
/// refused is not tried again.
pub proof fn law_starts_have_outcomes(w: WatchModel, used: u32, pid: u32, why: Seq<char>)
    ensures
        ({
            let phase = Phase::Spawning { used };
            let (ok, said) = w.next(phase, EventModel::Spawned { pid });
            let (bad, said_bad) = w.next(phase, EventModel::SpawnFailed(why));
            &&& ok == (if w.retry is Some {
                Phase::Monitoring { used }
            } else {
                Phase::Done
            })
            &&& said.contains(Effect::<Seq<char>>::SetProcess)
            &&& said.contains(Effect::<Seq<char>>::Say(Diag::Spawned { pid }))
            &&& bad is Done
            &&& said_bad.contains(Effect::SetSpawnFailed(why))
            &&& w.next(phase, EventModel::StartRefused).0 is Done
        }),
{
    let phase = Phase::Spawning { used };
    let said = w.next(phase, EventModel::Spawned { pid }).1;
    assert(said[0] == Effect::<Seq<char>>::Say(Diag::Spawned { pid }));
    assert(said[1] == Effect::<Seq<char>>::SetProcess);
    assert(w.next(phase, EventModel::SpawnFailed(why)).1[1] == Effect::SetSpawnFailed(why));
}

/// A slot is changed by nothing else: it holds a process only after a start,
/// and is blocked only on account of a dependency.
pub proof fn law_slots_change_for_a_reason(
    w: WatchModel,
    phase: Phase,
    event: EventModel,
    why: Seq<char>,
)
    ensures
        ({
            let effects = w.next(phase, event).1;
            &&& effects.contains(Effect::<Seq<char>>::SetProcess) ==> phase is Spawning
                && event is Spawned
            &&& effects.contains(Effect::SetBlocked(why)) ==> (phase is Look && (event is DepBlocked
                || event is DepSpawnFailed)) || (phase is Probing && event is ProbeFailed)
            &&& effects.contains(Effect::SetSpawnFailed(why)) ==> (phase is Spawning
                && event is SpawnFailed) || (phase is AwaitOld && event is OldExited) || (
            phase is Probing && event is ProbeReady)
        }),
{
}

/// An event that a phase does not wait for changes nothing.
pub proof fn law_other_events_change_nothing(w: WatchModel, phase: Phase, event: EventModel)
    requires
        match phase {
            Phase::AwaitOld => !(event is OldExited),
            Phase::Look { .. } => !(event is DepWaiting || event is DepBlocked
                || event is DepProcess || event is DepSpawnFailed),
            Phase::Probing { .. } => !(event is ProbeReady || event is ProbeFailed),
            Phase::AwaitChange { .. } => !(event is DepChanged || event is DepGone),
            Phase::Spawning { .. } => !(event is Spawned || event is SpawnFailed
                || event is StartRefused),
            Phase::Monitoring { .. } => !(event is Exited),
            Phase::Sleeping { .. } => !(event is Woke),
            Phase::Done => true,
        },
    ensures
        w.next(phase, event) == (phase, Seq::<Effect<Seq<char>>>::empty()),
{
}

/// A watcher asks for what its phase waits for: it looks at, probes and waits
/// for the dependency at hand, starts the process and sees it end, and sleeps
/// for the delay of the attempt that comes next.
pub proof fn law_watcher_asks_for_what_it_waits(w: WatchModel, dep: usize, blocked: bool, used: u32)
    ensures
        w.awaits(Phase::AwaitOld) is AwaitOldExit,
        w.awaits(Phase::Look { dep, blocked }) == (Action::ReadSlot { dep }),
        w.awaits(Phase::Probing { dep, blocked }) == (Action::Probe { dep }),
        w.awaits(Phase::AwaitChange { dep, blocked }) == (Action::AwaitSlotChange { dep }),
        w.awaits(Phase::Spawning { used }) is Spawn,
        w.awaits(Phase::Monitoring { used }) is AwaitExit,
        w.retry matches Some(policy) ==> w.awaits(Phase::Sleeping { used }) == (Action::Sleep {
            ms: delay_before(policy, used as nat) as u128,
        }),
        w.awaits(Phase::Done) is Stop,
        w.next(Phase::Sleeping { used }, EventModel::Woke { suppressed: false }).0
            == (Phase::Spawning { used }),
{
}

/// What is said about an attempt that comes: which one it is, of how many, and
/// after how long.
pub proof fn law_retries_are_announced(w: WatchModel, used: u32, status: StatusModel)
    requires
        w.retry matches Some(policy) && used < policy.max_retries,
        is_failure(w.long_lived, status),
    ensures
        w.next(
            Phase::Monitoring { used },
            EventModel::Exited { status, suppressed: false },
        ).1.contains(
            Effect::Say(
                Diag::Retrying {
                    exit: status_text(status),
                    attempt: (used + 1) as u32,
                    max: w.retry->0.max_retries,
                    delay_ms: delay_before(w.retry->0, (used + 1) as nat) as u128,
                },
            ),
        ),
{
    assert(w.next(
        Phase::Monitoring { used },
        EventModel::Exited { status, suppressed: false },
    ).1[0] == Effect::<Seq<char>>::Say(
        Diag::Retrying {
            exit: status_text(status),
            attempt: (used + 1) as u32,
            max: w.retry->0.max_retries,
            delay_ms: delay_before(w.retry->0, (used + 1) as nat) as u128,
        },
    ));
}

/// A watcher that is woken after someone asked for the end of its process does
/// not start it again. What is no exit counts as a failure.
pub proof fn law_unwanted_processes_stay_down(w: WatchModel, used: u32, status: StatusModel)
    ensures
        w.next(Phase::Sleeping { used }, EventModel::Woke { suppressed: true }) == (
            Phase::Done,
            seq![Effect::<Seq<char>>::Say(Diag::StoppedInBackoff)],
        ),
        w.next(Phase::Monitoring { used }, EventModel::Exited { status, suppressed: true }) == (
            Phase::Done,
            seq![Effect::<Seq<char>>::Say(Diag::StoppedByRequest)],
        ),
        !(status is Exited) ==> is_failure(w.long_lived, status),
{
}

/// A watcher says what it does: that it waits for an old process, or for which
/// dependencies; which one it checks, and until when; that one is ready, or why
/// it is not; and that the process is started, or how it ended.
pub proof fn law_progress_is_said(
    w: WatchModel,
    dep: usize,
    blocked: bool,
    used: u32,
    why: Seq<char>,
    info: crate::status::ExitModel,
)
    ensures
        ({
            let look = Phase::Look { dep, blocked };
            let probing = Phase::Probing { dep, blocked };
            let monitoring = Phase::Monitoring { used };
            let name = w.depends_on[dep as int].name;
            let over = EventModel::Exited { status: StatusModel::Exited(info), suppressed: false };
            let failed = w.long_lived || info.code != 0 || info.signal is Some;
            &&& w.first(true) == (
                Phase::AwaitOld,
                seq![Effect::<Seq<char>>::Say(Diag::WaitingForOld)],
            )
            &&& w.depends_on.len() == 0 ==> w.first(false).1[0] == Effect::<Seq<char>>::Say(
                Diag::NoDependencies,
            )
            &&& w.depends_on.len() > 0 ==> w.first(false).1[0] == Effect::<Seq<char>>::Say(
                Diag::WaitingOn {
                    names: joined(
                        Seq::new(w.depends_on.len(), |i: int| w.depends_on[i].name),
                        seq![',', ' '],
                    ),
                },
            )
            &&& w.next(look, EventModel::DepProcess).1 == seq![
                Effect::<Seq<char>>::Say(
                    Diag::CheckingDep {
                        name,
                        until: condition_text(w.depends_on[dep as int].until),
                    },
                ),
            ]
            &&& w.next(look, EventModel::DepWaiting).1 == seq![
                Effect::<Seq<char>>::Say(Diag::DepNotSpawned { name }),
            ]
            &&& w.next(look, EventModel::DepBlocked(why)).1[0] == Effect::<Seq<char>>::Say(
                Diag::DepBlocked { name, why },
            )
            &&& w.next(look, EventModel::DepSpawnFailed(why)).1[0] == Effect::<Seq<char>>::Say(
                Diag::DepSpawnFailed { name, why },
            )
            &&& w.next(probing, EventModel::ProbeReady).1[0] == Effect::<Seq<char>>::Say(
                Diag::DepReady { name },
            )
            &&& w.next(probing, EventModel::ProbeFailed(why)).1[0] == Effect::<Seq<char>>::Say(
                Diag::DepFailed { name, why },
            )
            &&& w.next(Phase::Sleeping { used }, EventModel::Woke { suppressed: false }).1 == seq![
                Effect::<Seq<char>>::Say(Diag::Spawning),
            ]
            &&& !failed ==> w.next(monitoring, over).1 == seq![
                Effect::<Seq<char>>::Say(Diag::Succeeded),
            ]
            &&& failed && w.retry is Some && used >= w.retry->0.max_retries ==> w.next(
                monitoring,
                over,
            ).1[0] == Effect::<Seq<char>>::Say(
                Diag::Exhausted {
                    exit: status_text(StatusModel::Exited(info)),
                    used,
                    max: w.retry->0.max_retries,
                },
            )
        }),
{
    reveal_strlit(", ");
    assert(", "@ =~= seq![',', ' ']);
    assert(dependency_names(w.depends_on) =~= Seq::new(
        w.depends_on.len(),
        |i: int| w.depends_on[i].name,
    ));
}

/// A condition reads as what it waits for.
pub proof fn law_conditions_read_as_what_they_wait_for(port: u16, pattern: Seq<char>, code: i32)
    ensures
        condition_text(ConditionModel::Port(port)) == "Port("@ + decimal(port as nat) + ")"@,
        condition_text(ConditionModel::Log(pattern)) == "Log("@ + quoted(pattern) + ")"@,
        condition_text(ConditionModel::Exit(code)) == "Exit("@ + signed_decimal(code as int)
            + ")"@,
{
}

/// An event means what it says.
pub proof fn law_events_mean_what_they_say(e: Event)
    ensures
        e is OldExited <==> e@ is OldExited,
        e is ProbeReady <==> e@ is ProbeReady,
        e is DepChanged <==> e@ is DepChanged,
        e is DepGone <==> e@ is DepGone,
        e is StartRefused <==> e@ is StartRefused,
        e == Event::DepSlot(DepState::Process) <==> e@ is DepProcess,
        e == Event::DepSlot(DepState::Waiting) <==> e@ is DepWaiting,
        e matches Event::DepSlot(DepState::Blocked(why)) ==> e@ == EventModel::DepBlocked(why@),
        e matches Event::DepSlot(DepState::SpawnFailed(why)) ==> e@ == EventModel::DepSpawnFailed(
            why@,
        ),
        e matches Event::ProbeFailed(why) ==> e@ == EventModel::ProbeFailed(why@),
        e matches Event::SpawnFailed(why) ==> e@ == EventModel::SpawnFailed(why@),
        e matches Event::Spawned { pid } ==> e@ == (EventModel::Spawned { pid }),
        e matches Event::Woke { suppressed } ==> e@ == (EventModel::Woke { suppressed }),
        e matches Event::Exited { status, suppressed } ==> e@ == (EventModel::Exited {
            status: status@,
            suppressed,
        }),
{
}

/// A watcher knows what it was given.
pub proof fn law_watchers_know_what_they_were_given(w: Watch, i: int)
    ensures
        w@.depends_on.len() == w.depends_on@.len(),
        0 <= i < w.depends_on@.len() ==> w@.depends_on[i] == w.depends_on@[i]@,
        w@.known == w.known@,
        w@.long_lived == w.long_lived,
        w@.retry == w.retry,
{
}

} // verus!
