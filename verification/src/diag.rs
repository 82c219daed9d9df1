//! What a watcher says of its progress, and the log that keeps it.

use std::collections::VecDeque;

use vstd::prelude::*;
use vstd::string::StringExecFns;

#[allow(unused_imports)]
use crate::text::{decimal, signed_decimal};
use crate::text::{decimal_text, signed_decimal_text};

verus! {

/// One thing that a watcher says, over the texts in it.
pub enum Diag<T> {
    WaitingForOld,
    OldExited,
    NoDependencies,
    WaitingOn { names: T },
    CheckingDep { name: T, until: T },
    DepReady { name: T },
    DepFailed { name: T, why: T },
    DepBlocked { name: T, why: T },
    DepSpawnFailed { name: T, why: T },
    DepNotSpawned { name: T },
    Spawning,
    SpawnFailed { why: T },
    Spawned { pid: u32 },
    StoppedByRequest,
    Succeeded,
    Exhausted { exit: T, used: u32, max: u32 },
    Retrying { exit: T, attempt: u32, max: u32, delay_ms: u128 },
    StoppedInBackoff,
    PortDepExited { port: u16, name: T },
    PortConnected { port: u16, host: T },
    PortNoConnect { port: u16, attempt: u32, delay_ms: u128 },
    LogMatched { pattern: T },
    LogMatchedAfterExit { pattern: T },
    LogDepExited { pattern: T },
    LogNoMatch { pattern: T, bytes: usize },
    AwaitingExit { name: T, expected: i32 },
    ExitedAsExpected { name: T, code: u32 },
    ExitedOtherwise { name: T, code: u32, expected: i32 },
    ExitDepSpawnFailed { name: T, why: T },
}

impl View for Diag<String> {
    type V = Diag<Seq<char>>;

    open spec fn view(&self) -> Diag<Seq<char>> {
        match *self {
            Diag::WaitingForOld => Diag::WaitingForOld,
            Diag::OldExited => Diag::OldExited,
            Diag::NoDependencies => Diag::NoDependencies,
            Diag::WaitingOn { names } => Diag::WaitingOn { names: names@ },
            Diag::CheckingDep { name, until } => Diag::CheckingDep { name: name@, until: until@ },
            Diag::DepReady { name } => Diag::DepReady { name: name@ },
            Diag::DepFailed { name, why } => Diag::DepFailed { name: name@, why: why@ },
            Diag::DepBlocked { name, why } => Diag::DepBlocked { name: name@, why: why@ },
            Diag::DepSpawnFailed { name, why } => Diag::DepSpawnFailed { name: name@, why: why@ },
            Diag::DepNotSpawned { name } => Diag::DepNotSpawned { name: name@ },
            Diag::Spawning => Diag::Spawning,
            Diag::SpawnFailed { why } => Diag::SpawnFailed { why: why@ },
            Diag::Spawned { pid } => Diag::Spawned { pid },
            Diag::StoppedByRequest => Diag::StoppedByRequest,
            Diag::Succeeded => Diag::Succeeded,
            Diag::Exhausted { exit, used, max } => Diag::Exhausted { exit: exit@, used, max },
            Diag::Retrying { exit, attempt, max, delay_ms } => Diag::Retrying {
                exit: exit@,
                attempt,
                max,
                delay_ms,
            },
            Diag::StoppedInBackoff => Diag::StoppedInBackoff,
            Diag::PortDepExited { port, name } => Diag::PortDepExited { port, name: name@ },
            Diag::PortConnected { port, host } => Diag::PortConnected { port, host: host@ },
            Diag::PortNoConnect { port, attempt, delay_ms } => Diag::PortNoConnect {
                port,
                attempt,
                delay_ms,
            },
            Diag::LogMatched { pattern } => Diag::LogMatched { pattern: pattern@ },
            Diag::LogMatchedAfterExit { pattern } => Diag::LogMatchedAfterExit {
                pattern: pattern@,
            },
            Diag::LogDepExited { pattern } => Diag::LogDepExited { pattern: pattern@ },
            Diag::LogNoMatch { pattern, bytes } => Diag::LogNoMatch { pattern: pattern@, bytes },
            Diag::AwaitingExit { name, expected } => Diag::AwaitingExit { name: name@, expected },
            Diag::ExitedAsExpected { name, code } => Diag::ExitedAsExpected { name: name@, code },
            Diag::ExitedOtherwise { name, code, expected } => Diag::ExitedOtherwise {
                name: name@,
                code,
                expected,
            },
            Diag::ExitDepSpawnFailed { name, why } => Diag::ExitDepSpawnFailed {
                name: name@,
                why: why@,
            },
        }
    }
}

/// How a diagnostic reads.
pub open spec fn diag_text(d: Diag<Seq<char>>) -> Seq<char> {
    match d {
        Diag::WaitingForOld => "waiting for previous instance to exit"@,
        Diag::OldExited => "previous instance exited"@,
        Diag::NoDependencies => "no dependencies, spawning"@,
        Diag::WaitingOn { names } => "waiting on dependencies: "@ + names,
        Diag::CheckingDep { name, until } => "checking dep '"@ + name + "' ("@ + until + ")"@,
        Diag::DepReady { name } => "dep '"@ + name + "' ready"@,
        Diag::DepFailed { name, why } => "dep '"@ + name + "' failed: "@ + why,
        Diag::DepBlocked { name, why } => "dep '"@ + name + "' is blocked: "@ + why,
        Diag::DepSpawnFailed { name, why } => "dep '"@ + name + "' spawn failed: "@ + why,
        Diag::DepNotSpawned { name } => "dep '"@ + name + "' not spawned yet"@,
        Diag::Spawning => "all dependencies ready; spawning"@,
        Diag::SpawnFailed { why } => "spawn failed: "@ + why,
        Diag::Spawned { pid } => "spawned (pid "@ + decimal(pid as nat) + ")"@,
        Diag::StoppedByRequest => "process terminated by request; not retrying"@,
        Diag::Succeeded => "exited successfully; no retry needed"@,
        Diag::Exhausted { exit, used, max } => "exited ("@ + exit + "); retries exhausted ("@
            + decimal(used as nat) + "/"@ + decimal(max as nat) + ")"@,
        Diag::Retrying { exit, attempt, max, delay_ms } => "exited ("@ + exit + "); retry "@
            + decimal(attempt as nat) + "/"@ + decimal(max as nat) + " in "@ + decimal(
            delay_ms as nat,
        ) + "ms"@,
        Diag::StoppedInBackoff => "termination requested during backoff; not retrying"@,
        Diag::PortDepExited { port, name } => "port "@ + decimal(port as nat) + ": dep '"@ + name
            + "' exited"@,
        Diag::PortConnected { port, host } => "port "@ + decimal(port as nat) + ": "@ + host
            + " OK"@,
        Diag::PortNoConnect { port, attempt, delay_ms } => "port "@ + decimal(port as nat)
            + ": no connect (attempt "@ + decimal(attempt as nat) + ", retry in "@ + decimal(
            delay_ms as nat,
        ) + "ms)"@,
        Diag::LogMatched { pattern } => "log /"@ + pattern + "/ matched"@,
        Diag::LogMatchedAfterExit { pattern } => "log /"@ + pattern + "/ matched (after exit)"@,
        Diag::LogDepExited { pattern } => "log /"@ + pattern + "/: dep exited without match"@,
        Diag::LogNoMatch { pattern, bytes } => "log /"@ + pattern + "/: no match yet ("@ + decimal(
            bytes as nat,
        ) + " bytes scanned)"@,
        Diag::AwaitingExit { name, expected } => "waiting for '"@ + name
            + "' to exit with code "@ + signed_decimal(expected as int),
        Diag::ExitedAsExpected { name, code } => "'"@ + name + "' exited "@ + decimal(code as nat),
        Diag::ExitedOtherwise { name, code, expected } => "'"@ + name + "' exited "@ + decimal(
            code as nat,
        ) + " (expected "@ + signed_decimal(expected as int) + ")"@,
        Diag::ExitDepSpawnFailed { name, why } => "'"@ + name + "' spawn failed: "@ + why,
    }
}

fn around(before: &str, middle: &String, after: &str) -> (text: String)
    ensures
        text@ == before@ + middle@ + after@,
{
    let mut text = before.to_owned();
    text.append(middle.as_str());
    text.append(after);
    text
}

fn around_number(before: &str, n: u128, after: &str) -> (text: String)
    ensures
        text@ == before@ + decimal(n as nat) + after@,
{
    let mut text = before.to_owned();
    text.append(decimal_text(n).as_str());
    text.append(after);
    text
}

impl Diag<String> {
    /// How this diagnostic reads.
    pub fn text(&self) -> (text: String)
        ensures
            text@ == diag_text(self@),
    {
        match self {
            Diag::WaitingForOld => "waiting for previous instance to exit".to_owned(),
            Diag::OldExited => "previous instance exited".to_owned(),
            Diag::NoDependencies => "no dependencies, spawning".to_owned(),
            Diag::WaitingOn { names } => {
                let mut text = "waiting on dependencies: ".to_owned();
                text.append(names.as_str());
                text
            },
            Diag::CheckingDep { name, until } => {
                let mut text = around("checking dep '", name, "' (");
                text.append(until.as_str());
                text.append(")");
                text
            },
            Diag::DepReady { name } => around("dep '", name, "' ready"),
            Diag::DepFailed { name, why } => {
                let mut text = around("dep '", name, "' failed: ");
                text.append(why.as_str());
                text
            },
            Diag::DepBlocked { name, why } => {
                let mut text = around("dep '", name, "' is blocked: ");
                text.append(why.as_str());
                text
            },
            Diag::DepSpawnFailed { name, why } => {
                let mut text = around("dep '", name, "' spawn failed: ");
                text.append(why.as_str());
                text
            },
            Diag::DepNotSpawned { name } => around("dep '", name, "' not spawned yet"),
            Diag::Spawning => "all dependencies ready; spawning".to_owned(),
            Diag::SpawnFailed { why } => {
                let mut text = "spawn failed: ".to_owned();
                text.append(why.as_str());
                text
            },
            Diag::Spawned { pid } => around_number("spawned (pid ", *pid as u128, ")"),
            Diag::StoppedByRequest => "process terminated by request; not retrying".to_owned(),
            Diag::Succeeded => "exited successfully; no retry needed".to_owned(),
            Diag::Exhausted { exit, used, max } => {
                let mut text = around("exited (", exit, "); retries exhausted (");
                text.append(decimal_text(*used as u128).as_str());
                text.append("/");
                text.append(decimal_text(*max as u128).as_str());
                text.append(")");
                text
            },
            Diag::Retrying { exit, attempt, max, delay_ms } => {
                let mut text = around("exited (", exit, "); retry ");
                text.append(decimal_text(*attempt as u128).as_str());
                text.append("/");
                text.append(decimal_text(*max as u128).as_str());
                text.append(" in ");
                text.append(decimal_text(*delay_ms).as_str());
                text.append("ms");
                text
            },
            Diag::StoppedInBackoff => {
                "termination requested during backoff; not retrying".to_owned()
            },
            Diag::PortDepExited { port, name } => {
                let mut text = around_number("port ", *port as u128, ": dep '");
                text.append(name.as_str());
                text.append("' exited");
                text
            },
            Diag::PortConnected { port, host } => {
                let mut text = around_number("port ", *port as u128, ": ");
                text.append(host.as_str());
                text.append(" OK");
                text
            },
            Diag::PortNoConnect { port, attempt, delay_ms } => {
                let mut text = around_number("port ", *port as u128, ": no connect (attempt ");
                text.append(decimal_text(*attempt as u128).as_str());
                text.append(", retry in ");
                text.append(decimal_text(*delay_ms).as_str());
                text.append("ms)");
                text
            },
            Diag::LogMatched { pattern } => around("log /", pattern, "/ matched"),
            Diag::LogMatchedAfterExit { pattern } => around(
                "log /",
                pattern,
                "/ matched (after exit)",
            ),
            Diag::LogDepExited { pattern } => around(
                "log /",
                pattern,
                "/: dep exited without match",
            ),
            Diag::LogNoMatch { pattern, bytes } => {
                let mut text = around("log /", pattern, "/: no match yet (");
                text.append(decimal_text(*bytes as u128).as_str());
                text.append(" bytes scanned)");
                text
            },
            Diag::AwaitingExit { name, expected } => {
                let mut text = around("waiting for '", name, "' to exit with code ");
                text.append(signed_decimal_text(*expected).as_str());
                text
            },
            Diag::ExitedAsExpected { name, code } => {
                let mut text = around("'", name, "' exited ");
                text.append(decimal_text(*code as u128).as_str());
                text
            },
            Diag::ExitedOtherwise { name, code, expected } => {
                let mut text = around("'", name, "' exited ");
                text.append(decimal_text(*code as u128).as_str());
                text.append(" (expected ");
                text.append(signed_decimal_text(*expected).as_str());
                text.append(")");
                text
            },
            Diag::ExitDepSpawnFailed { name, why } => {
                let mut text = around("'", name, "' spawn failed: ");
                text.append(why.as_str());
                text
            },
        }
    }
}

// ---- the time of day ----

/// A number below 100 in two digits.
pub open spec fn two_digits(n: nat) -> Seq<char> {
    if n < 10 {
        "0"@ + decimal(n)
    } else {
        decimal(n)
    }
}

/// The time of day, in UTC, of a number of seconds since the epoch.
pub open spec fn hms(secs: nat) -> Seq<char> {
    two_digits((secs / 3600) % 24) + ":"@ + two_digits((secs / 60) % 60) + ":"@ + two_digits(
        secs % 60,
    )
}

fn two_digit_text(n: u64) -> (text: String)
    ensures
        text@ == two_digits(n as nat),
{
    if n < 10 {
        let mut text = "0".to_owned();
        text.append(decimal_text(n as u128).as_str());
        text
    } else {
        decimal_text(n as u128)
    }
}

/// The time of day, as `HH:MM:SS`, of a number of seconds since the epoch.
pub fn now_hms(secs: u64) -> (text: String)
    ensures
        text@ == hms(secs as nat),
{
    let mut text = two_digit_text((secs / 3600) % 24);
    text.append(":");
    text.append(two_digit_text((secs / 60) % 60).as_str());
    text.append(":");
    text.append(two_digit_text(secs % 60).as_str());
    text
}

// ---- the log of a watcher ----

/// How many lines the log keeps.
pub const DIAG_CAP: usize = 200;

/// The last `DIAG_CAP` diagnostics, oldest first.
pub struct DiagLog {
    lines: VecDeque<String>,
}

/// The last `n` items of a list.
pub open spec fn last_of<A>(items: Seq<A>, n: int) -> Seq<A> {
    if items.len() <= n {
        items
    } else {
        items.skip(items.len() - n)
    }
}

/// A diagnostic as the log keeps it.
pub open spec fn diag_line(secs: nat, text: Seq<char>) -> Seq<char> {
    "["@ + hms(secs) + "] "@ + text
}

impl View for DiagLog {
    type V = Seq<Seq<char>>;

    closed spec fn view(&self) -> Seq<Seq<char>> {
        Seq::new(self.lines@.len(), |i: int| self.lines@[i]@)
    }
}

impl DiagLog {
    #[verifier::type_invariant]
    spec fn within_cap(self) -> bool {
        self.lines@.len() <= DIAG_CAP
    }

    pub fn new() -> (log: DiagLog)
        ensures
            log@ == Seq::<Seq<char>>::empty(),
    {
        let log = DiagLog { lines: VecDeque::new() };
        assert(log@ =~= Seq::empty());
        log
    }

    /// Add a diagnostic. Where the log is full, its oldest line goes.
    pub fn push(&mut self, secs: u64, diag: &Diag<String>)
        ensures
            final(self)@ == last_of(
                old(self)@.push(diag_line(secs as nat, diag_text(diag@))),
                DIAG_CAP as int,
            ),
            old(self)@.len() <= DIAG_CAP,
            final(self)@.len() <= DIAG_CAP,
    {
        proof {
            use_type_invariant(&*self);
        }
        let ghost before = self@;
        let mut line = "[".to_owned();
        line.append(now_hms(secs).as_str());
        line.append("] ");
        line.append(diag.text().as_str());
        let mut lines: VecDeque<String> = VecDeque::new();
        std::mem::swap(&mut lines, &mut self.lines);
        lines.push_back(line);
        if lines.len() > DIAG_CAP {
            let _ = lines.pop_front();
        }
        self.lines = lines;
        assert(self@ =~= last_of(before.push(line@), DIAG_CAP as int));
    }

    /// The lines, oldest first.
    pub fn lines(&self) -> (list: Vec<String>)
        ensures
            crate::text::texts(list@) == self@,
    {
        let mut list: Vec<String> = Vec::new();
        let mut i: usize = 0;
        while i < self.lines.len()
            invariant
                i <= self.lines@.len(),
                list@.len() == i,
                forall|j: int| 0 <= j < i ==> (#[trigger] list@[j])@ == self.lines@[j]@,
            decreases self.lines@.len() - i,
        {
            list.push(self.lines[i].clone());
            i = i + 1;
        }
        assert(crate::text::texts(list@) =~= self@);
        list
    }
}

// ---- what times and logs look like ----

/// A time of day has two digits each for hours, minutes and seconds, with colons
/// between them, and starts again each day.
pub proof fn law_times_of_day(day: nat, h: nat, m: nat, s: nat)
    requires
        h < 24,
        m < 60,
        s < 60,
    ensures
        hms(day * 86400 + h * 3600 + m * 60 + s) == seq![
            (48 + h / 10) as char,
            (48 + h % 10) as char,
            ':',
            (48 + m / 10) as char,
            (48 + m % 10) as char,
            ':',
            (48 + s / 10) as char,
            (48 + s % 10) as char,
        ],
{
    let t = day * 86400 + h * 3600 + m * 60 + s;
    assert(t % 60 == s);
    assert(t / 60 == day * 1440 + h * 60 + m);
    assert((t / 60) % 60 == m);
    assert(t / 3600 == day * 24 + h);
    assert((t / 3600) % 24 == h);
    lemma_two_digits(h);
    lemma_two_digits(m);
    lemma_two_digits(s);
    reveal_strlit(":");
    assert(hms(t) =~= seq![
        (48 + h / 10) as char,
        (48 + h % 10) as char,
        ':',
        (48 + m / 10) as char,
        (48 + m % 10) as char,
        ':',
        (48 + s / 10) as char,
        (48 + s % 10) as char,
    ]);
}

proof fn lemma_two_digits(n: nat)
    requires
        n < 100,
    ensures
        two_digits(n) == seq![(48 + n / 10) as char, (48 + n % 10) as char],
{
    reveal_strlit("0");
    reveal_with_fuel(decimal, 2);
    assert(two_digits(n) =~= seq![(48 + n / 10) as char, (48 + n % 10) as char]);
}

/// A diagnostic is kept with the time at which it was said in front of it.
pub proof fn law_diagnostics_have_their_time(secs: nat, text: Seq<char>)
    ensures
        diag_line(secs, text) == seq!['['] + hms(secs) + seq![']', ' '] + text,
{
    reveal_strlit("[");
    reveal_strlit("] ");
    assert(diag_line(secs, text) =~= seq!['['] + hms(secs) + seq![']', ' '] + text);
}

/// The last items of a list are its end, as many as are asked for or as there
/// are. Two hundred diagnostics are kept.
pub proof fn law_last_items_are_the_end(items: Seq<int>, n: int)
    requires
        0 <= n,
    ensures
        last_of(items, n).len() == (if items.len() <= n {
            items.len() as int
        } else {
            n
        }),
        last_of(items, n) == items.skip(items.len() - last_of(items, n).len()),
        DIAG_CAP == 200,
{
    if items.len() <= n {
        assert(items.skip(0) =~= items);
    }
}

} // verus!
