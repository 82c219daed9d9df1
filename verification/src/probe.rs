//! Waiting until a dependency is ready.
//!
//! A probe is asked again and again: each check takes what was observed and
//! gives a verdict, and sometimes something to say.

use vstd::prelude::*;
use vstd::string::StringExecFns;

use crate::diag::Diag;
use crate::pattern::{find_pattern, lossy_text};
#[allow(unused_imports)]
use crate::pattern::{lossy, pattern_occurs, pattern_problem};
use crate::status::Status;
#[allow(unused_imports)]
use crate::status::StatusModel;
#[allow(unused_imports)]
use crate::text::{decimal, signed_decimal};
use crate::text::{decimal_text, signed_decimal_text};

verus! {

/// What a check comes to.
pub enum Verdict<T> {
    /// The dependency is ready.
    Ready,
    /// It will not become ready as it is.
    Failed(T),
    /// Check again after this many milliseconds.
    Again { after_ms: u64 },
    /// Check again when the status of the dependency changes.
    OnChange,
}

/// A verdict, and what is to be said about it.
pub struct Check<T> {
    pub said: Option<Diag<T>>,
    pub verdict: Verdict<T>,
}

impl View for Verdict<String> {
    type V = Verdict<Seq<char>>;

    open spec fn view(&self) -> Verdict<Seq<char>> {
        match *self {
            Verdict::Ready => Verdict::Ready,
            Verdict::Failed(why) => Verdict::Failed(why@),
            Verdict::Again { after_ms } => Verdict::Again { after_ms },
            Verdict::OnChange => Verdict::OnChange,
        }
    }
}

impl View for Check<String> {
    type V = Check<Seq<char>>;

    open spec fn view(&self) -> Check<Seq<char>> {
        Check {
            said: match self.said {
                Some(d) => Some(d@),
                None => None,
            },
            verdict: self.verdict@,
        }
    }
}

fn speak(said: Diag<String>, verdict: Verdict<String>) -> (check: Check<String>)
    ensures
        check@ == (Check { said: Some(said@), verdict: verdict@ }),
{
    Check { said: Some(said), verdict }
}

// ---- until a port accepts ----

/// The first delay between two attempts to connect.
pub const FIRST_PORT_DELAY_MS: u64 = 50;

/// The longest delay between two attempts to connect.
pub const LONGEST_PORT_DELAY_MS: u64 = 2000;

/// Waits until a connection to a port succeeds.
pub struct PortProbe {
    pub port: u16,
    /// The dependency.
    pub name: String,
    pub attempt: u32,
    pub delay_ms: u64,
}

/// What an attempt to connect comes to.
pub open spec fn port_check(
    port: u16,
    name: Seq<char>,
    attempt: u32,
    delay_ms: u64,
    running: bool,
    v4: bool,
    v6: bool,
) -> Check<Seq<char>> {
    if !running {
        Check {
            said: Some(Diag::PortDepExited { port, name }),
            verdict: Verdict::Failed(
                "exited before port "@ + decimal(port as nat) + " accepted"@,
            ),
        }
    } else if v4 {
        Check {
            said: Some(Diag::PortConnected { port, host: "127.0.0.1"@ }),
            verdict: Verdict::Ready,
        }
    } else if v6 {
        Check {
            said: Some(Diag::PortConnected { port, host: "::1"@ }),
            verdict: Verdict::Ready,
        }
    } else {
        Check {
            said: if attempt == 1 || attempt % 3 == 0 {
                Some(Diag::PortNoConnect { port, attempt, delay_ms: delay_ms as u128 })
            } else {
                None
            },
            verdict: Verdict::Again { after_ms: delay_ms },
        }
    }
}

/// The delay after the next attempt: twice as long, up to the longest.
pub open spec fn next_port_delay(delay_ms: u64) -> int {
    if 2 * delay_ms > LONGEST_PORT_DELAY_MS {
        LONGEST_PORT_DELAY_MS as int
    } else {
        2 * delay_ms
    }
}

impl PortProbe {
    /// Whether the delay is one that occurs.
    pub open spec fn wf(self) -> bool {
        FIRST_PORT_DELAY_MS <= self.delay_ms <= LONGEST_PORT_DELAY_MS
    }

    pub fn new(port: u16, name: &str) -> (probe: PortProbe)
        ensures
            probe.wf(),
            probe.port == port,
            probe.name@ == name@,
            probe.attempt == 0,
            probe.delay_ms == FIRST_PORT_DELAY_MS,
    {
        PortProbe { port, name: name.to_owned(), attempt: 0, delay_ms: FIRST_PORT_DELAY_MS }
    }

    /// Take one attempt into account: whether the dependency still ran before
    /// it, and whether the IPv4 or the IPv6 loopback address accepted.
    pub fn check(&mut self, running: bool, v4: bool, v6: bool) -> (check: Check<String>)
        requires
            old(self).wf(),
        ensures
            final(self).wf(),
            final(self).port == old(self).port,
            final(self).name == old(self).name,
            final(self).attempt == next_attempt(old(self).attempt),
            final(self).delay_ms == (if running && !v4 && !v6 {
                next_port_delay(old(self).delay_ms)
            } else {
                old(self).delay_ms as int
            }),
            check@ == port_check(
                old(self).port,
                old(self).name@,
                final(self).attempt,
                old(self).delay_ms,
                running,
                v4,
                v6,
            ),
    {
        let port: u16 = self.port;
        self.attempt = if self.attempt == u32::MAX {
            0
        } else {
            self.attempt + 1
        };
        if !running {
            let mut why = "exited before port ".to_owned();
            why.append(decimal_text(port as u128).as_str());
            why.append(" accepted");
            return speak(
                Diag::PortDepExited { port, name: self.name.clone() },
                Verdict::Failed(why),
            );
        }
        if v4 {
            return speak(
                Diag::PortConnected { port, host: "127.0.0.1".to_owned() },
                Verdict::Ready,
            );
        }
        if v6 {
            return speak(Diag::PortConnected { port, host: "::1".to_owned() }, Verdict::Ready);
        }
        let attempt: u32 = self.attempt;
        let delay_ms: u64 = self.delay_ms;
        self.delay_ms = if 2 * delay_ms > LONGEST_PORT_DELAY_MS {
            LONGEST_PORT_DELAY_MS
        } else {
            2 * delay_ms
        };
        let said = if attempt == 1 || attempt % 3 == 0 {
            Some(Diag::PortNoConnect { port, attempt, delay_ms: delay_ms as u128 })
        } else {
            None
        };
        Check { said, verdict: Verdict::Again { after_ms: delay_ms } }
    }
}

// ---- until the output matches ----

/// How long to wait between two looks at the output.
pub const LOG_DELAY_MS: u64 = 100;

/// Waits until a pattern matches the output of a dependency.
pub struct LogProbe {
    pub pattern: String,
    pub attempt: u32,
    /// How many bytes there were when a look without a match was last
    /// mentioned.
    pub mentioned: usize,
}

/// What the output says: whether the pattern matches it at the time of the
/// look, and whether it matches what was there after the dependency ended.
pub struct LogSight {
    /// Why the pattern is none, where it is not.
    pub bad_pattern: Option<String>,
    /// How many bytes of output there were.
    pub bytes: usize,
    pub matched: bool,
    pub running: bool,
    pub matched_later: bool,
}

/// What the output says, as a value.
pub struct SightModel {
    pub bad_pattern: Option<Seq<char>>,
    pub bytes: usize,
    pub matched: bool,
    pub running: bool,
    pub matched_later: bool,
}

impl View for LogSight {
    type V = SightModel;

    open spec fn view(&self) -> SightModel {
        SightModel {
            bad_pattern: match self.bad_pattern {
                Some(why) => Some(why@),
                None => None,
            },
            bytes: self.bytes,
            matched: self.matched,
            running: self.running,
            matched_later: self.matched_later,
        }
    }
}

/// What there is to see of some output.
pub open spec fn sight_of(
    pattern: Seq<char>,
    output: Seq<u8>,
    running: bool,
    later: Seq<u8>,
) -> SightModel {
    let good = pattern_problem(pattern) is None;
    SightModel {
        bad_pattern: pattern_problem(pattern),
        bytes: output.len() as usize,
        matched: good && pattern_occurs(pattern, lossy(output)),
        running,
        matched_later: good && pattern_occurs(pattern, lossy(later)),
    }
}

/// Whether a look without a match is worth mentioning: the first, every
/// thirtieth, and where at least 512 bytes have come since the last mention.
pub open spec fn worth_mentioning(attempt: u32, bytes: usize, mentioned: usize) -> bool {
    attempt == 1 || bytes - mentioned >= 512 || attempt % 30 == 0
}

/// What a look at the output comes to.
pub open spec fn log_check(
    pattern: Seq<char>,
    attempt: u32,
    mentioned: usize,
    sight: SightModel,
) -> Check<Seq<char>> {
    if sight.bad_pattern is Some {
        Check { said: None, verdict: Verdict::Failed("bad regex: "@ + sight.bad_pattern->0) }
    } else if sight.bytes > 0 && sight.matched {
        Check { said: Some(Diag::LogMatched { pattern }), verdict: Verdict::Ready }
    } else if !sight.running {
        if sight.matched_later {
            Check { said: Some(Diag::LogMatchedAfterExit { pattern }), verdict: Verdict::Ready }
        } else {
            Check {
                said: Some(Diag::LogDepExited { pattern }),
                verdict: Verdict::Failed("exited before log matched /"@ + pattern + "/"@),
            }
        }
    } else {
        Check {
            said: if worth_mentioning(attempt, sight.bytes, mentioned) {
                Some(Diag::LogNoMatch { pattern, bytes: sight.bytes })
            } else {
                None
            },
            verdict: Verdict::Again { after_ms: LOG_DELAY_MS },
        }
    }
}

/// Whether a look goes on for another.
pub open spec fn log_goes_on(sight: SightModel) -> bool {
    sight.bad_pattern is None && !(sight.bytes > 0 && sight.matched) && sight.running
}

/// What a look leaves of the count of bytes that were mentioned.
pub open spec fn mentioned_after(attempt: u32, mentioned: usize, sight: SightModel) -> usize {
    if log_goes_on(sight) && worth_mentioning(attempt, sight.bytes, mentioned) {
        sight.bytes
    } else {
        mentioned
    }
}

/// The number of the next attempt.
pub open spec fn next_attempt(attempt: u32) -> u32 {
    if attempt == u32::MAX {
        0
    } else {
        (attempt + 1) as u32
    }
}

impl LogProbe {
    pub fn new(pattern: &str) -> (probe: LogProbe)
        ensures
            probe.pattern@ == pattern@,
            probe.attempt == 0,
            probe.mentioned == 0,
    {
        LogProbe { pattern: pattern.to_owned(), attempt: 0, mentioned: 0 }
    }

    /// Judge what was seen of the output.
    pub fn judge(&mut self, sight: &LogSight) -> (check: Check<String>)
        ensures
            final(self).pattern == old(self).pattern,
            final(self).attempt == next_attempt(old(self).attempt),
            final(self).mentioned == mentioned_after(
                final(self).attempt,
                old(self).mentioned,
                sight@,
            ),
            check@ == log_check(
                old(self).pattern@,
                final(self).attempt,
                old(self).mentioned,
                sight@,
            ),
    {
        self.attempt = if self.attempt == u32::MAX {
            0
        } else {
            self.attempt + 1
        };
        if let Some(why) = &sight.bad_pattern {
            let mut text = "bad regex: ".to_owned();
            text.append(why.as_str());
            return Check { said: None, verdict: Verdict::Failed(text) };
        }
        let pattern = self.pattern.clone();
        if sight.bytes > 0 && sight.matched {
            return speak(Diag::LogMatched { pattern }, Verdict::Ready);
        }
        if !sight.running {
            if sight.matched_later {
                return speak(Diag::LogMatchedAfterExit { pattern }, Verdict::Ready);
            }
            let mut why = "exited before log matched /".to_owned();
            why.append(pattern.as_str());
            why.append("/");
            return speak(Diag::LogDepExited { pattern }, Verdict::Failed(why));
        }
        let attempt: u32 = self.attempt;
        let fresh: usize = sight.bytes.saturating_sub(self.mentioned);
        let said = if attempt == 1 || fresh >= 512 || attempt % 30 == 0 {
            self.mentioned = sight.bytes;
            Some(Diag::LogNoMatch { pattern, bytes: sight.bytes })
        } else {
            None
        };
        Check { said, verdict: Verdict::Again { after_ms: LOG_DELAY_MS } }
    }

    /// Look at the output: `output` is what there was first, `later` what there
    /// was once the dependency was seen not to run.
    pub fn check(&mut self, output: &[u8], running: bool, later: &[u8]) -> (check: Check<String>)
        ensures
            final(self).pattern == old(self).pattern,
            final(self).attempt == next_attempt(old(self).attempt),
            final(self).mentioned == mentioned_after(
                final(self).attempt,
                old(self).mentioned,
                sight_of(old(self).pattern@, output@, running, later@),
            ),
            check@ == log_check(
                old(self).pattern@,
                final(self).attempt,
                old(self).mentioned,
                sight_of(old(self).pattern@, output@, running, later@),
            ),
    {
        let text = lossy_text(output);
        let later_text = lossy_text(later);
        let bytes: usize = output.len();
        let sight = match find_pattern(self.pattern.as_str(), text.as_str()) {
            Err(why) => LogSight {
                bad_pattern: Some(why),
                bytes,
                matched: false,
                running,
                matched_later: false,
            },
            Ok(matched) => {
                let matched_later = match find_pattern(
                    self.pattern.as_str(),
                    later_text.as_str(),
                ) {
                    Ok(yes) => yes,
                    Err(_) => false,
                };
                LogSight { bad_pattern: None, bytes, matched, running, matched_later }
            },
        };
        assert(sight@ == sight_of(self.pattern@, output@, running, later@));
        self.judge(&sight)
    }
}

// ---- until it exits ----

/// Waits until a dependency exits with a code.
pub struct ExitProbe {
    /// The dependency.
    pub name: String,
    pub expected: i32,
}

/// What a status comes to.
pub open spec fn exit_check(name: Seq<char>, expected: i32, status: StatusModel) -> Check<
    Seq<char>,
> {
    match status {
        StatusModel::Exited(info) => if info.code as i32 == expected {
            Check {
                said: Some(Diag::ExitedAsExpected { name, code: info.code }),
                verdict: Verdict::Ready,
            }
        } else {
            Check {
                said: Some(Diag::ExitedOtherwise { name, code: info.code, expected }),
                verdict: Verdict::Failed(
                    "exited with code "@ + decimal(info.code as nat) + " (expected "@
                        + signed_decimal(expected as int) + ")"@,
                ),
            }
        },
        StatusModel::SpawnFailed(why) => Check {
            said: Some(Diag::ExitDepSpawnFailed { name, why }),
            verdict: Verdict::Failed("dep spawn failed: "@ + why),
        },
        _ => Check { said: None, verdict: Verdict::OnChange },
    }
}

impl ExitProbe {
    pub fn new(name: &str, expected: i32) -> (probe: ExitProbe)
        ensures
            probe.name@ == name@,
            probe.expected == expected,
    {
        ExitProbe { name: name.to_owned(), expected }
    }

    /// What is said before the first check.
    pub fn begin(&self) -> (said: Diag<String>)
        ensures
            said@ == (Diag::AwaitingExit { name: self.name@, expected: self.expected }),
    {
        Diag::AwaitingExit { name: self.name.clone(), expected: self.expected }
    }

    /// Judge a status of the dependency.
    pub fn check(&self, status: &Status) -> (check: Check<String>)
        ensures
            check@ == exit_check(self.name@, self.expected, status@),
    {
        match status {
            Status::Exited(info) => {
                let code: u32 = info.code;
                if #[verifier::truncate] (code as i32) == self.expected {
                    speak(
                        Diag::ExitedAsExpected { name: self.name.clone(), code },
                        Verdict::Ready,
                    )
                } else {
                    let mut why = "exited with code ".to_owned();
                    why.append(decimal_text(code as u128).as_str());
                    why.append(" (expected ");
                    why.append(signed_decimal_text(self.expected).as_str());
                    why.append(")");
                    speak(
                        Diag::ExitedOtherwise {
                            name: self.name.clone(),
                            code,
                            expected: self.expected,
                        },
                        Verdict::Failed(why),
                    )
                }
            },
            Status::SpawnFailed(why) => {
                let mut text = "dep spawn failed: ".to_owned();
                text.append(why.as_str());
                speak(
                    Diag::ExitDepSpawnFailed { name: self.name.clone(), why: why.clone() },
                    Verdict::Failed(text),
                )
            },
            _ => Check { said: None, verdict: Verdict::OnChange },
        }
    }

    /// What is left to say where the status can no longer be read.
    pub fn closed(&self) -> (check: Check<String>)
        ensures
            check@ == (Check {
                said: None,
                verdict: Verdict::Failed("dep status channel closed"@),
            }),
    {
        Check { said: None, verdict: Verdict::Failed("dep status channel closed".to_owned()) }
    }
}

// ---- what holds of every wait ----

/// A dependency that has ended is never found ready by its port, and a port
/// that accepts is always found while it runs.
pub proof fn law_port_verdicts(
    port: u16,
    name: Seq<char>,
    attempt: u32,
    delay_ms: u64,
    running: bool,
    v4: bool,
    v6: bool,
)
    ensures
        port_check(port, name, attempt, delay_ms, running, v4, v6).verdict is Ready <==> running
            && (v4 || v6),
        port_check(port, name, attempt, delay_ms, running, v4, v6).verdict is Failed <==> !running,
{
}

/// An end with the expected code is a success and every other end a failure;
/// before the end there is neither.
pub proof fn law_exit_verdicts(name: Seq<char>, expected: i32, status: StatusModel)
    ensures
        exit_check(name, expected, status).verdict is OnChange <==> crate::status::alive(status),
        exit_check(name, expected, status).verdict is Ready <==> (status matches StatusModel::Exited(
            info,
        ) && info.code as i32 == expected),
{
}

/// With a pattern that is one, a look at the output finds the dependency ready
/// exactly where the pattern occurs in the output, or where the dependency does
/// not run and the pattern occurs in what it had written by its end. It fails
/// exactly where it is not ready and does not run, and else looks again.
pub proof fn law_log_verdicts(
    pattern: Seq<char>,
    attempt: u32,
    mentioned: usize,
    output: Seq<u8>,
    running: bool,
    later: Seq<u8>,
)
    requires
        output.len() <= usize::MAX,
        pattern_problem(pattern) is None,
    ensures
        ({
            let verdict = log_check(
                pattern,
                attempt,
                mentioned,
                sight_of(pattern, output, running, later),
            ).verdict;
            let ready = (output.len() > 0 && pattern_occurs(pattern, lossy(output))) || (!running
                && pattern_occurs(pattern, lossy(later)));
            &&& verdict is Ready <==> ready
            &&& verdict is Failed <==> !ready && !running
            &&& verdict is Again <==> !ready && running
            &&& verdict matches Verdict::Again { after_ms } ==> after_ms == 100
            &&& verdict matches Verdict::Failed(why) ==> why == "exited before log matched /"@
                + pattern + "/"@
        }),
{
}

/// A pattern that is none fails at every look, with the reason why it is none.
pub proof fn law_bad_pattern_fails(
    pattern: Seq<char>,
    attempt: u32,
    mentioned: usize,
    output: Seq<u8>,
    running: bool,
    later: Seq<u8>,
)
    requires
        pattern_problem(pattern) is Some,
    ensures
        log_check(pattern, attempt, mentioned, sight_of(pattern, output, running, later)).verdict
            == Verdict::Failed("bad regex: "@ + pattern_problem(pattern)->0),
{
}

/// A dependency that is found ready by its output stays so: more of the same
/// judgement does not take it back, and neither does its end.
pub proof fn law_log_match_outlives_the_process(
    pattern: Seq<char>,
    attempt: u32,
    mentioned: usize,
    output: Seq<u8>,
    running: bool,
    later: Seq<u8>,
)
    requires
        output.len() <= usize::MAX,
        log_check(
            pattern,
            attempt,
            mentioned,
            sight_of(pattern, output, true, later),
        ).verdict is Ready,
    ensures
        log_check(
            pattern,
            next_attempt(attempt),
            mentioned,
            sight_of(pattern, output, running, later),
        ).verdict is Ready,
{
}

/// A port is tried again after 50 milliseconds, and each time after twice as
/// long as before, but never after more than two seconds.
pub proof fn law_port_delays_double(
    port: u16,
    name: Seq<char>,
    attempt: u32,
    delay_ms: u64,
)
    requires
        50 <= delay_ms <= 2000,
    ensures
        FIRST_PORT_DELAY_MS == 50,
        port_check(port, name, attempt, delay_ms, true, false, false).verdict == (Verdict::<
            Seq<char>,
        >::Again { after_ms: delay_ms }),
        next_port_delay(delay_ms) == vstd::math::min(2 * delay_ms, 2000),
{
}

/// Why a wait for a port fails: the dependency ended before the port accepted.
pub proof fn law_port_failure_names_the_port(
    port: u16,
    name: Seq<char>,
    attempt: u32,
    delay_ms: u64,
    v4: bool,
    v6: bool,
)
    ensures
        port_check(port, name, attempt, delay_ms, false, v4, v6).verdict == Verdict::Failed(
            "exited before port "@ + decimal(port as nat) + " accepted"@,
        ),
{
}

/// Why a wait for an end fails: it came with another code, which is named with
/// the one that was expected, or the dependency could not be started.
pub proof fn law_exit_failures_say_why(name: Seq<char>, expected: i32, status: StatusModel)
    ensures
        exit_check(name, expected, status).verdict is Failed <==> match status {
            StatusModel::Exited(info) => info.code as i32 != expected,
            StatusModel::SpawnFailed(_) => true,
            StatusModel::Starting => false,
            StatusModel::Running => false,
        },
        exit_check(name, expected, status).verdict matches Verdict::Failed(why) ==> match status {
            StatusModel::Exited(info) => why == "exited with code "@ + decimal(info.code as nat)
                + " (expected "@ + signed_decimal(expected as int) + ")"@,
            StatusModel::SpawnFailed(reason) => why == "dep spawn failed: "@ + reason,
            _ => true,
        },
        exit_check(name, expected, status).verdict is Ready <==> match status {
            StatusModel::Exited(info) => info.code as i32 == expected,
            _ => false,
        },
        !(exit_check(name, expected, status).verdict is Again),
{
}

/// While a port does not accept, the first attempt and every third is mentioned.
/// Once it accepts, so is the address that did, the IPv4 one where both do.
pub proof fn law_port_attempts_are_mentioned(
    port: u16,
    name: Seq<char>,
    attempt: u32,
    delay_ms: u64,
    v6: bool,
)
    ensures
        port_check(port, name, attempt, delay_ms, true, false, false).said is Some <==> attempt == 1
            || attempt as int % 3 == 0,
        port_check(port, name, attempt, delay_ms, true, false, false).said matches Some(said)
            ==> said == (Diag::<Seq<char>>::PortNoConnect {
            port,
            attempt,
            delay_ms: delay_ms as u128,
        }),
        port_check(port, name, attempt, delay_ms, true, true, v6).said == Some(
            Diag::PortConnected { port, host: "127.0.0.1"@ },
        ),
        port_check(port, name, attempt, delay_ms, true, false, true).said == Some(
            Diag::PortConnected { port, host: "::1"@ },
        ),
        port_check(port, name, attempt, delay_ms, false, v6, v6).said == Some(
            Diag::PortDepExited { port, name },
        ),
{
}

/// Attempts are counted, and start again where the count ends.
pub proof fn law_attempts_are_counted(attempt: u32)
    ensures
        attempt < u32::MAX ==> next_attempt(attempt) == attempt + 1,
        next_attempt(u32::MAX) == 0,
{
}

/// While the output does not match, the look is repeated after a tenth of a
/// second. The first look is mentioned, every thirtieth, and one with 512 bytes
/// or more since the last mention; the mention is remembered.
pub proof fn law_looks_are_mentioned(
    pattern: Seq<char>,
    attempt: u32,
    mentioned: usize,
    sight: SightModel,
)
    requires
        sight.bad_pattern is None,
        !(sight.bytes > 0 && sight.matched),
        sight.running,
    ensures
        ({
            let check = log_check(pattern, attempt, mentioned, sight);
            let worth = attempt == 1 || attempt as int % 30 == 0 || sight.bytes >= mentioned + 512;
            &&& check.verdict == (Verdict::<Seq<char>>::Again { after_ms: 100 })
            &&& check.said is Some <==> worth
            &&& check.said matches Some(said) ==> said == (Diag::<Seq<char>>::LogNoMatch {
                pattern,
                bytes: sight.bytes,
            })
            &&& worth ==> mentioned_after(attempt, mentioned, sight) == sight.bytes
            &&& !worth ==> mentioned_after(attempt, mentioned, sight) == mentioned
        }),
{
}

} // verus!
