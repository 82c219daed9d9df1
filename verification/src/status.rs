//! What a process is doing, and how it ended.

use vstd::prelude::*;
use vstd::string::StringExecFns;

#[allow(unused_imports)]
use crate::text::decimal;
use crate::text::decimal_text;

verus! {

/// How a process ended.
#[derive(Debug)]
pub struct ExitInfo {
    pub code: u32,
    /// The signal that ended it, where one did.
    pub signal: Option<String>,
}

/// What a process is doing.
#[derive(Debug)]
pub enum Status {
    Starting,
    Running,
    Exited(ExitInfo),
    SpawnFailed(String),
}

/// An ending as a value.
pub struct ExitModel {
    pub code: u32,
    pub signal: Option<Seq<char>>,
}

/// A status as a value.
pub enum StatusModel {
    Starting,
    Running,
    Exited(ExitModel),
    SpawnFailed(Seq<char>),
}

impl View for ExitInfo {
    type V = ExitModel;

    open spec fn view(&self) -> ExitModel {
        ExitModel {
            code: self.code,
            signal: match self.signal {
                Some(s) => Some(s@),
                None => None,
            },
        }
    }
}

impl View for Status {
    type V = StatusModel;

    open spec fn view(&self) -> StatusModel {
        match *self {
            Status::Starting => StatusModel::Starting,
            Status::Running => StatusModel::Running,
            Status::Exited(info) => StatusModel::Exited(info@),
            Status::SpawnFailed(why) => StatusModel::SpawnFailed(why@),
        }
    }
}

impl Clone for ExitInfo {
    fn clone(&self) -> (copy: ExitInfo)
        ensures
            copy@ == self@,
    {
        ExitInfo {
            code: self.code,
            signal: match &self.signal {
                Some(s) => Some(s.clone()),
                None => None,
            },
        }
    }
}

impl Clone for Status {
    fn clone(&self) -> (copy: Status)
        ensures
            copy@ == self@,
    {
        match self {
            Status::Starting => Status::Starting,
            Status::Running => Status::Running,
            Status::Exited(info) => Status::Exited(info.clone()),
            Status::SpawnFailed(why) => Status::SpawnFailed(why.clone()),
        }
    }
}

/// How an ending reads: the signal, or the exit code.
pub open spec fn ending_text(info: ExitModel) -> Seq<char> {
    match info.signal {
        Some(s) => "signal "@ + s,
        None => "exit "@ + decimal(info.code as nat),
    }
}

/// How a status reads.
pub open spec fn status_text(status: StatusModel) -> Seq<char> {
    match status {
        StatusModel::Exited(info) => ending_text(info),
        StatusModel::SpawnFailed(why) => "spawn failed: "@ + why,
        StatusModel::Starting => "starting"@,
        StatusModel::Running => "running"@,
    }
}

impl ExitInfo {
    /// How this ending reads: `signal NAME` or `exit CODE`.
    pub fn text(&self) -> (text: String)
        ensures
            text@ == ending_text(self@),
    {
        match &self.signal {
            Some(s) => {
                let mut text = "signal ".to_owned();
                text.append(s.as_str());
                text
            },
            None => {
                let mut text = "exit ".to_owned();
                text.append(decimal_text(self.code as u128).as_str());
                text
            },
        }
    }
}

/// How a status reads in a diagnostic.
pub fn describe_exit(status: &Status) -> (text: String)
    ensures
        text@ == status_text(status@),
{
    match status {
        Status::Exited(info) => info.text(),
        Status::SpawnFailed(why) => {
            let mut text = "spawn failed: ".to_owned();
            text.append(why.as_str());
            text
        },
        Status::Starting => "starting".to_owned(),
        Status::Running => "running".to_owned(),
    }
}

/// Whether a process has not ended yet.
pub open spec fn alive(status: StatusModel) -> bool {
    status is Starting || status is Running
}

impl Status {
    /// Whether the process has not ended yet.
    pub fn is_running(&self) -> (yes: bool)
        ensures
            yes == alive(self@),
    {
        matches!(self, Status::Starting | Status::Running)
    }
}

/// A process has not ended as long as it starts or runs, and no longer.
pub proof fn law_ended_processes_are_not_alive(status: StatusModel)
    ensures
        alive(status) <==> !(status is Exited || status is SpawnFailed),
{
}

/// An ending tells of the signal where there was one, and else of the code.
pub proof fn law_endings_tell_the_cause(code: u32, name: Seq<char>)
    ensures
        status_text(StatusModel::Exited(ExitModel { code, signal: None })) == "exit "@ + decimal(
            code as nat,
        ),
        status_text(StatusModel::Exited(ExitModel { code, signal: Some(name) })) == "signal "@
            + name,
        status_text(StatusModel::SpawnFailed(name)) == "spawn failed: "@ + name,
{
}

} // verus!
