//! Why a configuration is refused.

use vstd::prelude::*;
use vstd::string::StringExecFns;

#[allow(unused_imports)]
use crate::text::{decimal, quoted};
use crate::text::{decimal_text, quote};

verus! {

/// A reason to refuse a configuration, over the texts that it names. `why`
/// holds what the system or a library said.
pub enum Problem<T> {
    NoProcesses,
    RootEnvFileMissing { path: T, why: T },
    RootEnvFileNotAFile { path: T },
    DynamicPorts { why: T },
    EmptyName,
    DuplicateName { name: T },
    EmptyCommand { name: T },
    CwdMissing { name: T, path: T, why: T },
    CwdNotADirectory { name: T, path: T },
    EnvFileMissing { name: T, path: T, why: T },
    EnvFileNotAFile { name: T, path: T },
    EnvUnreadable { name: T, why: T },
    Template { message: T },
    BadPort { context: T, value: T },
    BadExit { context: T, value: T },
    BadLogRegex { name: T, dependency: T, why: T },
    NoRetries { name: T },
    NoRetryDelay { name: T },
    RetryCapBelowDelay { name: T, max_delay_ms: u64, delay_ms: u64 },
    UnknownDependency { name: T, dependency: T },
    SelfDependency { name: T },
    Cycle { path: T },
    NothingTagged { tags: T },
}

/// A reason to refuse a configuration.
pub type ConfigError = Problem<String>;

impl View for Problem<String> {
    type V = Problem<Seq<char>>;

    open spec fn view(&self) -> Problem<Seq<char>> {
        match *self {
            Problem::NoProcesses => Problem::NoProcesses,
            Problem::RootEnvFileMissing { path, why } => Problem::RootEnvFileMissing {
                path: path@,
                why: why@,
            },
            Problem::RootEnvFileNotAFile { path } => Problem::RootEnvFileNotAFile { path: path@ },
            Problem::DynamicPorts { why } => Problem::DynamicPorts { why: why@ },
            Problem::EmptyName => Problem::EmptyName,
            Problem::DuplicateName { name } => Problem::DuplicateName { name: name@ },
            Problem::EmptyCommand { name } => Problem::EmptyCommand { name: name@ },
            Problem::CwdMissing { name, path, why } => Problem::CwdMissing {
                name: name@,
                path: path@,
                why: why@,
            },
            Problem::CwdNotADirectory { name, path } => Problem::CwdNotADirectory {
                name: name@,
                path: path@,
            },
            Problem::EnvFileMissing { name, path, why } => Problem::EnvFileMissing {
                name: name@,
                path: path@,
                why: why@,
            },
            Problem::EnvFileNotAFile { name, path } => Problem::EnvFileNotAFile {
                name: name@,
                path: path@,
            },
            Problem::EnvUnreadable { name, why } => Problem::EnvUnreadable {
                name: name@,
                why: why@,
            },
            Problem::Template { message } => Problem::Template { message: message@ },
            Problem::BadPort { context, value } => Problem::BadPort {
                context: context@,
                value: value@,
            },
            Problem::BadExit { context, value } => Problem::BadExit {
                context: context@,
                value: value@,
            },
            Problem::BadLogRegex { name, dependency, why } => Problem::BadLogRegex {
                name: name@,
                dependency: dependency@,
                why: why@,
            },
            Problem::NoRetries { name } => Problem::NoRetries { name: name@ },
            Problem::NoRetryDelay { name } => Problem::NoRetryDelay { name: name@ },
            Problem::RetryCapBelowDelay { name, max_delay_ms, delay_ms } => {
                Problem::RetryCapBelowDelay { name: name@, max_delay_ms, delay_ms }
            },
            Problem::UnknownDependency { name, dependency } => Problem::UnknownDependency {
                name: name@,
                dependency: dependency@,
            },
            Problem::SelfDependency { name } => Problem::SelfDependency { name: name@ },
            Problem::Cycle { path } => Problem::Cycle { path: path@ },
            Problem::NothingTagged { tags } => Problem::NothingTagged { tags: tags@ },
        }
    }
}

/// The message for a reason.
pub open spec fn problem_text(p: Problem<Seq<char>>) -> Seq<char> {
    match p {
        Problem::NoProcesses => "config has no processes"@,
        Problem::RootEnvFileMissing { path, .. } => "root envFiles entry not found: "@ + path,
        Problem::RootEnvFileNotAFile { path } => "root envFiles entry is not a file: "@ + path,
        Problem::DynamicPorts { why } => why,
        Problem::EmptyName => "process name cannot be empty"@,
        Problem::DuplicateName { name } => "duplicate process name: "@ + name,
        Problem::EmptyCommand { name } => "process "@ + name + ": command cannot be empty"@,
        Problem::CwdMissing { name, path, .. } => "process "@ + name
            + ": cwd does not exist or is not accessible: "@ + path,
        Problem::CwdNotADirectory { name, path } => "process "@ + name
            + ": cwd is not a directory: "@ + path,
        Problem::EnvFileMissing { name, path, .. } => "process "@ + name
            + ": envFiles entry not found: "@ + path,
        Problem::EnvFileNotAFile { name, path } => "process "@ + name
            + ": envFiles entry is not a file: "@ + path,
        Problem::EnvUnreadable { name, .. } => "process "@ + name
            + ": building env for template substitution"@,
        Problem::Template { message } => message,
        Problem::BadPort { context, value } => context + ": value "@ + quoted(value)
            + " is not a valid u16 (range 0-65535)"@,
        Problem::BadExit { context, value } => context + ": value "@ + quoted(value)
            + " is not a valid i32"@,
        Problem::BadLogRegex { name, dependency, .. } => "process "@ + name + ": dependsOn["@
            + dependency + "].until.log is not a valid regex"@,
        Problem::NoRetries { name } => "process "@ + name + ": retry.maxRetries must be >= 1"@,
        Problem::NoRetryDelay { name } => "process "@ + name + ": retry.delayMs must be >= 1"@,
        Problem::RetryCapBelowDelay { name, max_delay_ms, delay_ms } => "process "@ + name
            + ": retry.maxDelayMs ("@ + decimal(max_delay_ms as nat) + ") must be >= delayMs ("@
            + decimal(delay_ms as nat) + ")"@,
        Problem::UnknownDependency { name, dependency } => "process "@ + name
            + ": dependsOn references unknown process '"@ + dependency + "'"@,
        Problem::SelfDependency { name } => "process "@ + name + ": cannot depend on itself"@,
        Problem::Cycle { path } => "dependsOn cycle detected: "@ + path,
        Problem::NothingTagged { tags } => "no process carries any of the tags: "@ + tags,
    }
}

fn process_message(name: &String, says: &str) -> (text: String)
    ensures
        text@ == "process "@ + name@ + says@,
{
    let mut text = "process ".to_owned();
    text.append(name.as_str());
    text.append(says);
    text
}

impl Problem<String> {
    /// The message of this reason.
    pub fn message(&self) -> (text: String)
        ensures
            text@ == problem_text(self@),
    {
        match self {
            Problem::NoProcesses => "config has no processes".to_owned(),
            Problem::RootEnvFileMissing { path, .. } => {
                let mut text = "root envFiles entry not found: ".to_owned();
                text.append(path.as_str());
                text
            },
            Problem::RootEnvFileNotAFile { path } => {
                let mut text = "root envFiles entry is not a file: ".to_owned();
                text.append(path.as_str());
                text
            },
            Problem::DynamicPorts { why } => why.clone(),
            Problem::EmptyName => "process name cannot be empty".to_owned(),
            Problem::DuplicateName { name } => {
                let mut text = "duplicate process name: ".to_owned();
                text.append(name.as_str());
                text
            },
            Problem::EmptyCommand { name } => process_message(name, ": command cannot be empty"),
            Problem::CwdMissing { name, path, .. } => {
                let mut text = process_message(
                    name,
                    ": cwd does not exist or is not accessible: ",
                );
                text.append(path.as_str());
                text
            },
            Problem::CwdNotADirectory { name, path } => {
                let mut text = process_message(name, ": cwd is not a directory: ");
                text.append(path.as_str());
                text
            },
            Problem::EnvFileMissing { name, path, .. } => {
                let mut text = process_message(name, ": envFiles entry not found: ");
                text.append(path.as_str());
                text
            },
            Problem::EnvFileNotAFile { name, path } => {
                let mut text = process_message(name, ": envFiles entry is not a file: ");
                text.append(path.as_str());
                text
            },
            Problem::EnvUnreadable { name, .. } => process_message(
                name,
                ": building env for template substitution",
            ),
            Problem::Template { message } => message.clone(),
            Problem::BadPort { context, value } => {
                let mut text = context.clone();
                text.append(": value ");
                text.append(quote(value.as_str()).as_str());
                text.append(" is not a valid u16 (range 0-65535)");
                text
            },
            Problem::BadExit { context, value } => {
                let mut text = context.clone();
                text.append(": value ");
                text.append(quote(value.as_str()).as_str());
                text.append(" is not a valid i32");
                text
            },
            Problem::BadLogRegex { name, dependency, .. } => {
                let mut text = process_message(name, ": dependsOn[");
                text.append(dependency.as_str());
                text.append("].until.log is not a valid regex");
                text
            },
            Problem::NoRetries { name } => process_message(
                name,
                ": retry.maxRetries must be >= 1",
            ),
            Problem::NoRetryDelay { name } => process_message(
                name,
                ": retry.delayMs must be >= 1",
            ),
            Problem::RetryCapBelowDelay { name, max_delay_ms, delay_ms } => {
                let mut text = process_message(name, ": retry.maxDelayMs (");
                text.append(decimal_text(*max_delay_ms as u128).as_str());
                text.append(") must be >= delayMs (");
                text.append(decimal_text(*delay_ms as u128).as_str());
                text.append(")");
                text
            },
            Problem::UnknownDependency { name, dependency } => {
                let mut text = process_message(name, ": dependsOn references unknown process '");
                text.append(dependency.as_str());
                text.append("'");
                text
            },
            Problem::SelfDependency { name } => process_message(name, ": cannot depend on itself"),
            Problem::Cycle { path } => {
                let mut text = "dependsOn cycle detected: ".to_owned();
                text.append(path.as_str());
                text
            },
            Problem::NothingTagged { tags } => {
                let mut text = "no process carries any of the tags: ".to_owned();
                text.append(tags.as_str());
                text
            },
        }
    }

    /// What lies behind this reason, where something does.
    pub fn cause(&self) -> (why: Option<&String>)
        ensures
            match self@ {
                Problem::RootEnvFileMissing { why: w, .. } => why matches Some(t) && t@ == w,
                Problem::CwdMissing { why: w, .. } => why matches Some(t) && t@ == w,
                Problem::EnvFileMissing { why: w, .. } => why matches Some(t) && t@ == w,
                Problem::EnvUnreadable { why: w, .. } => why matches Some(t) && t@ == w,
                Problem::BadLogRegex { why: w, .. } => why matches Some(t) && t@ == w,
                _ => why is None,
            },
    {
        match self {
            Problem::RootEnvFileMissing { why, .. } => Some(why),
            Problem::CwdMissing { why, .. } => Some(why),
            Problem::EnvFileMissing { why, .. } => Some(why),
            Problem::EnvUnreadable { why, .. } => Some(why),
            Problem::BadLogRegex { why, .. } => Some(why),
            _ => None,
        }
    }
}

/// A message about a process starts with its name, and one about a path ends
/// with that.
pub proof fn law_messages_name_what_is_wrong(
    name: Seq<char>,
    path: Seq<char>,
    why: Seq<char>,
    max_delay_ms: u64,
    delay_ms: u64,
)
    ensures
        forall|p: Problem<Seq<char>>|
            p == (Problem::EmptyCommand { name }) || p == (Problem::CwdMissing { name, path, why })
                || p == (Problem::CwdNotADirectory { name, path }) || p
                == (Problem::EnvFileMissing { name, path, why }) || p == (Problem::EnvFileNotAFile {
                name,
                path,
            }) || p == (Problem::EnvUnreadable { name, why }) || p == (Problem::BadLogRegex {
                name,
                dependency: path,
                why,
            }) || p == (Problem::NoRetries { name }) || p == (Problem::NoRetryDelay { name }) || p
                == (Problem::RetryCapBelowDelay { name, max_delay_ms, delay_ms }) || p
                == (Problem::UnknownDependency { name, dependency: path }) || p
                == (Problem::SelfDependency { name }) ==> ("process "@
                + name).is_prefix_of(#[trigger] problem_text(p)),
        forall|p: Problem<Seq<char>>|
            p == (Problem::CwdMissing { name, path, why }) || p == (Problem::CwdNotADirectory {
                name,
                path,
            }) || p == (Problem::EnvFileMissing { name, path, why }) || p
                == (Problem::EnvFileNotAFile { name, path }) || p == (Problem::RootEnvFileMissing {
                path,
                why,
            }) || p == (Problem::RootEnvFileNotAFile { path }) || p == (Problem::Cycle { path })
                || p == (Problem::NothingTagged { tags: path }) || p == (Problem::DuplicateName {
                name: path,
            }) ==> path.is_suffix_of(#[trigger] problem_text(p)),
{
}

} // verus!
