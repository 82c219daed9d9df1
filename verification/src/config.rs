//! The configuration: what each process runs, and what it waits for.
//!
//! A configuration file is read in two steps. The file's own content comes as
//! a [`RawConfig`], and what the file system says of the paths in it as
//! [`LoadFacts`]. [`Config::load`] checks both and resolves the templates.

use vstd::prelude::*;
use vstd::string::StringExecFns;

use crate::config_error::{ConfigError, Problem};
use crate::env::{build_env, Env, EnvSources};
#[allow(unused_imports)]
use crate::env::{failure_of, merged_env};
#[allow(unused_imports)]
use crate::graph::{
    acyclic, first_closing, in_range, law_first_closing_is_a_cycle, law_reaches_closed, reaches,
    targets_of, visits,
};
use crate::graph::{find_cycle, reachable};
use crate::pattern::check_pattern;
#[allow(unused_imports)]
use crate::pattern::pattern_problem;
use crate::template::substitute;
#[allow(unused_imports)]
use crate::template::{expanded, unterminated_text};
#[allow(unused_imports)]
use crate::text::{as_i32, as_u16, decimal, joined, texts, trimmed};
use crate::text::{decimal_text, is_blank, join, parse_i32, parse_u16, same_text};

verus! {

// ---- the configuration ----

/// When a dependency counts as ready.
pub enum ReadinessCondition {
    /// A TCP connection to the port on this machine succeeds.
    Port(u16),
    /// A regular expression matches the dependency's output so far.
    Log(String),
    /// The dependency exits with this code.
    Exit(i32),
}

/// A process to wait for, and until when.
pub struct Dependency {
    pub name: String,
    pub until: ReadinessCondition,
}

/// How the delay between restarts grows.
#[derive(Clone, Copy, Debug, PartialEq, Eq, Structural)]
pub enum BackoffStrategy {
    Fixed,
    Linear,
    Exponential,
}

/// How often, and how soon, a failed process is started again. Delays are in
/// milliseconds.
#[derive(Clone, Copy, Debug, PartialEq, Eq, Structural)]
pub struct RetryConfig {
    pub max_retries: u32,
    pub strategy: BackoffStrategy,
    pub delay_ms: u64,
    pub max_delay_ms: Option<u64>,
}

/// One process of the configuration, with its paths and templates resolved.
pub struct ProcessConfig {
    pub name: String,
    pub command: String,
    pub args: Vec<String>,
    pub cwd: String,
    /// Env files read after `.env` in the working directory, in order.
    pub env_files: Vec<String>,
    /// The env files of the whole configuration.
    pub global_env_files: Vec<String>,
    pub env: Env,
    pub dynamic_ports: Env,
    pub depends_on: Vec<Dependency>,
    /// Whether the process is meant to run until it is stopped.
    pub long_lived: bool,
    pub tags: Vec<String>,
    pub retry: Option<RetryConfig>,
}

pub struct Config {
    pub processes: Vec<ProcessConfig>,
}

/// A configuration, with the directory that its paths start from and the ports
/// that it allocated.
pub struct LoadedConfig {
    pub config: Config,
    pub config_dir: String,
    pub dynamic_ports: Env,
}

// ---- its model ----

/// A readiness condition as a value.
pub enum ConditionModel {
    Port(u16),
    Log(Seq<char>),
    Exit(i32),
}

/// A dependency as a value.
pub struct DependencyModel {
    pub name: Seq<char>,
    pub until: ConditionModel,
}

/// A process as a value.
pub struct ProcessModel {
    pub name: Seq<char>,
    pub command: Seq<char>,
    pub args: Seq<Seq<char>>,
    pub cwd: Seq<char>,
    pub env_files: Seq<Seq<char>>,
    pub global_env_files: Seq<Seq<char>>,
    pub env: Map<Seq<char>, Seq<char>>,
    pub dynamic_ports: Map<Seq<char>, Seq<char>>,
    pub depends_on: Seq<DependencyModel>,
    pub long_lived: bool,
    pub tags: Seq<Seq<char>>,
    pub retry: Option<RetryConfig>,
}

impl View for ReadinessCondition {
    type V = ConditionModel;

    open spec fn view(&self) -> ConditionModel {
        match *self {
            ReadinessCondition::Port(port) => ConditionModel::Port(port),
            ReadinessCondition::Log(pattern) => ConditionModel::Log(pattern@),
            ReadinessCondition::Exit(code) => ConditionModel::Exit(code),
        }
    }
}

impl View for Dependency {
    type V = DependencyModel;

    open spec fn view(&self) -> DependencyModel {
        DependencyModel { name: self.name@, until: self.until@ }
    }
}

/// The dependencies of a list as values.
pub open spec fn dependency_models(list: Seq<Dependency>) -> Seq<DependencyModel> {
    Seq::new(list.len(), |i: int| list[i]@)
}

impl View for ProcessConfig {
    type V = ProcessModel;

    open spec fn view(&self) -> ProcessModel {
        ProcessModel {
            name: self.name@,
            command: self.command@,
            args: texts(self.args@),
            cwd: self.cwd@,
            env_files: texts(self.env_files@),
            global_env_files: texts(self.global_env_files@),
            env: self.env@,
            dynamic_ports: self.dynamic_ports@,
            depends_on: dependency_models(self.depends_on@),
            long_lived: self.long_lived,
            tags: texts(self.tags@),
            retry: self.retry,
        }
    }
}

/// The processes of a list as values.
pub open spec fn process_models(list: Seq<ProcessConfig>) -> Seq<ProcessModel> {
    Seq::new(list.len(), |i: int| list[i]@)
}

// ---- copies ----

fn copy_texts(list: &Vec<String>) -> (copy: Vec<String>)
    ensures
        texts(copy@) == texts(list@),
{
    let mut copy: Vec<String> = Vec::new();
    let mut i: usize = 0;
    while i < list.len()
        invariant
            i <= list@.len(),
            copy@.len() == i,
            forall|j: int| 0 <= j < i ==> (#[trigger] copy@[j])@ == list@[j]@,
        decreases list@.len() - i,
    {
        copy.push(list[i].clone());
        i = i + 1;
    }
    assert(texts(copy@) =~= texts(list@));
    copy
}

impl Clone for ReadinessCondition {
    fn clone(&self) -> (copy: ReadinessCondition)
        ensures
            copy@ == self@,
    {
        match self {
            ReadinessCondition::Port(port) => ReadinessCondition::Port(*port),
            ReadinessCondition::Log(pattern) => ReadinessCondition::Log(pattern.clone()),
            ReadinessCondition::Exit(code) => ReadinessCondition::Exit(*code),
        }
    }
}

impl Clone for Dependency {
    fn clone(&self) -> (copy: Dependency)
        ensures
            copy@ == self@,
    {
        Dependency { name: self.name.clone(), until: self.until.clone() }
    }
}

pub(crate) fn copy_dependencies(list: &Vec<Dependency>) -> (copy: Vec<Dependency>)
    ensures
        dependency_models(copy@) == dependency_models(list@),
{
    let mut copy: Vec<Dependency> = Vec::new();
    let mut i: usize = 0;
    while i < list.len()
        invariant
            i <= list@.len(),
            copy@.len() == i,
            forall|j: int| 0 <= j < i ==> (#[trigger] copy@[j])@ == list@[j]@,
        decreases list@.len() - i,
    {
        copy.push(list[i].clone());
        i = i + 1;
    }
    assert(dependency_models(copy@) =~= dependency_models(list@));
    copy
}

impl Clone for ProcessConfig {
    fn clone(&self) -> (copy: ProcessConfig)
        ensures
            copy@ == self@,
    {
        ProcessConfig {
            name: self.name.clone(),
            command: self.command.clone(),
            args: copy_texts(&self.args),
            cwd: self.cwd.clone(),
            env_files: copy_texts(&self.env_files),
            global_env_files: copy_texts(&self.global_env_files),
            env: self.env.clone(),
            dynamic_ports: self.dynamic_ports.clone(),
            depends_on: copy_dependencies(&self.depends_on),
            long_lived: self.long_lived,
            tags: copy_texts(&self.tags),
            retry: self.retry,
        }
    }
}

// ---- what a configuration file holds ----

/// A readiness condition as it is written: numbers may be templates.
pub enum RawCondition {
    Port(u16),
    PortTemplate(String),
    Log(String),
    Exit(i32),
    ExitTemplate(String),
}

pub struct RawDependency {
    pub name: String,
    pub until: RawCondition,
}

pub struct RawProcess {
    pub name: String,
    pub command: String,
    pub args: Vec<String>,
    pub cwd: String,
    pub env_files: Vec<String>,
    pub env: Env,
    pub depends_on: Vec<RawDependency>,
    pub long_lived: bool,
    pub tags: Vec<String>,
    pub retry: Option<RetryConfig>,
}

pub struct RawConfig {
    pub env_files: Vec<String>,
    pub dynamic_ports: Vec<String>,
    pub processes: Vec<RawProcess>,
}

/// What the file system says of a path. Where it exists, the path comes in its
/// canonical form.
pub enum PathFact {
    Missing(String),
    Directory(String),
    File(String),
    Other(String),
}

/// What was found for one process: its working directory, its env files in
/// order, and everything that its environment is read from.
pub struct ProcessFacts {
    pub cwd: PathFact,
    pub env_files: Vec<PathFact>,
    pub sources: EnvSources,
}

/// What was found for a configuration.
pub struct LoadFacts {
    /// The directory that the configuration file lies in.
    pub config_dir: String,
    /// The env files of the whole configuration, in order.
    pub env_files: Vec<PathFact>,
    /// The ports allocated to the names under `dynamicPorts`, or why there are
    /// none.
    pub dynamic_ports: Result<Env, String>,
    pub processes: Vec<ProcessFacts>,
}

/// Whether there is a fact for each path.
pub open spec fn facts_fit(raw: RawConfig, facts: LoadFacts) -> bool {
    &&& facts.env_files@.len() == raw.env_files@.len()
    &&& facts.processes@.len() == raw.processes@.len()
    &&& forall|i: int|
        0 <= i < raw.processes@.len() ==> (#[trigger] facts.processes@[i]).env_files@.len()
            == raw.processes@[i].env_files@.len()
}

// ---- paths ----

/// Where a path of the configuration points: a relative path starts from the
/// configuration's directory.
pub open spec fn located(dir: Seq<char>, path: Seq<char>) -> Seq<char> {
    if path.len() > 0 && path[0] == '/' {
        path
    } else if dir.len() == 0 || dir.last() == '/' {
        dir + path
    } else {
        dir + "/"@ + path
    }
}

/// Resolve a path of the configuration against its directory.
pub fn locate(dir: &str, path: &str) -> (full: String)
    ensures
        full@ == located(dir@, path@),
{
    let path_chars = crate::text::chars_of(path);
    let dir_chars = crate::text::chars_of(dir);
    if path_chars.len() > 0 && path_chars[0] == '/' {
        return path.to_owned();
    }
    let mut full = dir.to_owned();
    if dir_chars.len() > 0 && dir_chars[dir_chars.len() - 1] != '/' {
        full.append("/");
    }
    full.append(path);
    full
}

/// What becomes of one env file; `owner` is the process that lists it, or none
/// where the configuration does.
pub open spec fn env_file(
    fact: PathFact,
    dir: Seq<char>,
    path: Seq<char>,
    owner: Option<Seq<char>>,
) -> Result<Seq<char>, Problem<Seq<char>>> {
    match fact {
        PathFact::File(canonical) => Ok(canonical@),
        PathFact::Missing(why) => match owner {
            Some(name) => Err(
                Problem::EnvFileMissing { name, path: located(dir, path), why: why@ },
            ),
            None => Err(Problem::RootEnvFileMissing { path: located(dir, path), why: why@ }),
        },
        PathFact::Directory(canonical) => match owner {
            Some(name) => Err(Problem::EnvFileNotAFile { name, path: canonical@ }),
            None => Err(Problem::RootEnvFileNotAFile { path: canonical@ }),
        },
        PathFact::Other(canonical) => match owner {
            Some(name) => Err(Problem::EnvFileNotAFile { name, path: canonical@ }),
            None => Err(Problem::RootEnvFileNotAFile { path: canonical@ }),
        },
    }
}

/// The canonical paths of the first `n` env files, or the first that is wrong.
pub open spec fn env_files_upto(
    facts: Seq<PathFact>,
    dir: Seq<char>,
    paths: Seq<String>,
    owner: Option<Seq<char>>,
    n: int,
) -> Result<Seq<Seq<char>>, Problem<Seq<char>>>
    decreases n,
{
    if n <= 0 {
        Ok(Seq::empty())
    } else {
        match env_files_upto(facts, dir, paths, owner, n - 1) {
            Err(p) => Err(p),
            Ok(done) => match env_file(facts[n - 1], dir, paths[n - 1]@, owner) {
                Err(p) => Err(p),
                Ok(path) => Ok(done.push(path)),
            },
        }
    }
}

proof fn lemma_env_files_stick(
    facts: Seq<PathFact>,
    dir: Seq<char>,
    paths: Seq<String>,
    owner: Option<Seq<char>>,
    n: int,
    m: int,
)
    requires
        0 <= n <= m,
        env_files_upto(facts, dir, paths, owner, n) is Err,
    ensures
        env_files_upto(facts, dir, paths, owner, m) == env_files_upto(facts, dir, paths, owner, n),
    decreases m,
{
    if n < m {
        lemma_env_files_stick(facts, dir, paths, owner, n, m - 1);
    }
}

/// What became of a step, its texts as values.
pub open spec fn outcome<V>(res: Result<V, Problem<Seq<char>>>, e: ConfigError) -> bool {
    res == Err::<V, Problem<Seq<char>>>(e@)
}

fn resolve_env_file(fact: &PathFact, dir: &str, path: &str, owner: Option<&String>) -> (res: Result<
    String,
    ConfigError,
>)
    ensures
        match res {
            Ok(canonical) => env_file(*fact, dir@, path@, owner_name(owner)) == Ok::<
                Seq<char>,
                Problem<Seq<char>>,
            >(canonical@),
            Err(e) => outcome(env_file(*fact, dir@, path@, owner_name(owner)), e),
        },
{
    match fact {
        PathFact::File(canonical) => Ok(canonical.clone()),
        PathFact::Missing(why) => match owner {
            Some(name) => Err(
                Problem::EnvFileMissing {
                    name: name.clone(),
                    path: locate(dir, path),
                    why: why.clone(),
                },
            ),
            None => Err(
                Problem::RootEnvFileMissing { path: locate(dir, path), why: why.clone() },
            ),
        },
        PathFact::Directory(canonical) => match owner {
            Some(name) => Err(
                Problem::EnvFileNotAFile { name: name.clone(), path: canonical.clone() },
            ),
            None => Err(Problem::RootEnvFileNotAFile { path: canonical.clone() }),
        },
        PathFact::Other(canonical) => match owner {
            Some(name) => Err(
                Problem::EnvFileNotAFile { name: name.clone(), path: canonical.clone() },
            ),
            None => Err(Problem::RootEnvFileNotAFile { path: canonical.clone() }),
        },
    }
}

spec fn owner_name(owner: Option<&String>) -> Option<Seq<char>> {
    match owner {
        Some(name) => Some(name@),
        None => None,
    }
}

fn resolve_env_files(
    facts: &Vec<PathFact>,
    dir: &str,
    paths: &Vec<String>,
    owner: Option<&String>,
) -> (res: Result<Vec<String>, ConfigError>)
    requires
        facts@.len() == paths@.len(),
    ensures
        match res {
            Ok(files) => env_files_upto(
                facts@,
                dir@,
                paths@,
                owner_name(owner),
                paths@.len() as int,
            ) == Ok::<Seq<Seq<char>>, Problem<Seq<char>>>(texts(files@)),
            Err(e) => outcome(
                env_files_upto(facts@, dir@, paths@, owner_name(owner), paths@.len() as int),
                e,
            ),
        },
{
    let ghost who = owner_name(owner);
    let mut files: Vec<String> = Vec::new();
    let mut i: usize = 0;
    assert(texts(files@) =~= Seq::empty());
    while i < paths.len()
        invariant
            i <= paths@.len(),
            facts@.len() == paths@.len(),
            who == owner_name(owner),
            env_files_upto(facts@, dir@, paths@, who, i as int) == Ok::<
                Seq<Seq<char>>,
                Problem<Seq<char>>,
            >(texts(files@)),
        decreases paths@.len() - i,
    {
        match resolve_env_file(&facts[i], dir, paths[i].as_str(), owner) {
            Ok(path) => {
                let ghost before = texts(files@);
                files.push(path);
                assert(texts(files@) =~= before.push(path@));
            },
            Err(e) => {
                proof {
                    lemma_env_files_stick(facts@, dir@, paths@, who, i + 1, paths@.len() as int);
                }
                return Err(e);
            },
        }
        i = i + 1;
    }
    Ok(files)
}

// ---- templates ----

/// A template of a process, resolved.
pub open spec fn resolved(
    template: Seq<char>,
    env: Map<Seq<char>, Seq<char>>,
    context: Seq<char>,
) -> Result<Seq<char>, Problem<Seq<char>>> {
    match expanded(template, env) {
        Some(text) => Ok(text),
        None => Err(Problem::Template { message: unterminated_text(context) }),
    }
}

/// Where a template stands, for its error message.
pub open spec fn context_of(name: Seq<char>, place: Seq<char>) -> Seq<char> {
    "process '"@ + name + "' "@ + place
}

pub open spec fn arg_context(name: Seq<char>, i: int) -> Seq<char> {
    context_of(name, "args["@ + decimal(i as nat) + "]"@)
}

pub open spec fn until_context(name: Seq<char>, dependency: Seq<char>, key: Seq<char>) -> Seq<
    char,
> {
    context_of(name, "dependsOn["@ + dependency + "].until."@ + key)
}

fn context_text(name: &String, place: &str) -> (text: String)
    ensures
        text@ == context_of(name@, place@),
{
    let mut text = "process '".to_owned();
    text.append(name.as_str());
    text.append("' ");
    text.append(place);
    text
}

fn resolve(template: &String, env: &Env, context: &String) -> (res: Result<String, ConfigError>)
    ensures
        match res {
            Ok(text) => resolved(template@, env@, context@) == Ok::<Seq<char>, Problem<Seq<char>>>(
                text@,
            ),
            Err(e) => outcome(resolved(template@, env@, context@), e),
        },
{
    match substitute(template.as_str(), env, context.as_str()) {
        Ok(text) => Ok(text),
        Err(message) => Err(Problem::Template { message }),
    }
}

/// The first `n` arguments, resolved.
pub open spec fn args_upto(
    args: Seq<String>,
    env: Map<Seq<char>, Seq<char>>,
    name: Seq<char>,
    n: int,
) -> Result<Seq<Seq<char>>, Problem<Seq<char>>>
    decreases n,
{
    if n <= 0 {
        Ok(Seq::empty())
    } else {
        match args_upto(args, env, name, n - 1) {
            Err(p) => Err(p),
            Ok(done) => match resolved(args[n - 1]@, env, arg_context(name, n - 1)) {
                Err(p) => Err(p),
                Ok(text) => Ok(done.push(text)),
            },
        }
    }
}

proof fn lemma_args_stick(
    args: Seq<String>,
    env: Map<Seq<char>, Seq<char>>,
    name: Seq<char>,
    n: int,
    m: int,
)
    requires
        0 <= n <= m,
        args_upto(args, env, name, n) is Err,
    ensures
        args_upto(args, env, name, m) == args_upto(args, env, name, n),
    decreases m,
{
    if n < m {
        lemma_args_stick(args, env, name, n, m - 1);
    }
}

fn resolve_args(args: &Vec<String>, env: &Env, name: &String) -> (res: Result<
    Vec<String>,
    ConfigError,
>)
    ensures
        match res {
            Ok(list) => args_upto(args@, env@, name@, args@.len() as int) == Ok::<
                Seq<Seq<char>>,
                Problem<Seq<char>>,
            >(texts(list@)),
            Err(e) => outcome(args_upto(args@, env@, name@, args@.len() as int), e),
        },
{
    let mut list: Vec<String> = Vec::new();
    let mut i: usize = 0;
    assert(texts(list@) =~= Seq::empty());
    while i < args.len()
        invariant
            i <= args@.len(),
            args_upto(args@, env@, name@, i as int) == Ok::<Seq<Seq<char>>, Problem<Seq<char>>>(
                texts(list@),
            ),
        decreases args@.len() - i,
    {
        let mut place = "args[".to_owned();
        place.append(decimal_text(i as u128).as_str());
        place.append("]");
        let context = context_text(name, place.as_str());
        match resolve(&args[i], env, &context) {
            Ok(text) => {
                let ghost before = texts(list@);
                list.push(text);
                assert(texts(list@) =~= before.push(text@));
            },
            Err(e) => {
                proof {
                    lemma_args_stick(args@, env@, name@, i + 1, args@.len() as int);
                }
                return Err(e);
            },
        }
        i = i + 1;
    }
    Ok(list)
}

// ---- dependencies ----

/// A readiness condition with its template resolved and its value checked.
pub open spec fn condition(
    raw: RawCondition,
    env: Map<Seq<char>, Seq<char>>,
    name: Seq<char>,
    dependency: Seq<char>,
) -> Result<ConditionModel, Problem<Seq<char>>> {
    match raw {
        RawCondition::Port(port) => Ok(ConditionModel::Port(port)),
        RawCondition::Exit(code) => Ok(ConditionModel::Exit(code)),
        RawCondition::PortTemplate(template) => {
            let context = until_context(name, dependency, "port"@);
            match resolved(template@, env, context) {
                Err(p) => Err(p),
                Ok(value) => match as_u16(value) {
                    Some(port) => Ok(ConditionModel::Port(port)),
                    None => Err(Problem::BadPort { context, value }),
                },
            }
        },
        RawCondition::ExitTemplate(template) => {
            let context = until_context(name, dependency, "exit"@);
            match resolved(template@, env, context) {
                Err(p) => Err(p),
                Ok(value) => match as_i32(value) {
                    Some(code) => Ok(ConditionModel::Exit(code)),
                    None => Err(Problem::BadExit { context, value }),
                },
            }
        },
        RawCondition::Log(template) => {
            match resolved(template@, env, until_context(name, dependency, "log"@)) {
                Err(p) => Err(p),
                Ok(pattern) => match pattern_problem(pattern) {
                    None => Ok(ConditionModel::Log(pattern)),
                    Some(why) => Err(Problem::BadLogRegex { name, dependency, why }),
                },
            }
        },
    }
}

fn until_text(name: &String, dependency: &String, key: &str) -> (text: String)
    ensures
        text@ == until_context(name@, dependency@, key@),
{
    let mut place = "dependsOn[".to_owned();
    place.append(dependency.as_str());
    place.append("].until.");
    place.append(key);
    context_text(name, place.as_str())
}

fn resolve_condition(raw: &RawCondition, env: &Env, name: &String, dependency: &String) -> (res:
    Result<ReadinessCondition, ConfigError>)
    ensures
        match res {
            Ok(until) => condition(*raw, env@, name@, dependency@) == Ok::<
                ConditionModel,
                Problem<Seq<char>>,
            >(until@),
            Err(e) => outcome(condition(*raw, env@, name@, dependency@), e),
        },
{
    match raw {
        RawCondition::Port(port) => Ok(ReadinessCondition::Port(*port)),
        RawCondition::Exit(code) => Ok(ReadinessCondition::Exit(*code)),
        RawCondition::PortTemplate(template) => {
            let context = until_text(name, dependency, "port");
            match resolve(template, env, &context) {
                Err(e) => Err(e),
                Ok(value) => match parse_u16(value.as_str()) {
                    Some(port) => Ok(ReadinessCondition::Port(port)),
                    None => Err(Problem::BadPort { context, value }),
                },
            }
        },
        RawCondition::ExitTemplate(template) => {
            let context = until_text(name, dependency, "exit");
            match resolve(template, env, &context) {
                Err(e) => Err(e),
                Ok(value) => match parse_i32(value.as_str()) {
                    Some(code) => Ok(ReadinessCondition::Exit(code)),
                    None => Err(Problem::BadExit { context, value }),
                },
            }
        },
        RawCondition::Log(template) => {
            let context = until_text(name, dependency, "log");
            match resolve(template, env, &context) {
                Err(e) => Err(e),
                Ok(pattern) => match check_pattern(pattern.as_str()) {
                    None => Ok(ReadinessCondition::Log(pattern)),
                    Some(why) => Err(
                        Problem::BadLogRegex {
                            name: name.clone(),
                            dependency: dependency.clone(),
                            why,
                        },
                    ),
                },
            }
        },
    }
}

/// The first `n` dependencies, resolved.
pub open spec fn dependencies_upto(
    raw: Seq<RawDependency>,
    env: Map<Seq<char>, Seq<char>>,
    name: Seq<char>,
    n: int,
) -> Result<Seq<DependencyModel>, Problem<Seq<char>>>
    decreases n,
{
    if n <= 0 {
        Ok(Seq::empty())
    } else {
        match dependencies_upto(raw, env, name, n - 1) {
            Err(p) => Err(p),
            Ok(done) => match condition(raw[n - 1].until, env, name, raw[n - 1].name@) {
                Err(p) => Err(p),
                Ok(until) => Ok(done.push(DependencyModel { name: raw[n - 1].name@, until })),
            },
        }
    }
}

proof fn lemma_dependencies_stick(
    raw: Seq<RawDependency>,
    env: Map<Seq<char>, Seq<char>>,
    name: Seq<char>,
    n: int,
    m: int,
)
    requires
        0 <= n <= m,
        dependencies_upto(raw, env, name, n) is Err,
    ensures
        dependencies_upto(raw, env, name, m) == dependencies_upto(raw, env, name, n),
    decreases m,
{
    if n < m {
        lemma_dependencies_stick(raw, env, name, n, m - 1);
    }
}

fn resolve_dependencies(raw: &Vec<RawDependency>, env: &Env, name: &String) -> (res: Result<
    Vec<Dependency>,
    ConfigError,
>)
    ensures
        match res {
            Ok(list) => dependencies_upto(raw@, env@, name@, raw@.len() as int) == Ok::<
                Seq<DependencyModel>,
                Problem<Seq<char>>,
            >(dependency_models(list@)),
            Err(e) => outcome(dependencies_upto(raw@, env@, name@, raw@.len() as int), e),
        },
{
    let mut list: Vec<Dependency> = Vec::new();
    let mut i: usize = 0;
    assert(dependency_models(list@) =~= Seq::empty());
    while i < raw.len()
        invariant
            i <= raw@.len(),
            dependencies_upto(raw@, env@, name@, i as int) == Ok::<
                Seq<DependencyModel>,
                Problem<Seq<char>>,
            >(dependency_models(list@)),
        decreases raw@.len() - i,
    {
        match resolve_condition(&raw[i].until, env, name, &raw[i].name) {
            Ok(until) => {
                let ghost before = dependency_models(list@);
                let dependency = Dependency { name: raw[i].name.clone(), until };
                list.push(dependency);
                assert(dependency_models(list@) =~= before.push(dependency@));
            },
            Err(e) => {
                proof {
                    lemma_dependencies_stick(raw@, env@, name@, i + 1, raw@.len() as int);
                }
                return Err(e);
            },
        }
        i = i + 1;
    }
    Ok(list)
}

// ---- one process ----

/// Whether nothing but white space is in a text.
pub open spec fn blank(s: Seq<char>) -> bool {
    trimmed(s).len() == 0
}

/// Whether one of the first `n` processes has this name.
pub open spec fn named_before(raw: Seq<RawProcess>, n: int, name: Seq<char>) -> bool {
    exists|j: int| 0 <= j < n && (#[trigger] raw[j]).name@ == name
}

/// What is wrong with the name or the command of process `n`.
pub open spec fn header_problem(raw: Seq<RawProcess>, n: int) -> Option<Problem<Seq<char>>> {
    let name = raw[n].name@;
    if blank(name) {
        Some(Problem::EmptyName)
    } else if named_before(raw, n, name) {
        Some(Problem::DuplicateName { name })
    } else if blank(raw[n].command@) {
        Some(Problem::EmptyCommand { name })
    } else {
        None
    }
}

/// The working directory of a process.
pub open spec fn working_dir(
    fact: PathFact,
    dir: Seq<char>,
    path: Seq<char>,
    name: Seq<char>,
) -> Result<Seq<char>, Problem<Seq<char>>> {
    match fact {
        PathFact::Directory(canonical) => Ok(canonical@),
        PathFact::Missing(why) => Err(
            Problem::CwdMissing { name, path: located(dir, path), why: why@ },
        ),
        PathFact::File(canonical) => Err(Problem::CwdNotADirectory { name, path: canonical@ }),
        PathFact::Other(canonical) => Err(Problem::CwdNotADirectory { name, path: canonical@ }),
    }
}

/// What is wrong with a retry policy.
pub open spec fn retry_problem(retry: Option<RetryConfig>, name: Seq<char>) -> Option<
    Problem<Seq<char>>,
> {
    match retry {
        None => None,
        Some(policy) => if policy.max_retries == 0 {
            Some(Problem::NoRetries { name })
        } else if policy.delay_ms == 0 {
            Some(Problem::NoRetryDelay { name })
        } else {
            match policy.max_delay_ms {
                Some(cap) => if cap < policy.delay_ms {
                    Some(
                        Problem::RetryCapBelowDelay {
                            name,
                            max_delay_ms: cap,
                            delay_ms: policy.delay_ms,
                        },
                    )
                } else {
                    None
                },
                None => None,
            }
        },
    }
}

/// The tags that are not blank.
pub open spec fn kept_tags(tags: Seq<String>) -> Seq<Seq<char>>
    decreases tags.len(),
{
    if tags.len() == 0 {
        Seq::empty()
    } else if blank(tags.last()@) {
        kept_tags(tags.drop_last())
    } else {
        kept_tags(tags.drop_last()).push(tags.last()@)
    }
}

/// The environment that the templates of a process see.
pub open spec fn template_env(
    raw: RawProcess,
    facts: ProcessFacts,
    ports: Map<Seq<char>, Seq<char>>,
) -> Map<Seq<char>, Seq<char>> {
    merged_env(facts.sources, raw.env@, ports)
}

/// Process `n` of a configuration, or the first thing that is wrong with it:
/// its name and command, its working directory, its env files, its
/// environment, its templates, its dependencies, its retry policy.
pub open spec fn loaded_process(
    raw: Seq<RawProcess>,
    n: int,
    facts: ProcessFacts,
    dir: Seq<char>,
    globals: Seq<Seq<char>>,
    ports: Map<Seq<char>, Seq<char>>,
) -> Result<ProcessModel, Problem<Seq<char>>> {
    let p = raw[n];
    let name = p.name@;
    match header_problem(raw, n) {
        Some(problem) => Err(problem),
        None => match working_dir(facts.cwd, dir, p.cwd@, name) {
            Err(problem) => Err(problem),
            Ok(cwd) => match env_files_upto(
                facts.env_files@,
                dir,
                p.env_files@,
                Some(name),
                p.env_files@.len() as int,
            ) {
                Err(problem) => Err(problem),
                Ok(env_files) => match failure_of(facts.sources.files()) {
                    Some(why) => Err(Problem::EnvUnreadable { name, why }),
                    None => match resolved(
                        p.command@,
                        template_env(p, facts, ports),
                        context_of(name, "command"@),
                    ) {
                        Err(problem) => Err(problem),
                        Ok(command) => match args_upto(
                            p.args@,
                            template_env(p, facts, ports),
                            name,
                            p.args@.len() as int,
                        ) {
                            Err(problem) => Err(problem),
                            Ok(args) => match dependencies_upto(
                                p.depends_on@,
                                template_env(p, facts, ports),
                                name,
                                p.depends_on@.len() as int,
                            ) {
                                Err(problem) => Err(problem),
                                Ok(depends_on) => match retry_problem(p.retry, name) {
                                    Some(problem) => Err(problem),
                                    None => Ok(
                                        ProcessModel {
                                            name,
                                            command,
                                            args,
                                            cwd,
                                            env_files,
                                            global_env_files: globals,
                                            env: p.env@,
                                            dynamic_ports: ports,
                                            depends_on,
                                            long_lived: p.long_lived,
                                            tags: kept_tags(p.tags@),
                                            retry: p.retry,
                                        },
                                    ),
                                },
                            },
                        },
                    },
                },
            },
        },
    }
}

fn check_header(raw: &Vec<RawProcess>, n: usize) -> (problem: Option<ConfigError>)
    requires
        n < raw@.len(),
    ensures
        match problem {
            Some(e) => header_problem(raw@, n as int) == Some(e@),
            None => header_problem(raw@, n as int) is None,
        },
{
    if is_blank(raw[n].name.as_str()) {
        return Some(Problem::EmptyName);
    }
    let mut j: usize = 0;
    while j < n
        invariant
            j <= n < raw@.len(),
            !blank(raw@[n as int].name@),
            forall|k: int| 0 <= k < j ==> (#[trigger] raw@[k]).name@ != raw@[n as int].name@,
        decreases n - j,
    {
        if same_text(raw[j].name.as_str(), raw[n].name.as_str()) {
            return Some(Problem::DuplicateName { name: raw[n].name.clone() });
        }
        j = j + 1;
    }
    if is_blank(raw[n].command.as_str()) {
        return Some(Problem::EmptyCommand { name: raw[n].name.clone() });
    }
    None
}

fn resolve_working_dir(fact: &PathFact, dir: &str, path: &str, name: &String) -> (res: Result<
    String,
    ConfigError,
>)
    ensures
        match res {
            Ok(cwd) => working_dir(*fact, dir@, path@, name@) == Ok::<
                Seq<char>,
                Problem<Seq<char>>,
            >(cwd@),
            Err(e) => outcome(working_dir(*fact, dir@, path@, name@), e),
        },
{
    match fact {
        PathFact::Directory(canonical) => Ok(canonical.clone()),
        PathFact::Missing(why) => Err(
            Problem::CwdMissing {
                name: name.clone(),
                path: locate(dir, path),
                why: why.clone(),
            },
        ),
        PathFact::File(canonical) => Err(
            Problem::CwdNotADirectory { name: name.clone(), path: canonical.clone() },
        ),
        PathFact::Other(canonical) => Err(
            Problem::CwdNotADirectory { name: name.clone(), path: canonical.clone() },
        ),
    }
}

fn check_retry(retry: Option<RetryConfig>, name: &String) -> (problem: Option<ConfigError>)
    ensures
        match problem {
            Some(e) => retry_problem(retry, name@) == Some(e@),
            None => retry_problem(retry, name@) is None,
        },
{
    match retry {
        None => None,
        Some(policy) => {
            if policy.max_retries == 0 {
                return Some(Problem::NoRetries { name: name.clone() });
            }
            if policy.delay_ms == 0 {
                return Some(Problem::NoRetryDelay { name: name.clone() });
            }
            match policy.max_delay_ms {
                Some(cap) => {
                    if cap < policy.delay_ms {
                        Some(
                            Problem::RetryCapBelowDelay {
                                name: name.clone(),
                                max_delay_ms: cap,
                                delay_ms: policy.delay_ms,
                            },
                        )
                    } else {
                        None
                    }
                },
                None => None,
            }
        },
    }
}

fn keep_tags(tags: &Vec<String>) -> (kept: Vec<String>)
    ensures
        texts(kept@) == kept_tags(tags@),
{
    let mut kept: Vec<String> = Vec::new();
    let mut i: usize = 0;
    assert(tags@.take(0) =~= Seq::<String>::empty());
    assert(texts(kept@) =~= Seq::empty());
    while i < tags.len()
        invariant
            i <= tags@.len(),
            texts(kept@) == kept_tags(tags@.take(i as int)),
        decreases tags@.len() - i,
    {
        let ghost now = tags@.take(i + 1);
        assert(now.drop_last() =~= tags@.take(i as int));
        assert(now.last() == tags@[i as int]);
        if !is_blank(tags[i].as_str()) {
            let ghost before = texts(kept@);
            let tag = tags[i].clone();
            kept.push(tag);
            assert(texts(kept@) =~= before.push(tag@));
        }
        i = i + 1;
    }
    assert(tags@.take(tags@.len() as int) =~= tags@);
    kept
}

fn load_process(
    raw: &Vec<RawProcess>,
    n: usize,
    facts: &ProcessFacts,
    dir: &str,
    globals: &Vec<String>,
    ports: &Env,
) -> (res: Result<ProcessConfig, ConfigError>)
    requires
        n < raw@.len(),
        facts.env_files@.len() == raw@[n as int].env_files@.len(),
    ensures
        match res {
            Ok(p) => loaded_process(raw@, n as int, *facts, dir@, texts(globals@), ports@) == Ok::<
                ProcessModel,
                Problem<Seq<char>>,
            >(p@),
            Err(e) => outcome(
                loaded_process(raw@, n as int, *facts, dir@, texts(globals@), ports@),
                e,
            ),
        },
{
    let p = &raw[n];
    if let Some(e) = check_header(raw, n) {
        return Err(e);
    }
    let cwd = match resolve_working_dir(&facts.cwd, dir, p.cwd.as_str(), &p.name) {
        Ok(cwd) => cwd,
        Err(e) => {
            return Err(e);
        },
    };
    let env_files = match resolve_env_files(&facts.env_files, dir, &p.env_files, Some(&p.name)) {
        Ok(files) => files,
        Err(e) => {
            return Err(e);
        },
    };
    let env = match build_env(&facts.sources, &p.env, ports) {
        Ok(env) => env,
        Err(why) => {
            return Err(Problem::EnvUnreadable { name: p.name.clone(), why });
        },
    };
    let context = context_text(&p.name, "command");
    let command = match resolve(&p.command, &env, &context) {
        Ok(command) => command,
        Err(e) => {
            return Err(e);
        },
    };
    let args = match resolve_args(&p.args, &env, &p.name) {
        Ok(args) => args,
        Err(e) => {
            return Err(e);
        },
    };
    let depends_on = match resolve_dependencies(&p.depends_on, &env, &p.name) {
        Ok(list) => list,
        Err(e) => {
            return Err(e);
        },
    };
    if let Some(e) = check_retry(p.retry, &p.name) {
        return Err(e);
    }
    Ok(
        ProcessConfig {
            name: p.name.clone(),
            command,
            args,
            cwd,
            env_files,
            global_env_files: copy_texts(globals),
            env: p.env.clone(),
            dynamic_ports: ports.clone(),
            depends_on,
            long_lived: p.long_lived,
            tags: keep_tags(&p.tags),
            retry: p.retry,
        },
    )
}

// ---- the dependency graph ----

/// The last process of that name, where there is one.
pub open spec fn index_of(models: Seq<ProcessModel>, name: Seq<char>) -> Option<int>
    decreases models.len(),
{
    if models.len() == 0 {
        None
    } else if models.last().name == name {
        Some(models.len() - 1)
    } else {
        index_of(models.drop_last(), name)
    }
}

/// The processes that a list of dependencies names, in order; names that no
/// process has are left out.
pub open spec fn known_targets(models: Seq<ProcessModel>, deps: Seq<DependencyModel>) -> Seq<int>
    decreases deps.len(),
{
    if deps.len() == 0 {
        Seq::empty()
    } else {
        match index_of(models, deps.last().name) {
            Some(t) => known_targets(models, deps.drop_last()).push(t),
            None => known_targets(models, deps.drop_last()),
        }
    }
}

/// Which processes each process waits for.
pub open spec fn graph_of(models: Seq<ProcessModel>) -> Seq<Seq<int>> {
    Seq::new(models.len(), |i: int| known_targets(models, models[i].depends_on))
}

/// The first dependency, from dependency `k` of process `i` on, that names no
/// process or its own.
pub open spec fn link_problem_from(models: Seq<ProcessModel>, i: int, k: int) -> Option<
    Problem<Seq<char>>,
>
    decreases models.len() - i, models[i].depends_on.len() - k,
{
    if i < 0 || i >= models.len() || k < 0 {
        None
    } else if k >= models[i].depends_on.len() {
        link_problem_from(models, i + 1, 0)
    } else {
        let dependency = models[i].depends_on[k].name;
        match index_of(models, dependency) {
            None => Some(Problem::UnknownDependency { name: models[i].name, dependency }),
            Some(t) => if t == i {
                Some(Problem::SelfDependency { name: models[i].name })
            } else {
                link_problem_from(models, i, k + 1)
            },
        }
    }
}

/// The first dependency that names no process or its own.
pub open spec fn link_problem(models: Seq<ProcessModel>) -> Option<Problem<Seq<char>>> {
    link_problem_from(models, 0, 0)
}

/// The names of a list of processes, by index.
pub open spec fn names_at(models: Seq<ProcessModel>, nodes: Seq<usize>) -> Seq<Seq<char>> {
    Seq::new(nodes.len(), |i: int| models[nodes[i] as int].name)
}

/// Whether a problem reports the cycle that a depth-first search meets first:
/// the processes on the way to it and around it, each depending on the next.
pub open spec fn reports_cycle(models: Seq<ProcessModel>, problem: Problem<Seq<char>>) -> bool {
    exists|walk: Seq<nat>, nodes: Seq<usize>|
        first_closing(graph_of(models), walk) && #[trigger] visits(graph_of(models), walk, nodes)
            && problem == (Problem::Cycle { path: joined(names_at(models, nodes), " -> "@) })
}

/// The index of the last process of that name, where there is one.
pub fn find_process(processes: &[ProcessConfig], name: &String) -> (at: Option<usize>)
    ensures
        match at {
            Some(i) => i < processes@.len() && index_of(process_models(processes@), name@) == Some(
                i as int,
            ),
            None => index_of(process_models(processes@), name@) is None,
        },
{
    let ghost models = process_models(processes@);
    let mut i: usize = processes.len();
    assert(models.take(i as int) =~= models);
    while i > 0
        invariant
            i <= processes@.len(),
            models == process_models(processes@),
            index_of(models, name@) == index_of(models.take(i as int), name@),
        decreases i,
    {
        let ghost prefix = models.take(i as int);
        assert(prefix.drop_last() =~= models.take(i - 1));
        assert(prefix.last() == processes@[i - 1]@);
        if same_text(processes[i - 1].name.as_str(), name.as_str()) {
            return Some(i - 1);
        }
        i = i - 1;
    }
    None
}

proof fn lemma_index_in_range(models: Seq<ProcessModel>, name: Seq<char>)
    ensures
        index_of(models, name) matches Some(t) ==> 0 <= t < models.len() && models[t].name == name,
    decreases models.len(),
{
    if models.len() > 0 {
        lemma_index_in_range(models.drop_last(), name);
    }
}

proof fn lemma_targets_in_range(models: Seq<ProcessModel>, deps: Seq<DependencyModel>)
    ensures
        forall|k: int|
            0 <= k < known_targets(models, deps).len() ==> 0 <= #[trigger] known_targets(
                models,
                deps,
            )[k] < models.len(),
    decreases deps.len(),
{
    if deps.len() > 0 {
        lemma_targets_in_range(models, deps.drop_last());
        lemma_index_in_range(models, deps.last().name);
        let init = known_targets(models, deps.drop_last());
        assert forall|k: int| 0 <= k < known_targets(models, deps).len() implies 0
            <= #[trigger] known_targets(models, deps)[k] < models.len() by {
            if k < init.len() {
                assert(known_targets(models, deps)[k] == init[k]);
            }
        }
    }
}

/// The graph of a list of processes stays within the list.
pub proof fn law_graph_in_range(models: Seq<ProcessModel>)
    ensures
        in_range(graph_of(models)),
{
    assert forall|i: int, k: int|
        0 <= i < graph_of(models).len() && 0 <= k < graph_of(models)[i].len() implies 0
        <= #[trigger] graph_of(models)[i][k] < graph_of(models).len() by {
        lemma_targets_in_range(models, models[i].depends_on);
    }
}

fn known_targets_of(processes: &[ProcessConfig], deps: &Vec<Dependency>) -> (targets: Vec<usize>)
    ensures
        Seq::new(targets@.len(), |k: int| targets@[k] as int) == known_targets(
            process_models(processes@),
            dependency_models(deps@),
        ),
{
    let ghost models = process_models(processes@);
    let ghost all = dependency_models(deps@);
    let mut targets: Vec<usize> = Vec::new();
    let mut k: usize = 0;
    assert(all.take(0) =~= Seq::<DependencyModel>::empty());
    assert(Seq::new(targets@.len(), |j: int| targets@[j] as int) =~= Seq::<int>::empty());
    while k < deps.len()
        invariant
            k <= deps@.len(),
            models == process_models(processes@),
            all == dependency_models(deps@),
            Seq::new(targets@.len(), |j: int| targets@[j] as int) == known_targets(
                models,
                all.take(k as int),
            ),
        decreases deps@.len() - k,
    {
        let ghost now = all.take(k + 1);
        let ghost before = Seq::new(targets@.len(), |j: int| targets@[j] as int);
        assert(now.drop_last() =~= all.take(k as int));
        assert(now.last() == deps@[k as int]@);
        if let Some(t) = find_process(processes, &deps[k].name) {
            targets.push(t);
            assert(Seq::new(targets@.len(), |j: int| targets@[j] as int) =~= before.push(t as int));
        }
        k = k + 1;
    }
    assert(all.take(all.len() as int) =~= all);
    targets
}

fn adjacency(processes: &[ProcessConfig]) -> (adj: Vec<Vec<usize>>)
    ensures
        targets_of(adj@) == graph_of(process_models(processes@)),
        adj@.len() == processes@.len(),
{
    let ghost models = process_models(processes@);
    let mut adj: Vec<Vec<usize>> = Vec::new();
    let mut i: usize = 0;
    while i < processes.len()
        invariant
            i <= processes@.len(),
            models == process_models(processes@),
            adj@.len() == i,
            forall|j: int|
                0 <= j < i ==> Seq::new(
                    (#[trigger] adj@[j])@.len(),
                    |k: int| adj@[j]@[k] as int,
                ) == known_targets(models, models[j].depends_on),
        decreases processes@.len() - i,
    {
        let targets = known_targets_of(processes, &processes[i].depends_on);
        assert(models[i as int].depends_on == dependency_models(
            processes@[i as int].depends_on@,
        ));
        adj.push(targets);
        i = i + 1;
    }
    assert(targets_of(adj@) =~= graph_of(models)) by {
        assert forall|j: int| 0 <= j < adj@.len() implies #[trigger] targets_of(adj@)[j]
            == graph_of(models)[j] by {
            assert(targets_of(adj@)[j] =~= Seq::new(
                adj@[j]@.len(),
                |k: int| adj@[j]@[k] as int,
            ));
        }
    }
    adj
}

fn check_links(processes: &[ProcessConfig]) -> (problem: Option<ConfigError>)
    ensures
        match problem {
            Some(e) => link_problem(process_models(processes@)) == Some(e@),
            None => link_problem(process_models(processes@)) is None,
        },
{
    let ghost models = process_models(processes@);
    let mut i: usize = 0;
    while i < processes.len()
        invariant
            i <= processes@.len(),
            models == process_models(processes@),
            link_problem(models) == link_problem_from(models, i as int, 0),
        decreases processes@.len() - i,
    {
        let p = &processes[i];
        let mut k: usize = 0;
        while k < p.depends_on.len()
            invariant
                i < processes@.len(),
                *p == processes@[i as int],
                k <= p.depends_on@.len(),
                models == process_models(processes@),
                link_problem(models) == link_problem_from(models, i as int, k as int),
            decreases p.depends_on@.len() - k,
        {
            assert(models[i as int].depends_on[k as int].name == p.depends_on@[k as int].name@);
            match find_process(processes, &p.depends_on[k].name) {
                None => {
                    return Some(
                        Problem::UnknownDependency {
                            name: p.name.clone(),
                            dependency: p.depends_on[k].name.clone(),
                        },
                    );
                },
                Some(target) => {
                    if target == i {
                        return Some(Problem::SelfDependency { name: p.name.clone() });
                    }
                },
            }
            k = k + 1;
        }
        assert(models[i as int].depends_on.len() == p.depends_on@.len());
        i = i + 1;
    }
    None
}

fn names_of(processes: &[ProcessConfig], nodes: &Vec<usize>) -> (names: Vec<String>)
    requires
        forall|i: int| 0 <= i < nodes@.len() ==> (#[trigger] nodes@[i]) < processes@.len(),
    ensures
        texts(names@) == names_at(process_models(processes@), nodes@),
{
    let ghost models = process_models(processes@);
    let mut names: Vec<String> = Vec::new();
    let mut i: usize = 0;
    while i < nodes.len()
        invariant
            i <= nodes@.len(),
            models == process_models(processes@),
            forall|j: int| 0 <= j < nodes@.len() ==> (#[trigger] nodes@[j]) < processes@.len(),
            names@.len() == i,
            forall|j: int| 0 <= j < i ==> (#[trigger] names@[j])@ == models[nodes@[j] as int].name,
        decreases nodes@.len() - i,
    {
        names.push(processes[nodes[i]].name.clone());
        i = i + 1;
    }
    assert(texts(names@) =~= names_at(models, nodes@));
    names
}

/// Check that every dependency names another process, and that no process
/// waits for itself through others.
pub fn validate_dep_graph(processes: &[ProcessConfig]) -> (res: Result<(), ConfigError>)
    ensures
        match link_problem(process_models(processes@)) {
            Some(problem) => res matches Err(e) && e@ == problem,
            None => match res {
                Ok(_) => acyclic(graph_of(process_models(processes@))),
                Err(e) => !acyclic(graph_of(process_models(processes@))) && reports_cycle(
                    process_models(processes@),
                    e@,
                ),
            },
        },
{
    if let Some(e) = check_links(processes) {
        return Err(e);
    }
    let ghost models = process_models(processes@);
    let ghost g = graph_of(models);
    let adj = adjacency(processes);
    proof {
        law_graph_in_range(models);
    }
    match find_cycle(&adj) {
        None => Ok(()),
        Some(nodes) => {
            let ghost walk = choose|walk: Seq<nat>| #[trigger]
                first_closing(g, walk) && visits(g, walk, nodes@);
            proof {
                law_first_closing_is_a_cycle(g, walk, nodes@);
            }
            let names = names_of(processes, &nodes);
            let path = join(&names, " -> ");
            Err(Problem::Cycle { path })
        },
    }
}

// ---- the whole configuration ----

/// The first `n` processes, or the first thing that is wrong with one.
pub open spec fn processes_upto(
    raw: RawConfig,
    facts: LoadFacts,
    globals: Seq<Seq<char>>,
    ports: Map<Seq<char>, Seq<char>>,
    n: int,
) -> Result<Seq<ProcessModel>, Problem<Seq<char>>>
    decreases n,
{
    if n <= 0 {
        Ok(Seq::empty())
    } else {
        match processes_upto(raw, facts, globals, ports, n - 1) {
            Err(p) => Err(p),
            Ok(done) => match loaded_process(
                raw.processes@,
                n - 1,
                facts.processes@[n - 1],
                facts.config_dir@,
                globals,
                ports,
            ) {
                Err(p) => Err(p),
                Ok(process) => Ok(done.push(process)),
            },
        }
    }
}

/// The env files of the whole configuration. A configuration needs a process.
pub open spec fn root_files(raw: RawConfig, facts: Seq<PathFact>, dir: Seq<char>) -> Result<
    Seq<Seq<char>>,
    Problem<Seq<char>>,
> {
    if raw.processes@.len() == 0 {
        Err(Problem::NoProcesses)
    } else {
        env_files_upto(facts, dir, raw.env_files@, None, raw.env_files@.len() as int)
    }
}

/// The processes of a configuration before their dependencies are checked, or
/// the first thing that is wrong: no processes, the shared env files, the
/// dynamic ports, then each process in turn.
pub open spec fn loaded_processes(raw: RawConfig, facts: LoadFacts) -> Result<
    Seq<ProcessModel>,
    Problem<Seq<char>>,
> {
    match root_files(raw, facts.env_files@, facts.config_dir@) {
        Err(p) => Err(p),
        Ok(globals) => match facts.dynamic_ports {
            Err(why) => Err(Problem::DynamicPorts { why: why@ }),
            Ok(ports) => processes_upto(
                raw,
                facts,
                globals,
                ports@,
                raw.processes@.len() as int,
            ),
        },
    }
}

proof fn lemma_processes_stick(
    raw: RawConfig,
    facts: LoadFacts,
    globals: Seq<Seq<char>>,
    ports: Map<Seq<char>, Seq<char>>,
    n: int,
    m: int,
)
    requires
        0 <= n <= m,
        processes_upto(raw, facts, globals, ports, n) is Err,
    ensures
        processes_upto(raw, facts, globals, ports, m) == processes_upto(
            raw,
            facts,
            globals,
            ports,
            n,
        ),
    decreases m,
{
    if n < m {
        lemma_processes_stick(raw, facts, globals, ports, n, m - 1);
    }
}

/// Check that a configuration has processes, and resolve its shared env files:
/// what has to hold before a port is allocated.
pub fn resolve_root(raw: &RawConfig, facts: &Vec<PathFact>, dir: &str) -> (res: Result<
    Vec<String>,
    ConfigError,
>)
    requires
        facts@.len() == raw.env_files@.len(),
    ensures
        match res {
            Ok(files) => root_files(*raw, facts@, dir@) == Ok::<Seq<Seq<char>>, Problem<Seq<char>>>(
                texts(files@),
            ),
            Err(e) => outcome(root_files(*raw, facts@, dir@), e),
        },
{
    if raw.processes.len() == 0 {
        return Err(Problem::NoProcesses);
    }
    resolve_env_files(facts, dir, &raw.env_files, None)
}

impl Config {
    /// Load a configuration: check what the file holds against what was found,
    /// resolve every path and template, and check the dependencies. The first
    /// thing that is wrong is the error.
    pub fn load(raw: &RawConfig, facts: &LoadFacts) -> (res: Result<LoadedConfig, ConfigError>)
        requires
            facts_fit(*raw, *facts),
        ensures
            match loaded_processes(*raw, *facts) {
                Err(problem) => res matches Err(e) && e@ == problem,
                Ok(models) => match link_problem(models) {
                    Some(problem) => res matches Err(e) && e@ == problem,
                    None => match res {
                        Ok(loaded) => acyclic(graph_of(models)) && process_models(
                            loaded.config.processes@,
                        ) == models && loaded.config_dir@ == facts.config_dir@
                            && (facts.dynamic_ports matches Ok(ports) && loaded.dynamic_ports@
                            == ports@),
                        Err(e) => !acyclic(graph_of(models)) && reports_cycle(models, e@),
                    },
                },
            },
    {
        let globals = match resolve_root(raw, &facts.env_files, facts.config_dir.as_str()) {
            Ok(files) => files,
            Err(e) => {
                return Err(e);
            },
        };
        let ports = match &facts.dynamic_ports {
            Ok(ports) => ports,
            Err(why) => {
                return Err(Problem::DynamicPorts { why: why.clone() });
            },
        };
        let mut processes: Vec<ProcessConfig> = Vec::new();
        let mut i: usize = 0;
        assert(process_models(processes@) =~= Seq::empty());
        while i < raw.processes.len()
            invariant
                i <= raw.processes@.len(),
                facts_fit(*raw, *facts),
                processes_upto(*raw, *facts, texts(globals@), ports@, i as int) == Ok::<
                    Seq<ProcessModel>,
                    Problem<Seq<char>>,
                >(process_models(processes@)),
                loaded_processes(*raw, *facts) == processes_upto(
                    *raw,
                    *facts,
                    texts(globals@),
                    ports@,
                    raw.processes@.len() as int,
                ),
            decreases raw.processes@.len() - i,
        {
            assert(facts.processes@[i as int].env_files@.len()
                == raw.processes@[i as int].env_files@.len());
            match load_process(
                &raw.processes,
                i,
                &facts.processes[i],
                facts.config_dir.as_str(),
                &globals,
                ports,
            ) {
                Ok(process) => {
                    let ghost before = process_models(processes@);
                    processes.push(process);
                    assert(process_models(processes@) =~= before.push(process@));
                },
                Err(e) => {
                    proof {
                        lemma_processes_stick(
                            *raw,
                            *facts,
                            texts(globals@),
                            ports@,
                            i + 1,
                            raw.processes@.len() as int,
                        );
                    }
                    return Err(e);
                },
            }
            i = i + 1;
        }
        match validate_dep_graph(&processes) {
            Err(e) => Err(e),
            Ok(_) => Ok(
                LoadedConfig {
                    config: Config { processes },
                    config_dir: facts.config_dir.clone(),
                    dynamic_ports: ports.clone(),
                },
            ),
        }
    }
}

// ---- selecting by tag ----

/// Whether a process carries one of the tags.
pub open spec fn carries(p: ProcessModel, tags: Seq<Seq<char>>) -> bool {
    exists|i: int, j: int|
        0 <= i < p.tags.len() && 0 <= j < tags.len() && #[trigger] p.tags[i]
            == #[trigger] tags[j]
}

/// Which processes carry one of the tags.
pub open spec fn tagged(models: Seq<ProcessModel>, tags: Seq<Seq<char>>) -> Seq<bool> {
    Seq::new(models.len(), |i: int| carries(models[i], tags))
}

/// Whether process `i` is selected: it carries a tag, or a process that does
/// waits for it, directly or through others.
pub open spec fn selected(models: Seq<ProcessModel>, tags: Seq<Seq<char>>, i: int) -> bool {
    reaches(graph_of(models), tagged(models, tags), i)
}

/// The selected ones of the first `n` processes, in order.
pub open spec fn selection(models: Seq<ProcessModel>, tags: Seq<Seq<char>>, n: int) -> Seq<
    ProcessModel,
>
    decreases n,
{
    if n <= 0 {
        Seq::empty()
    } else if selected(models, tags, n - 1) {
        selection(models, tags, n - 1).push(models[n - 1])
    } else {
        selection(models, tags, n - 1)
    }
}

fn carries_tag(p: &ProcessConfig, tags: &[String]) -> (yes: bool)
    ensures
        yes == carries(p@, texts(tags@)),
{
    let ghost own = p@.tags;
    let ghost wanted = texts(tags@);
    let mut i: usize = 0;
    while i < p.tags.len()
        invariant
            i <= p.tags@.len(),
            own == texts(p.tags@),
            wanted == texts(tags@),
            own == p@.tags,
            forall|a: int, b: int|
                0 <= a < i && 0 <= b < wanted.len() ==> #[trigger] own[a] != #[trigger] wanted[b],
        decreases p.tags@.len() - i,
    {
        let mut j: usize = 0;
        while j < tags.len()
            invariant
                i < p.tags@.len(),
                j <= tags@.len(),
                own == texts(p.tags@),
                wanted == texts(tags@),
                own == p@.tags,
                forall|b: int| 0 <= b < j ==> own[i as int] != #[trigger] wanted[b],
            decreases tags@.len() - j,
        {
            if same_text(p.tags[i].as_str(), tags[j].as_str()) {
                assert(own[i as int] == wanted[j as int]);
                return true;
            }
            j = j + 1;
        }
        i = i + 1;
    }
    false
}

/// The processes that carry any of the tags, and everything that they wait
/// for, in their order. Fails where no process carries one of the tags.
pub fn filter_by_tags(processes: &[ProcessConfig], tags: &[String]) -> (res: Result<
    Vec<ProcessConfig>,
    ConfigError,
>)
    ensures
        match res {
            Ok(kept) => (exists|i: int|
                0 <= i < processes@.len() && carries(#[trigger] processes@[i]@, texts(tags@)))
                && process_models(kept@) == selection(
                process_models(processes@),
                texts(tags@),
                processes@.len() as int,
            ),
            Err(e) => (forall|i: int|
                0 <= i < processes@.len() ==> !carries(#[trigger] processes@[i]@, texts(tags@)))
                && e@ == (Problem::NothingTagged { tags: joined(texts(tags@), ", "@) }),
        },
{
    let ghost models = process_models(processes@);
    let ghost wanted = texts(tags@);
    let mut marked: Vec<bool> = Vec::new();
    let mut any = false;
    let mut i: usize = 0;
    while i < processes.len()
        invariant
            i <= processes@.len(),
            models == process_models(processes@),
            wanted == texts(tags@),
            marked@.len() == i,
            forall|j: int| 0 <= j < i ==> #[trigger] marked@[j] == carries(models[j], wanted),
            any <==> exists|j: int| 0 <= j < i && carries(#[trigger] processes@[j]@, wanted),
        decreases processes@.len() - i,
    {
        let yes = carries_tag(&processes[i], tags);
        assert(models[i as int] == processes@[i as int]@);
        marked.push(yes);
        if yes {
            any = true;
        }
        i = i + 1;
    }
    if !any {
        return Err(Problem::NothingTagged { tags: join(tags, ", ") });
    }
    assert(marked@ =~= tagged(models, wanted));
    let adj = adjacency(processes);
    proof {
        law_graph_in_range(models);
    }
    let found = reachable(&adj, &marked);
    let mut kept: Vec<ProcessConfig> = Vec::new();
    let mut i: usize = 0;
    assert(process_models(kept@) =~= Seq::empty());
    while i < processes.len()
        invariant
            i <= processes@.len(),
            models == process_models(processes@),
            found@.len() == processes@.len(),
            forall|v: int|
                0 <= v < processes@.len() ==> (#[trigger] found@[v] <==> selected(
                    models,
                    wanted,
                    v,
                )),
            process_models(kept@) == selection(models, wanted, i as int),
        decreases processes@.len() - i,
    {
        assert(models[i as int] == processes@[i as int]@);
        assert(found@[i as int] <==> selected(models, wanted, i as int));
        if found[i] {
            let ghost before = process_models(kept@);
            let p = processes[i].clone();
            kept.push(p);
            assert(process_models(kept@) =~= before.push(p@));
        }
        i = i + 1;
    }
    Ok(kept)
}

/// A selection holds what was asked for, and with each process everything that
/// it waits for.
pub proof fn law_selection_is_closed(
    models: Seq<ProcessModel>,
    tags: Seq<Seq<char>>,
    i: int,
    k: int,
)
    requires
        0 <= i < models.len(),
    ensures
        carries(models[i], tags) ==> selected(models, tags, i),
        selected(models, tags, i) && 0 <= k < graph_of(models)[i].len() ==> selected(
            models,
            tags,
            graph_of(models)[i][k],
        ),
{
    law_reaches_closed(graph_of(models), tagged(models, tags), i, k);
}

/// What is loaded has a process for each that the file holds, in order, each
/// with a name of its own that is not blank.
pub proof fn law_loaded_names_are_distinct(raw: RawConfig, facts: LoadFacts, i: int, j: int)
    requires
        loaded_processes(raw, facts) is Ok,
        0 <= i < j < raw.processes@.len(),
    ensures
        ({
            let models = loaded_processes(raw, facts)->Ok_0;
            &&& models.len() == raw.processes@.len()
            &&& models[i].name == raw.processes@[i].name@
            &&& models[j].name == raw.processes@[j].name@
            &&& models[i].name != models[j].name
            &&& !blank(models[i].name)
            &&& !blank(models[j].name)
        }),
{
    let globals = root_files(raw, facts.env_files@, facts.config_dir@)->Ok_0;
    let ports = facts.dynamic_ports->Ok_0@;
    let n = raw.processes@.len() as int;
    lemma_loaded_header(raw, facts, globals, ports, n, i);
    lemma_loaded_header(raw, facts, globals, ports, n, j);
}

proof fn lemma_loaded_header(
    raw: RawConfig,
    facts: LoadFacts,
    globals: Seq<Seq<char>>,
    ports: Map<Seq<char>, Seq<char>>,
    n: int,
    i: int,
)
    requires
        processes_upto(raw, facts, globals, ports, n) is Ok,
        0 <= i < n <= raw.processes@.len(),
    ensures
        ({
            let models = processes_upto(raw, facts, globals, ports, n)->Ok_0;
            &&& models.len() == n
            &&& models[i].name == raw.processes@[i].name@
            &&& header_problem(raw.processes@, i) is None
        }),
    decreases n,
{
    if i < n - 1 {
        lemma_loaded_header(raw, facts, globals, ports, n - 1, i);
    } else if n > 1 {
        lemma_loaded_header(raw, facts, globals, ports, n - 1, 0);
    }
}

/// Where no dependency is wrong, each one names another process.
pub proof fn law_dependencies_name_other_processes(models: Seq<ProcessModel>, i: int, k: int)
    requires
        link_problem(models) is None,
        0 <= i < models.len(),
        0 <= k < models[i].depends_on.len(),
    ensures
        index_of(models, models[i].depends_on[k].name) is Some,
        index_of(models, models[i].depends_on[k].name) != Some(i),
{
    lemma_links_are_sound(models, 0, 0, i, k);
}

proof fn lemma_links_are_sound(models: Seq<ProcessModel>, a: int, b: int, i: int, k: int)
    requires
        link_problem_from(models, a, b) is None,
        0 <= a <= i < models.len(),
        0 <= b,
        a == i ==> b <= k,
        0 <= k < models[i].depends_on.len(),
    ensures
        index_of(models, models[i].depends_on[k].name) is Some,
        index_of(models, models[i].depends_on[k].name) != Some(i),
    decreases models.len() - a, models[a].depends_on.len() - b,
{
    if b >= models[a].depends_on.len() {
        lemma_links_are_sound(models, a + 1, 0, i, k);
    } else if a < i || b < k {
        lemma_links_are_sound(models, a, b + 1, i, k);
    }
}

// ---- what a configuration says is what is loaded ----

/// Whether there is a character in a text that is no white space.
pub open spec fn says_something(s: Seq<char>) -> bool {
    exists|i: int| 0 <= i < s.len() && !crate::text::is_white(#[trigger] s[i])
}

proof fn lemma_says_something(s: Seq<char>)
    ensures
        says_something(s) <==> !blank(s),
{
    crate::text::law_blank_is_all_white(s);
}

/// The tags of a process are those that the file lists, in order, but for the
/// blank ones: a list that is put together from two has the tags of the one and
/// then those of the other, and a tag alone is kept unless it is blank.
pub proof fn law_tags_are_kept_in_order(a: Seq<String>, b: Seq<String>, tag: String)
    ensures
        kept_tags(a + b) == kept_tags(a) + kept_tags(b),
        says_something(tag@) ==> kept_tags(seq![tag]) == seq![tag@],
        !says_something(tag@) ==> kept_tags(seq![tag]) == Seq::<Seq<char>>::empty(),
    decreases b.len(),
{
    lemma_says_something(tag@);
    assert(seq![tag].drop_last() =~= Seq::<String>::empty());
    assert(kept_tags(Seq::<String>::empty()) =~= Seq::<Seq<char>>::empty());
    if says_something(tag@) {
        assert(kept_tags(seq![tag]) =~= seq![tag@]);
    }
    if b.len() == 0 {
        assert(a + b =~= a);
        assert(kept_tags(a) + kept_tags(b) =~= kept_tags(a));
    } else {
        law_tags_are_kept_in_order(a, b.drop_last(), tag);
        assert((a + b).drop_last() =~= a + b.drop_last());
        assert(kept_tags(a + b) =~= kept_tags(a) + kept_tags(b));
    }
}

/// A tag is carried exactly where the file lists it and it is not blank.
pub proof fn law_listed_tags_are_carried(tags: Seq<String>, tag: Seq<char>)
    ensures
        kept_tags(tags).contains(tag) <==> says_something(tag) && exists|i: int|
            0 <= i < tags.len() && (#[trigger] tags[i])@ == tag,
        kept_tags(tags).len() <= tags.len(),
    decreases tags.len(),
{
    lemma_says_something(tag);
    if tags.len() > 0 {
        let init = tags.drop_last();
        law_listed_tags_are_carried(init, tag);
        lemma_says_something(tags.last()@);
        let kept = kept_tags(tags);
        if kept.contains(tag) {
            let k = kept.index_of(tag);
            if k < kept_tags(init).len() {
                assert(kept_tags(init)[k] == tag);
                let i = choose|i: int| 0 <= i < init.len() && (#[trigger] init[i])@ == tag;
                assert(tags[i]@ == tag);
            } else {
                assert(tags[tags.len() - 1]@ == tag);
            }
        }
        if says_something(tag) && exists|i: int| 0 <= i < tags.len() && (#[trigger] tags[i])@ == tag {
            let i = choose|i: int| 0 <= i < tags.len() && (#[trigger] tags[i])@ == tag;
            if i < init.len() {
                assert(init[i]@ == tag);
                let k = kept_tags(init).index_of(tag);
                assert(kept[k] == tag);
            } else {
                assert(kept[kept.len() - 1] == tag);
            }
        }
    }
}

proof fn lemma_env_files_listed(
    facts: Seq<PathFact>,
    dir: Seq<char>,
    paths: Seq<String>,
    owner: Option<Seq<char>>,
    n: int,
)
    requires
        0 <= n,
    ensures
        env_files_upto(facts, dir, paths, owner, n) is Ok <==> forall|k: int|
            0 <= k < n ==> #[trigger] facts[k] is File,
        env_files_upto(facts, dir, paths, owner, n) matches Ok(files) ==> files.len() == n
            && forall|k: int|
            0 <= k < n ==> facts[k] is File && #[trigger] files[k] == facts[k]->File_0@,
    decreases n,
{
    if n > 0 {
        lemma_env_files_listed(facts, dir, paths, owner, n - 1);
        if forall|k: int| 0 <= k < n ==> #[trigger] facts[k] is File {
            assert(facts[n - 1] is File);
        }
    }
}

/// Env files are accepted exactly where each of them is a file, and come in
/// their canonical form, in order. Else the first that is none is to blame.
pub proof fn law_env_files_have_to_be_files(
    facts: Seq<PathFact>,
    dir: Seq<char>,
    paths: Seq<String>,
    owner: Option<Seq<char>>,
    bad: int,
)
    requires
        facts.len() == paths.len(),
    ensures
        ({
            let res = env_files_upto(facts, dir, paths, owner, paths.len() as int);
            &&& res is Ok <==> forall|k: int| 0 <= k < facts.len() ==> #[trigger] facts[k] is File
            &&& res matches Ok(files) ==> files.len() == facts.len() && forall|k: int|
                0 <= k < facts.len() ==> #[trigger] files[k] == facts[k]->File_0@
            &&& 0 <= bad < facts.len() && !(facts[bad] is File) && (forall|k: int|
                0 <= k < bad ==> #[trigger] facts[k] is File) ==> res is Err && match (
                facts[bad],
                owner,
            ) {
                (PathFact::Missing(why), Some(name)) => res->Err_0 == (Problem::EnvFileMissing {
                    name,
                    path: located(dir, paths[bad]@),
                    why: why@,
                }),
                (PathFact::Missing(why), None) => res->Err_0 == (Problem::RootEnvFileMissing {
                    path: located(dir, paths[bad]@),
                    why: why@,
                }),
                (PathFact::Directory(path), Some(name)) => res->Err_0
                    == (Problem::EnvFileNotAFile { name, path: path@ }),
                (PathFact::Other(path), Some(name)) => res->Err_0 == (Problem::EnvFileNotAFile {
                    name,
                    path: path@,
                }),
                (PathFact::Directory(path), None) => res->Err_0 == (Problem::RootEnvFileNotAFile {
                    path: path@,
                }),
                (PathFact::Other(path), None) => res->Err_0 == (Problem::RootEnvFileNotAFile {
                    path: path@,
                }),
                _ => true,
            }
        }),
{
    lemma_env_files_listed(facts, dir, paths, owner, paths.len() as int);
    if 0 <= bad < facts.len() && !(facts[bad] is File) && (forall|k: int|
        0 <= k < bad ==> #[trigger] facts[k] is File) {
        lemma_env_files_listed(facts, dir, paths, owner, bad);
        lemma_env_files_stick(facts, dir, paths, owner, bad + 1, paths.len() as int);
    }
}

/// A path of the configuration starts from its directory, unless it starts from
/// the root.
pub proof fn law_relative_paths_start_from_the_directory(dir: Seq<char>, path: Seq<char>)
    ensures
        path.len() > 0 && path[0] == '/' ==> located(dir, path) == path,
        !(path.len() > 0 && path[0] == '/') && dir.len() > 0 && dir.last() != '/' ==> located(
            dir,
            path,
        ) == dir.push('/') + path,
        !(path.len() > 0 && path[0] == '/') && (dir.len() == 0 || dir.last() == '/') ==> located(
            dir,
            path,
        ) == dir + path,
{
    reveal_strlit("/");
    assert("/"@ =~= seq!['/']);
    assert(dir + "/"@ + path =~= dir.push('/') + path);
}

proof fn lemma_args_listed(
    args: Seq<String>,
    env: Map<Seq<char>, Seq<char>>,
    name: Seq<char>,
    n: int,
)
    requires
        0 <= n,
    ensures
        args_upto(args, env, name, n) is Ok <==> forall|k: int|
            0 <= k < n ==> expanded((#[trigger] args[k])@, env) is Some,
        args_upto(args, env, name, n) matches Ok(list) ==> list.len() == n && forall|k: int|
            0 <= k < n ==> expanded(args[k]@, env) == Some(#[trigger] list[k]),
    decreases n,
{
    if n > 0 {
        lemma_args_listed(args, env, name, n - 1);
        if forall|k: int| 0 <= k < n ==> expanded((#[trigger] args[k])@, env) is Some {
            assert(expanded(args[n - 1]@, env) is Some);
        }
    }
}

/// Whether a condition of the file can be met, and means `until`: a number
/// stands for itself, a template for the number that it comes to, and a log
/// template for a pattern that is one.
pub open spec fn means(
    raw: RawCondition,
    env: Map<Seq<char>, Seq<char>>,
    until: ConditionModel,
) -> bool {
    match raw {
        RawCondition::Port(port) => until == ConditionModel::Port(port),
        RawCondition::Exit(code) => until == ConditionModel::Exit(code),
        RawCondition::PortTemplate(template) => until matches ConditionModel::Port(port)
            && expanded(template@, env) is Some && as_u16(expanded(template@, env)->0) == Some(
            port,
        ),
        RawCondition::ExitTemplate(template) => until matches ConditionModel::Exit(code)
            && expanded(template@, env) is Some && as_i32(expanded(template@, env)->0) == Some(
            code,
        ),
        RawCondition::Log(template) => until matches ConditionModel::Log(pattern) && expanded(
            template@,
            env,
        ) == Some(pattern) && pattern_problem(pattern) is None,
    }
}

/// A condition is accepted exactly where it means something, and then it is
/// what it means.
pub proof fn law_conditions_mean_what_they_say(
    raw: RawCondition,
    env: Map<Seq<char>, Seq<char>>,
    name: Seq<char>,
    dependency: Seq<char>,
    until: ConditionModel,
)
    ensures
        condition(raw, env, name, dependency) == Ok::<ConditionModel, Problem<Seq<char>>>(until)
            <==> means(raw, env, until),
{
}

proof fn lemma_dependencies_listed(
    raw: Seq<RawDependency>,
    env: Map<Seq<char>, Seq<char>>,
    name: Seq<char>,
    n: int,
)
    requires
        0 <= n,
    ensures
        dependencies_upto(raw, env, name, n) is Ok <==> forall|k: int|
            0 <= k < n ==> condition((#[trigger] raw[k]).until, env, name, raw[k].name@) is Ok,
        dependencies_upto(raw, env, name, n) matches Ok(list) ==> list.len() == n && forall|k: int|
            0 <= k < n ==> (#[trigger] list[k]).name == raw[k].name@ && means(
                raw[k].until,
                env,
                list[k].until,
            ),
    decreases n,
{
    if n > 0 {
        lemma_dependencies_listed(raw, env, name, n - 1);
        let d = raw[n - 1];
        if let Ok(until) = condition(d.until, env, name, d.name@) {
            law_conditions_mean_what_they_say(d.until, env, name, d.name@, until);
        }
        if forall|k: int|
            0 <= k < n ==> condition((#[trigger] raw[k]).until, env, name, raw[k].name@) is Ok {
            assert(condition(raw[n - 1].until, env, name, raw[n - 1].name@) is Ok);
        }
    }
}

/// Whether process `n` of the file, with what was found for it, is in order:
/// its name, command, directory, env files, templates, dependencies and retry
/// policy.
pub open spec fn in_order(
    raw: Seq<RawProcess>,
    n: int,
    facts: ProcessFacts,
    ports: Map<Seq<char>, Seq<char>>,
) -> bool {
    let p = raw[n];
    let env = merged_env(facts.sources, p.env@, ports);
    let files = facts.sources.global_files@ + facts.sources.dotenv_files()
        + facts.sources.env_files@;
    &&& says_something(p.name@)
    &&& forall|j: int| 0 <= j < n ==> (#[trigger] raw[j]).name@ != p.name@
    &&& says_something(p.command@)
    &&& facts.cwd is Directory
    &&& forall|k: int| 0 <= k < p.env_files@.len() ==> #[trigger] facts.env_files@[k] is File
    &&& forall|k: int| 0 <= k < files.len() ==> #[trigger] files[k] is Loaded
    &&& expanded(p.command@, env) is Some
    &&& forall|k: int|
        0 <= k < p.args@.len() ==> expanded((#[trigger] p.args@[k])@, env) is Some
    &&& forall|k: int|
        0 <= k < p.depends_on@.len() ==> exists|until: ConditionModel| #[trigger]
            means((#[trigger] p.depends_on@[k]).until, env, until)
    &&& p.retry matches Some(policy) ==> policy.max_retries >= 1 && policy.delay_ms >= 1 && (
    policy.max_delay_ms matches Some(cap) ==> cap >= policy.delay_ms)
}

/// A process is loaded exactly where it is in order.
pub proof fn law_processes_in_order_are_loaded(
    raw: Seq<RawProcess>,
    n: int,
    facts: ProcessFacts,
    dir: Seq<char>,
    globals: Seq<Seq<char>>,
    ports: Map<Seq<char>, Seq<char>>,
)
    requires
        0 <= n < raw.len(),
    ensures
        loaded_process(raw, n, facts, dir, globals, ports) is Ok <==> in_order(
            raw,
            n,
            facts,
            ports,
        ),
{
    let p = raw[n];
    let env = template_env(p, facts, ports);
    lemma_says_something(p.name@);
    lemma_says_something(p.command@);
    lemma_env_files_listed(
        facts.env_files@,
        dir,
        p.env_files@,
        Some(p.name@),
        p.env_files@.len() as int,
    );
    crate::env::law_first_unreadable_file_is_named(facts.sources.files());
    lemma_args_listed(p.args@, env, p.name@, p.args@.len() as int);
    lemma_dependencies_listed(p.depends_on@, env, p.name@, p.depends_on@.len() as int);
    assert forall|k: int| 0 <= k < p.depends_on@.len() implies (condition(
        (#[trigger] p.depends_on@[k]).until,
        env,
        p.name@,
        p.depends_on@[k].name@,
    ) is Ok <==> exists|until: ConditionModel| #[trigger]
        means(p.depends_on@[k].until, env, until)) by {
        let d = p.depends_on@[k];
        if let Ok(until) = condition(d.until, env, p.name@, d.name@) {
            law_conditions_mean_what_they_say(d.until, env, p.name@, d.name@, until);
        }
        if exists|until: ConditionModel| #[trigger] means(d.until, env, until) {
            let until = choose|until: ConditionModel| #[trigger] means(d.until, env, until);
            law_conditions_mean_what_they_say(d.until, env, p.name@, d.name@, until);
        }
    }
}

/// Whether `m` is process `p` of the file as it was found: everything that the
/// file says of it, with its paths in canonical form and its templates
/// expanded.
pub open spec fn is_as_written(
    p: RawProcess,
    facts: ProcessFacts,
    globals: Seq<Seq<char>>,
    ports: Map<Seq<char>, Seq<char>>,
    m: ProcessModel,
) -> bool {
    let env = merged_env(facts.sources, p.env@, ports);
    &&& m.name == p.name@
    &&& expanded(p.command@, env) == Some(m.command)
    &&& m.args.len() == p.args@.len()
    &&& forall|k: int|
        0 <= k < m.args.len() ==> expanded(p.args@[k]@, env) == Some(#[trigger] m.args[k])
    &&& facts.cwd matches PathFact::Directory(dir) && m.cwd == dir@
    &&& m.env_files.len() == p.env_files@.len()
    &&& forall|k: int|
        0 <= k < m.env_files.len() ==> facts.env_files@[k] is File && #[trigger] m.env_files[k]
            == facts.env_files@[k]->File_0@
    &&& m.global_env_files == globals
    &&& m.env == p.env@
    &&& m.dynamic_ports == ports
    &&& m.depends_on.len() == p.depends_on@.len()
    &&& forall|k: int|
        0 <= k < m.depends_on.len() ==> (#[trigger] m.depends_on[k]).name == p.depends_on@[k].name@
            && means(p.depends_on@[k].until, env, m.depends_on[k].until)
    &&& m.long_lived == p.long_lived
    &&& m.tags == kept_tags(p.tags@)
    &&& forall|tag: Seq<char>| #[trigger]
        m.tags.contains(tag) <==> says_something(tag) && exists|i: int|
            0 <= i < p.tags@.len() && (#[trigger] p.tags@[i])@ == tag
    &&& m.retry == p.retry
}

/// What is loaded is what the file says.
pub proof fn law_loaded_process_is_as_written(
    raw: Seq<RawProcess>,
    n: int,
    facts: ProcessFacts,
    dir: Seq<char>,
    globals: Seq<Seq<char>>,
    ports: Map<Seq<char>, Seq<char>>,
)
    requires
        0 <= n < raw.len(),
        loaded_process(raw, n, facts, dir, globals, ports) is Ok,
    ensures
        is_as_written(
            raw[n],
            facts,
            globals,
            ports,
            loaded_process(raw, n, facts, dir, globals, ports)->Ok_0,
        ),
{
    let p = raw[n];
    let m = loaded_process(raw, n, facts, dir, globals, ports)->Ok_0;
    let env = template_env(p, facts, ports);
    lemma_env_files_listed(
        facts.env_files@,
        dir,
        p.env_files@,
        Some(p.name@),
        p.env_files@.len() as int,
    );
    lemma_args_listed(p.args@, env, p.name@, p.args@.len() as int);
    lemma_dependencies_listed(p.depends_on@, env, p.name@, p.depends_on@.len() as int);
    assert forall|tag: Seq<char>| #[trigger]
        m.tags.contains(tag) <==> says_something(tag) && exists|i: int|
            0 <= i < p.tags@.len() && (#[trigger] p.tags@[i])@ == tag by {
        law_listed_tags_are_carried(p.tags@, tag);
    }
}

proof fn lemma_processes_listed(
    raw: RawConfig,
    facts: LoadFacts,
    globals: Seq<Seq<char>>,
    ports: Map<Seq<char>, Seq<char>>,
    n: int,
)
    requires
        0 <= n <= raw.processes@.len(),
    ensures
        processes_upto(raw, facts, globals, ports, n) is Ok <==> forall|i: int|
            0 <= i < n ==> in_order(raw.processes@, i, #[trigger] facts.processes@[i], ports),
        processes_upto(raw, facts, globals, ports, n) matches Ok(models) ==> models.len() == n
            && forall|i: int|
            0 <= i < n ==> is_as_written(
                raw.processes@[i],
                facts.processes@[i],
                globals,
                ports,
                #[trigger] models[i],
            ),
    decreases n,
{
    if n > 0 {
        lemma_processes_listed(raw, facts, globals, ports, n - 1);
        let last = facts.processes@[n - 1];
        law_processes_in_order_are_loaded(
            raw.processes@,
            n - 1,
            last,
            facts.config_dir@,
            globals,
            ports,
        );
        if loaded_process(
            raw.processes@,
            n - 1,
            last,
            facts.config_dir@,
            globals,
            ports,
        ) is Ok {
            law_loaded_process_is_as_written(
                raw.processes@,
                n - 1,
                last,
                facts.config_dir@,
                globals,
                ports,
            );
        }
        if forall|i: int|
            0 <= i < n ==> in_order(raw.processes@, i, #[trigger] facts.processes@[i], ports) {
            assert(in_order(raw.processes@, n - 1, facts.processes@[n - 1], ports));
        }
    }
}

/// A configuration passes its first checks exactly where it has a process, its
/// shared env files are files, its ports could be allocated, and each process is
/// in order. What comes of it is what the file says, process by process.
pub proof fn law_configuration_is_loaded_as_written(raw: RawConfig, facts: LoadFacts)
    requires
        facts_fit(raw, facts),
    ensures
        loaded_processes(raw, facts) is Ok <==> (raw.processes@.len() > 0 && (forall|k: int|
            0 <= k < raw.env_files@.len() ==> #[trigger] facts.env_files@[k] is File) && (
        facts.dynamic_ports matches Ok(ports) && forall|i: int|
            0 <= i < raw.processes@.len() ==> in_order(
                raw.processes@,
                i,
                #[trigger] facts.processes@[i],
                ports@,
            ))),
        loaded_processes(raw, facts) matches Ok(models) ==> models.len() == raw.processes@.len()
            && forall|i: int|
            0 <= i < models.len() ==> is_as_written(
                raw.processes@[i],
                facts.processes@[i],
                Seq::new(facts.env_files@.len(), |k: int| facts.env_files@[k]->File_0@),
                facts.dynamic_ports->Ok_0@,
                #[trigger] models[i],
            ),
{
    lemma_env_files_listed(
        facts.env_files@,
        facts.config_dir@,
        raw.env_files@,
        None,
        raw.env_files@.len() as int,
    );
    if let Ok(globals) = root_files(raw, facts.env_files@, facts.config_dir@) {
        assert(globals =~= Seq::new(
            facts.env_files@.len(),
            |k: int| facts.env_files@[k]->File_0@,
        ));
        if let Ok(ports) = facts.dynamic_ports {
            lemma_processes_listed(raw, facts, globals, ports@, raw.processes@.len() as int);
        }
    }
}

/// Where several processes are wrong, the first one is to blame.
pub proof fn law_first_wrong_process_is_to_blame(raw: RawConfig, facts: LoadFacts, bad: int)
    requires
        facts_fit(raw, facts),
        0 <= bad < raw.processes@.len(),
        forall|k: int| 0 <= k < raw.env_files@.len() ==> #[trigger] facts.env_files@[k] is File,
        facts.dynamic_ports is Ok,
        forall|i: int|
            0 <= i < bad ==> in_order(
                raw.processes@,
                i,
                #[trigger] facts.processes@[i],
                facts.dynamic_ports->Ok_0@,
            ),
        !in_order(raw.processes@, bad, facts.processes@[bad], facts.dynamic_ports->Ok_0@),
    ensures
        ({
            let globals = root_files(raw, facts.env_files@, facts.config_dir@)->Ok_0;
            let one = loaded_process(
                raw.processes@,
                bad,
                facts.processes@[bad],
                facts.config_dir@,
                globals,
                facts.dynamic_ports->Ok_0@,
            );
            &&& one is Err
            &&& loaded_processes(raw, facts) is Err
            &&& loaded_processes(raw, facts)->Err_0 == one->Err_0
        }),
{
    let ports = facts.dynamic_ports->Ok_0@;
    lemma_env_files_listed(
        facts.env_files@,
        facts.config_dir@,
        raw.env_files@,
        None,
        raw.env_files@.len() as int,
    );
    let globals = root_files(raw, facts.env_files@, facts.config_dir@)->Ok_0;
    lemma_processes_listed(raw, facts, globals, ports, bad);
    law_processes_in_order_are_loaded(
        raw.processes@,
        bad,
        facts.processes@[bad],
        facts.config_dir@,
        globals,
        ports,
    );
    lemma_processes_stick(raw, facts, globals, ports, bad + 1, raw.processes@.len() as int);
}

/// What is wrong with a process is said: which check fails first, and on what.
pub proof fn law_wrong_process_is_explained(
    raw: Seq<RawProcess>,
    n: int,
    facts: ProcessFacts,
    dir: Seq<char>,
    globals: Seq<Seq<char>>,
    ports: Map<Seq<char>, Seq<char>>,
)
    requires
        0 <= n < raw.len(),
    ensures
        ({
            let p = raw[n];
            let name = p.name@;
            let res = loaded_process(raw, n, facts, dir, globals, ports);
            let taken = exists|j: int| 0 <= j < n && (#[trigger] raw[j]).name@ == name;
            let headed = says_something(name) && !taken && says_something(p.command@);
            &&& !says_something(name) ==> res is Err && res->Err_0 == Problem::<
                Seq<char>,
            >::EmptyName
            &&& says_something(name) && taken ==> res is Err && res->Err_0
                == (Problem::DuplicateName { name })
            &&& says_something(name) && !taken && !says_something(p.command@) ==> res is Err
                && res->Err_0 == (Problem::EmptyCommand { name })
            &&& headed ==> match facts.cwd {
                PathFact::Directory(_) => true,
                PathFact::Missing(why) => res is Err && res->Err_0 == (Problem::CwdMissing {
                    name,
                    path: located(dir, p.cwd@),
                    why: why@,
                }),
                PathFact::File(path) => res is Err && res->Err_0 == (Problem::CwdNotADirectory {
                    name,
                    path: path@,
                }),
                PathFact::Other(path) => res is Err && res->Err_0 == (Problem::CwdNotADirectory {
                    name,
                    path: path@,
                }),
            }
        }),
{
    lemma_says_something(raw[n].name@);
    lemma_says_something(raw[n].command@);
}

/// A retry policy is refused exactly where it allows no retry, has no delay, or
/// has a cap below its delay, in this order.
pub proof fn law_retry_policies_are_checked(retry: Option<RetryConfig>, name: Seq<char>)
    ensures
        match retry {
            None => retry_problem(retry, name) is None,
            Some(policy) => {
                let res = retry_problem(retry, name);
                let capped = policy.max_delay_ms matches Some(cap) && cap < policy.delay_ms;
                &&& res is None <==> policy.max_retries > 0 && policy.delay_ms > 0 && !capped
                &&& policy.max_retries == 0 ==> res == Some(Problem::NoRetries { name })
                &&& policy.max_retries > 0 && policy.delay_ms == 0 ==> res == Some(
                    Problem::NoRetryDelay { name },
                )
                &&& policy.max_retries > 0 && policy.delay_ms > 0 && capped ==> res == Some(
                    Problem::RetryCapBelowDelay {
                        name,
                        max_delay_ms: policy.max_delay_ms->0,
                        delay_ms: policy.delay_ms,
                    },
                )
            },
        },
{
}

// ---- dependencies, by name ----

/// Whether no two processes have the same name.
pub open spec fn names_differ(models: Seq<ProcessModel>) -> bool {
    forall|i: int, j: int|
        0 <= i < j < models.len() ==> (#[trigger] models[i]).name != (#[trigger] models[j]).name
}

/// A name leads to the process that has it.
pub proof fn law_names_lead_to_processes(models: Seq<ProcessModel>, name: Seq<char>)
    requires
        names_differ(models),
    ensures
        forall|t: int|
            0 <= t < models.len() && (#[trigger] models[t]).name == name ==> index_of(models, name)
                == Some(t),
        (forall|t: int| 0 <= t < models.len() ==> (#[trigger] models[t]).name != name) ==> index_of(
            models,
            name,
        ) is None,
    decreases models.len(),
{
    if models.len() > 0 {
        let init = models.drop_last();
        assert forall|i: int, j: int| 0 <= i < j < init.len() implies (#[trigger] init[i]).name != (
        #[trigger] init[j]).name by {
            assert(models[i].name != models[j].name);
        }
        law_names_lead_to_processes(init, name);
        assert forall|t: int| 0 <= t < models.len() && (#[trigger] models[t]).name
            == name implies index_of(models, name) == Some(t) by {
            if t < models.len() - 1 {
                assert(models[t].name != models[models.len() - 1].name);
                assert(init[t].name == name);
            }
        }
        if forall|t: int| 0 <= t < models.len() ==> (#[trigger] models[t]).name != name {
            assert(models[models.len() - 1].name != name);
            assert forall|t: int| 0 <= t < init.len() implies (#[trigger] init[t]).name
                != name by {
                assert(models[t].name != name);
            }
        }
    }
}

/// An edge of the graph stands for a dependency: from each process to those that
/// it names, and to no other.
pub proof fn law_edges_are_dependencies(models: Seq<ProcessModel>, i: int, t: int)
    requires
        names_differ(models),
        0 <= i < models.len(),
    ensures
        graph_of(models)[i].contains(t) <==> 0 <= t < models.len() && exists|k: int|
            0 <= k < models[i].depends_on.len() && (#[trigger] models[i].depends_on[k]).name
                == models[t].name,
{
    lemma_targets_by_name(models, models[i].depends_on, t);
}

proof fn lemma_targets_by_name(models: Seq<ProcessModel>, deps: Seq<DependencyModel>, t: int)
    requires
        names_differ(models),
    ensures
        known_targets(models, deps).contains(t) <==> 0 <= t < models.len() && exists|k: int|
            0 <= k < deps.len() && (#[trigger] deps[k]).name == models[t].name,
    decreases deps.len(),
{
    if deps.len() > 0 {
        let init = deps.drop_last();
        let last = deps.last();
        lemma_targets_by_name(models, init, t);
        law_names_lead_to_processes(models, last.name);
        lemma_index_in_range(models, last.name);
        let all = known_targets(models, deps);
        let few = known_targets(models, init);
        if all.contains(t) {
            let q = all.index_of(t);
            if q < few.len() {
                assert(few[q] == t);
                let k = choose|k: int|
                    0 <= k < init.len() && (#[trigger] init[k]).name == models[t].name;
                assert(deps[k].name == models[t].name);
            } else {
                assert(deps[deps.len() - 1].name == models[t].name);
            }
        }
        if 0 <= t < models.len() && exists|k: int|
            0 <= k < deps.len() && (#[trigger] deps[k]).name == models[t].name {
            let k = choose|k: int|
                0 <= k < deps.len() && (#[trigger] deps[k]).name == models[t].name;
            if k < init.len() {
                assert(init[k].name == models[t].name);
                let q = few.index_of(t);
                assert(all[q] == t);
            } else {
                assert(index_of(models, last.name) == Some(t));
                assert(all[all.len() - 1] == t);
            }
        }
    } else {
        assert(known_targets(models, deps) =~= Seq::<int>::empty());
    }
}

/// Whether dependency `k` of process `i` names another process.
pub open spec fn names_another(models: Seq<ProcessModel>, i: int, k: int) -> bool {
    exists|t: int|
        0 <= t < models.len() && t != i && (#[trigger] models[t]).name
            == models[i].depends_on[k].name
}

/// Dependencies are accepted exactly where each names another process. Else the
/// first one that does not is to blame: it names its own process, or none.
pub proof fn law_dependencies_have_to_name_others(models: Seq<ProcessModel>, i: int, k: int)
    requires
        names_differ(models),
        0 <= i < models.len(),
        0 <= k < models[i].depends_on.len(),
        !names_another(models, i, k),
        forall|a: int, b: int|
            0 <= a < i && 0 <= b < models[a].depends_on.len() ==> #[trigger] names_another(
                models,
                a,
                b,
            ),
        forall|b: int| 0 <= b < k ==> #[trigger] names_another(models, i, b),
    ensures
        ({
            let dependency = models[i].depends_on[k].name;
            link_problem(models) == Some(
                if dependency == models[i].name {
                    Problem::SelfDependency { name: models[i].name }
                } else {
                    Problem::UnknownDependency { name: models[i].name, dependency }
                },
            )
        }),
{
    lemma_links_skip(models, 0, 0, i, k);
    let dependency = models[i].depends_on[k].name;
    law_names_lead_to_processes(models, dependency);
    lemma_index_in_range(models, dependency);
}

proof fn lemma_good_link(models: Seq<ProcessModel>, i: int, k: int)
    requires
        names_differ(models),
        0 <= i < models.len(),
        names_another(models, i, k),
    ensures
        index_of(models, models[i].depends_on[k].name) is Some,
        index_of(models, models[i].depends_on[k].name) != Some(i),
{
    law_names_lead_to_processes(models, models[i].depends_on[k].name);
}

proof fn lemma_links_skip(models: Seq<ProcessModel>, a: int, b: int, i: int, k: int)
    requires
        names_differ(models),
        0 <= a <= i <= models.len(),
        i < models.len() ==> 0 <= k <= models[i].depends_on.len(),
        i == models.len() ==> k == 0,
        0 <= b,
        a < i ==> b <= models[a].depends_on.len(),
        a == i ==> b <= k,
        forall|x: int, y: int|
            0 <= x < i && 0 <= y < models[x].depends_on.len() ==> #[trigger] names_another(
                models,
                x,
                y,
            ),
        forall|y: int| 0 <= y < k ==> #[trigger] names_another(models, i, y),
    ensures
        link_problem_from(models, a, b) == link_problem_from(models, i, k),
    decreases i - a, models[a].depends_on.len() - b,
{
    if a < i {
        if b < models[a].depends_on.len() {
            assert(names_another(models, a, b));
            lemma_good_link(models, a, b);
            lemma_links_skip(models, a, b + 1, i, k);
        } else {
            lemma_links_skip(models, a + 1, 0, i, k);
        }
    } else if b < k {
        assert(names_another(models, i, b));
        lemma_good_link(models, a, b);
        lemma_links_skip(models, a, b + 1, i, k);
    }
}

/// The same where no dependency is to blame.
pub proof fn law_dependencies_that_name_others_are_accepted(models: Seq<ProcessModel>)
    requires
        names_differ(models),
        forall|i: int, k: int|
            0 <= i < models.len() && 0 <= k < models[i].depends_on.len()
                ==> #[trigger] names_another(models, i, k),
    ensures
        link_problem(models) is None,
{
    lemma_links_skip(models, 0, 0, models.len() as int, 0);
}

/// A configuration in which processes wait for one another in a circle is
/// refused: each names the next one, and the last one the first.
pub proof fn law_circles_of_dependencies_are_refused(models: Seq<ProcessModel>, circle: Seq<int>)
    requires
        names_differ(models),
        circle.len() > 0,
        forall|i: int| 0 <= i < circle.len() ==> 0 <= #[trigger] circle[i] < models.len(),
        forall|i: int|
            0 <= i < circle.len() ==> exists|k: int|
                0 <= k < models[#[trigger] circle[i]].depends_on.len() && (
                #[trigger] models[circle[i]].depends_on[k]).name == models[circle[if i + 1
                    < circle.len() {
                    i + 1
                } else {
                    0
                }]].name,
    ensures
        !acyclic(graph_of(models)),
{
    let g = graph_of(models);
    assert forall|i: int| 0 <= i < circle.len() implies (#[trigger] g[circle[i]]).contains(
        circle[if i + 1 < circle.len() {
            i + 1
        } else {
            0
        }],
    ) by {
        law_edges_are_dependencies(models, circle[i], circle[if i + 1 < circle.len() {
            i + 1
        } else {
            0
        }]);
    }
    assert(g[circle[circle.len() - 1]].contains(circle[0]));
    crate::graph::law_circles_are_cycles(g, circle);
}

/// A configuration whose processes can be put in an order in which each comes
/// after those that it waits for has no circle.
pub proof fn law_ordered_dependencies_are_accepted(
    models: Seq<ProcessModel>,
    place: spec_fn(int) -> nat,
)
    requires
        names_differ(models),
        forall|i: int, k: int, t: int|
            0 <= i < models.len() && 0 <= t < models.len() && 0 <= k < models[i].depends_on.len()
                && (#[trigger] models[i].depends_on[k]).name == (#[trigger] models[t]).name
                ==> place(t) < place(i),
    ensures
        acyclic(graph_of(models)),
{
    let g = graph_of(models);
    assert forall|i: int, q: int| 0 <= i < g.len() && 0 <= q < g[i].len() implies place(
        #[trigger] g[i][q],
    ) < place(i) by {
        let t = g[i][q];
        assert(g[i].contains(t));
        law_edges_are_dependencies(models, i, t);
        let k = choose|k: int|
            0 <= k < models[i].depends_on.len() && (#[trigger] models[i].depends_on[k]).name
                == models[t].name;
        assert(place(t) < place(i));
    }
    crate::graph::law_ordered_graphs_are_acyclic(g, place);
}

// ---- selecting, by tag ----

/// Whether a path of dependencies leads from one process to another, each
/// naming the next one.
pub open spec fn depends_along(models: Seq<ProcessModel>, path: Seq<int>) -> bool {
    &&& path.len() > 0
    &&& forall|i: int| 0 <= i < path.len() ==> 0 <= #[trigger] path[i] < models.len()
    &&& forall|i: int|
        0 <= i < path.len() - 1 ==> exists|k: int|
            0 <= k < models[#[trigger] path[i]].depends_on.len() && (
            #[trigger] models[path[i]].depends_on[k]).name == models[path[i + 1]].name
}

/// Whether a process carries one of some tags.
pub open spec fn has_one_of(p: ProcessModel, tags: Seq<Seq<char>>) -> bool {
    exists|tag: Seq<char>| #[trigger] p.tags.contains(tag) && tags.contains(tag)
}

proof fn lemma_has_one_of(p: ProcessModel, tags: Seq<Seq<char>>)
    ensures
        has_one_of(p, tags) <==> carries(p, tags),
{
    if carries(p, tags) {
        let (i, j) = choose|i: int, j: int|
            0 <= i < p.tags.len() && 0 <= j < tags.len() && #[trigger] p.tags[i]
                == #[trigger] tags[j];
        assert(p.tags.contains(p.tags[i]) && tags.contains(p.tags[i]));
    }
    if has_one_of(p, tags) {
        let tag = choose|tag: Seq<char>| #[trigger] p.tags.contains(tag) && tags.contains(tag);
        let i = p.tags.index_of(tag);
        let j = tags.index_of(tag);
        assert(p.tags[i] == tags[j]);
    }
}

/// Everything that a process with one of the tags waits for is selected,
/// directly or through others, and so is the process itself.
pub proof fn law_tags_select_what_is_needed(
    models: Seq<ProcessModel>,
    tags: Seq<Seq<char>>,
    path: Seq<int>,
)
    requires
        names_differ(models),
        depends_along(models, path),
        has_one_of(models[path[0]], tags),
    ensures
        selected(models, tags, path.last()),
{
    let g = graph_of(models);
    lemma_has_one_of(models[path[0]], tags);
    assert forall|i: int| 0 <= i < path.len() - 1 implies (#[trigger] g[path[i]]).contains(
        path[i + 1],
    ) by {
        law_edges_are_dependencies(models, path[i], path[i + 1]);
    }
    assert(crate::graph::is_path(g, path));
    crate::graph::law_paths_reach(g, tagged(models, tags), path);
}

/// Nothing else is selected: what is selected is needed by a process with one
/// of the tags, along a path of dependencies.
pub proof fn law_selected_processes_are_needed(
    models: Seq<ProcessModel>,
    tags: Seq<Seq<char>>,
    v: int,
) -> (path: Seq<int>)
    requires
        names_differ(models),
        selected(models, tags, v),
    ensures
        depends_along(models, path),
        has_one_of(models[path[0]], tags),
        path.last() == v,
{
    let g = graph_of(models);
    law_graph_in_range(models);
    let path = crate::graph::law_reached_nodes_have_a_path(g, tagged(models, tags), v);
    assert(0 <= path[0] < models.len());
    lemma_has_one_of(models[path[0]], tags);
    assert forall|i: int| 0 <= i < path.len() - 1 implies exists|k: int|
        0 <= k < models[#[trigger] path[i]].depends_on.len() && (
        #[trigger] models[path[i]].depends_on[k]).name == models[path[i + 1]].name by {
        assert(g[path[i]].contains(path[i + 1]));
        law_edges_are_dependencies(models, path[i], path[i + 1]);
    }
    path
}

/// A selection holds each selected process once, in the order of the file, and
/// no other.
pub proof fn law_selection_keeps_the_order(models: Seq<ProcessModel>, tags: Seq<Seq<char>>, n: int)
    requires
        0 <= n < models.len(),
    ensures
        selection(models, tags, 0) == Seq::<ProcessModel>::empty(),
        selected(models, tags, n) ==> selection(models, tags, n + 1) == selection(
            models,
            tags,
            n,
        ).push(models[n]),
        !selected(models, tags, n) ==> selection(models, tags, n + 1) == selection(
            models,
            tags,
            n,
        ),
{
}

/// An argument with a reference that does not end is refused, with its place in
/// the message: the first that has one.
pub proof fn law_open_arguments_are_placed(
    args: Seq<String>,
    env: Map<Seq<char>, Seq<char>>,
    name: Seq<char>,
    bad: int,
)
    requires
        0 <= bad < args.len(),
        expanded(args[bad]@, env) is None,
        forall|i: int| 0 <= i < bad ==> expanded((#[trigger] args[i])@, env) is Some,
    ensures
        args_upto(args, env, name, args.len() as int) == Err::<
            Seq<Seq<char>>,
            Problem<Seq<char>>,
        >(
            Problem::Template {
                message: unterminated_text(
                    "process '"@ + name + "' "@ + ("args["@ + decimal(bad as nat) + "]"@),
                ),
            },
        ),
{
    lemma_args_resolve(args, env, name, bad);
    lemma_args_stick(args, env, name, bad + 1, args.len() as int);
}

proof fn lemma_args_resolve(
    args: Seq<String>,
    env: Map<Seq<char>, Seq<char>>,
    name: Seq<char>,
    n: int,
)
    requires
        0 <= n <= args.len(),
        forall|i: int| 0 <= i < n ==> expanded((#[trigger] args[i])@, env) is Some,
    ensures
        args_upto(args, env, name, n) is Ok,
    decreases n,
{
    if n > 0 {
        lemma_args_resolve(args, env, name, n - 1);
        assert(expanded(args[n - 1]@, env) is Some);
    }
}

/// A command with a reference that does not end is refused where all before it
/// is in order.
pub proof fn law_open_command_is_refused(
    raw: Seq<RawProcess>,
    n: int,
    facts: ProcessFacts,
    dir: Seq<char>,
    globals: Seq<Seq<char>>,
    ports: Map<Seq<char>, Seq<char>>,
)
    requires
        0 <= n < raw.len(),
        header_problem(raw, n) is None,
        facts.cwd is Directory,
        raw[n].env_files@.len() == 0,
        failure_of(facts.sources.files()) is None,
        expanded(raw[n].command@, merged_env(facts.sources, raw[n].env@, ports)) is None,
    ensures
        loaded_process(raw, n, facts, dir, globals, ports) == Err::<
            ProcessModel,
            Problem<Seq<char>>,
        >(
            Problem::Template {
                message: unterminated_text("process '"@ + raw[n].name@ + "' "@ + "command"@),
            },
        ),
{
}

/// A circle that is reported is one: its message names processes, each of which
/// depends on the next, none of them twice but the last, which was named before.
pub proof fn law_reported_circles_are_circles(
    models: Seq<ProcessModel>,
    problem: Problem<Seq<char>>,
) -> (nodes: Seq<usize>)
    requires
        reports_cycle(models, problem),
    ensures
        nodes.len() >= 2,
        problem == (Problem::Cycle {
            path: joined(
                Seq::new(nodes.len(), |i: int| models[nodes[i] as int].name),
                seq![' ', '-', '>', ' '],
            ),
        }),
        forall|i: int| 0 <= i < nodes.len() ==> (#[trigger] nodes[i]) < models.len(),
        forall|i: int|
            0 <= i < nodes.len() - 1 ==> graph_of(models)[(
            #[trigger] nodes[i]) as int].contains(nodes[i + 1] as int),
        forall|i: int, j: int|
            0 <= i < j < nodes.len() - 1 ==> #[trigger] nodes[i] != #[trigger] nodes[j],
        exists|i: int| 0 <= i < nodes.len() - 1 && #[trigger] nodes[i] == nodes.last(),
{
    let adj = graph_of(models);
    let (walk, nodes) = choose|walk: Seq<nat>, nodes: Seq<usize>|
        first_closing(adj, walk) && #[trigger] visits(adj, walk, nodes) && problem
            == (Problem::Cycle { path: joined(names_at(models, nodes), " -> "@) });
    law_graph_in_range(models);
    crate::graph::law_closing_walks_come_back(adj, walk, nodes);
    reveal_strlit(" -> ");
    assert(" -> "@ =~= seq![' ', '-', '>', ' ']);
    nodes
}

/// A choice by tags succeeds exactly where some process has one of them, and
/// what is chosen holds every process that does.
pub proof fn law_tags_choose_processes(
    processes: &[ProcessConfig],
    tags: &[String],
    res: Result<Vec<ProcessConfig>, ConfigError>,
    i: int,
    k: int,
)
    requires
        call_ensures(filter_by_tags, (processes, tags), res),
        0 <= i < processes@.len(),
        0 <= k < tags@.len(),
        processes@[i]@.tags.contains(tags@[k]@),
    ensures
        res is Ok,
        process_models(res->Ok_0@).contains(processes@[i]@),
{
    let models = process_models(processes@);
    let wanted = texts(tags@);
    assert(wanted[k] == tags@[k]@);
    assert(models[i] == processes@[i]@);
    lemma_has_one_of(processes@[i]@, wanted);
    assert(processes@[i]@.tags.contains(wanted[k]) && wanted.contains(wanted[k]));
    assert(carries(processes@[i]@, wanted));
    crate::graph::law_reaches_closed(graph_of(models), tagged(models, wanted), i, 0);
    lemma_selection_holds(models, wanted, models.len() as int, i);
}

proof fn lemma_selection_holds(models: Seq<ProcessModel>, tags: Seq<Seq<char>>, n: int, i: int)
    requires
        0 <= i < n <= models.len(),
        selected(models, tags, i),
    ensures
        selection(models, tags, n).contains(models[i]),
    decreases n,
{
    let all = selection(models, tags, n);
    if i == n - 1 {
        assert(all[all.len() - 1] == models[i]);
    } else {
        lemma_selection_holds(models, tags, n - 1, i);
        let before = selection(models, tags, n - 1);
        let at = before.index_of(models[i]);
        assert(all[at] == models[i]);
    }
}

/// A process as a value is what its fields say.
pub proof fn law_process_models_are_faithful(list: Seq<ProcessConfig>, i: int, k: int)
    requires
        0 <= i < list.len(),
    ensures
        ({
            let p = list[i];
            let m = process_models(list)[i];
            &&& process_models(list).len() == list.len()
            &&& m.name == p.name@ && m.command == p.command@ && m.cwd == p.cwd@
            &&& m.env == p.env@ && m.dynamic_ports == p.dynamic_ports@
            &&& m.long_lived == p.long_lived && m.retry == p.retry
            &&& m.args.len() == p.args@.len() && m.tags.len() == p.tags@.len()
            &&& m.env_files.len() == p.env_files@.len()
            &&& m.global_env_files.len() == p.global_env_files@.len()
            &&& m.depends_on.len() == p.depends_on@.len()
            &&& 0 <= k < p.args@.len() ==> m.args[k] == p.args@[k]@
            &&& 0 <= k < p.tags@.len() ==> m.tags[k] == p.tags@[k]@
            &&& 0 <= k < p.env_files@.len() ==> m.env_files[k] == p.env_files@[k]@
            &&& 0 <= k < p.global_env_files@.len() ==> m.global_env_files[k]
                == p.global_env_files@[k]@
            &&& 0 <= k < p.depends_on@.len() ==> {
                let d = p.depends_on@[k];
                &&& m.depends_on[k].name == d.name@
                &&& match d.until {
                    ReadinessCondition::Port(port) => m.depends_on[k].until == ConditionModel::Port(
                        port,
                    ),
                    ReadinessCondition::Log(pattern) => m.depends_on[k].until
                        == ConditionModel::Log(pattern@),
                    ReadinessCondition::Exit(code) => m.depends_on[k].until == ConditionModel::Exit(
                        code,
                    ),
                }
            }
        }),
{
}

/// An error is reported exactly where a step came to it.
pub proof fn law_reported_errors_are_those_found(
    res: Result<ProcessModel, Problem<Seq<char>>>,
    e: ConfigError,
)
    ensures
        outcome(res, e) <==> res is Err && res->Err_0 == e@,
{
}

} // verus!
