//! What the screen shows, as styled lines.

use vstd::prelude::*;
use vstd::string::StringExecFns;

use crate::app::{App, Mode, NOTICE_TTL_MS};
#[allow(unused_imports)]
use crate::app::AppModel;
#[allow(unused_imports)]
use crate::config::{process_models, DependencyModel, ProcessModel};
use crate::config::{Dependency, ProcessConfig};
#[allow(unused_imports)]
use crate::diag::last_of;
#[allow(unused_imports)]
use crate::env::{assigned, lemma_listing, listing, lists, pair_texts};
use crate::highlight::Area;
use crate::manager::{ProcessManager, Slot};
#[allow(unused_imports)]
use crate::manager::{SlotModel, StateModel};
use crate::status::Status;
#[allow(unused_imports)]
use crate::status::{ending_text, StatusModel};
#[allow(unused_imports)]
use crate::status_color::end_color;
use crate::status_color::{exited_color, PENDING};
#[allow(unused_imports)]
use crate::style::{
    bold, bold_on, colored, flat, line_models, on, span, unstyled, SpanModel,
};
use crate::style::{Color, Line, Span, Style};
#[allow(unused_imports)]
use crate::text::{decimal, joined, texts};
use crate::text::{chars_of, decimal_text, join};
use crate::watch::condition_string;
#[allow(unused_imports)]
use crate::watch::condition_text;

verus! {

// ---- texts ----

/// Add a line to the end of some lines.
fn put(lines: &mut Vec<Line>, line: Line)
    ensures
        line_models(final(lines)@) == line_models(old(lines)@).push(line@),
{
    lines.push(line);
    assert(line_models(lines@) =~= line_models(old(lines)@).push(line@));
}

fn two_texts(a: &str, b: &str) -> (text: String)
    ensures
        text@ == a@ + b@,
{
    let mut text = a.to_owned();
    text.append(b);
    text
}

fn three_texts(a: &str, b: &str, c: &str) -> (text: String)
    ensures
        text@ == a@ + b@ + c@,
{
    let mut text = a.to_owned();
    text.append(b);
    text.append(c);
    text
}

/// A text with blanks after it, up to a length.
pub open spec fn padded(text: Seq<char>, length: nat) -> Seq<char> {
    if text.len() >= length {
        text
    } else {
        text + Seq::new((length - text.len()) as nat, |i: int| ' ')
    }
}

fn pad(text: &str, length: usize) -> (full: String)
    ensures
        full@ == padded(text@, length as nat),
{
    let mut full = text.to_owned();
    let mut n: usize = chars_of(text).len();
    assert(full@ =~= text@ + Seq::new(0nat, |i: int| ' '));
    while n < length
        invariant
            text@.len() <= n,
            n > text@.len() ==> n <= length,
            full@ == text@ + Seq::new((n - text@.len()) as nat, |i: int| ' '),
        decreases length - n,
    {
        full.push(' ');
        n = n + 1;
        assert(full@ =~= text@ + Seq::new((n - text@.len()) as nat, |i: int| ' '));
    }
    assert(full@ =~= padded(text@, length as nat));
    full
}

// ---- the state of a slot ----

/// The colour of the dot on a tab.
pub open spec fn dot_color(s: StateModel) -> Color {
    match s.slot {
        SlotModel::Waiting => PENDING,
        SlotModel::Blocked(_) => Color::Magenta,
        SlotModel::SpawnFailed(_) => Color::Red,
        SlotModel::Process(p) => match p.status@ {
            StatusModel::Starting => PENDING,
            StatusModel::Running => Color::Green,
            StatusModel::Exited(info) => end_color(info.code, info.signal is Some, p.long_lived),
            StatusModel::SpawnFailed(_) => Color::Magenta,
        },
    }
}

/// The colour of the dot on a tab.
pub fn tab_dot_color(mgr: &ProcessManager, idx: usize) -> (color: Color)
    requires
        idx < mgr@.len(),
    ensures
        color == dot_color(mgr@[idx as int]),
{
    assert(mgr@[idx as int] == mgr.slots@[idx as int]@);
    match &mgr.slots[idx].slot {
        Slot::Waiting => PENDING,
        Slot::Blocked(_) => Color::Magenta,
        Slot::SpawnFailed(_) => Color::Red,
        Slot::Process(p) => match &p.status {
            Status::Starting => PENDING,
            Status::Running => Color::Green,
            Status::Exited(info) => exited_color(info.code, info.signal.is_some(), p.long_lived),
            Status::SpawnFailed(_) => Color::Magenta,
        },
    }
}

/// How the state of a slot reads.
pub open spec fn state_span(s: StateModel) -> SpanModel {
    match s.slot {
        SlotModel::Waiting => span("waiting"@, colored(PENDING)),
        SlotModel::Blocked(why) => span("blocked: "@ + why, colored(Color::Magenta)),
        SlotModel::SpawnFailed(why) => span("spawn failed: "@ + why, colored(Color::Red)),
        SlotModel::Process(p) => match p.status@ {
            StatusModel::Starting => span("starting"@, colored(PENDING)),
            StatusModel::Running => span("running"@, colored(Color::Green)),
            StatusModel::Exited(info) => span(
                "exited ("@ + ending_text(info) + (if s.retries_exhausted {
                    ") (retries exhausted)"@
                } else {
                    ")"@
                }),
                colored(end_color(info.code, info.signal is Some, p.long_lived)),
            ),
            StatusModel::SpawnFailed(why) => span(
                "spawn failed: "@ + why,
                colored(Color::Magenta),
            ),
        },
    }
}

/// How the state of a slot reads.
pub fn slot_status_span(mgr: &ProcessManager, idx: usize) -> (s: Span)
    requires
        idx < mgr@.len(),
    ensures
        s@ == state_span(mgr@[idx as int]),
{
    assert(mgr@[idx as int] == mgr.slots@[idx as int]@);
    match &mgr.slots[idx].slot {
        Slot::Waiting => Span::styled("waiting", Style::color(PENDING)),
        Slot::Blocked(why) => Span::styled(
            two_texts("blocked: ", why.as_str()).as_str(),
            Style::color(Color::Magenta),
        ),
        Slot::SpawnFailed(why) => Span::styled(
            two_texts("spawn failed: ", why.as_str()).as_str(),
            Style::color(Color::Red),
        ),
        Slot::Process(p) => match &p.status {
            Status::Starting => Span::styled("starting", Style::color(PENDING)),
            Status::Running => Span::styled("running", Style::color(Color::Green)),
            Status::Exited(info) => {
                let color = exited_color(info.code, info.signal.is_some(), p.long_lived);
                let ending = if mgr.slots[idx].retries_exhausted {
                    ") (retries exhausted)"
                } else {
                    ")"
                };
                Span::styled(
                    three_texts("exited (", info.text().as_str(), ending).as_str(),
                    Style::color(color),
                )
            },
            Status::SpawnFailed(why) => Span::styled(
                two_texts("spawn failed: ", why.as_str()).as_str(),
                Style::color(Color::Magenta),
            ),
        },
    }
}

// ---- the details of a process ----

pub open spec fn label_style() -> Style {
    bold(Color::Cyan)
}

pub open spec fn value_style() -> Style {
    colored(Color::White)
}

pub open spec fn dim_style() -> Style {
    colored(Color::DarkGray)
}

/// A line with a label and a value.
pub open spec fn labelled(label: Seq<char>, value: Seq<char>) -> Seq<SpanModel> {
    seq![span(label, label_style()), span(value, value_style())]
}

/// The number of the process, where one was started.
pub open spec fn pid_text(s: StateModel) -> Seq<char> {
    match s.slot {
        SlotModel::Process(p) => decimal(p.pid as nat),
        _ => "—"@,
    }
}

/// The line that names the log file.
pub open spec fn log_line(path: Option<Seq<char>>) -> Seq<SpanModel> {
    match path {
        Some(p) => seq![
            span("Log:     "@, label_style()),
            span(p, value_style()),
            span("  (y to copy)"@, dim_style()),
        ],
        None => seq![
            span("Log:     "@, label_style()),
            span("(session log capture disabled)"@, dim_style()),
        ],
    }
}

/// What the process is and how it is doing.
pub open spec fn summary_lines(cfg: ProcessModel, s: StateModel) -> Seq<Seq<SpanModel>> {
    seq![
        seq![span(cfg.name, bold(Color::Yellow))],
        Seq::empty(),
        labelled("PID:    "@, pid_text(s)),
        seq![span("Status: "@, label_style()), state_span(s)],
        Seq::empty(),
        labelled("Command: "@, cfg.command),
        labelled(
            "Args:    "@,
            if cfg.args.len() == 0 {
                "(none)"@
            } else {
                joined(cfg.args, " "@)
            },
        ),
        labelled("CWD:     "@, cfg.cwd),
        labelled(
            "Long-lived: "@,
            if cfg.long_lived {
                "true"@
            } else {
                "false"@
            },
        ),
        log_line(s.log_path),
        Seq::empty(),
    ]
}

/// One line for each env file.
pub open spec fn env_file_lines(files: Seq<Seq<char>>) -> Seq<Seq<SpanModel>> {
    if files.len() == 0 {
        seq![seq![span("Env files: "@, label_style()), span("(none)"@, dim_style())]]
    } else {
        seq![seq![span("Env files:"@, label_style())]] + Seq::new(
            files.len(),
            |i: int| seq![span("  "@, unstyled()), span(files[i], value_style())],
        )
    }
}

/// One line for each dependency.
pub open spec fn dependency_lines(deps: Seq<DependencyModel>) -> Seq<Seq<SpanModel>> {
    if deps.len() == 0 {
        Seq::empty()
    } else {
        seq![Seq::<SpanModel>::empty(), seq![span("Depends on:"@, label_style())]] + Seq::new(
            deps.len(),
            |i: int|
                seq![
                    span("  "@, unstyled()),
                    span(deps[i].name, value_style()),
                    span(" until "@ + condition_text(deps[i].until), dim_style()),
                ],
        )
    }
}

/// One line for each variable.
pub open spec fn variable_lines(list: Seq<(Seq<char>, Seq<char>)>) -> Seq<Seq<SpanModel>> {
    Seq::new(
        list.len(),
        |i: int|
            seq![
                span(list[i].0, colored(Color::Green)),
                span("="@, unstyled()),
                span(list[i].1, value_style()),
            ],
    )
}

/// The environment: what the process was started with, or what is known of it
/// before that.
pub open spec fn environment_lines(cfg: ProcessModel, s: StateModel) -> Seq<Seq<SpanModel>> {
    match s.slot {
        SlotModel::Process(p) => seq![
            seq![
                span("Environment ("@ + decimal(p.env@.len()) + " vars):"@, label_style()),
            ],
        ] + variable_lines(pair_texts(p.env@)),
        _ => seq![
            seq![span("Environment:"@, label_style())],
            seq![span("  (not spawned — env not yet resolved)"@, dim_style())],
        ] + (if listing(cfg.env).len() == 0 {
            Seq::empty()
        } else {
            seq![
                Seq::<SpanModel>::empty(),
                seq![
                    span(
                        "Config env overrides ("@ + decimal(listing(cfg.env).len()) + "):"@,
                        label_style(),
                    ),
                ],
            ] + variable_lines(listing(cfg.env))
        }),
    }
}

/// The variables that are listed for a process.
pub open spec fn listed_variables(cfg: ProcessModel, s: StateModel) -> Seq<
    (Seq<char>, Seq<char>),
> {
    match s.slot {
        SlotModel::Process(p) => pair_texts(p.env@),
        _ => listing(cfg.env),
    }
}

/// The environment that they are of.
pub open spec fn listed_environment(cfg: ProcessModel, s: StateModel) -> Map<
    Seq<char>,
    Seq<char>,
> {
    match s.slot {
        SlotModel::Process(p) => assigned(p.env@),
        _ => cfg.env,
    }
}

/// A line of the environment reads as a name, an equals sign and a value.
pub proof fn law_variables_read_as_assignments(list: Seq<(Seq<char>, Seq<char>)>, i: int)
    requires
        0 <= i < list.len(),
    ensures
        flat(variable_lines(list)[i]) == list[i].0 + "="@ + list[i].1,
{
    let line = variable_lines(list)[i];
    reveal_with_fuel(flat, 4);
    assert(line.drop_last().drop_last().drop_last() =~= Seq::empty());
    assert(flat(line) =~= list[i].0 + "="@ + list[i].1);
}

/// All that is said about a process.
pub open spec fn details_of(cfg: ProcessModel, s: StateModel) -> Seq<Seq<SpanModel>> {
    summary_lines(cfg, s) + env_file_lines(cfg.env_files) + dependency_lines(cfg.depends_on)
        + seq![Seq::<SpanModel>::empty()] + environment_lines(cfg, s)
}

fn add_variables(lines: &mut Vec<Line>, pairs: &Vec<(String, String)>)
    ensures
        line_models(final(lines)@) == line_models(old(lines)@) + variable_lines(
            pair_texts(pairs@),
        ),
{
    let ghost before = line_models(lines@);
    let ghost all = variable_lines(pair_texts(pairs@));
    let mut i: usize = 0;
    assert(before + all.take(0) =~= before);
    while i < pairs.len()
        invariant
            i <= pairs@.len(),
            all == variable_lines(pair_texts(pairs@)),
            line_models(lines@) == before + all.take(i as int),
        decreases pairs@.len() - i,
    {
        let mut line = Line::two(
            pairs[i].0.as_str(),
            Style::color(Color::Green),
            "=",
            Style::plain(),
        );
        line.add(Span::styled(pairs[i].1.as_str(), Style::color(Color::White)));
        assert(line@ =~= all[i as int]);
        put(lines, line);
        assert(line_models(lines@) =~= before + all.take(i + 1));
        i = i + 1;
    }
    assert(all.take(all.len() as int) =~= all);
}

fn add_env_files(lines: &mut Vec<Line>, files: &Vec<String>)
    ensures
        line_models(final(lines)@) == line_models(old(lines)@) + env_file_lines(texts(files@)),
{
    let ghost before = line_models(lines@);
    let ghost all = env_file_lines(texts(files@));
    assert(texts(files@).len() == files@.len());
    if files.len() == 0 {
        put(
            lines,
            Line::two(
                "Env files: ",
                Style::bold_color(Color::Cyan),
                "(none)",
                Style::color(Color::DarkGray),
            ),
        );
        assert(line_models(lines@) =~= before + all);
        return;
    }
    put(lines, Line::one("Env files:", Style::bold_color(Color::Cyan)));
    assert(line_models(lines@) =~= before + all.take(1));
    let mut i: usize = 0;
    while i < files.len()
        invariant
            i <= files@.len(),
            files@.len() > 0,
            all == env_file_lines(texts(files@)),
            all.len() == files@.len() + 1,
            line_models(lines@) == before + all.take(i + 1),
        decreases files@.len() - i,
    {
        let line = Line::two(
            "  ",
            Style::plain(),
            files[i].as_str(),
            Style::color(Color::White),
        );
        assert(line@ =~= all[i + 1]);
        put(lines, line);
        assert(line_models(lines@) =~= before + all.take(i + 2));
        i = i + 1;
    }
    assert(all.take(all.len() as int) =~= all);
}

fn add_dependencies(lines: &mut Vec<Line>, deps: &Vec<Dependency>)
    ensures
        line_models(final(lines)@) == line_models(old(lines)@) + dependency_lines(
            crate::config::dependency_models(deps@),
        ),
{
    let ghost before = line_models(lines@);
    let ghost models = crate::config::dependency_models(deps@);
    let ghost all = dependency_lines(models);
    assert(models.len() == deps@.len());
    if deps.len() == 0 {
        assert(before + all =~= before);
        return;
    }
    put(lines, Line::blank());
    put(lines, Line::one("Depends on:", Style::bold_color(Color::Cyan)));
    assert(line_models(lines@) =~= before + all.take(2));
    let mut i: usize = 0;
    while i < deps.len()
        invariant
            i <= deps@.len(),
            deps@.len() > 0,
            models == crate::config::dependency_models(deps@),
            all == dependency_lines(models),
            all.len() == deps@.len() + 2,
            line_models(lines@) == before + all.take(i + 2),
        decreases deps@.len() - i,
    {
        let mut line = Line::two(
            "  ",
            Style::plain(),
            deps[i].name.as_str(),
            Style::color(Color::White),
        );
        let until = condition_string(&deps[i].until);
        line.add(
            Span::styled(
                two_texts(" until ", until.as_str()).as_str(),
                Style::color(Color::DarkGray),
            ),
        );
        assert(models[i as int] == deps@[i as int]@);
        assert(line@ =~= all[i + 2]);
        put(lines, line);
        assert(line_models(lines@) =~= before + all.take(i + 3));
        i = i + 1;
    }
    assert(all.take(all.len() as int) =~= all);
}

fn add_summary(lines: &mut Vec<Line>, mgr: &ProcessManager, idx: usize)
    requires
        mgr.wf(),
        idx < mgr@.len(),
    ensures
        line_models(final(lines)@) == line_models(old(lines)@) + summary_lines(
            mgr.configs@[idx as int]@,
            mgr@[idx as int],
        ),
{
    let ghost before = line_models(lines@);
    let ghost state = mgr@[idx as int];
    let cfg: &ProcessConfig = &mgr.configs[idx];
    let ghost all = summary_lines(cfg@, state);
    let label = Style::bold_color(Color::Cyan);
    let value = Style::color(Color::White);
    let dim = Style::color(Color::DarkGray);
    put(lines, Line::one(cfg.name.as_str(), Style::bold_color(Color::Yellow)));
    put(lines, Line::blank());
    let pid = match mgr.process(idx) {
        Some(p) => decimal_text(p.pid as u128),
        None => "—".to_owned(),
    };
    assert(pid@ == pid_text(state));
    put(lines, Line::two("PID:    ", label, pid.as_str(), value));
    let mut status = Line::one("Status: ", label);
    status.add(slot_status_span(mgr, idx));
    assert(status@ =~= all[3]);
    put(lines, status);
    put(lines, Line::blank());
    put(lines, Line::two("Command: ", label, cfg.command.as_str(), value));
    assert(texts(cfg.args@).len() == cfg.args@.len());
    let args = if cfg.args.len() == 0 {
        "(none)".to_owned()
    } else {
        join(&cfg.args, " ")
    };
    put(lines, Line::two("Args:    ", label, args.as_str(), value));
    put(lines, Line::two("CWD:     ", label, cfg.cwd.as_str(), value));
    let long_lived = if cfg.long_lived {
        "true"
    } else {
        "false"
    };
    put(lines, Line::two("Long-lived: ", label, long_lived, value));
    let log = match mgr.log_path(idx) {
        Some(path) => {
            let mut line = Line::two("Log:     ", label, path.as_str(), value);
            line.add(Span::styled("  (y to copy)", dim));
            line
        },
        None => Line::two("Log:     ", label, "(session log capture disabled)", dim),
    };
    assert(log@ =~= log_line(state.log_path));
    put(lines, log);
    put(lines, Line::blank());
    assert(line_models(lines@) =~= before + all);
}

fn add_environment(lines: &mut Vec<Line>, mgr: &ProcessManager, idx: usize)
    requires
        mgr.wf(),
        idx < mgr@.len(),
    ensures
        line_models(final(lines)@) == line_models(old(lines)@) + environment_lines(
            mgr.configs@[idx as int]@,
            mgr@[idx as int],
        ),
        lists(
            listed_variables(mgr.configs@[idx as int]@, mgr@[idx as int]),
            listed_environment(mgr.configs@[idx as int]@, mgr@[idx as int]),
        ),
{
    let ghost before = line_models(lines@);
    let ghost state = mgr@[idx as int];
    let cfg: &ProcessConfig = &mgr.configs[idx];
    let ghost all = environment_lines(cfg@, state);
    let label = Style::bold_color(Color::Cyan);
    match mgr.process(idx) {
        Some(p) => {
            proof {
                assert(state.wf());
                lemma_listing(p.env@);
            }
            let count = decimal_text(p.env.len() as u128);
            put(
                lines,
                Line::one(
                    three_texts("Environment (", count.as_str(), " vars):").as_str(),
                    label,
                ),
            );
            add_variables(lines, &p.env);
            assert(line_models(lines@) =~= before + all);
        },
        None => {
            put(lines, Line::one("Environment:", label));
            put(
                lines,
                Line::one(
                    "  (not spawned — env not yet resolved)",
                    Style::color(Color::DarkGray),
                ),
            );
            let pairs = cfg.env.sorted();
            assert(pair_texts(pairs@).len() == pairs@.len());
            if pairs.len() > 0 {
                put(lines, Line::blank());
                let count = decimal_text(pairs.len() as u128);
                put(
                    lines,
                    Line::one(
                        three_texts("Config env overrides (", count.as_str(), "):").as_str(),
                        label,
                    ),
                );
                add_variables(lines, &pairs);
            }
            assert(line_models(lines@) =~= before + all);
        },
    }
}

/// All that is said about a process, line by line; nothing where there is no
/// such process.
pub fn details_lines(mgr: &ProcessManager, idx: usize) -> (lines: Vec<Line>)
    requires
        mgr.wf(),
    ensures
        line_models(lines@) == (if idx < mgr@.len() {
            details_of(mgr.configs@[idx as int]@, mgr@[idx as int])
        } else {
            Seq::empty()
        }),
        idx < mgr@.len() ==> ({
            let cfg = mgr.configs@[idx as int]@;
            let list = listed_variables(cfg, mgr@[idx as int]);
            &&& lists(list, listed_environment(cfg, mgr@[idx as int]))
            &&& list.len() <= lines@.len()
            &&& line_models(lines@).skip(lines@.len() - list.len()) == variable_lines(list)
        }),
{
    let mut lines: Vec<Line> = Vec::new();
    assert(line_models(lines@) =~= Seq::<Seq<SpanModel>>::empty());
    if idx < mgr.configs.len() {
        let ghost cfg = mgr.configs@[idx as int]@;
        let ghost state = mgr@[idx as int];
        add_summary(&mut lines, mgr, idx);
        add_env_files(&mut lines, &mgr.configs[idx].env_files);
        add_dependencies(&mut lines, &mgr.configs[idx].depends_on);
        put(&mut lines, Line::blank());
        add_environment(&mut lines, mgr, idx);
        assert(line_models(lines@) =~= details_of(cfg, state));
        let ghost list = listed_variables(cfg, state);
        assert(line_models(lines@).skip(lines@.len() - list.len()) =~= variable_lines(list));
    }
    lines
}

// ---- the help ----

/// A key and what it does.
pub open spec fn help_entry(key: Seq<char>, what: Seq<char>) -> Seq<SpanModel> {
    seq![span("  "@ + padded(key, 12), value_style()), span(what, colored(Color::Gray))]
}

fn help_line(key: &str, what: &str) -> (line: Line)
    ensures
        line@ == help_entry(key@, what@),
{
    Line::two(
        two_texts("  ", pad(key, 12).as_str()).as_str(),
        Style::color(Color::White),
        what,
        Style::color(Color::Gray),
    )
}

/// The keys of navigation.
pub open spec fn nav_help() -> Seq<Seq<SpanModel>> {
    seq![
        seq![span("Navigation"@, label_style())],
        help_entry("←/→"@, "previous / next tab"@),
        help_entry("↑/↓"@, "scroll output"@),
        help_entry("PgUp/PgDn"@, "scroll ×10"@),
        help_entry("Home/End"@, "scroll to top / bottom"@),
        help_entry("Enter"@, "focus the process (keys go to it)"@),
        help_entry("/"@, "search output (see Search below)"@),
        help_entry("r / ^R"@, "restart process / all"@),
        help_entry("k / ^K"@, "kill process / all"@),
        help_entry("c"@, "clear log view (display only)"@),
        help_entry("w"@, "toggle line wrap"@),
        help_entry("y"@, "copy log path"@),
        help_entry("d"@, "process details"@),
        help_entry("h"@, "this help"@),
        help_entry("q / ^C"@, "quit"@),
    ]
}

/// The keys in focus.
pub open spec fn focus_help() -> Seq<Seq<SpanModel>> {
    seq![
        seq![span("Focus"@, label_style())],
        help_entry("Esc"@, "leave focus"@),
        help_entry("(other)"@, "sent to the process"@),
    ]
}

/// The keys in the details.
pub open spec fn details_help() -> Seq<Seq<SpanModel>> {
    seq![
        seq![span("Details"@, label_style())],
        help_entry("↑/↓"@, "scroll"@),
        help_entry("PgUp/PgDn"@, "scroll ×10"@),
        help_entry("Home"@, "scroll to top"@),
        help_entry("/"@, "search details (see Search below)"@),
        help_entry("y"@, "copy log path"@),
        help_entry("h"@, "this help"@),
        help_entry("d/Esc/q"@, "close details"@),
    ]
}

/// The keys of a search.
pub open spec fn search_help() -> Seq<Seq<SpanModel>> {
    seq![
        seq![span("Search (output & details)"@, label_style())],
        help_entry("/"@, "open search; typing searches as you go"@),
        help_entry("Enter"@, "confirm and keep the matches"@),
        help_entry("Esc"@, "cancel input (restores view)"@),
        help_entry("n / N"@, "older / newer match in output"@),
        help_entry("n / N"@, "next / previous match in details"@),
        help_entry("Esc"@, "clear a confirmed search"@),
        help_entry("^U"@, "clear the query while typing"@),
    ]
}

fn add_nav_help(lines: &mut Vec<Line>)
    ensures
        line_models(final(lines)@) == line_models(old(lines)@) + nav_help(),
{
    let ghost before = line_models(lines@);
    put(lines, Line::one("Navigation", Style::bold_color(Color::Cyan)));
    put(lines, help_line("←/→", "previous / next tab"));
    put(lines, help_line("↑/↓", "scroll output"));
    put(lines, help_line("PgUp/PgDn", "scroll ×10"));
    put(lines, help_line("Home/End", "scroll to top / bottom"));
    put(lines, help_line("Enter", "focus the process (keys go to it)"));
    put(lines, help_line("/", "search output (see Search below)"));
    put(lines, help_line("r / ^R", "restart process / all"));
    put(lines, help_line("k / ^K", "kill process / all"));
    put(lines, help_line("c", "clear log view (display only)"));
    put(lines, help_line("w", "toggle line wrap"));
    put(lines, help_line("y", "copy log path"));
    put(lines, help_line("d", "process details"));
    put(lines, help_line("h", "this help"));
    put(lines, help_line("q / ^C", "quit"));
    assert(line_models(lines@) =~= before + nav_help());
}

fn add_focus_help(lines: &mut Vec<Line>)
    ensures
        line_models(final(lines)@) == line_models(old(lines)@) + focus_help(),
{
    let ghost before = line_models(lines@);
    put(lines, Line::one("Focus", Style::bold_color(Color::Cyan)));
    put(lines, help_line("Esc", "leave focus"));
    put(lines, help_line("(other)", "sent to the process"));
    assert(line_models(lines@) =~= before + focus_help());
}

fn add_details_help(lines: &mut Vec<Line>)
    ensures
        line_models(final(lines)@) == line_models(old(lines)@) + details_help(),
{
    let ghost before = line_models(lines@);
    put(lines, Line::one("Details", Style::bold_color(Color::Cyan)));
    put(lines, help_line("↑/↓", "scroll"));
    put(lines, help_line("PgUp/PgDn", "scroll ×10"));
    put(lines, help_line("Home", "scroll to top"));
    put(lines, help_line("/", "search details (see Search below)"));
    put(lines, help_line("y", "copy log path"));
    put(lines, help_line("h", "this help"));
    put(lines, help_line("d/Esc/q", "close details"));
    assert(line_models(lines@) =~= before + details_help());
}

fn add_search_help(lines: &mut Vec<Line>)
    ensures
        line_models(final(lines)@) == line_models(old(lines)@) + search_help(),
{
    let ghost before = line_models(lines@);
    put(lines, Line::one("Search (output & details)", Style::bold_color(Color::Cyan)));
    put(lines, help_line("/", "open search; typing searches as you go"));
    put(lines, help_line("Enter", "confirm and keep the matches"));
    put(lines, help_line("Esc", "cancel input (restores view)"));
    put(lines, help_line("n / N", "older / newer match in output"));
    put(lines, help_line("n / N", "next / previous match in details"));
    put(lines, help_line("Esc", "clear a confirmed search"));
    put(lines, help_line("^U", "clear the query while typing"));
    assert(line_models(lines@) =~= before + search_help());
}

/// All keys.
pub open spec fn help_text() -> Seq<Seq<SpanModel>> {
    nav_help() + seq![Seq::<SpanModel>::empty()] + focus_help() + seq![Seq::<SpanModel>::empty()]
        + details_help() + seq![Seq::<SpanModel>::empty()] + search_help()
}

/// All keys, mode by mode.
pub fn help_lines() -> (lines: Vec<Line>)
    ensures
        line_models(lines@) == help_text(),
{
    let mut lines: Vec<Line> = Vec::new();
    assert(line_models(lines@) =~= Seq::<Seq<SpanModel>>::empty());
    add_nav_help(&mut lines);
    put(&mut lines, Line::blank());
    add_focus_help(&mut lines);
    put(&mut lines, Line::blank());
    add_details_help(&mut lines);
    put(&mut lines, Line::blank());
    add_search_help(&mut lines);
    assert(line_models(lines@) =~= help_text());
    lines
}

/// Where the help stands on the screen, and how far it is scrolled.
pub struct HelpBox {
    pub area: Area,
    pub scroll: u16,
    /// Whether there is more of the help above or below.
    pub hint: Option<String>,
}

/// The most that the help can be scrolled in an area of some height.
pub open spec fn help_max_scroll(lines: int, height: int) -> int {
    if height >= lines + 2 {
        0
    } else if height >= 2 {
        lines - (height - 2)
    } else {
        lines
    }
}

/// The smaller of two numbers.
pub open spec fn smaller(a: int, b: int) -> int {
    if a <= b {
        a
    } else {
        b
    }
}

/// The hint at the border of the help, where not all of it is in view.
pub open spec fn help_hint(scroll: int, max: int) -> Option<Seq<char>> {
    if max <= 0 {
        None
    } else if scroll > 0 && scroll < max {
        Some(" ↑/↓ more "@)
    } else if scroll > 0 {
        Some(" ↑ more "@)
    } else {
        Some(" ↓ more "@)
    }
}

/// Place the help, of so many lines, in the middle of the screen. It is never
/// scrolled further than its last line.
pub fn help_box(screen: Area, lines: u16, scroll: u16) -> (placed: HelpBox)
    requires
        screen.wf(),
        lines <= u16::MAX - 2,
    ensures
        placed.area.width == smaller(screen.width as int, 56),
        placed.area.height == smaller(screen.height as int, lines + 2),
        placed.area.x == screen.x + (screen.width - placed.area.width) / 2,
        placed.area.y == screen.y + (screen.height - placed.area.height) / 2,
        placed.scroll == smaller(
            scroll as int,
            help_max_scroll(lines as int, screen.height as int),
        ),
        match placed.hint {
            Some(text) => help_hint(
                placed.scroll as int,
                help_max_scroll(lines as int, screen.height as int),
            ) == Some(text@),
            None => help_hint(
                placed.scroll as int,
                help_max_scroll(lines as int, screen.height as int),
            ) is None,
        },
{
    let width: u16 = if screen.width <= 56 {
        screen.width
    } else {
        56
    };
    let height: u16 = if screen.height <= lines + 2 {
        screen.height
    } else {
        lines + 2
    };
    let x: u16 = screen.x + (screen.width - width) / 2;
    let y: u16 = screen.y + (screen.height - height) / 2;
    let inner: u16 = height.saturating_sub(2);
    let max: u16 = lines.saturating_sub(inner);
    let kept: u16 = if scroll <= max {
        scroll
    } else {
        max
    };
    let hint = if max == 0 {
        None
    } else if kept > 0 && kept < max {
        Some(" ↑/↓ more ".to_owned())
    } else if kept > 0 {
        Some(" ↑ more ".to_owned())
    } else {
        Some(" ↓ more ".to_owned())
    };
    HelpBox { area: Area { x, y, width, height }, scroll: kept, hint }
}

// ---- the shutdown ----

/// The frames of the spinner.
pub open spec fn spinner(frame: int) -> Seq<char> {
    if frame == 0 {
        "|"@
    } else if frame == 1 {
        "/"@
    } else if frame == 2 {
        "-"@
    } else {
        "\\"@
    }
}

/// The frame of the spinner after some time, in milliseconds.
pub open spec fn spinner_frame(elapsed: Option<u64>) -> int {
    match elapsed {
        Some(ms) => (ms as int / 100) % 4,
        None => 0,
    }
}

/// How the end of a slot is getting on.
pub open spec fn ending_span(s: StateModel, frame: int) -> SpanModel {
    match s.slot {
        SlotModel::Process(p) => match p.status@ {
            StatusModel::Exited(info) => span(
                "stopped ("@ + ending_text(info) + ")"@,
                colored(end_color(info.code, info.signal is Some, p.long_lived)),
            ),
            StatusModel::SpawnFailed(why) => span(
                "spawn failed: "@ + why,
                colored(Color::Magenta),
            ),
            _ => span(spinner(frame) + " terminating..."@, colored(Color::Yellow)),
        },
        _ => span("not running"@, colored(Color::DarkGray)),
    }
}

/// How many of the first `n` slots have nothing that runs.
pub open spec fn stopped_upto(slots: Seq<StateModel>, n: int) -> nat
    decreases n,
{
    if n <= 0 {
        0
    } else {
        stopped_upto(slots, n - 1) + (if slots[n - 1].runs() {
            0nat
        } else {
            1nat
        })
    }
}

/// The line of a slot while everything ends.
pub open spec fn ending_line(name: Seq<char>, s: StateModel, frame: int) -> Seq<SpanModel> {
    seq![span("  "@ + padded(name, 20) + " "@, value_style()), ending_span(s, frame)]
}

/// What is shown while everything ends.
pub open spec fn shutdown_text(configs: Seq<ProcessModel>, slots: Seq<StateModel>, frame: int) -> Seq<
    Seq<SpanModel>,
> {
    seq![
        Seq::<SpanModel>::empty(),
        seq![
            span(
                "  Stopped "@ + decimal(stopped_upto(slots, slots.len() as int)) + "/"@ + decimal(
                    slots.len(),
                ) + " processes"@,
                bold(Color::Cyan),
            ),
        ],
        Seq::<SpanModel>::empty(),
    ] + Seq::new(slots.len(), |i: int| ending_line(configs[i].name, slots[i], frame))
}

fn ending(mgr: &ProcessManager, idx: usize, frame: u64) -> (s: Span)
    requires
        idx < mgr@.len(),
        frame < 4,
    ensures
        s@ == ending_span(mgr@[idx as int], frame as int),
{
    assert(mgr@[idx as int] == mgr.slots@[idx as int]@);
    match &mgr.slots[idx].slot {
        Slot::Process(p) => match &p.status {
            Status::Exited(info) => Span::styled(
                three_texts("stopped (", info.text().as_str(), ")").as_str(),
                Style::color(
                    exited_color(info.code, info.signal.is_some(), p.long_lived),
                ),
            ),
            Status::SpawnFailed(why) => Span::styled(
                two_texts("spawn failed: ", why.as_str()).as_str(),
                Style::color(Color::Magenta),
            ),
            _ => {
                let turn = if frame == 0 {
                    "|"
                } else if frame == 1 {
                    "/"
                } else if frame == 2 {
                    "-"
                } else {
                    "\\"
                };
                Span::styled(
                    two_texts(turn, " terminating...").as_str(),
                    Style::color(Color::Yellow),
                )
            },
        },
        _ => Span::styled("not running", Style::color(Color::DarkGray)),
    }
}

/// What is shown while everything ends, some time after it began.
pub fn shutdown_lines(mgr: &ProcessManager, elapsed: Option<u64>) -> (lines: Vec<Line>)
    requires
        mgr.wf(),
    ensures
        line_models(lines@) == shutdown_text(
            process_models(mgr.configs@),
            mgr@,
            spinner_frame(elapsed),
        ),
{
    let ghost configs = process_models(mgr.configs@);
    let ghost slots = mgr@;
    let frame: u64 = match elapsed {
        Some(ms) => (ms / 100) % 4,
        None => 0,
    };
    let n = mgr.count();
    let mut stopped: usize = 0;
    let mut i: usize = 0;
    while i < n
        invariant
            i <= n,
            n == mgr.slots@.len(),
            slots == mgr@,
            stopped <= i,
            stopped == stopped_upto(slots, i as int),
        decreases n - i,
    {
        assert(slots[i as int] == mgr.slots@[i as int]@);
        let runs = match &mgr.slots[i].slot {
            Slot::Process(p) => p.is_running(),
            _ => false,
        };
        if !runs {
            stopped = stopped + 1;
        }
        i = i + 1;
    }
    let ghost all = shutdown_text(configs, slots, frame as int);
    let mut lines: Vec<Line> = Vec::new();
    assert(line_models(lines@) =~= Seq::<Seq<SpanModel>>::empty());
    put(&mut lines, Line::blank());
    let mut summary = two_texts("  Stopped ", decimal_text(stopped as u128).as_str());
    summary.append("/");
    summary.append(decimal_text(n as u128).as_str());
    summary.append(" processes");
    put(&mut lines, Line::one(summary.as_str(), Style::bold_color(Color::Cyan)));
    put(&mut lines, Line::blank());
    assert(line_models(lines@) =~= all.take(3));
    let mut k: usize = 0;
    while k < n
        invariant
            k <= n,
            frame < 4,
            mgr.wf(),
            n == mgr@.len(),
            slots == mgr@,
            configs == process_models(mgr.configs@),
            all == shutdown_text(configs, slots, frame as int),
            all.len() == n + 3,
            line_models(lines@) == all.take(k + 3),
        decreases n - k,
    {
        let name = pad(mgr.configs[k].name.as_str(), 20);
        let mut line = Line::one(
            three_texts("  ", name.as_str(), " ").as_str(),
            Style::color(Color::White),
        );
        line.add(ending(mgr, k, frame));
        assert(configs[k as int].name == mgr.configs@[k as int].name@);
        assert(line@ =~= all[k + 3]);
        put(&mut lines, line);
        assert(line_models(lines@) =~= all.take(k + 4));
        k = k + 1;
    }
    assert(all.take(all.len() as int) =~= all);
    lines
}

/// Once all are counted as stopped, nothing runs any more.
pub proof fn law_all_stopped_means_none_runs(slots: Seq<StateModel>, n: int, i: int)
    requires
        0 <= i < n <= slots.len(),
        stopped_upto(slots, n) == n,
    ensures
        !slots[i].runs(),
    decreases n,
{
    lemma_stopped_bounded(slots, n - 1);
    if i < n - 1 {
        law_all_stopped_means_none_runs(slots, n - 1, i);
    }
}

proof fn lemma_stopped_bounded(slots: Seq<StateModel>, n: int)
    requires
        0 <= n,
    ensures
        stopped_upto(slots, n) <= n,
    decreases n,
{
    if n > 0 {
        lemma_stopped_bounded(slots, n - 1);
    }
}

// ---- the body ----

/// What is said of a slot that has no process: why, and what its watcher said
/// last, as much of it as an area of some height shows.
pub open spec fn diagnostic_text(
    header: Seq<char>,
    color: Color,
    said: Seq<Seq<char>>,
    height: u16,
) -> Seq<Seq<SpanModel>> {
    let want = if height >= 5 {
        height - 4
    } else {
        1
    };
    let shown = last_of(said, want);
    seq![seq![span("("@ + header + ")"@, colored(color))], Seq::<SpanModel>::empty()] + (
    if said.len() == 0 {
        seq![seq![span("  (no diagnostics yet)"@, colored(Color::DarkGray))]]
    } else {
        Seq::new(shown.len(), |i: int| seq![span("  "@ + shown[i], colored(Color::Gray))])
    })
}

fn diagnostic_lines(header: &str, color: Color, said: &Vec<String>, height: u16) -> (lines: Vec<
    Line,
>)
    ensures
        line_models(lines@) == diagnostic_text(header@, color, texts(said@), height),
{
    let ghost all = diagnostic_text(header@, color, texts(said@), height);
    let want: usize = if height >= 5 {
        (height - 4) as usize
    } else {
        1
    };
    let mut lines: Vec<Line> = Vec::new();
    assert(line_models(lines@) =~= Seq::<Seq<SpanModel>>::empty());
    put(&mut lines, Line::one(three_texts("(", header, ")").as_str(), Style::color(color)));
    put(&mut lines, Line::blank());
    assert(texts(said@).len() == said@.len());
    if said.len() == 0 {
        put(&mut lines, Line::one("  (no diagnostics yet)", Style::color(Color::DarkGray)));
        assert(line_models(lines@) =~= all);
        return lines;
    }
    let start: usize = said.len().saturating_sub(want);
    let ghost shown = last_of(texts(said@), want as int);
    assert(line_models(lines@) =~= all.take(2));
    let mut i: usize = start;
    while i < said.len()
        invariant
            start <= i <= said@.len(),
            said@.len() > 0,
            start == (if said@.len() > want {
                said@.len() - want
            } else {
                0
            }),
            want == (if height >= 5 {
                height - 4
            } else {
                1
            }),
            shown == last_of(texts(said@), want as int),
            shown.len() == said@.len() - start,
            all == diagnostic_text(header@, color, texts(said@), height),
            all.len() == 2 + shown.len(),
            line_models(lines@) == all.take(2 + i - start),
        decreases said@.len() - i,
    {
        let line = Line::one(
            two_texts("  ", said[i].as_str()).as_str(),
            Style::color(Color::Gray),
        );
        assert(shown[i - start] == said@[i as int]@);
        assert(line@ =~= all[2 + i - start]);
        put(&mut lines, line);
        assert(line_models(lines@) =~= all.take(3 + i - start));
        i = i + 1;
    }
    assert(all.take(all.len() as int) =~= all);
    lines
}

/// What the body shows.
pub enum Body {
    /// The terminal of the process.
    Terminal,
    /// What the watcher said.
    Diagnostics(Vec<Line>),
    /// Why the process could not be started.
    Failed(String),
}

/// What the body shows of a slot, in an area of some height.
pub fn body_of(mgr: &ProcessManager, idx: usize, height: u16) -> (body: Body)
    requires
        mgr.wf(),
        idx < mgr@.len(),
    ensures
        ({
            let state = mgr@[idx as int];
            match state.slot {
                SlotModel::Process(_) => body is Terminal,
                SlotModel::Waiting => body is Diagnostics && line_models(body->Diagnostics_0@)
                    == diagnostic_text(
                    "waiting for dependencies"@,
                    Color::Yellow,
                    state.diagnostics,
                    height,
                ),
                SlotModel::Blocked(why) => body is Diagnostics && line_models(
                    body->Diagnostics_0@,
                ) == diagnostic_text(
                    "blocked: "@ + why,
                    Color::Magenta,
                    state.diagnostics,
                    height,
                ),
                SlotModel::SpawnFailed(why) => body is Failed && body->Failed_0@
                    == "(spawn failed: "@ + why + ")"@,
            }
        }),
{
    assert(mgr@[idx as int] == mgr.slots@[idx as int]@);
    let said = mgr.diagnostics(idx);
    match &mgr.slots[idx].slot {
        Slot::Process(_) => Body::Terminal,
        Slot::Waiting => Body::Diagnostics(
            diagnostic_lines("waiting for dependencies", Color::Yellow, &said, height),
        ),
        Slot::Blocked(why) => Body::Diagnostics(
            diagnostic_lines(
                two_texts("blocked: ", why.as_str()).as_str(),
                Color::Magenta,
                &said,
                height,
            ),
        ),
        Slot::SpawnFailed(why) => Body::Failed(three_texts("(spawn failed: ", why.as_str(), ")")),
    }
}

// ---- the tabs ----

/// The badge that tells of a newer version.
pub open spec fn badge(latest: Seq<char>, action: Seq<char>) -> SpanModel {
    span(" ↑ "@ + latest + " · "@ + action + " "@, bold_on(Color::Black, Color::Green))
}

/// The badge that tells of a newer version, where there is one.
pub fn update_badge(app: &App) -> (shown: Option<Span>)
    ensures
        match shown {
            Some(s) => app@.update matches Some((latest, action)) && s@ == badge(latest, action),
            None => app@.update is None,
        },
{
    match &app.update_available {
        Some(info) => {
            let mut text = three_texts(" ↑ ", info.latest.as_str(), " · ");
            text.append(info.action.as_str());
            text.append(" ");
            Some(Span::styled(text.as_str(), Style::bold_color_on(Color::Black, Color::Green)))
        },
        None => None,
    }
}

/// The text of a tab: a dot in the colour of the slot's state, and the name,
/// which stands out on the selected tab.
pub open spec fn tab_title(app: AppModel, i: int) -> Seq<SpanModel> {
    seq![
        span("● "@, colored(dot_color(app.slots[i]))),
        span(
            app.configs[i].name,
            if i == app.selected {
                bold_on(
                    Color::Black,
                    if app.mode == Mode::Focus {
                        Color::Yellow
                    } else {
                        Color::Cyan
                    },
                )
            } else {
                unstyled()
            },
        ),
    ]
}

/// The texts of the tabs `start..end`.
pub fn tab_titles(app: &App, start: usize, end: usize) -> (titles: Vec<Line>)
    requires
        app.wf(),
        start <= end <= app@.slots.len(),
    ensures
        line_models(titles@) == Seq::new((end - start) as nat, |k: int| tab_title(app@, start + k)),
{
    let ghost all = Seq::new((end - start) as nat, |k: int| tab_title(app@, start + k));
    let mut titles: Vec<Line> = Vec::new();
    let mut i: usize = start;
    assert(line_models(titles@) =~= all.take(0));
    while i < end
        invariant
            start <= i <= end <= app@.slots.len(),
            app.wf(),
            all == Seq::new((end - start) as nat, |k: int| tab_title(app@, start + k)),
            line_models(titles@) == all.take(i - start),
        decreases end - i,
    {
        let style = if i == app.selected {
            Style::bold_color_on(
                Color::Black,
                if app.mode == Mode::Focus {
                    Color::Yellow
                } else {
                    Color::Cyan
                },
            )
        } else {
            Style::plain()
        };
        assert(app@.configs[i as int].name == app.mgr.configs@[i as int].name@);
        let line = Line::two(
            "● ",
            Style::color(tab_dot_color(&app.mgr, i)),
            app.mgr.configs[i].name.as_str(),
            style,
        );
        assert(line@ =~= all[i - start]);
        put(&mut titles, line);
        assert(line_models(titles@) =~= all.take(i + 1 - start));
        i = i + 1;
    }
    assert(all.take(all.len() as int) =~= all);
    titles
}

/// Whether there are tabs before and after those in view.
pub fn tab_arrows(app: &App, start: usize, end: usize) -> (arrows: (bool, bool))
    requires
        app.wf(),
    ensures
        arrows == (start > 0, end < app@.slots.len()),
{
    (start > 0, end < app.mgr.count())
}

// ---- the status line ----

/// How the mode reads.
pub open spec fn mode_span(mode: Mode) -> SpanModel {
    match mode {
        Mode::Nav => span(" NAV "@, bold_on(Color::Black, Color::Cyan)),
        Mode::Focus => span(" FOCUS "@, bold_on(Color::Black, Color::Yellow)),
        Mode::Details => span(" DETAILS "@, bold_on(Color::Black, Color::Magenta)),
    }
}

/// The keys that the status line mentions.
pub open spec fn mode_hints(mode: Mode) -> Seq<char> {
    match mode {
        Mode::Nav => "  ←/→ tabs · ↑/↓ scroll · Enter focus · / search · r restart · k kill · c clear · w wrap · y log path · d details · ^R/^K all · h help · q quit"@,
        Mode::Focus => "  Esc leave focus · all other keys go to the process"@,
        Mode::Details => "  ↑/↓ scroll · PgUp/PgDn ×10 · Home top · / search · y copy log path · d/Esc close · h help"@,
    }
}

/// The keys that the status line mentions while a search is on.
pub open spec fn search_hints(mode: Mode) -> Seq<char> {
    match mode {
        Mode::Details => "  n/N next/prev match · / new search · Esc clear · h help"@,
        Mode::Nav => "  n older · N newer match · / new search · Esc clear · h help"@,
        Mode::Focus => mode_hints(mode),
    }
}

/// The notice, as long as it stays.
pub open spec fn notice_spans(notice: Option<(Seq<char>, u64)>, now: u64) -> Seq<SpanModel> {
    match notice {
        Some((text, at)) => if now - at < NOTICE_TTL_MS {
            seq![span(" "@ + text + " "@, on(Color::Black, Color::Green))]
        } else {
            Seq::empty()
        },
        None => Seq::empty(),
    }
}

/// The end of the status line: the query while it is typed, the matches of a
/// search that is on, or else the keys.
pub open spec fn search_spans(
    mode: Mode,
    editing: bool,
    active: bool,
    query: Seq<char>,
    count: nat,
    current: usize,
) -> Seq<SpanModel> {
    if editing {
        seq![
            span(" /"@ + query, colored(Color::White)),
            span(" "@, (Style { reversed: true, ..unstyled() })),
            span("  Enter confirm · Esc cancel"@, colored(Color::DarkGray)),
        ]
    } else if active {
        seq![
            if count == 0 {
                span(" no matches /"@ + query + " "@, on(Color::White, Color::Red))
            } else {
                span(
                    " ("@ + decimal((current + 1) as nat) + "/"@ + decimal(count) + ") /"@ + query
                        + " "@,
                    on(Color::Black, Color::Yellow),
                )
            },
            span(search_hints(mode), colored(Color::DarkGray)),
        ]
    } else {
        seq![span(mode_hints(mode), colored(Color::DarkGray))]
    }
}

/// The status line.
pub open spec fn status_spans(app: AppModel, now: u64) -> Seq<SpanModel> {
    seq![
        mode_span(app.mode),
        span(" "@, unstyled()),
        state_span(app.slots[app.selected as int]),
        span(" "@, unstyled()),
        span(
            if app.wraps[app.selected as int] {
                " wrap:on "@
            } else {
                " wrap:off "@
            },
            on(Color::Black, Color::Blue),
        ),
    ] + notice_spans(app.notice, now) + (if app.mode == Mode::Details {
        search_spans(
            app.mode,
            app.details.editing,
            app.details.active,
            app.details.query,
            app.details.matches.len(),
            app.details.current,
        )
    } else {
        search_spans(
            app.mode,
            app.log.editing,
            app.log.active,
            app.log.query,
            app.log.matches.len(),
            app.log.current,
        )
    })
}

fn hints_of(mode: Mode) -> (text: &'static str)
    ensures
        text@ == mode_hints(mode),
{
    match mode {
        Mode::Nav => "  ←/→ tabs · ↑/↓ scroll · Enter focus · / search · r restart · k kill · c clear · w wrap · y log path · d details · ^R/^K all · h help · q quit",
        Mode::Focus => "  Esc leave focus · all other keys go to the process",
        Mode::Details => "  ↑/↓ scroll · PgUp/PgDn ×10 · Home top · / search · y copy log path · d/Esc close · h help",
    }
}

fn search_hints_of(mode: Mode) -> (text: &'static str)
    ensures
        text@ == search_hints(mode),
{
    match mode {
        Mode::Details => "  n/N next/prev match · / new search · Esc clear · h help",
        Mode::Nav => "  n older · N newer match · / new search · Esc clear · h help",
        Mode::Focus => hints_of(mode),
    }
}

fn add_search(
    line: &mut Line,
    mode: Mode,
    editing: bool,
    active: bool,
    query: &str,
    count: usize,
    current: usize,
)
    ensures
        final(line)@ == old(line)@ + search_spans(
            mode,
            editing,
            active,
            query@,
            count as nat,
            current,
        ),
{
    let ghost before = line@;
    let ghost all = search_spans(mode, editing, active, query@, count as nat, current);
    if editing {
        line.add(Span::styled(two_texts(" /", query).as_str(), Style::color(Color::White)));
        line.add(
            Span::styled(" ", Style { fg: None, bg: None, bold: false, reversed: true }),
        );
        line.add(Span::styled("  Enter confirm · Esc cancel", Style::color(Color::DarkGray)));
    } else if active {
        if count == 0 {
            line.add(
                Span::styled(
                    three_texts(" no matches /", query, " ").as_str(),
                    Style::color_on(Color::White, Color::Red),
                ),
            );
        } else {
            let mut text = three_texts(
                " (",
                decimal_text(current as u128 + 1).as_str(),
                "/",
            );
            text.append(decimal_text(count as u128).as_str());
            text.append(") /");
            text.append(query);
            text.append(" ");
            line.add(
                Span::styled(text.as_str(), Style::color_on(Color::Black, Color::Yellow)),
            );
        }
        line.add(Span::styled(search_hints_of(mode), Style::color(Color::DarkGray)));
    } else {
        line.add(Span::styled(hints_of(mode), Style::color(Color::DarkGray)));
    }
    assert(line@ =~= before + all);
}

/// The status line: the mode, the state of the selected slot, a notice, and the
/// search or the keys.
pub fn status_line(app: &App, now: u64) -> (line: Line)
    requires
        app.wf(),
        app.selected < app@.slots.len(),
    ensures
        line@ == status_spans(app@, now),
{
    let mut line = match app.mode {
        Mode::Nav => Line::one(" NAV ", Style::bold_color_on(Color::Black, Color::Cyan)),
        Mode::Focus => Line::one(" FOCUS ", Style::bold_color_on(Color::Black, Color::Yellow)),
        Mode::Details => Line::one(
            " DETAILS ",
            Style::bold_color_on(Color::Black, Color::Magenta),
        ),
    };
    line.add(Span::raw(" "));
    line.add(slot_status_span(&app.mgr, app.selected));
    line.add(Span::raw(" "));
    let wrap = if app.wrap_of(app.selected) {
        " wrap:on "
    } else {
        " wrap:off "
    };
    line.add(Span::styled(wrap, Style::color_on(Color::Black, Color::Blue)));
    let ghost head = line@;
    if let Some(notice) = app.notice(now) {
        line.add(
            Span::styled(
                three_texts(" ", notice, " ").as_str(),
                Style::color_on(Color::Black, Color::Green),
            ),
        );
    }
    assert(line@ =~= head + notice_spans(app@.notice, now));
    match app.mode {
        Mode::Details => add_search(
            &mut line,
            app.mode,
            app.details_search.editing,
            app.details_search.active,
            app.details_search.query.as_str(),
            app.details_search.matches.len(),
            app.details_search.current,
        ),
        _ => add_search(
            &mut line,
            app.mode,
            app.log_search.editing,
            app.log_search.active,
            app.log_search.query.as_str(),
            app.log_search.matches.len(),
            app.log_search.current,
        ),
    }
    assert(line@ =~= status_spans(app@, now));
    line
}

// ---- what the screen says ----

/// A text is padded with blanks, and never cut.
pub proof fn law_padding_only_adds_blanks(text: Seq<char>, length: nat)
    ensures
        padded(text, length).len() == vstd::math::max(text.len() as int, length as int),
        text.is_prefix_of(padded(text, length)),
        forall|i: int|
            text.len() <= i < padded(text, length).len() ==> #[trigger] padded(text, length)[i]
                == ' ',
{
}

/// The dot on a tab: orange until the process runs, green while it does,
/// magenta where it is blocked, red where it could not be started, and then the
/// colour of its end: grey for a signal, green for a one-shot that ended with
/// code 0, else red.
pub proof fn law_dots_tell_the_state(s: StateModel)
    ensures
        ({
            let dot = dot_color(s);
            &&& s.slot is Waiting ==> dot == Color::Orange
            &&& s.slot is Blocked ==> dot == Color::Magenta
            &&& s.slot is SpawnFailed ==> dot == Color::Red
            &&& s.slot is Process ==> {
                let p = s.slot->Process_0;
                match p.status@ {
                    StatusModel::Starting => dot == Color::Orange,
                    StatusModel::Running => dot == Color::Green,
                    StatusModel::SpawnFailed(_) => dot == Color::Magenta,
                    StatusModel::Exited(info) => {
                        &&& dot == Color::DarkGray <==> info.signal is Some
                        &&& dot == Color::Green <==> info.signal is None && info.code == 0
                            && !p.long_lived
                        &&& dot == Color::Red <==> info.signal is None && (info.code != 0
                            || p.long_lived)
                    },
                }
            }
        }),
{
}

/// The state is told in the colour of the dot.
pub proof fn law_state_is_told_in_its_colour(s: StateModel)
    ensures
        state_span(s).style == (Style {
            fg: Some(dot_color(s)),
            bg: None,
            bold: false,
            reversed: false,
        }),
        s.slot is Waiting ==> state_span(s).text == "waiting"@,
        s.slot matches SlotModel::Blocked(why) ==> state_span(s).text == "blocked: "@ + why,
        s.slot matches SlotModel::SpawnFailed(why) ==> state_span(s).text == "spawn failed: "@
            + why,
        s.slot matches SlotModel::Process(p) ==> {
            &&& p.status@ is Running ==> state_span(s).text == "running"@
            &&& p.status@ is Starting ==> state_span(s).text == "starting"@
            &&& p.status@ matches StatusModel::Exited(info) ==> {
                &&& s.retries_exhausted ==> state_span(s).text == "exited ("@ + ending_text(info)
                    + ") (retries exhausted)"@
                &&& !s.retries_exhausted ==> state_span(s).text == "exited ("@ + ending_text(info)
                    + ")"@
            }
        },
{
}

/// The details name the process, its number once there is one, its command,
/// arguments, directory and log, one line each, in order.
pub proof fn law_details_tell_of_the_process(cfg: ProcessModel, s: StateModel)
    ensures
        ({
            let lines = details_of(cfg, s);
            &&& lines.len() >= 11
            &&& flat(lines[0]) == cfg.name
            &&& s.slot matches SlotModel::Process(p) ==> flat(lines[2]) == "PID:    "@ + decimal(
                p.pid as nat,
            )
            &&& flat(lines[3]) == "Status: "@ + state_span(s).text
            &&& flat(lines[5]) == "Command: "@ + cfg.command
            &&& cfg.args.len() > 0 ==> flat(lines[6]) == "Args:    "@ + joined(cfg.args, " "@)
            &&& flat(lines[7]) == "CWD:     "@ + cfg.cwd
            &&& cfg.long_lived ==> flat(lines[8]) == "Long-lived: "@ + "true"@
            &&& !cfg.long_lived ==> flat(lines[8]) == "Long-lived: "@ + "false"@
            &&& s.log_path matches Some(path) ==> flat(lines[9]) == "Log:     "@ + path
                + "  (y to copy)"@
        }),
{
    let lines = details_of(cfg, s);
    let summary = summary_lines(cfg, s);
    assert forall|i: int| 0 <= i < 11 implies lines[i] == summary[i] by {}
    lemma_flat_one(summary[0][0]);
    assert(summary[0] =~= seq![summary[0][0]]);
    lemma_flat_two(summary[2][0], summary[2][1]);
    lemma_flat_two(summary[3][0], summary[3][1]);
    lemma_flat_two(summary[5][0], summary[5][1]);
    lemma_flat_two(summary[6][0], summary[6][1]);
    lemma_flat_two(summary[7][0], summary[7][1]);
    lemma_flat_two(summary[8][0], summary[8][1]);
    assert(summary[2] =~= seq![summary[2][0], summary[2][1]]);
    assert(summary[3] =~= seq![summary[3][0], summary[3][1]]);
    assert(summary[5] =~= seq![summary[5][0], summary[5][1]]);
    assert(summary[6] =~= seq![summary[6][0], summary[6][1]]);
    assert(summary[7] =~= seq![summary[7][0], summary[7][1]]);
    assert(summary[8] =~= seq![summary[8][0], summary[8][1]]);
    if s.log_path is Some {
        let line = summary[9];
        assert(line.drop_last() =~= seq![line[0], line[1]]);
        lemma_flat_two(line[0], line[1]);
    }
}

proof fn lemma_flat_one(a: SpanModel)
    ensures
        flat(seq![a]) == a.text,
{
    assert(seq![a].drop_last() =~= Seq::<SpanModel>::empty());
    assert(flat(Seq::<SpanModel>::empty()) =~= Seq::<char>::empty());
    assert(flat(seq![a]) =~= a.text);
}

proof fn lemma_flat_two(a: SpanModel, b: SpanModel)
    ensures
        flat(seq![a, b]) == a.text + b.text,
{
    assert(seq![a, b].drop_last() =~= seq![a]);
    lemma_flat_one(a);
}

/// The details have a line for each env file and for each dependency, in order.
pub proof fn law_details_list_files_and_dependencies(cfg: ProcessModel, s: StateModel, i: int)
    ensures
        ({
            let lines = details_of(cfg, s);
            let files = cfg.env_files.len();
            let deps = cfg.depends_on.len();
            &&& 0 <= i < files ==> flat(lines[12 + i]) == "  "@ + cfg.env_files[i]
            &&& 0 <= i < deps ==> flat(
                lines[(if files > 0 {
                    files + 14
                } else {
                    14
                }) + i],
            ) == "  "@ + cfg.depends_on[i].name + (" until "@ + condition_text(
                cfg.depends_on[i].until,
            ))
        }),
{
    let lines = details_of(cfg, s);
    let files = cfg.env_files.len();
    let deps = cfg.depends_on.len();
    let head = summary_lines(cfg, s) + env_file_lines(cfg.env_files);
    if 0 <= i < files {
        let line = env_file_lines(cfg.env_files)[i + 1];
        assert(lines[12 + i] == line);
        assert(line =~= seq![line[0], line[1]]);
        lemma_flat_two(line[0], line[1]);
    }
    if 0 <= i < deps {
        let line = dependency_lines(cfg.depends_on)[i + 2];
        let at: int = (if files > 0 {
            files + 14
        } else {
            14
        }) + i;
        assert(head.len() + 2 + i == at);
        assert(lines[at] == line);
        assert(line.drop_last() =~= seq![line[0], line[1]]);
        lemma_flat_two(line[0], line[1]);
    }
}

/// The help never leaves the screen, and can be scrolled exactly as far as it
/// is too long for it. The hint at its border says where there is more.
pub proof fn law_help_is_scrolled_as_needed(lines: int, height: int, scroll: int)
    requires
        0 <= lines,
        0 <= height,
        0 <= scroll,
    ensures
        help_max_scroll(lines, height) == vstd::math::max(
            lines - vstd::math::max(height - 2, 0),
            0,
        ),
        smaller(lines, height) == vstd::math::min(lines, height),
        ({
            let max = help_max_scroll(lines, height);
            &&& max == 0 ==> help_hint(scroll, max) is None
            &&& max > 0 && scroll == 0 ==> help_hint(scroll, max) == Some(" ↓ more "@)
            &&& 0 < scroll < max ==> help_hint(scroll, max) == Some(" ↑/↓ more "@)
            &&& max > 0 && scroll == max ==> help_hint(scroll, max) == Some(" ↑ more "@)
        }),
{
}

/// The spinner turns by one of its four frames each tenth of a second.
pub proof fn law_spinner_turns(ms: u64)
    requires
        ms + 100 <= u64::MAX,
    ensures
        spinner_frame(None) == 0,
        ms < 100 ==> spinner_frame(Some(ms)) == 0,
        0 <= spinner_frame(Some(ms)) < 4,
        spinner_frame(Some((ms + 100) as u64)) == (if spinner_frame(Some(ms)) == 3 {
            0
        } else {
            spinner_frame(Some(ms)) + 1
        }),
{
    let next = (ms + 100) as u64;
    assert(next as int / 100 == ms as int / 100 + 1);
}

/// The slots that are counted as stopped are those in which nothing runs.
pub proof fn law_stopped_slots_are_counted(slots: Seq<StateModel>, n: int)
    requires
        0 <= n <= slots.len(),
    ensures
        stopped_upto(slots, n) == slots.take(n).filter(
            |s: StateModel|
                !(s.slot is Process && !(s.slot->Process_0.status@ is Exited
                    || s.slot->Process_0.status@ is SpawnFailed)),
        ).len(),
    decreases n,
{
    reveal(Seq::filter);
    if n > 0 {
        law_stopped_slots_are_counted(slots, n - 1);
        assert(slots.take(n).drop_last() =~= slots.take(n - 1));
    }
}

/// While everything ends there is a line for each slot, in order, which says
/// whether it still has to.
pub proof fn law_shutdown_tells_of_each_slot(
    configs: Seq<ProcessModel>,
    slots: Seq<StateModel>,
    frame: int,
    i: int,
)
    requires
        0 <= i < slots.len(),
    ensures
        ({
            let lines = shutdown_text(configs, slots, frame);
            let line = lines[i + 3];
            &&& lines.len() == slots.len() + 3
            &&& line.len() == 2
            &&& ("  "@ + configs[i].name).is_prefix_of(line[0].text)
            &&& line[1].text == "not running"@ || line[1].text == spinner(frame)
                + " terminating..."@ || slots[i].slot is Process
            &&& !(slots[i].slot is Process) ==> line[1].text == "not running"@
            &&& slots[i].slot matches SlotModel::Process(p) ==> {
                &&& p.status@ is Starting || p.status@ is Running ==> line[1].text == spinner(frame)
                    + " terminating..."@
                &&& p.status@ matches StatusModel::Exited(info) ==> line[1].text == "stopped ("@
                    + ending_text(info) + ")"@
            }
        }),
{
    let name = configs[i].name;
    let text = "  "@ + padded(name, 20) + " "@;
    assert("  "@ + name =~= text.subrange(0, ("  "@ + name).len() as int));
}

/// Of what a watcher said, the last lines are shown, as many as fit, and one at
/// least.
pub proof fn law_last_diagnostics_are_shown(
    header: Seq<char>,
    color: Color,
    said: Seq<Seq<char>>,
    height: u16,
    i: int,
)
    requires
        said.len() > 0,
    ensures
        ({
            let lines = diagnostic_text(header, color, said, height);
            let count = vstd::math::min(said.len() as int, vstd::math::max(height - 4, 1));
            &&& lines.len() == 2 + count
            &&& flat(lines[0]) == "("@ + header + ")"@
            &&& 0 <= i < count ==> flat(lines[2 + i]) == "  "@ + said[said.len() - count + i]
        }),
{
    let lines = diagnostic_text(header, color, said, height);
    let count = vstd::math::min(said.len() as int, vstd::math::max(height - 4, 1));
    lemma_flat_one(lines[0][0]);
    assert(lines[0] =~= seq![lines[0][0]]);
    if 0 <= i < count {
        lemma_flat_one(lines[2 + i][0]);
        assert(lines[2 + i] =~= seq![lines[2 + i][0]]);
    }
}

/// A tab shows the dot and the name; the selected one, and only that, stands
/// out, in yellow where keys go to the process.
pub proof fn law_selected_tab_stands_out(app: AppModel, i: int)
    ensures
        ({
            let title = tab_title(app, i);
            &&& flat(title) == "● "@ + app.configs[i].name
            &&& title[0].style.fg == Some(dot_color(app.slots[i]))
            &&& i != app.selected ==> title[1].style.bg is None && !title[1].style.bold
            &&& i == app.selected ==> title[1].style.bold && title[1].style.bg == Some(
                if app.mode == Mode::Focus {
                    Color::Yellow
                } else {
                    Color::Cyan
                },
            )
        }),
{
    let title = tab_title(app, i);
    lemma_flat_two(title[0], title[1]);
    assert(title =~= seq![title[0], title[1]]);
}

/// A notice is shown for two seconds.
pub proof fn law_notices_stay_for_two_seconds(text: Seq<char>, at: u64, now: u64)
    ensures
        notice_spans(Some((text, at)), now).len() == (if now - at < 2000 {
            1int
        } else {
            0
        }),
        now - at < 2000 ==> notice_spans(Some((text, at)), now)[0].text == " "@ + text + " "@,
        notice_spans(None, now).len() == 0,
{
}

/// While a search is on, the match at hand is counted from one.
pub proof fn law_search_counts_from_one(mode: Mode, query: Seq<char>, count: nat, current: usize)
    ensures
        count > 0 ==> search_spans(mode, false, true, query, count, current)[0].text == " ("@
            + decimal((current + 1) as nat) + "/"@ + decimal(count) + ") /"@ + query + " "@,
        count == 0 ==> search_spans(mode, false, true, query, count, current)[0].text
            == " no matches /"@ + query + " "@,
        search_spans(mode, true, false, query, count, current)[0].text == " /"@ + query,
        search_spans(mode, true, true, query, count, current) == search_spans(
            mode,
            true,
            false,
            query,
            count,
            current,
        ),
        search_spans(mode, false, false, query, count, current) == search_spans(
            mode,
            false,
            false,
            Seq::empty(),
            0,
            0,
        ),
{
}

/// The status line tells the mode, the state of the selected slot and whether
/// lines are wrapped there, and then of the search that the mode is about.
pub proof fn law_status_is_of_the_selected_slot(app: AppModel, now: u64)
    ensures
        ({
            let line = status_spans(app, now);
            &&& app.mode == Mode::Nav ==> line[0].text == " NAV "@
            &&& app.mode == Mode::Focus ==> line[0].text == " FOCUS "@
            &&& app.mode == Mode::Details ==> line[0].text == " DETAILS "@
            &&& line[2] == state_span(app.slots[app.selected as int])
            &&& app.wraps[app.selected as int] ==> line[4].text == " wrap:on "@
            &&& !app.wraps[app.selected as int] ==> line[4].text == " wrap:off "@
            &&& app.notice is None && app.mode == Mode::Details && app.details.editing
                ==> line[5].text == " /"@ + app.details.query
            &&& app.notice is None && app.mode != Mode::Details && app.log.editing ==> line[5].text
                == " /"@ + app.log.query
        }),
{
}

} // verus!
