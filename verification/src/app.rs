//! What the user sees and does: the state of the screen, and what each key does
//! to it.
//!
//! The application decides; what has to be done outside it hands out as a
//! reply. Times are milliseconds on a clock that never goes back.

use vstd::prelude::*;
use vstd::string::StringExecFns;

#[allow(unused_imports)]
use crate::config::{process_models, ProcessModel};
use crate::highlight::highlight_line;
#[allow(unused_imports)]
use crate::highlight::{byte_len, marked, marks_fit};
use crate::manager::{Command, ProcessManager, Slot};
#[allow(unused_imports)]
use crate::manager::{
    ask_to_end, cleared_state, commands_for, each, law_killing_all_reaches_all,
    law_killing_asks_once, law_restart_ends_and_starts, law_restarting_all_reaches_all,
    law_shutdown_reaches_every_group, law_shutdown_stops_watchers, law_slots_run_and_finish, lives,
    resize_commands, resized, scroll_of, scrolled_by, scrolled_to, total_of, Process, SlotModel,
    StateModel,
};
#[allow(unused_imports)]
use crate::output::at_most;
#[allow(unused_imports)]
use crate::search::{
    centered, line_matches_fit, line_stepped_on, lines_searched, no_details_search, no_search,
    searched_again, staleness, stepped_on, DetailsModel, LineMatch, LogModel,
};
use crate::search::{center_scrollback, DetailsSearch, LogSearch, Staleness, STREAM_REFRESH_MS};
#[allow(unused_imports)]
use crate::style::{flat, line_models, SpanModel};
use crate::style::{flatten_line, Line};
use crate::tabs::{adjust_tab_offset, visible_tab_range};
#[allow(unused_imports)]
use crate::tabs::{adjusted, labels, view_end};
#[allow(unused_imports)]
use crate::terminal::{fair_size, screen_offset, screen_size, scrolled, shown};
use crate::terminal::SCROLLBACK;
#[allow(unused_imports)]
use crate::text::texts;
use crate::ui::details_lines;
#[allow(unused_imports)]
use crate::ui::details_of;
use crate::update::UpdateInfo;

verus! {

/// The columns of a terminal whose lines are not wrapped, at least.
pub const NOWRAP_COLS: u16 = 1000;

/// How long the processes have to end before they are killed.
pub const SHUTDOWN_GRACE_MS: u64 = 3000;

/// How long to wait beyond that for those that do not even end then.
pub const SHUTDOWN_SLACK_MS: u64 = 500;

/// How long a notice stays.
pub const NOTICE_TTL_MS: u64 = 2000;

/// Where keys go, and what the body shows.
#[derive(Clone, Copy, Debug, PartialEq, Eq, Structural)]
pub enum Mode {
    Nav,
    /// Keys go to the process.
    Focus,
    /// The body shows the details of the process.
    Details,
}

/// A key.
#[derive(Clone, Copy, Debug, PartialEq, Eq, Structural)]
pub enum KeyCode {
    Char(char),
    Enter,
    Esc,
    Backspace,
    Up,
    Down,
    Left,
    Right,
    PageUp,
    PageDown,
    Home,
    End,
    Other,
}

/// A key that was pressed.
#[derive(Clone, Copy, Debug, PartialEq, Eq, Structural)]
pub struct KeyEvent {
    pub code: KeyCode,
    /// Whether the control key was held.
    pub ctrl: bool,
    /// Whether no modifier at all was held.
    pub bare: bool,
}

impl KeyEvent {
    /// A key without modifiers.
    pub fn plain(code: KeyCode) -> (key: KeyEvent)
        ensures
            key == (KeyEvent { code, ctrl: false, bare: true }),
    {
        KeyEvent { code, ctrl: false, bare: true }
    }

    /// A key with the control key.
    pub fn control(code: KeyCode) -> (key: KeyEvent)
        ensures
            key == (KeyEvent { code, ctrl: true, bare: false }),
    {
        KeyEvent { code, ctrl: true, bare: false }
    }
}

/// What is to be done for a key.
pub struct Reply {
    /// What to do to the operating system, in order.
    pub commands: Vec<Command>,
    /// The slot whose process gets the key as input.
    pub input: Option<usize>,
    /// A text to put on the clipboard; `copied` is to be told how that went.
    pub copy: Option<String>,
}

/// What is to be done for a key, as a value.
pub struct ReplyModel {
    pub commands: Seq<Command>,
    pub input: Option<usize>,
    pub copy: Option<Seq<char>>,
}

impl View for Reply {
    type V = ReplyModel;

    open spec fn view(&self) -> ReplyModel {
        ReplyModel {
            commands: self.commands@,
            input: self.input,
            copy: match self.copy {
                Some(text) => Some(text@),
                None => None,
            },
        }
    }
}

/// Nothing is to be done.
pub open spec fn no_reply() -> ReplyModel {
    ReplyModel { commands: Seq::empty(), input: None, copy: None }
}

/// Some commands are to be done.
pub open spec fn just(commands: Seq<Command>) -> ReplyModel {
    ReplyModel { commands, ..no_reply() }
}

/// The state of the screen.
pub struct App {
    pub mgr: ProcessManager,
    /// The slot whose tab is selected.
    pub selected: usize,
    pub mode: Mode,
    pub should_quit: bool,
    /// Set once the user quits; the end of the processes is shown then.
    pub shutting_down: bool,
    pub shutdown_started: Option<u64>,
    /// Whether the lines of each slot are wrapped.
    pub wraps: Vec<bool>,
    pub display_rows: u16,
    pub display_cols: u16,
    /// The first tab in view.
    pub tab_offset: usize,
    pub details_scroll: u16,
    pub help_visible: bool,
    pub help_scroll: u16,
    /// A text for the status line, and when it was put there.
    pub notice: Option<(String, u64)>,
    pub log_search: LogSearch,
    pub details_search: DetailsSearch,
    pub update_available: Option<UpdateInfo>,
}

/// The state of the screen, as a value.
pub struct AppModel {
    pub configs: Seq<ProcessModel>,
    pub slots: Seq<StateModel>,
    pub selected: usize,
    pub mode: Mode,
    pub should_quit: bool,
    pub shutting_down: bool,
    pub shutdown_started: Option<u64>,
    pub wraps: Seq<bool>,
    pub display_rows: u16,
    pub display_cols: u16,
    pub tab_offset: usize,
    pub details_scroll: u16,
    pub help_visible: bool,
    pub help_scroll: u16,
    pub notice: Option<(Seq<char>, u64)>,
    pub log: LogModel,
    pub details: DetailsModel,
    pub update: Option<(Seq<char>, Seq<char>)>,
}

impl View for App {
    type V = AppModel;

    open spec fn view(&self) -> AppModel {
        AppModel {
            configs: process_models(self.mgr.configs@),
            slots: self.mgr@,
            selected: self.selected,
            mode: self.mode,
            should_quit: self.should_quit,
            shutting_down: self.shutting_down,
            shutdown_started: self.shutdown_started,
            wraps: self.wraps@,
            display_rows: self.display_rows,
            display_cols: self.display_cols,
            tab_offset: self.tab_offset,
            details_scroll: self.details_scroll,
            help_visible: self.help_visible,
            help_scroll: self.help_scroll,
            notice: match self.notice {
                Some((text, at)) => Some((text@, at)),
                None => None,
            },
            log: self.log_search@,
            details: self.details_search@,
            update: match self.update_available {
                Some(info) => Some((info.latest@, info.action@)),
                None => None,
            },
        }
    }
}

// ---- what keys do ----

/// A query after a key, where the key edits it.
pub open spec fn edited(query: Seq<char>, key: KeyEvent) -> Option<Seq<char>> {
    match key.code {
        KeyCode::Char(c) => if !key.ctrl {
            Some(query.push(c))
        } else if c == 'u' {
            Some(Seq::empty())
        } else {
            None
        },
        KeyCode::Backspace => if query.len() > 0 {
            Some(query.drop_last())
        } else {
            Some(query)
        },
        _ => None,
    }
}

/// A scroll offset that has a line in the middle of some rows, as far as it
/// goes.
pub open spec fn line_scroll(line: int, rows: int) -> u16 {
    let want = line - rows / 2;
    if want < 0 {
        0
    } else if want > u16::MAX {
        u16::MAX
    } else {
        want as u16
    }
}

/// The columns of a terminal with wrapped lines or not.
pub open spec fn terminal_cols(wrap: bool, cols: u16) -> u16 {
    if wrap || cols >= NOWRAP_COLS {
        cols
    } else {
        NOWRAP_COLS
    }
}

/// A scroll offset after a key, where the key scrolls.
pub open spec fn scroll_after(scroll: u16, code: KeyCode) -> u16 {
    match code {
        KeyCode::Up => if scroll >= 1 {
            (scroll - 1) as u16
        } else {
            0
        },
        KeyCode::Down => if scroll <= u16::MAX - 1 {
            (scroll + 1) as u16
        } else {
            u16::MAX
        },
        KeyCode::PageUp => if scroll >= 10 {
            (scroll - 10) as u16
        } else {
            0
        },
        KeyCode::PageDown => if scroll <= u16::MAX - 10 {
            (scroll + 10) as u16
        } else {
            u16::MAX
        },
        KeyCode::Home => 0,
        _ => scroll,
    }
}

impl AppModel {
    /// Whether the selected slot has a process.
    pub open spec fn has_process(self) -> bool {
        self.selected < self.slots.len() && self.slots[self.selected as int].slot is Process
    }

    /// The output of the selected slot scrolled back by some rows.
    pub open spec fn scrolled_to(self, offset: usize) -> AppModel {
        if self.selected < self.slots.len() {
            AppModel {
                slots: self.slots.update(
                    self.selected as int,
                    scrolled_to(self.slots[self.selected as int], offset),
                ),
                ..self
            }
        } else {
            self
        }
    }

    /// The output of the selected slot scrolled by some rows.
    pub open spec fn scrolled_by(self, delta: int) -> AppModel {
        if self.selected < self.slots.len() {
            AppModel {
                slots: self.slots.update(
                    self.selected as int,
                    scrolled_by(self.slots[self.selected as int], delta),
                ),
                ..self
            }
        } else {
            self
        }
    }

    /// How many rows the output of the selected slot is scrolled back.
    pub open spec fn scroll(self) -> int {
        if self.selected < self.slots.len() {
            scroll_of(self.slots[self.selected as int]) as int
        } else {
            0
        }
    }

    /// How many rows of the output of the selected slot have scrolled off.
    pub open spec fn total(self) -> int {
        if self.selected < self.slots.len() {
            total_of(self.slots[self.selected as int])
        } else {
            0
        }
    }

    /// Whether keys go into the query for the output.
    pub open spec fn is_typing(self) -> bool {
        !self.shutting_down && !self.help_visible && self.mode == Mode::Nav && self.log.editing
    }

    /// Whether the view is back where it was before the search, where a key
    /// cancels the search.
    pub open spec fn goes_back(self, key: KeyEvent, after: App) -> bool {
        key.code == KeyCode::Esc && self.has_process() && self.log.saved_scrollback is Some
            ==> after@.scroll() == at_most(self.log.saved_scrollback->0 as int, self.total())
    }

    pub open spec fn noted(self, text: Seq<char>, now: u64) -> AppModel {
        AppModel { notice: Some((text, now)), ..self }
    }

    /// The view scrolled to the match at hand.
    pub open spec fn jumped(self) -> AppModel {
        if self.has_process() && self.log.current < self.log.matches.len() {
            let p = self.slots[self.selected as int].slot->Process_0;
            self.scrolled_to(
                centered(
                    self.log.total_at_compute as int,
                    screen_size(shown(p.output.terminal)).0 as int,
                    self.log.matches[self.log.current as int].row as int,
                ) as usize,
            )
        } else {
            self
        }
    }

    /// The output of the selected slot searched, where anything changed.
    pub open spec fn found(self, now: u64) -> AppModel {
        if self.has_process() {
            let p = self.slots[self.selected as int].slot->Process_0;
            AppModel { log: searched_again(self.log, p.id, p.output, now), ..self }
        } else {
            self
        }
    }

    /// The text of the details of the selected slot, line by line.
    pub open spec fn detail_lines(self) -> Seq<Seq<SpanModel>> {
        if self.selected < self.slots.len() {
            details_of(self.configs[self.selected as int], self.slots[self.selected as int])
        } else {
            Seq::empty()
        }
    }

    /// The details searched.
    pub open spec fn details_found(self) -> AppModel {
        AppModel { details: lines_searched(self.details, flat_texts(self.detail_lines())), ..self }
    }

    /// The details scrolled to the match at hand.
    pub open spec fn details_jumped(self) -> AppModel {
        if self.details.current < self.details.matches.len() {
            AppModel {
                details_scroll: line_scroll(
                    self.details.matches[self.details.current as int].0 as int,
                    self.display_rows as int,
                ),
                ..self
            }
        } else {
            self
        }
    }

    /// After the user quits: at once where nothing runs, else once the
    /// processes have ended.
    pub open spec fn quit(self, now: u64) -> (AppModel, ReplyModel) {
        if forall|i: int| 0 <= i < self.slots.len() ==> !(#[trigger] self.slots[i]).runs() {
            (AppModel { should_quit: true, ..self }, no_reply())
        } else {
            (
                AppModel {
                    shutting_down: true,
                    shutdown_started: Some(now),
                    slots: each(self.slots, |s: StateModel| s.unwatched()),
                    ..self
                },
                just(
                    commands_for(
                        self.slots,
                        |s: StateModel, i: int| s.abort_commands(i),
                        self.slots.len() as int,
                    ) + commands_for(
                        self.slots,
                        |s: StateModel, i: int| s.shutdown_commands(),
                        self.slots.len() as int,
                    ),
                ),
            )
        }
    }

    /// After the user asked for the path of the log file.
    pub open spec fn path_asked(self, now: u64) -> (AppModel, ReplyModel) {
        if self.selected < self.slots.len() {
            match self.slots[self.selected as int].log_path {
                Some(path) => (self, ReplyModel { copy: Some(path), ..no_reply() }),
                None => (self.noted("no log file (capture disabled)"@, now), no_reply()),
            }
        } else {
            (self.noted("no log file (capture disabled)"@, now), no_reply())
        }
    }

    pub open spec fn helped(self) -> AppModel {
        AppModel { help_visible: true, help_scroll: 0, ..self }
    }

    pub open spec fn next_tab(self) -> AppModel {
        if self.slots.len() == 0 {
            self
        } else {
            AppModel {
                selected: if self.selected + 1 < self.slots.len() {
                    (self.selected + 1) as usize
                } else {
                    0
                },
                ..self
            }
        }
    }

    pub open spec fn prev_tab(self) -> AppModel {
        if self.slots.len() == 0 {
            self
        } else {
            AppModel {
                selected: if self.selected > 0 {
                    (self.selected - 1) as usize
                } else {
                    (self.slots.len() - 1) as usize
                },
                ..self
            }
        }
    }

    /// Slot `i` given a terminal that fits the display.
    pub open spec fn fitted(self, i: int) -> StateModel {
        resized(self.slots[i], self.display_rows, terminal_cols(self.wraps[i], self.display_cols))
    }

    /// What it takes to give slot `i` a terminal that fits the display.
    pub open spec fn fit_commands(self, i: int) -> Seq<Command> {
        resize_commands(
            self.slots[i],
            i,
            self.display_rows,
            terminal_cols(self.wraps[i], self.display_cols),
        )
    }

    /// After the lines of the selected slot were wrapped, or no longer.
    pub open spec fn wrap_toggled(self) -> (AppModel, ReplyModel) {
        if self.selected < self.slots.len() {
            let i = self.selected as int;
            let turned = AppModel { wraps: self.wraps.update(i, !self.wraps[i]), ..self };
            (
                AppModel { slots: self.slots.update(i, turned.fitted(i)), ..turned },
                just(turned.fit_commands(i)),
            )
        } else {
            (self, no_reply())
        }
    }

    pub open spec fn restarted(self) -> (AppModel, ReplyModel) {
        if self.selected < self.slots.len() {
            let i = self.selected as int;
            (
                AppModel { slots: self.slots.update(i, self.slots[i].started()), ..self },
                just(self.slots[i].restart_commands(i)),
            )
        } else {
            (self, no_reply())
        }
    }

    pub open spec fn killed(self) -> (AppModel, ReplyModel) {
        if self.selected < self.slots.len() {
            let i = self.selected as int;
            (
                AppModel { slots: self.slots.update(i, self.slots[i].killed()), ..self },
                just(self.slots[i].end_commands()),
            )
        } else {
            (self, no_reply())
        }
    }

    pub open spec fn all_restarted(self) -> (AppModel, ReplyModel) {
        (
            AppModel { slots: each(self.slots, |s: StateModel| s.started()), ..self },
            just(
                commands_for(
                    self.slots,
                    |s: StateModel, i: int| s.restart_commands(i),
                    self.slots.len() as int,
                ),
            ),
        )
    }

    pub open spec fn all_killed(self) -> (AppModel, ReplyModel) {
        (
            AppModel { slots: each(self.slots, |s: StateModel| s.killed()), ..self },
            just(
                commands_for(
                    self.slots,
                    |s: StateModel, i: int| s.end_commands(),
                    self.slots.len() as int,
                ),
            ),
        )
    }

    /// After the search of the output was opened; there has to be output.
    pub open spec fn search_opened(self, now: u64) -> AppModel {
        if self.has_process() {
            AppModel {
                log: LogModel {
                    editing: true,
                    active: true,
                    saved_scrollback: Some(scroll_of(self.slots[self.selected as int])),
                    ..no_search()
                },
                ..self
            }
        } else {
            self.noted("no output to search"@, now)
        }
    }

    /// After a step through the matches of the output.
    pub open spec fn search_stepped(self, delta: int, now: u64) -> AppModel {
        let fresh = self.found(now);
        AppModel { log: stepped_on(fresh.log, delta), ..fresh }.jumped()
    }

    /// After a key while the query of the output is typed.
    pub open spec fn log_typed(self, key: KeyEvent, now: u64) -> AppModel {
        match key.code {
            KeyCode::Enter => if self.log.query.len() == 0 {
                AppModel { log: no_search(), ..self }
            } else {
                AppModel {
                    log: LogModel { editing: false, saved_scrollback: None, ..self.log },
                    ..self
                }
            },
            KeyCode::Esc => AppModel {
                log: no_search(),
                ..match self.log.saved_scrollback {
                    Some(offset) => self.scrolled_to(offset),
                    None => self,
                }
            },
            _ => match edited(self.log.query, key) {
                Some(query) => AppModel { log: LogModel { query, ..self.log }, ..self }.found(
                    now,
                ).jumped(),
                None => self,
            },
        }
    }

    /// After a key while the query of the details is typed.
    pub open spec fn details_typed(self, key: KeyEvent) -> AppModel {
        match key.code {
            KeyCode::Enter => if self.details.query.len() == 0 {
                AppModel { details: no_details_search(), ..self }
            } else {
                AppModel { details: DetailsModel { editing: false, ..self.details }, ..self }
            },
            KeyCode::Esc => AppModel { details: no_details_search(), ..self },
            _ => match edited(self.details.query, key) {
                Some(query) => AppModel {
                    details: DetailsModel { query, ..self.details },
                    ..self
                }.details_found().details_jumped(),
                None => self,
            },
        }
    }

    /// After a step through the matches of the details.
    pub open spec fn details_stepped(self, delta: int) -> AppModel {
        let fresh = self.details_found();
        AppModel { details: line_stepped_on(fresh.details, delta), ..fresh }.details_jumped()
    }

    /// After a letter in navigation, but for the one that clears the output.
    pub open spec fn nav_letter(self, c: char, ctrl: bool, now: u64) -> (AppModel, ReplyModel) {
        if c == 'q' && !ctrl || c == 'c' && ctrl {
            self.quit(now)
        } else if c == 'r' {
            if ctrl {
                self.all_restarted()
            } else {
                self.restarted()
            }
        } else if c == 'k' {
            if ctrl {
                self.all_killed()
            } else {
                self.killed()
            }
        } else if ctrl {
            (self, no_reply())
        } else if c == 'w' {
            self.wrap_toggled()
        } else if c == 'y' {
            self.path_asked(now)
        } else if c == 'h' {
            (self.helped(), no_reply())
        } else if c == 'd' {
            (
                AppModel {
                    mode: Mode::Details,
                    details_scroll: 0,
                    notice: None,
                    details: no_details_search(),
                    ..self
                },
                no_reply(),
            )
        } else if c == '/' {
            (self.search_opened(now), no_reply())
        } else if c == 'n' && self.log.active {
            (self.search_stepped(-1, now), no_reply())
        } else if c == 'N' && self.log.active {
            (self.search_stepped(1, now), no_reply())
        } else {
            (self, no_reply())
        }
    }

    /// After a key in navigation, but for the one that clears the output.
    pub open spec fn nav_key(self, key: KeyEvent, now: u64) -> (AppModel, ReplyModel) {
        match key.code {
            KeyCode::Char(c) => self.nav_letter(c, key.ctrl, now),
            KeyCode::Left => (self.prev_tab(), no_reply()),
            KeyCode::Right => (self.next_tab(), no_reply()),
            KeyCode::Up => (self.scrolled_by(1), no_reply()),
            KeyCode::Down => (self.scrolled_by(-1), no_reply()),
            KeyCode::PageUp => (self.scrolled_by(10), no_reply()),
            KeyCode::PageDown => (self.scrolled_by(-10), no_reply()),
            KeyCode::Home => (self.scrolled_to(usize::MAX / 2), no_reply()),
            KeyCode::End => (self.scrolled_to(0), no_reply()),
            KeyCode::Enter => if self.has_process() {
                (AppModel { mode: Mode::Focus, ..self.scrolled_to(0) }, no_reply())
            } else {
                (self, no_reply())
            },
            KeyCode::Esc => if self.log.active {
                (AppModel { log: no_search(), ..self }, no_reply())
            } else {
                (self, no_reply())
            },
            _ => (self, no_reply()),
        }
    }

    /// After a key while the process has the keys.
    pub open spec fn focus_key(self, key: KeyEvent) -> (AppModel, ReplyModel) {
        if key.code == KeyCode::Esc && key.bare {
            (AppModel { mode: Mode::Nav, ..self }, no_reply())
        } else if self.has_process() {
            (self, ReplyModel { input: Some(self.selected), ..no_reply() })
        } else {
            (self, no_reply())
        }
    }

    /// After a key while the details are shown.
    pub open spec fn details_key(self, key: KeyEvent, now: u64) -> (AppModel, ReplyModel) {
        match key.code {
            KeyCode::Esc => if self.details.active {
                (AppModel { details: no_details_search(), ..self }, no_reply())
            } else {
                (AppModel { mode: Mode::Nav, ..self }, no_reply())
            },
            KeyCode::Char(c) => if c == 'd' || c == 'q' {
                (AppModel { mode: Mode::Nav, ..self }, no_reply())
            } else if c == 'y' {
                self.path_asked(now)
            } else if c == 'h' {
                (self.helped(), no_reply())
            } else if c == '/' {
                (
                    AppModel {
                        details: DetailsModel { editing: true, active: true, ..no_details_search() },
                        ..self
                    },
                    no_reply(),
                )
            } else if c == 'n' && self.details.active {
                (self.details_stepped(1), no_reply())
            } else if c == 'N' && self.details.active {
                (self.details_stepped(-1), no_reply())
            } else {
                (self, no_reply())
            },
            _ => (
                AppModel { details_scroll: scroll_after(self.details_scroll, key.code), ..self },
                no_reply(),
            ),
        }
    }

    /// Whether a key clears the output of the selected slot.
    pub open spec fn clears(self, key: KeyEvent) -> bool {
        !self.shutting_down && !self.help_visible && self.mode == Mode::Nav && !self.log.editing
            && key.code == KeyCode::Char('c') && !key.ctrl
    }

    /// After any key that does not clear the output.
    pub open spec fn pressed(self, key: KeyEvent, now: u64) -> (AppModel, ReplyModel) {
        if self.shutting_down {
            if key.code == KeyCode::Char('q') && !key.ctrl || key.code == KeyCode::Char('c')
                && key.ctrl {
                (AppModel { should_quit: true, ..self }, no_reply())
            } else {
                (self, no_reply())
            }
        } else if self.help_visible {
            if key.code == KeyCode::Esc || key.code == KeyCode::Char('h') || key.code
                == KeyCode::Char('q') {
                (AppModel { help_visible: false, ..self }, no_reply())
            } else {
                (
                    AppModel { help_scroll: scroll_after(self.help_scroll, key.code), ..self },
                    no_reply(),
                )
            }
        } else {
            match self.mode {
                Mode::Nav => if self.log.editing {
                    (self.log_typed(key, now), no_reply())
                } else {
                    self.nav_key(key, now)
                },
                Mode::Focus => self.focus_key(key),
                Mode::Details => if self.details.editing {
                    (self.details_typed(key), no_reply())
                } else {
                    self.details_key(key, now)
                },
            }
        }
    }
}

/// The texts of some lines.
pub open spec fn flat_texts(lines: Seq<Seq<SpanModel>>) -> Seq<Seq<char>> {
    Seq::new(lines.len(), |i: int| flat(lines[i]))
}

/// Whether `after` is what is left once the output of the selected slot was
/// cleared.
pub open spec fn display_cleared(before: AppModel, after: AppModel) -> bool {
    let i = before.selected as int;
    if i < before.slots.len() {
        &&& cleared_state(before.slots[i], after.slots[i])
        &&& after == AppModel { slots: before.slots.update(i, after.slots[i]), ..before }
    } else {
        after == before
    }
}

// ---- the application ----

fn edit_query(query: &String, key: KeyEvent) -> (res: Option<String>)
    ensures
        match res {
            Some(text) => edited(query@, key) == Some(text@),
            None => edited(query@, key) is None,
        },
{
    match key.code {
        KeyCode::Char(c) => if !key.ctrl {
            let mut text = query.clone();
            text.push(c);
            Some(text)
        } else if c == 'u' {
            Some(String::new())
        } else {
            None
        },
        KeyCode::Backspace => {
            let chars = crate::text::chars_of(query.as_str());
            if chars.len() > 0 {
                assert(query@.subrange(0, query@.len() - 1) =~= query@.drop_last());
                Some(crate::text::text_between(&chars, 0, chars.len() - 1))
            } else {
                Some(query.clone())
            }
        },
        _ => None,
    }
}

fn scroll_by_key(scroll: u16, code: KeyCode) -> (after: u16)
    ensures
        after == scroll_after(scroll, code),
{
    match code {
        KeyCode::Up => scroll.saturating_sub(1),
        KeyCode::Down => scroll.saturating_add(1),
        KeyCode::PageUp => scroll.saturating_sub(10),
        KeyCode::PageDown => scroll.saturating_add(10),
        KeyCode::Home => 0,
        _ => scroll,
    }
}

fn scroll_for_line(line: usize, rows: u16) -> (scroll: u16)
    ensures
        scroll == line_scroll(line as int, rows as int),
{
    let want: usize = line.saturating_sub((rows / 2) as usize);
    if want > 65535 {
        65535
    } else {
        want as u16
    }
}

impl Reply {
    fn nothing() -> (reply: Reply)
        ensures
            reply@ == no_reply(),
    {
        Reply { commands: Vec::new(), input: None, copy: None }
    }

    fn of(commands: Vec<Command>) -> (reply: Reply)
        ensures
            reply@ == just(commands@),
    {
        Reply { commands, input: None, copy: None }
    }
}

impl App {
    /// Whether the parts of the state fit together.
    pub open spec fn wf(self) -> bool {
        &&& self.mgr.wf()
        &&& self.wraps@.len() == self.mgr@.len()
        &&& self.mgr@.len() > 0 ==> self.selected < self.mgr@.len()
        &&& fair_size(self.display_rows, self.display_cols)
        &&& self.log_search.total_at_compute <= SCROLLBACK
    }

    /// The first tab is selected, and keys navigate.
    pub fn new(mgr: ProcessManager, display_rows: u16, display_cols: u16) -> (app: App)
        requires
            mgr.wf(),
            fair_size(display_rows, display_cols),
        ensures
            app.wf(),
            app@ == (AppModel {
                configs: process_models(mgr.configs@),
                slots: mgr@,
                selected: 0,
                mode: Mode::Nav,
                should_quit: false,
                shutting_down: false,
                shutdown_started: None,
                wraps: Seq::new(mgr@.len(), |i: int| true),
                display_rows,
                display_cols,
                tab_offset: 0,
                details_scroll: 0,
                help_visible: false,
                help_scroll: 0,
                notice: None,
                log: no_search(),
                details: no_details_search(),
                update: None,
            }),
    {
        let mut wraps: Vec<bool> = Vec::new();
        let n = mgr.count();
        while wraps.len() < n
            invariant
                wraps@.len() <= n,
                forall|i: int| 0 <= i < wraps@.len() ==> #[trigger] wraps@[i],
            decreases n - wraps@.len(),
        {
            wraps.push(true);
        }
        assert(wraps@ =~= Seq::new(mgr@.len(), |i: int| true));
        App {
            mgr,
            selected: 0,
            mode: Mode::Nav,
            should_quit: false,
            shutting_down: false,
            shutdown_started: None,
            wraps,
            display_rows,
            display_cols,
            tab_offset: 0,
            details_scroll: 0,
            help_visible: false,
            help_scroll: 0,
            notice: None,
            log_search: LogSearch::default(),
            details_search: DetailsSearch::default(),
            update_available: None,
        }
    }

    /// The notice, as long as it stays.
    pub fn notice(&self, now: u64) -> (text: Option<&str>)
        ensures
            match text {
                Some(t) => self@.notice matches Some((said, at)) && said == t@ && now - at
                    < NOTICE_TTL_MS,
                None => match self@.notice {
                    Some((_, at)) => now - at >= NOTICE_TTL_MS,
                    None => true,
                },
            },
            text is Some <==> self@.notice is Some && now - (self@.notice->0).1 < 2000,
    {
        match &self.notice {
            Some((text, at)) => if now < *at || now - *at < NOTICE_TTL_MS {
                Some(text.as_str())
            } else {
                None
            },
            None => None,
        }
    }

    /// Whether the lines of a slot are wrapped.
    pub fn wrap_of(&self, idx: usize) -> (wrap: bool)
        ensures
            wrap == (idx < self.wraps@.len() ==> self.wraps@[idx as int]),
    {
        if idx < self.wraps.len() {
            self.wraps[idx]
        } else {
            true
        }
    }

    fn set_notice(&mut self, text: &str, now: u64)
        requires
            old(self).wf(),
        ensures
            final(self).wf(),
            final(self)@ == old(self)@.noted(text@, now),
    {
        self.notice = Some((text.to_owned(), now));
    }

    /// Note whether the path of the log file was put on the clipboard.
    pub fn copied(&mut self, ok: bool, now: u64)
        requires
            old(self).wf(),
        ensures
            final(self).wf(),
            final(self)@ == old(self)@.noted(
                if ok {
                    "log path copied"@
                } else {
                    "copy failed"@
                },
                now,
            ),
    {
        if ok {
            self.set_notice("log path copied", now);
        } else {
            self.set_notice("copy failed", now);
        }
    }

    fn copy_log_path(&mut self, now: u64) -> (reply: Reply)
        requires
            old(self).wf(),
        ensures
            final(self).wf(),
            (final(self)@, reply@) == old(self)@.path_asked(now),
    {
        match self.mgr.log_path(self.selected) {
            Some(path) => Reply { commands: Vec::new(), input: None, copy: Some(path.clone()) },
            None => {
                self.set_notice("no log file (capture disabled)", now);
                Reply::nothing()
            },
        }
    }

    fn has_selected(&self) -> (yes: bool)
        ensures
            yes == self@.has_process(),
    {
        self.mgr.process(self.selected).is_some()
    }

    fn set_scroll(&mut self, offset: usize)
        requires
            old(self).wf(),
        ensures
            final(self).wf(),
            final(self)@ == old(self)@.scrolled_to(offset),
            final(self)@.total() == old(self)@.total(),
            old(self)@.has_process() ==> final(self)@.scroll() == at_most(
                offset as int,
                old(self)@.total(),
            ),
    {
        if self.selected < self.mgr.count() {
            self.mgr.set_scroll(self.selected, offset);
        }
    }

    fn scroll_by(&mut self, delta: i32)
        requires
            old(self).wf(),
        ensures
            final(self).wf(),
            final(self)@ == old(self)@.scrolled_by(delta as int),
    {
        if self.selected < self.mgr.count() {
            self.mgr.scroll_by(self.selected, delta);
        }
    }

    /// Select the tab after the selected one, around the end.
    pub fn next_tab(&mut self)
        requires
            old(self).wf(),
        ensures
            final(self).wf(),
            final(self)@ == old(self)@.next_tab(),
    {
        let n = self.mgr.count();
        if n == 0 {
            return;
        }
        self.selected = if self.selected + 1 < n {
            self.selected + 1
        } else {
            0
        };
    }

    /// Select the tab before the selected one, around the end.
    pub fn prev_tab(&mut self)
        requires
            old(self).wf(),
        ensures
            final(self).wf(),
            final(self)@ == old(self)@.prev_tab(),
    {
        let n = self.mgr.count();
        if n == 0 {
            return;
        }
        self.selected = if self.selected > 0 {
            self.selected - 1
        } else {
            n - 1
        };
    }

    fn open_help(&mut self)
        requires
            old(self).wf(),
        ensures
            final(self).wf(),
            final(self)@ == old(self)@.helped(),
    {
        self.help_visible = true;
        self.help_scroll = 0;
    }

    /// Begin to end everything. Where nothing runs, there is nothing to wait for.
    pub fn begin_shutdown(&mut self, now: u64) -> (reply: Reply)
        requires
            old(self).wf(),
        ensures
            final(self).wf(),
            (final(self)@, reply@) == old(self)@.quit(now),
    {
        if self.mgr.all_exited() {
            self.should_quit = true;
            return Reply::nothing();
        }
        self.shutting_down = true;
        self.shutdown_started = Some(now);
        let mut commands: Vec<Command> = Vec::new();
        self.mgr.begin_shutdown(&mut commands);
        let ghost slots = old(self)@.slots;
        assert(commands@ =~= commands_for(
            slots,
            |s: StateModel, i: int| s.abort_commands(i),
            slots.len() as int,
        ) + commands_for(
            slots,
            |s: StateModel, i: int| s.shutdown_commands(),
            slots.len() as int,
        ));
        Reply::of(commands)
    }

    /// Whether the shutdown is over: every process has ended, or has had all
    /// the time that it gets.
    pub fn shutdown_complete(&self, now: u64) -> (yes: bool)
        requires
            self.wf(),
        ensures
            yes == (self.shutting_down && ((forall|i: int|
                0 <= i < self.mgr@.len() ==> !(#[trigger] self.mgr@[i]).runs()) || (
            match self.shutdown_started {
                Some(at) => now - at >= SHUTDOWN_GRACE_MS + SHUTDOWN_SLACK_MS,
                None => true,
            }))),
            !self.shutting_down ==> !yes,
            self.shutting_down && self.shutdown_started is Some && now - self.shutdown_started->0
                >= 3500 ==> yes,
            yes && self.shutdown_started is Some && now - self.shutdown_started->0 < 3500 ==> forall|
                i: int,
            |
                0 <= i < self.mgr@.len() ==> !lives(#[trigger] self.mgr@[i]),
    {
        if !self.shutting_down {
            return false;
        }
        if self.mgr.all_exited() {
            return true;
        }
        match self.shutdown_started {
            Some(at) => now >= at && now - at >= SHUTDOWN_GRACE_MS + SHUTDOWN_SLACK_MS,
            None => true,
        }
    }
}

impl App {
    /// Give a slot a terminal that fits the display.
    fn resize_one(&mut self, idx: usize, commands: &mut Vec<Command>)
        requires
            old(self).wf(),
            idx < old(self).mgr@.len(),
        ensures
            final(self).wf(),
            final(self)@ == (AppModel {
                slots: old(self)@.slots.update(idx as int, old(self)@.fitted(idx as int)),
                ..old(self)@
            }),
            final(commands)@ == old(commands)@ + old(self)@.fit_commands(idx as int),
    {
        let cols: u16 = if self.wraps[idx] || self.display_cols >= NOWRAP_COLS {
            self.display_cols
        } else {
            NOWRAP_COLS
        };
        self.mgr.set_size(idx, self.display_rows, cols, commands);
    }

    fn toggle_wrap(&mut self) -> (reply: Reply)
        requires
            old(self).wf(),
        ensures
            final(self).wf(),
            (final(self)@, reply@) == old(self)@.wrap_toggled(),
    {
        let idx = self.selected;
        if idx >= self.mgr.count() {
            return Reply::nothing();
        }
        let wrap = self.wraps[idx];
        self.wraps.set(idx, !wrap);
        let mut commands: Vec<Command> = Vec::new();
        let ghost turned = self@;
        self.resize_one(idx, &mut commands);
        assert(commands@ =~= turned.fit_commands(idx as int));
        Reply::of(commands)
    }

    fn find_log(&mut self, now: u64)
        requires
            old(self).wf(),
        ensures
            final(self).wf(),
            final(self)@ == old(self)@.found(now),
            final(self)@.total() == old(self)@.total(),
    {
        let idx = self.selected;
        let ghost before = self.mgr@;
        if idx < self.mgr.count() {
            assert(before[idx as int] == self.mgr.slots@[idx as int]@);
            assert(before[idx as int].wf());
            if let Slot::Process(p) = &mut self.mgr.slots[idx].slot {
                self.log_search.recompute_if_needed(p.id, &mut p.output, now);
            }
            assert(self.mgr@ =~= before);
            assert forall|j: int| 0 <= j < self.mgr.slots@.len() implies (
            #[trigger] self.mgr@[j]).wf() by {
                assert(before[j].wf());
            }
        }
    }

    fn jump(&mut self)
        requires
            old(self).wf(),
        ensures
            final(self).wf(),
            final(self)@ == old(self)@.jumped(),
            final(self)@.total() == old(self)@.total(),
    {
        if self.log_search.current >= self.log_search.matches.len() {
            return;
        }
        let row = self.log_search.matches[self.log_search.current].row;
        let total = self.log_search.total_at_compute;
        let rows: Option<u16> = match self.mgr.process(self.selected) {
            Some(p) => Some(p.output.screen().size().0),
            None => None,
        };
        if let Some(rows) = rows {
            self.set_scroll(center_scrollback(total, rows, row));
        }
    }

    fn log_edit_key(&mut self, key: KeyEvent, now: u64)
        requires
            old(self).wf(),
        ensures
            final(self).wf(),
            final(self)@ == old(self)@.log_typed(key, now),
            final(self)@.total() == old(self)@.total(),
            old(self)@.goes_back(key, *final(self)),
    {
        match key.code {
            KeyCode::Enter => if self.log_search.query.as_str().is_empty() {
                self.log_search.clear();
            } else {
                self.log_search.editing = false;
                self.log_search.saved_scrollback = None;
            },
            KeyCode::Esc => {
                if let Some(offset) = self.log_search.saved_scrollback {
                    self.set_scroll(offset);
                }
                self.log_search.clear();
            },
            _ => if let Some(query) = edit_query(&self.log_search.query, key) {
                self.log_search.query = query;
                self.find_log(now);
                self.jump();
            },
        }
    }

    fn search_step(&mut self, delta: i32, now: u64)
        requires
            old(self).wf(),
        ensures
            final(self).wf(),
            final(self)@ == old(self)@.search_stepped(delta as int, now),
    {
        self.find_log(now);
        self.log_search.step(delta);
        self.jump();
    }

    fn open_search(&mut self, now: u64)
        requires
            old(self).wf(),
        ensures
            final(self).wf(),
            final(self)@ == old(self)@.search_opened(now),
    {
        let offset: Option<usize> = match self.mgr.process(self.selected) {
            Some(p) => Some(p.output.screen().scrollback()),
            None => None,
        };
        match offset {
            Some(offset) => {
                self.log_search.clear();
                self.log_search.editing = true;
                self.log_search.active = true;
                self.log_search.saved_scrollback = Some(offset);
            },
            None => self.set_notice("no output to search", now),
        }
    }

    fn find_details(&mut self) -> (lines: Vec<Line>)
        requires
            old(self).wf(),
        ensures
            final(self).wf(),
            final(self)@ == old(self)@.details_found(),
            line_models(lines@) == old(self)@.detail_lines(),
            line_matches_fit(
                final(self)@.details.matches,
                flat_texts(old(self)@.detail_lines()),
            ),
    {
        let lines = details_lines(&self.mgr, self.selected);
        let ghost models = line_models(lines@);
        assert(self.selected < self.mgr@.len() ==> self@.configs[self.selected as int]
            == self.mgr.configs@[self.selected as int]@);
        let mut flat_lines: Vec<String> = Vec::new();
        let mut i: usize = 0;
        while i < lines.len()
            invariant
                i <= lines@.len(),
                models == line_models(lines@),
                flat_lines@.len() == i,
                forall|j: int| 0 <= j < i ==> (#[trigger] flat_lines@[j])@ == flat(models[j]),
            decreases lines@.len() - i,
        {
            assert(models[i as int] == lines@[i as int]@);
            flat_lines.push(flatten_line(&lines[i]));
            i = i + 1;
        }
        assert(texts(flat_lines@) =~= flat_texts(models));
        self.details_search.recompute(&flat_lines);
        lines
    }

    fn jump_details(&mut self)
        requires
            old(self).wf(),
        ensures
            final(self).wf(),
            final(self)@ == old(self)@.details_jumped(),
    {
        if self.details_search.current < self.details_search.matches.len() {
            let line = self.details_search.matches[self.details_search.current].0;
            self.details_scroll = scroll_for_line(line, self.display_rows);
        }
    }

    fn details_edit_key(&mut self, key: KeyEvent)
        requires
            old(self).wf(),
        ensures
            final(self).wf(),
            final(self)@ == old(self)@.details_typed(key),
    {
        match key.code {
            KeyCode::Enter => if self.details_search.query.as_str().is_empty() {
                self.details_search.clear();
            } else {
                self.details_search.editing = false;
            },
            KeyCode::Esc => self.details_search.clear(),
            _ => if let Some(query) = edit_query(&self.details_search.query, key) {
                self.details_search.query = query;
                self.find_details();
                self.jump_details();
            },
        }
    }

    fn details_step(&mut self, delta: i32)
        requires
            old(self).wf(),
        ensures
            final(self).wf(),
            final(self)@ == old(self)@.details_stepped(delta as int),
    {
        self.find_details();
        self.details_search.step(delta);
        self.jump_details();
    }

    fn handle_nav_letter(&mut self, c: char, ctrl: bool, now: u64) -> (reply: Reply)
        requires
            old(self).wf(),
            c != 'c' || ctrl,
        ensures
            final(self).wf(),
            (final(self)@, reply@) == old(self)@.nav_letter(c, ctrl, now),
    {
        let mut commands: Vec<Command> = Vec::new();
        if (c == 'q' && !ctrl) || (c == 'c' && ctrl) {
            return self.begin_shutdown(now);
        }
        if c == 'r' {
            if ctrl {
                self.mgr.restart_all(&mut commands);
            } else if self.selected < self.mgr.count() {
                self.mgr.restart(self.selected, &mut commands);
            }
        } else if c == 'k' {
            if ctrl {
                self.mgr.kill_all(&mut commands);
            } else if self.selected < self.mgr.count() {
                self.mgr.kill(self.selected, &mut commands);
            }
        } else if ctrl {
        } else if c == 'w' {
            return self.toggle_wrap();
        } else if c == 'y' {
            return self.copy_log_path(now);
        } else if c == 'h' {
            self.open_help();
        } else if c == 'd' {
            self.mode = Mode::Details;
            self.details_scroll = 0;
            self.notice = None;
            self.details_search.clear();
        } else if c == '/' {
            self.open_search(now);
        } else if c == 'n' && self.log_search.active {
            self.search_step(-1, now);
        } else if c == 'N' && self.log_search.active {
            self.search_step(1, now);
        }
        assert(commands@ =~= old(self)@.nav_letter(c, ctrl, now).1.commands);
        Reply::of(commands)
    }

    fn handle_nav_key(&mut self, key: KeyEvent, now: u64) -> (reply: Reply)
        requires
            old(self).wf(),
            key.code != KeyCode::Char('c') || key.ctrl,
        ensures
            final(self).wf(),
            (final(self)@, reply@) == old(self)@.nav_key(key, now),
    {
        match key.code {
            KeyCode::Char(c) => return self.handle_nav_letter(c, key.ctrl, now),
            KeyCode::Left => self.prev_tab(),
            KeyCode::Right => self.next_tab(),
            KeyCode::Up => self.scroll_by(1),
            KeyCode::Down => self.scroll_by(-1),
            KeyCode::PageUp => self.scroll_by(10),
            KeyCode::PageDown => self.scroll_by(-10),
            KeyCode::Home => self.set_scroll(usize::MAX / 2),
            KeyCode::End => self.set_scroll(0),
            KeyCode::Enter => if self.has_selected() {
                self.set_scroll(0);
                self.mode = Mode::Focus;
            },
            KeyCode::Esc => if self.log_search.active {
                self.log_search.clear();
            },
            _ => {},
        }
        Reply::nothing()
    }

    fn handle_focus_key(&mut self, key: KeyEvent) -> (reply: Reply)
        requires
            old(self).wf(),
        ensures
            final(self).wf(),
            (final(self)@, reply@) == old(self)@.focus_key(key),
    {
        if key.code == KeyCode::Esc && key.bare {
            self.mode = Mode::Nav;
            return Reply::nothing();
        }
        let input: Option<usize> = if self.has_selected() {
            Some(self.selected)
        } else {
            None
        };
        Reply { commands: Vec::new(), input, copy: None }
    }

    fn handle_details_key(&mut self, key: KeyEvent, now: u64) -> (reply: Reply)
        requires
            old(self).wf(),
        ensures
            final(self).wf(),
            (final(self)@, reply@) == old(self)@.details_key(key, now),
    {
        match key.code {
            KeyCode::Esc => if self.details_search.active {
                self.details_search.clear();
            } else {
                self.mode = Mode::Nav;
            },
            KeyCode::Char(c) => if c == 'd' || c == 'q' {
                self.mode = Mode::Nav;
            } else if c == 'y' {
                return self.copy_log_path(now);
            } else if c == 'h' {
                self.open_help();
            } else if c == '/' {
                self.details_search.clear();
                self.details_search.editing = true;
                self.details_search.active = true;
            } else if c == 'n' && self.details_search.active {
                self.details_step(1);
            } else if c == 'N' && self.details_search.active {
                self.details_step(-1);
            },
            _ => {
                self.details_scroll = scroll_by_key(self.details_scroll, key.code);
            },
        }
        Reply::nothing()
    }

    /// Take in a key.
    pub fn handle_key(&mut self, key: KeyEvent, now: u64) -> (reply: Reply)
        requires
            old(self).wf(),
        ensures
            final(self).wf(),
            if old(self)@.clears(key) {
                display_cleared(old(self)@, final(self)@) && reply@ == no_reply()
            } else {
                (final(self)@, reply@) == old(self)@.pressed(key, now)
            },
            old(self)@.is_typing() ==> final(self)@.total() == old(self)@.total()
                && old(self)@.goes_back(key, *final(self)),
    {
        if self.shutting_down {
            if (key.code == KeyCode::Char('q') && !key.ctrl) || (key.code == KeyCode::Char('c')
                && key.ctrl) {
                self.should_quit = true;
            }
            return Reply::nothing();
        }
        if self.help_visible {
            if key.code == KeyCode::Esc || key.code == KeyCode::Char('h') || key.code
                == KeyCode::Char('q') {
                self.help_visible = false;
            } else {
                self.help_scroll = scroll_by_key(self.help_scroll, key.code);
            }
            return Reply::nothing();
        }
        match self.mode {
            Mode::Nav => if self.log_search.editing {
                self.log_edit_key(key, now);
                Reply::nothing()
            } else if key.code == KeyCode::Char('c') && !key.ctrl {
                if self.selected < self.mgr.count() {
                    self.mgr.clear_display(self.selected);
                }
                Reply::nothing()
            } else {
                self.handle_nav_key(key, now)
            },
            Mode::Focus => self.handle_focus_key(key),
            Mode::Details => if self.details_search.editing {
                self.details_edit_key(key);
                Reply::nothing()
            } else {
                self.handle_details_key(key, now)
            },
        }
    }
}

// ---- the display ----

/// What it takes to give the first `n` slots terminals that fit the display.
pub open spec fn fit_commands_upto(app: AppModel, n: int) -> Seq<Command>
    decreases n,
{
    if n <= 0 {
        Seq::empty()
    } else {
        fit_commands_upto(app, n - 1) + app.fit_commands(n - 1)
    }
}

/// The names on the tabs.
pub open spec fn tab_names(configs: Seq<ProcessModel>) -> Seq<Seq<char>> {
    Seq::new(configs.len(), |i: int| configs[i].name)
}

/// The lines with the first `n` matches marked.
pub open spec fn lines_marked(
    lines: Seq<Seq<SpanModel>>,
    matches: Seq<LineMatch>,
    current: usize,
    n: int,
) -> Seq<Seq<SpanModel>>
    decreases n,
{
    if n <= 0 {
        lines
    } else {
        let before = lines_marked(lines, matches, current, n - 1);
        let (line, range) = matches[n - 1];
        before.update(
            line as int,
            marked(before[line as int], seq![(range, current == n - 1)]),
        )
    }
}

impl AppModel {
    /// On a display of another size.
    pub open spec fn displayed(self, rows: u16, cols: u16) -> AppModel {
        AppModel { display_rows: rows, display_cols: cols, ..self }
    }

    /// The search of the output brought up to date: at once where something but
    /// the output changed, else no more often than is good.
    pub open spec fn refreshed(self, now: u64) -> AppModel {
        if self.log.active && self.has_process() {
            let p = self.slots[self.selected as int].slot->Process_0;
            match staleness(
                self.log.cache_key,
                self.log.query,
                p.id,
                p.output.generation,
                screen_size(shown(p.output.terminal)),
            ) {
                Some(Staleness::Changed) => self.found(now),
                Some(Staleness::GenerationOnly) => match self.log.last_recompute {
                    Some(at) => if now - at >= STREAM_REFRESH_MS {
                        self.found(now)
                    } else {
                        self
                    },
                    None => self.found(now),
                },
                None => self,
            }
        } else {
            self
        }
    }
}

impl App {
    /// Adapt to a display of another size.
    pub fn apply_resize(&mut self, rows: u16, cols: u16) -> (commands: Vec<Command>)
        requires
            old(self).wf(),
            fair_size(rows, cols),
        ensures
            final(self).wf(),
            ({
                let app = old(self)@.displayed(rows, cols);
                &&& final(self)@ == AppModel {
                    slots: Seq::new(app.slots.len(), |i: int| app.fitted(i)),
                    ..app
                }
                &&& commands@ == fit_commands_upto(app, app.slots.len() as int)
            }),
    {
        self.display_rows = rows;
        self.display_cols = cols;
        let ghost app = self@;
        let ghost all = Seq::new(app.slots.len(), |i: int| app.fitted(i));
        let mut commands: Vec<Command> = Vec::new();
        let n = self.mgr.count();
        let mut i: usize = 0;
        assert(all.take(0) + app.slots.skip(0) =~= app.slots);
        while i < n
            invariant
                i <= n,
                n == app.slots.len(),
                app == old(self)@.displayed(rows, cols),
                all == Seq::new(app.slots.len(), |i: int| app.fitted(i)),
                self.wf(),
                self@ == (AppModel {
                    slots: all.take(i as int) + app.slots.skip(i as int),
                    ..app
                }),
                commands@ == fit_commands_upto(app, i as int),
            decreases n - i,
        {
            let ghost before = self@.slots;
            assert(before[i as int] == app.slots[i as int]);
            self.resize_one(i, &mut commands);
            assert(self@.slots =~= all.take(i + 1) + app.slots.skip(i + 1));
            i = i + 1;
        }
        assert(self@.slots =~= all);
        commands
    }

    /// Bring the search of the output up to date before it is drawn.
    pub fn pre_draw(&mut self, now: u64)
        requires
            old(self).wf(),
        ensures
            final(self).wf(),
            final(self)@ == old(self)@.refreshed(now),
    {
        if !self.log_search.active {
            return;
        }
        let kind: Option<Staleness> = match self.mgr.process(self.selected) {
            Some(p) => self.log_search.stale_kind(p.id, &p.output),
            None => None,
        };
        match kind {
            Some(Staleness::Changed) => self.find_log(now),
            Some(Staleness::GenerationOnly) => if self.log_search.stream_refresh_due(now) {
                self.find_log(now);
            },
            None => {},
        }
    }

    fn names(&self) -> (names: Vec<&str>)
        requires
            self.wf(),
        ensures
            labels(names@) == tab_names(self@.configs),
    {
        let mut names: Vec<&str> = Vec::new();
        let mut i: usize = 0;
        while i < self.mgr.configs.len()
            invariant
                i <= self.mgr.configs@.len(),
                names@.len() == i,
                forall|j: int|
                    0 <= j < i ==> (#[trigger] names@[j])@ == self.mgr.configs@[j].name@,
            decreases self.mgr.configs@.len() - i,
        {
            names.push(self.mgr.configs[i].name.as_str());
            i = i + 1;
        }
        assert(labels(names@) =~= tab_names(self@.configs));
        names
    }

    /// Move the tabs in view so that the selected one is among them.
    pub fn ensure_selected_visible(&mut self, available_width: u16)
        requires
            old(self).wf(),
        ensures
            final(self).wf(),
            final(self)@ == (AppModel {
                tab_offset: adjusted(
                    tab_names(old(self)@.configs),
                    old(self).selected as int,
                    old(self).tab_offset as int,
                    available_width,
                ) as usize,
                ..old(self)@
            }),
    {
        let names = self.names();
        let offset = adjust_tab_offset(&names, self.selected, self.tab_offset, available_width);
        self.tab_offset = offset;
    }

    /// Which tabs are in view.
    pub fn visible_tab_range(&self, available_width: u16) -> (range: (usize, usize))
        requires
            self.wf(),
        ensures
            self@.configs.len() == 0 ==> range == (0usize, 0usize),
            self@.configs.len() > 0 ==> {
                &&& range.0 == (if self.tab_offset < self@.configs.len() {
                    self.tab_offset as int
                } else {
                    self@.configs.len() - 1
                })
                &&& range.1 == view_end(
                    tab_names(self@.configs),
                    range.0 as int,
                    available_width,
                )
                &&& range.0 < range.1 <= self@.configs.len()
            },
    {
        let names = self.names();
        assert(labels(names@).len() == tab_names(self@.configs).len());
        visible_tab_range(&names, self.tab_offset, available_width)
    }

    /// The details of the selected slot as they are drawn, with the matches of
    /// the search marked. They are searched anew each time, as they change.
    pub fn details_view(&mut self) -> (lines: Vec<Line>)
        requires
            old(self).wf(),
        ensures
            final(self).wf(),
            if old(self)@.details.active {
                &&& final(self)@ == old(self)@.details_found()
                &&& line_models(lines@) == lines_marked(
                    old(self)@.detail_lines(),
                    final(self)@.details.matches,
                    final(self)@.details.current,
                    final(self)@.details.matches.len() as int,
                )
            } else {
                &&& final(self)@ == old(self)@
                &&& line_models(lines@) == old(self)@.detail_lines()
            },
    {
        if !self.details_search.active {
            assert(self.selected < self.mgr@.len() ==> self@.configs[self.selected as int]
                == self.mgr.configs@[self.selected as int]@);
            return details_lines(&self.mgr, self.selected);
        }
        let mut lines = self.find_details();
        let ghost plain = line_models(lines@);
        let ghost found = self.details_search.matches@;
        let current = self.details_search.current;
        let mut i: usize = 0;
        while i < self.details_search.matches.len()
            invariant
                i <= found.len(),
                found == self.details_search.matches@,
                current == self.details_search.current,
                line_matches_fit(found, flat_texts(plain)),
                lines@.len() == plain.len(),
                line_models(lines@) == lines_marked(plain, found, current, i as int),
                forall|j: int|
                    0 <= j < plain.len() ==> flat((#[trigger] lines@[j])@) == flat(plain[j]),
            decreases found.len() - i,
        {
            let (line, range) = self.details_search.matches[i];
            assert(found[i as int] == (line, range));
            assert(flat_texts(plain)[line as int] == flat(plain[line as int]));
            let marks = [(range, i == current)];
            let ghost before = line_models(lines@);
            let length = flatten_line(&lines[line]).as_str().as_bytes().len();
            assert(byte_len(flat(lines@[line as int]@)) == length);
            assert(marks@ =~= seq![(range, current == i)]);
            assert(marks_fit(marks@, flat(lines@[line as int]@)));
            proof {
                crate::highlight::law_marking_keeps_the_text(lines@[line as int]@, marks@);
            }
            let changed = highlight_line(&lines[line], &marks);
            lines.set(line, changed);
            assert(line_models(lines@) =~= before.update(
                line as int,
                marked(before[line as int], seq![(range, current == i)]),
            ));
            i = i + 1;
        }
        lines
    }
}

// ---- what holds of every key ----

/// While the help is shown it takes every key, and nothing else happens.
pub proof fn law_help_takes_every_key(app: AppModel, key: KeyEvent, now: u64)
    requires
        app.help_visible,
        !app.shutting_down,
    ensures
        !app.clears(key),
        ({
            let (after, reply) = app.pressed(key, now);
            &&& reply == no_reply()
            &&& after == AppModel {
                help_visible: after.help_visible,
                help_scroll: after.help_scroll,
                ..app
            }
        }),
{
}

/// While a query is typed no key quits, changes the mode or the tab, or does
/// anything to a process; a letter becomes part of the query.
pub proof fn law_typing_only_types(app: AppModel, key: KeyEvent, now: u64)
    requires
        app.is_typing(),
    ensures
        !app.clears(key),
        ({
            let (after, reply) = app.pressed(key, now);
            &&& reply == no_reply()
            &&& after == AppModel { log: after.log, slots: after.slots, ..app }
            &&& key.code is Char && !key.ctrl ==> {
                &&& after.log.query == app.log.query.push(key.code->Char_0)
                &&& after.log.editing
                &&& after.log.active == app.log.active
            }
        }),
{
}

/// Some keys, one after the other.
pub open spec fn pressed_all(app: AppModel, keys: Seq<(KeyEvent, u64)>) -> AppModel
    decreases keys.len(),
{
    if keys.len() == 0 {
        app
    } else {
        pressed_all(app, keys.drop_last()).pressed(keys.last().0, keys.last().1).0
    }
}

/// However long a query is typed, the search remembers where the view was when
/// it was opened; a key that cancels it scrolls back there.
pub proof fn law_search_remembers_the_view(app: AppModel, at: u64, keys: Seq<(KeyEvent, u64)>)
    requires
        app.has_process(),
        app.mode == Mode::Nav,
        !app.shutting_down,
        !app.help_visible,
        forall|i: int|
            0 <= i < keys.len() ==> (#[trigger] keys[i]).0.code != KeyCode::Enter
                && keys[i].0.code != KeyCode::Esc,
    ensures
        ({
            let typed = pressed_all(app.search_opened(at), keys);
            &&& typed.is_typing()
            &&& typed.has_process()
            &&& typed.selected == app.selected
            &&& typed.log.saved_scrollback == Some(scroll_of(app.slots[app.selected as int]))
            &&& forall|esc: KeyEvent, now: u64|
                esc.code == KeyCode::Esc ==> #[trigger] typed.pressed(esc, now).0 == (AppModel {
                    log: no_search(),
                    ..typed.scrolled_to(scroll_of(app.slots[app.selected as int]))
                })
        }),
    decreases keys.len(),
{
    if keys.len() > 0 {
        let init = keys.drop_last();
        assert forall|i: int| 0 <= i < init.len() implies (#[trigger] init[i]).0.code
            != KeyCode::Enter && init[i].0.code != KeyCode::Esc by {
            assert(init[i] == keys[i]);
        }
        law_search_remembers_the_view(app, at, init);
        assert(keys.last() == keys[keys.len() - 1]);
    }
}

/// The tabs go around: a step forward and a step back lead to the same tab.
pub proof fn law_tab_steps_undo_each_other(app: AppModel)
    requires
        app.selected < app.slots.len() <= usize::MAX,
    ensures
        app.next_tab().prev_tab() == app,
        app.prev_tab().next_tab() == app,
{
}

/// In focus every key goes to the process, but for a bare escape.
pub proof fn law_focus_hands_keys_on(app: AppModel, key: KeyEvent, now: u64)
    requires
        app.mode == Mode::Focus,
        app.has_process(),
        !app.shutting_down,
        !app.help_visible,
        key.code != KeyCode::Esc || !key.bare,
    ensures
        !app.clears(key),
        app.pressed(key, now) == (
            app,
            ReplyModel { input: Some(app.selected), ..no_reply() },
        ),
{
}

/// Once the shutdown began, a key can do no more than force its end.
pub proof fn law_shutdown_is_not_undone(app: AppModel, key: KeyEvent, now: u64)
    requires
        app.shutting_down,
    ensures
        !app.clears(key),
        app.pressed(key, now) == (
            AppModel { should_quit: app.pressed(key, now).0.should_quit, ..app },
            no_reply(),
        ),
        app.should_quit ==> app.pressed(key, now).0.should_quit,
{
}

/// A second key to quit forces the end, whatever the first one left running.
pub proof fn law_quitting_twice_forces(app: AppModel, key: KeyEvent, t1: u64, t2: u64)
    requires
        !app.shutting_down,
        !app.help_visible,
        app.mode == Mode::Nav,
        !app.log.editing,
        key.code == KeyCode::Char('q') && !key.ctrl || key.code == KeyCode::Char('c') && key.ctrl,
    ensures
        ({
            let once = app.pressed(key, t1).0;
            &&& once.should_quit || once.shutting_down
            &&& once.shutting_down ==> once.pressed(key, t2).0.should_quit
        }),
{
}

// ---- what each key is for ----

/// Whether keys navigate: no query is typed, no help is shown, and nothing is
/// shut down.
pub open spec fn navigates(app: AppModel) -> bool {
    app.mode == Mode::Nav && !app.log.editing && !app.help_visible && !app.shutting_down
}

/// A letter, with the control key or without.
pub open spec fn letter(key: KeyEvent, c: char, ctrl: bool) -> bool {
    key.code == KeyCode::Char(c) && key.ctrl == ctrl
}

/// Nothing but commands is asked for.
pub open spec fn only_commands(reply: ReplyModel) -> bool {
    reply.input is None && reply.copy is None
}

/// `^K` kills every process, whichever tab is selected: each that lives is asked
/// to end, nothing else is asked for, and each counts as asked to end.
pub proof fn law_control_k_kills_all(app: AppModel, key: KeyEvent, now: u64, i: int, c: Command)
    requires
        navigates(app),
        letter(key, 'k', true),
    ensures
        !app.clears(key),
        ({
            let (after, reply) = app.pressed(key, now);
            &&& only_commands(reply)
            &&& after == (AppModel { slots: after.slots, ..app })
            &&& after.slots.len() == app.slots.len()
            &&& 0 <= i < app.slots.len() ==> after.slots[i] == (StateModel {
                suppress_retry: app.slots[i].suppress_retry || app.slots[i].slot is Process,
                ..app.slots[i]
            })
            &&& 0 <= i < app.slots.len() && lives(app.slots[i]) ==> reply.commands.contains(
                ask_to_end(app.slots[i]),
            )
            &&& reply.commands.contains(c) ==> exists|j: int|
                0 <= j < app.slots.len() && #[trigger] lives(app.slots[j]) && c == ask_to_end(
                    app.slots[j],
                )
        }),
{
    law_killing_all_reaches_all(app.slots, i, c);
}

/// `k` kills the selected process and no other.
pub proof fn law_k_kills_one(app: AppModel, key: KeyEvent, now: u64, i: int)
    requires
        navigates(app),
        letter(key, 'k', false),
        app.selected < app.slots.len(),
    ensures
        !app.clears(key),
        ({
            let at = app.selected as int;
            let (after, reply) = app.pressed(key, now);
            &&& only_commands(reply)
            &&& after == (AppModel { slots: after.slots, ..app })
            &&& after.slots.len() == app.slots.len()
            &&& after.slots[at] == (StateModel {
                suppress_retry: app.slots[at].suppress_retry || app.slots[at].slot is Process,
                ..app.slots[at]
            })
            &&& 0 <= i < app.slots.len() && i != at ==> after.slots[i] == app.slots[i]
            &&& lives(app.slots[at]) ==> reply.commands == seq![ask_to_end(app.slots[at])]
            &&& !lives(app.slots[at]) ==> reply.commands == Seq::<Command>::empty()
        }),
{
    law_killing_asks_once(app.slots[app.selected as int]);
}

/// `r` restarts the selected process and no other: it is asked to end where it
/// lives, its watcher gives way to a fresh one that waits for it, and the slot
/// has a clean record.
pub proof fn law_r_restarts_one(app: AppModel, key: KeyEvent, now: u64, i: int)
    requires
        navigates(app),
        letter(key, 'r', false),
        app.selected < app.slots.len(),
    ensures
        !app.clears(key),
        ({
            let at = app.selected as int;
            let s = app.slots[at];
            let (after, reply) = app.pressed(key, now);
            let start = Command::StartWatcher {
                idx: app.selected,
                prior: if s.slot is Process {
                    Some(s.slot->Process_0.id)
                } else {
                    None
                },
            };
            &&& only_commands(reply)
            &&& after == (AppModel { slots: after.slots, ..app })
            &&& after.slots.len() == app.slots.len()
            &&& after.slots[at].slot is Waiting
            &&& after.slots[at].watching
            &&& !after.slots[at].suppress_retry && !after.slots[at].retries_exhausted
            &&& after.slots[at].diagnostics.len() == 0
            &&& 0 <= i < app.slots.len() && i != at ==> after.slots[i] == app.slots[i]
            &&& reply.commands.len() > 0 && reply.commands.last() == start
            &&& lives(s) ==> reply.commands[0] == ask_to_end(s)
            &&& s.watching ==> reply.commands.contains(Command::AbortWatcher { idx: app.selected })
            &&& reply.commands.len() == 1 + (if lives(s) {
                1int
            } else {
                0
            }) + (if s.watching {
                1int
            } else {
                0
            })
        }),
{
    let at = app.selected as int;
    let s = app.slots[at];
    let commands = app.pressed(key, now).1.commands;
    law_restart_ends_and_starts(s, at);
    if s.watching {
        assert(commands[commands.len() - 2] == (Command::AbortWatcher { idx: app.selected }));
    }
}

/// `^R` restarts every process, whichever tab is selected.
pub proof fn law_control_r_restarts_all(app: AppModel, key: KeyEvent, now: u64, i: int, c: Command)
    requires
        navigates(app),
        letter(key, 'r', true),
        0 <= i < app.slots.len(),
    ensures
        !app.clears(key),
        ({
            let s = app.slots[i];
            let (after, reply) = app.pressed(key, now);
            &&& only_commands(reply)
            &&& after == (AppModel { slots: after.slots, ..app })
            &&& after.slots.len() == app.slots.len()
            &&& after.slots[i].slot is Waiting && after.slots[i].watching
            &&& !after.slots[i].suppress_retry && !after.slots[i].retries_exhausted
            &&& lives(s) ==> reply.commands.contains(ask_to_end(s))
            &&& s.watching ==> reply.commands.contains(Command::AbortWatcher { idx: i as usize })
            &&& reply.commands.contains(
                Command::StartWatcher {
                    idx: i as usize,
                    prior: if s.slot is Process {
                        Some(s.slot->Process_0.id)
                    } else {
                        None
                    },
                },
            )
            &&& reply.commands.contains(c) ==> c is Terminate || c is AbortWatcher
                || c is StartWatcher
        }),
{
    law_restarting_all_reaches_all(app.slots, i, c);
}

/// `q` and `^C` quit. Where no process lives that is at once; else the shutdown
/// begins: every watcher is stopped, every process that lives is asked to end,
/// and so is the group of every one that has ended.
pub proof fn law_quitting_shuts_everything_down(app: AppModel, key: KeyEvent, now: u64, i: int)
    requires
        navigates(app),
        letter(key, 'q', false) || letter(key, 'c', true),
    ensures
        !app.clears(key),
        ({
            let (after, reply) = app.pressed(key, now);
            let idle = forall|j: int| 0 <= j < app.slots.len() ==> !lives(#[trigger] app.slots[j]);
            &&& only_commands(reply)
            &&& idle ==> after == (AppModel { should_quit: true, ..app }) && reply.commands.len()
                == 0
            &&& !idle ==> {
                &&& after == (AppModel {
                    shutting_down: true,
                    shutdown_started: Some(now),
                    slots: after.slots,
                    ..app
                })
                &&& after.slots.len() == app.slots.len()
                &&& 0 <= i < app.slots.len() ==> after.slots[i] == (StateModel {
                    suppress_retry: true,
                    watching: false,
                    ..app.slots[i]
                })
                &&& 0 <= i < app.slots.len() && lives(app.slots[i]) ==> reply.commands.contains(
                    ask_to_end(app.slots[i]),
                )
                &&& 0 <= i < app.slots.len() && app.slots[i].slot is Process && !lives(
                    app.slots[i],
                ) ==> reply.commands.contains(
                    Command::Term { pid: app.slots[i].slot->Process_0.pid },
                )
                &&& 0 <= i < app.slots.len() && app.slots[i].watching ==> reply.commands.contains(
                    Command::AbortWatcher { idx: i as usize },
                )
            }
        }),
{
    let idle = forall|j: int| 0 <= j < app.slots.len() ==> !lives(#[trigger] app.slots[j]);
    let still = forall|j: int| 0 <= j < app.slots.len() ==> !(#[trigger] app.slots[j]).runs();
    if idle {
        assert forall|j: int| 0 <= j < app.slots.len() implies !(#[trigger] app.slots[j]).runs() by {
            law_slots_run_and_finish(app.slots[j]);
            assert(!lives(app.slots[j]));
        }
    } else {
        let j = choose|j: int| 0 <= j < app.slots.len() && lives(#[trigger] app.slots[j]);
        law_slots_run_and_finish(app.slots[j]);
        assert(app.slots[j].runs());
        let a = commands_for(
            app.slots,
            |s: StateModel, k: int| s.abort_commands(k),
            app.slots.len() as int,
        );
        let b = commands_for(
            app.slots,
            |s: StateModel, k: int| s.shutdown_commands(),
            app.slots.len() as int,
        );
        if 0 <= i < app.slots.len() {
            let s = app.slots[i];
            if s.slot is Process {
                law_shutdown_reaches_every_group(app.slots, i);
                let c = if lives(s) {
                    ask_to_end(s)
                } else {
                    Command::Term { pid: s.slot->Process_0.pid }
                };
                let k = b.index_of(c);
                assert((a + b)[a.len() + k] == c);
            }
            if s.watching {
                law_shutdown_stops_watchers(app.slots, i);
                let c = Command::AbortWatcher { idx: i as usize };
                let k = a.index_of(c);
                assert((a + b)[k] == c);
            }
        }
    }
}

/// The arrows turn the tabs, one at a time and round and round.
pub proof fn law_arrows_turn_the_tabs(app: AppModel, key: KeyEvent, now: u64)
    requires
        navigates(app),
        app.selected < app.slots.len() <= usize::MAX,
        key.code == KeyCode::Left || key.code == KeyCode::Right,
    ensures
        !app.clears(key),
        app.pressed(key, now) == (
            AppModel {
                selected: ((app.selected + (if key.code == KeyCode::Right {
                    1int
                } else {
                    app.slots.len() - 1
                })) % (app.slots.len() as int)) as usize,
                ..app
            },
            no_reply(),
        ),
{
    let n = app.slots.len() as int;
    let s = app.selected as int;
    if key.code == KeyCode::Right {
        if s + 1 < n {
            vstd::arithmetic::div_mod::lemma_small_mod((s + 1) as nat, n as nat);
        } else {
            vstd::arithmetic::div_mod::lemma_mod_self_0(n);
        }
    } else {
        if s > 0 {
            vstd::arithmetic::div_mod::lemma_mod_add_multiples_vanish(s - 1, n);
            vstd::arithmetic::div_mod::lemma_small_mod((s - 1) as nat, n as nat);
            assert((n + (s - 1)) % n == s - 1);
        } else {
            vstd::arithmetic::div_mod::lemma_small_mod((n - 1) as nat, n as nat);
        }
    }
}

/// The keys that scroll move the view of the selected process and nothing else:
/// by one row, by ten, to the oldest row, or to the newest.
pub proof fn law_keys_scroll_the_view(app: AppModel, key: KeyEvent, now: u64, p: Process)
    requires
        navigates(app),
        app.selected < app.slots.len(),
        app.slots[app.selected as int].slot == SlotModel::Process(p),
        screen_offset(shown(p.output.terminal)) <= SCROLLBACK,
    ensures
        ({
            let at = screen_offset(shown(p.output.terminal)) as int;
            let (after, reply) = app.pressed(key, now);
            let moved = |offset: int|
                after == (AppModel {
                    slots: app.slots.update(
                        app.selected as int,
                        StateModel {
                            slot: SlotModel::Process(
                                Process {
                                    output: crate::output::Output {
                                        terminal: scrolled(p.output.terminal, offset as usize),
                                        ..p.output
                                    },
                                    ..p
                                },
                            ),
                            ..app.slots[app.selected as int]
                        },
                    ),
                    ..app
                }) && reply == no_reply();
            &&& key.code == KeyCode::Up ==> moved(at + 1)
            &&& key.code == KeyCode::PageUp ==> moved(at + 10)
            &&& key.code == KeyCode::Down ==> moved(if at >= 1 {
                at - 1
            } else {
                0
            })
            &&& key.code == KeyCode::PageDown ==> moved(if at >= 10 {
                at - 10
            } else {
                0
            })
            &&& key.code == KeyCode::End ==> moved(0)
            &&& key.code == KeyCode::Home ==> moved(usize::MAX as int / 2)
        }),
{
}

/// Enter hands the keys to the process, where there is one, and shows the newest
/// of its output.
pub proof fn law_enter_focuses(app: AppModel, key: KeyEvent, now: u64)
    requires
        navigates(app),
        key.code == KeyCode::Enter,
        app.selected < app.slots.len(),
    ensures
        ({
            let at = app.selected as int;
            let (after, reply) = app.pressed(key, now);
            &&& reply == no_reply()
            &&& !(app.slots[at].slot is Process) ==> after == app
            &&& app.slots[at].slot matches SlotModel::Process(p) ==> {
                &&& after == (AppModel { mode: Mode::Focus, slots: after.slots, ..app })
                &&& after.slots == app.slots.update(at, after.slots[at])
                &&& after.slots[at].slot matches SlotModel::Process(q) && q.output.terminal
                    == scrolled(p.output.terminal, 0) && q.output.raw == p.output.raw && q.pid
                    == p.pid
            }
        }),
{
    assert(app.selected < app.slots.len() ==> app.pressed(key, now).0.slots
        =~= app.slots.update(app.selected as int, app.pressed(key, now).0.slots[app.selected as int]));
}

/// A bare escape takes the keys back from the process, and nothing else happens.
pub proof fn law_escape_leaves_focus(app: AppModel, key: KeyEvent, now: u64)
    requires
        app.mode == Mode::Focus,
        !app.shutting_down,
        !app.help_visible,
        key.code == KeyCode::Esc,
        key.bare,
    ensures
        app.pressed(key, now) == (AppModel { mode: Mode::Nav, ..app }, no_reply()),
{
}

/// `w` turns the wrapping of the selected process on or off: without it the
/// terminal has a thousand columns, or as many as the display where that has
/// more. No other process is touched.
pub proof fn law_w_turns_wrapping(app: AppModel, key: KeyEvent, now: u64)
    requires
        navigates(app),
        letter(key, 'w', false),
        app.selected < app.slots.len(),
        app.wraps.len() == app.slots.len(),
    ensures
        ({
            let at = app.selected as int;
            let (after, reply) = app.pressed(key, now);
            let cols = if !app.wraps[at] || app.display_cols >= 1000 {
                app.display_cols
            } else {
                1000u16
            };
            &&& only_commands(reply)
            &&& after == (AppModel {
                wraps: app.wraps.update(at, !app.wraps[at]),
                slots: app.slots.update(at, after.slots[at]),
                ..app
            })
            &&& after.slots[at].rows == app.display_rows
            &&& after.slots[at].cols == cols
            &&& app.slots[at].slot is Process ==> reply.commands == seq![
                Command::Resize { idx: app.selected, rows: app.display_rows, cols },
            ]
            &&& !(app.slots[at].slot is Process) ==> reply.commands.len() == 0
        }),
{
    let at = app.selected as int;
    let (after, reply) = app.pressed(key, now);
    assert(after.slots =~= app.slots.update(at, after.slots[at]));
}

/// `y` asks for the path of the log to be copied, where there is one, and else
/// says that there is none; `h` shows the help from its top; `d` shows the
/// details from their top, without a search.
pub proof fn law_letters_show_and_copy(app: AppModel, key: KeyEvent, now: u64)
    requires
        navigates(app),
        app.selected < app.slots.len(),
    ensures
        ({
            let (after, reply) = app.pressed(key, now);
            &&& letter(key, 'y', false) ==> match app.slots[app.selected as int].log_path {
                Some(path) => after == app && reply == (ReplyModel {
                    commands: Seq::empty(),
                    input: None,
                    copy: Some(path),
                }),
                None => after == (AppModel {
                    notice: Some(("no log file (capture disabled)"@, now)),
                    ..app
                }) && reply == no_reply(),
            }
            &&& letter(key, 'h', false) ==> after == (AppModel {
                help_visible: true,
                help_scroll: 0,
                ..app
            }) && reply == no_reply()
            &&& letter(key, 'd', false) ==> {
                &&& after == (AppModel {
                    mode: Mode::Details,
                    details_scroll: 0,
                    notice: None,
                    details: after.details,
                    ..app
                })
                &&& after.details.query.len() == 0
                &&& after.details.matches.len() == 0
                &&& !after.details.editing && !after.details.active
                &&& reply == no_reply()
            }
        }),
{
}

/// `/` opens a search of the output that remembers where the view is, where
/// there is output; a search that is open is stepped through by `n` to the older
/// and by `N` to the newer matches, and closed by escape.
pub proof fn law_keys_search_the_output(app: AppModel, key: KeyEvent, now: u64)
    requires
        navigates(app),
        app.selected < app.slots.len(),
    ensures
        ({
            let s = app.slots[app.selected as int];
            let (after, reply) = app.pressed(key, now);
            &&& letter(key, '/', false) && s.slot is Process ==> {
                &&& after == (AppModel { log: after.log, ..app })
                &&& after.log.editing && after.log.active
                &&& after.log.query.len() == 0
                &&& after.log.matches.len() == 0
                &&& after.log.saved_scrollback == Some(
                    screen_offset(shown(s.slot->Process_0.output.terminal)),
                )
                &&& reply == no_reply()
            }
            &&& letter(key, '/', false) && !(s.slot is Process) ==> after == (AppModel {
                notice: Some(("no output to search"@, now)),
                ..app
            }) && reply == no_reply()
            &&& letter(key, 'n', false) && app.log.active ==> after == app.search_stepped(-1, now)
                && reply == no_reply()
            &&& letter(key, 'N', false) && app.log.active ==> after == app.search_stepped(1, now)
                && reply == no_reply()
            &&& key.code == KeyCode::Esc && app.log.active ==> {
                &&& after == (AppModel { log: after.log, ..app })
                &&& !after.log.active && !after.log.editing
                &&& after.log.query.len() == 0 && after.log.matches.len() == 0
                &&& reply == no_reply()
            }
            &&& key.code == KeyCode::Esc && !app.log.active ==> after == app && reply == no_reply()
        }),
{
}

/// No other key does anything while keys navigate.
pub proof fn law_other_keys_do_nothing(app: AppModel, key: KeyEvent, now: u64)
    requires
        navigates(app),
        match key.code {
            KeyCode::Char(c) => if key.ctrl {
                c != 'c' && c != 'r' && c != 'k'
            } else {
                c != 'q' && c != 'r' && c != 'k' && c != 'w' && c != 'y' && c != 'h' && c != 'd'
                    && c != '/' && c != 'c' && (app.log.active ==> c != 'n' && c != 'N')
            },
            KeyCode::Backspace => true,
            KeyCode::Other => true,
            _ => false,
        },
    ensures
        !app.clears(key),
        app.pressed(key, now) == (app, no_reply()),
{
}

/// `c` forgets the output of the selected process, only while keys navigate, and
/// touches no other.
pub proof fn law_c_clears_the_selected_output(app: AppModel, key: KeyEvent, after: AppModel, i: int)
    ensures
        app.clears(key) <==> navigates(app) && letter(key, 'c', false),
        display_cleared(app, after) && app.selected < app.slots.len() ==> {
            &&& after == (AppModel { slots: after.slots, ..app })
            &&& after.slots.len() == app.slots.len()
            &&& 0 <= i < app.slots.len() && i != app.selected ==> after.slots[i] == app.slots[i]
            &&& app.slots[app.selected as int].slot is Process ==> after.slots[app.selected as int].slot
                is Process && after.slots[app.selected as int].slot->Process_0.output.raw@.len()
                == 0
        },
{
}

/// While a query is typed, backspace takes its last letter, `^U` takes all of
/// them, enter keeps the search or drops it where the query is empty, and escape
/// drops it.
pub proof fn law_query_is_edited(app: AppModel, key: KeyEvent, now: u64)
    requires
        app.mode == Mode::Nav,
        app.log.editing,
        !app.help_visible,
        !app.shutting_down,
    ensures
        ({
            let (after, reply) = app.pressed(key, now);
            let query = app.log.query;
            &&& reply == no_reply()
            &&& key.code == KeyCode::Backspace ==> after.log.editing && after.log.query == (
            if query.len() == 0 {
                query
            } else {
                query.take(query.len() - 1)
            })
            &&& letter(key, 'u', true) ==> after.log.editing && after.log.query.len() == 0
            &&& key.code == KeyCode::Enter && query.len() > 0 ==> after == (AppModel {
                log: LogModel { editing: false, saved_scrollback: None, ..app.log },
                ..app
            })
            &&& key.code == KeyCode::Enter && query.len() == 0 ==> !after.log.active
                && !after.log.editing && after == (AppModel { log: after.log, ..app })
            &&& key.code == KeyCode::Esc ==> !after.log.active && !after.log.editing
                && after.log.query.len() == 0 && after.log.matches.len() == 0
        }),
{
    if app.log.query.len() > 0 {
        assert(app.log.query.drop_last() =~= app.log.query.take(app.log.query.len() - 1));
    }
}

/// The same while the query of the details is typed.
pub proof fn law_details_query_is_edited(app: AppModel, key: KeyEvent, now: u64)
    requires
        app.mode == Mode::Details,
        app.details.editing,
        !app.help_visible,
        !app.shutting_down,
    ensures
        ({
            let (after, reply) = app.pressed(key, now);
            let query = app.details.query;
            &&& reply == no_reply()
            &&& after == (AppModel {
                details: after.details,
                details_scroll: after.details_scroll,
                ..app
            })
            &&& key.code is Char && !key.ctrl ==> after.details.editing
                && after.details.query == query.push(key.code->Char_0)
            &&& key.code == KeyCode::Backspace ==> after.details.editing && after.details.query == (
            if query.len() == 0 {
                query
            } else {
                query.take(query.len() - 1)
            })
            &&& letter(key, 'u', true) ==> after.details.editing && after.details.query.len() == 0
            &&& key.code == KeyCode::Enter && query.len() > 0 ==> after == (AppModel {
                details: DetailsModel { editing: false, ..app.details },
                ..app
            })
            &&& (key.code == KeyCode::Enter && query.len() == 0) || key.code == KeyCode::Esc
                ==> !after.details.active && !after.details.editing && after.details.query.len()
                == 0 && after.details.matches.len() == 0
        }),
{
    if app.details.query.len() > 0 {
        assert(app.details.query.drop_last() =~= app.details.query.take(
            app.details.query.len() - 1,
        ));
    }
}

/// In the details, `d`, `q` and escape go back, escape only once no search is
/// open; `/` opens a search, `n` goes on in it and `N` back; the keys that scroll
/// move the text, by one line, by ten, or to its top.
pub proof fn law_details_keys(app: AppModel, key: KeyEvent, now: u64)
    requires
        app.mode == Mode::Details,
        !app.details.editing,
        !app.help_visible,
        !app.shutting_down,
    ensures
        !app.clears(key),
        ({
            let (after, reply) = app.pressed(key, now);
            let at = app.details_scroll as int;
            let back = AppModel { mode: Mode::Nav, ..app };
            &&& key.code == KeyCode::Char('d') || key.code == KeyCode::Char('q') ==> (after, reply)
                == (back, no_reply())
            &&& key.code == KeyCode::Esc && !app.details.active ==> (after, reply) == (
                back,
                no_reply(),
            )
            &&& key.code == KeyCode::Esc && app.details.active ==> {
                &&& after == (AppModel { details: after.details, ..app })
                &&& !after.details.active && after.details.query.len() == 0
                &&& reply == no_reply()
            }
            &&& key.code == KeyCode::Char('/') ==> {
                &&& after == (AppModel { details: after.details, ..app })
                &&& after.details.active && after.details.editing
                &&& after.details.query.len() == 0 && after.details.matches.len() == 0
                &&& reply == no_reply()
            }
            &&& key.code == KeyCode::Char('h') ==> (after, reply) == (
                AppModel { help_visible: true, help_scroll: 0, ..app },
                no_reply(),
            )
            &&& key.code == KeyCode::Char('n') && app.details.active ==> after
                == app.details_stepped(1)
            &&& key.code == KeyCode::Char('N') && app.details.active ==> after
                == app.details_stepped(-1)
            &&& key.code == KeyCode::Up ==> after == (AppModel {
                details_scroll: vstd::math::max(at - 1, 0) as u16,
                ..app
            })
            &&& key.code == KeyCode::Down ==> after == (AppModel {
                details_scroll: vstd::math::min(at + 1, 65535) as u16,
                ..app
            })
            &&& key.code == KeyCode::PageUp ==> after == (AppModel {
                details_scroll: vstd::math::max(at - 10, 0) as u16,
                ..app
            })
            &&& key.code == KeyCode::PageDown ==> after == (AppModel {
                details_scroll: vstd::math::min(at + 10, 65535) as u16,
                ..app
            })
            &&& key.code == KeyCode::Home ==> after == (AppModel { details_scroll: 0, ..app })
            &&& reply.commands.len() == 0 && reply.input is None
        }),
{
}

/// The help is closed by escape, `h` and `q`; the keys that scroll move it.
pub proof fn law_help_keys(app: AppModel, key: KeyEvent, now: u64)
    requires
        app.help_visible,
        !app.shutting_down,
    ensures
        ({
            let after = app.pressed(key, now).0;
            let at = app.help_scroll as int;
            let closes = key.code == KeyCode::Esc || key.code == KeyCode::Char('h') || key.code
                == KeyCode::Char('q');
            &&& closes ==> after == (AppModel { help_visible: false, ..app })
            &&& !closes ==> after.help_visible
            &&& key.code == KeyCode::Up ==> after.help_scroll == vstd::math::max(at - 1, 0)
            &&& key.code == KeyCode::Down ==> after.help_scroll == vstd::math::min(at + 1, 65535)
            &&& key.code == KeyCode::PageUp ==> after.help_scroll == vstd::math::max(at - 10, 0)
            &&& key.code == KeyCode::PageDown ==> after.help_scroll == vstd::math::min(
                at + 10,
                65535,
            )
            &&& key.code == KeyCode::Home ==> after.help_scroll == 0
            &&& key.code is Char || key.code == KeyCode::Enter || key.code == KeyCode::End
                ==> after.help_scroll == app.help_scroll
        }),
{
}

/// While everything is shut down, `q` and `^C` force the end, and no other key
/// does anything.
pub proof fn law_shutdown_keys(app: AppModel, key: KeyEvent, now: u64)
    requires
        app.shutting_down,
    ensures
        app.pressed(key, now) == (
            if letter(key, 'q', false) || letter(key, 'c', true) {
                AppModel { should_quit: true, ..app }
            } else {
                app
            },
            no_reply(),
        ),
{
}

/// A display of another size gives every process a terminal that fits: as many
/// rows, and as many columns where lines are wrapped, and else at least a
/// thousand.
pub proof fn law_displays_are_fitted(app: AppModel, i: int)
    requires
        0 <= i < app.slots.len() <= usize::MAX,
        app.wraps.len() == app.slots.len(),
    ensures
        ({
            let cols = if app.wraps[i] || app.display_cols >= 1000 {
                app.display_cols
            } else {
                1000u16
            };
            &&& app.fitted(i).rows == app.display_rows
            &&& app.fitted(i).cols == cols
            &&& app.slots[i].slot is Process ==> fit_commands_upto(
                app,
                app.slots.len() as int,
            ).contains(Command::Resize { idx: i as usize, rows: app.display_rows, cols })
        }),
{
    if app.slots[i].slot is Process {
        let cols = terminal_cols(app.wraps[i], app.display_cols);
        assert(app.fit_commands(i)[0] == (Command::Resize {
            idx: i as usize,
            rows: app.display_rows,
            cols,
        }));
        lemma_fit_commands_hold(
            app,
            app.slots.len() as int,
            i,
            Command::Resize { idx: i as usize, rows: app.display_rows, cols },
        );
    }
}

proof fn lemma_fit_commands_hold(app: AppModel, n: int, i: int, c: Command)
    requires
        0 <= i < n <= app.slots.len(),
        app.fit_commands(i).contains(c),
    ensures
        fit_commands_upto(app, n).contains(c),
    decreases n,
{
    let before = fit_commands_upto(app, n - 1);
    let here = app.fit_commands(n - 1);
    if i == n - 1 {
        let k = here.index_of(c);
        assert((before + here)[before.len() + k] == c);
    } else {
        lemma_fit_commands_hold(app, n - 1, i, c);
        let k = before.index_of(c);
        assert((before + here)[k] == c);
    }
}

/// A jump brings the match at hand into view: the output is scrolled so that its
/// row is on the screen, and nothing else changes.
pub proof fn law_jumps_show_the_match(app: AppModel, p: Process)
    requires
        app.selected < app.slots.len(),
        app.slots[app.selected as int].slot == SlotModel::Process(p),
        app.log.current < app.log.matches.len(),
    ensures
        ({
            let rows = screen_size(shown(p.output.terminal)).0 as int;
            let row = app.log.matches[app.log.current as int].row as int;
            let after = app.jumped();
            after == app.scrolled_to(
                centered(app.log.total_at_compute as int, rows, row) as usize,
            )
        }),
        !(app.log.current < app.log.matches.len()) ==> app.jumped() == app,
{
}

/// A jump in the details puts the line of the match in the middle of the rows,
/// as far as it goes.
pub proof fn law_details_jump_to_the_line(app: AppModel)
    requires
        app.details.current < app.details.matches.len(),
    ensures
        ({
            let line = app.details.matches[app.details.current as int].0 as int;
            let want = line - app.display_rows as int / 2;
            app.details_jumped() == (AppModel {
                details_scroll: vstd::math::clip(vstd::math::min(want, 65535)) as u16,
                ..app
            })
        }),
{
}

/// The search of the output follows it: where no search is on, or nothing
/// changed, nothing happens; where the query, the process or the size changed it
/// is made again at once, and where only output came, once a quarter of a second
/// has passed since the last time.
pub proof fn law_search_follows_the_output(app: AppModel, now: u64)
    ensures
        ({
            let after = app.refreshed(now);
            let on = app.log.active && app.has_process();
            &&& !on ==> after == app
            &&& on ==> {
                let p = app.slots[app.selected as int].slot->Process_0;
                let key = app.log.cache_key;
                let same = key is Some && key->0.process == p.id && key->0.query == app.log.query
                    && (key->0.rows, key->0.cols) == screen_size(shown(p.output.terminal));
                let current = same && key->0.generation == p.output.generation;
                let soon = app.log.last_recompute matches Some(at) && now - at < 250;
                let again = AppModel {
                    log: searched_again(app.log, p.id, p.output, now),
                    ..app
                };
                &&& !same ==> after == again
                &&& current ==> after == app
                &&& same && !current && soon ==> after == app
                &&& same && !current && !soon ==> after == again
            }
        }),
{
}

/// A terminal has at least a thousand columns where lines are not wrapped, and
/// those of the display where they are.
pub proof fn law_unwrapped_terminals_are_wide(wrap: bool, cols: u16)
    ensures
        wrap ==> terminal_cols(wrap, cols) == cols,
        !wrap ==> terminal_cols(wrap, cols) == vstd::math::max(cols as int, 1000),
{
}

/// Whether matches are pieces of lines, and no two in a line overlap.
pub open spec fn matches_fit(lines: Seq<Seq<SpanModel>>, matches: Seq<LineMatch>) -> bool {
    &&& forall|i: int|
        0 <= i < matches.len() ==> (#[trigger] matches[i]).0 < lines.len() && marks_fit(
            seq![(matches[i].1, true)],
            flat(lines[matches[i].0 as int]),
        )
    &&& forall|i: int, j: int|
        0 <= i < j < matches.len() && (#[trigger] matches[i]).0 == (#[trigger] matches[j]).0
            ==> matches[i].1.1 <= matches[j].1.0
}

/// Marking matches changes how lines look, not what they say.
pub proof fn law_marked_lines_say_the_same(
    lines: Seq<Seq<SpanModel>>,
    matches: Seq<LineMatch>,
    current: usize,
    n: int,
)
    requires
        0 <= n <= matches.len(),
        matches_fit(lines, matches),
    ensures
        lines_marked(lines, matches, current, n).len() == lines.len(),
        forall|l: int|
            0 <= l < lines.len() ==> flat(#[trigger] lines_marked(lines, matches, current, n)[l])
                == flat(lines[l]),
    decreases n,
{
    if n > 0 {
        law_marked_lines_say_the_same(lines, matches, current, n - 1);
        let before = lines_marked(lines, matches, current, n - 1);
        let (line, range) = matches[n - 1];
        let marks = seq![(range, current == n - 1)];
        assert(marks_fit(seq![(matches[n - 1].1, true)], flat(lines[line as int])));
        assert(flat(before[line as int]) == flat(lines[line as int]));
        assert(seq![(matches[n - 1].1, true)][0].0 == range);
        assert(marks_fit(marks, flat(before[line as int])));
        crate::highlight::law_marking_keeps_the_text(before[line as int], marks);
        let after = lines_marked(lines, matches, current, n);
        assert forall|l: int| 0 <= l < lines.len() implies flat(#[trigger] after[l]) == flat(
            lines[l],
        ) by {
            assert(flat(before[l]) == flat(lines[l]));
        }
    }
}

/// Each byte of a match stands out, the match at hand in black on yellow and any
/// other in white on dark gray; every other byte looks as it did.
pub proof fn law_matches_stand_out_in_lines(
    lines: Seq<Seq<SpanModel>>,
    matches: Seq<LineMatch>,
    current: usize,
    n: int,
    l: int,
    p: int,
)
    requires
        0 <= n <= matches.len(),
        matches_fit(lines, matches),
        0 <= l < lines.len(),
        0 <= p < byte_len(flat(lines[l])),
    ensures
        ({
            let look = crate::highlight::painted(lines_marked(lines, matches, current, n)[l])[p];
            &&& forall|i: int|
                0 <= i < n && (#[trigger] matches[i]).0 == l && matches[i].1.0 <= p
                    < matches[i].1.1 ==> look.fg == Some(
                    if i == current {
                        crate::style::Color::Black
                    } else {
                        crate::style::Color::White
                    },
                ) && look.bg == Some(
                    if i == current {
                        crate::style::Color::Yellow
                    } else {
                        crate::style::Color::DarkGray
                    },
                )
            &&& (forall|i: int|
                0 <= i < n ==> !((#[trigger] matches[i]).0 == l && matches[i].1.0 <= p
                    < matches[i].1.1)) ==> look == crate::highlight::painted(lines[l])[p]
        }),
    decreases n,
{
    if n > 0 {
        law_marked_lines_say_the_same(lines, matches, current, n - 1);
        law_matches_stand_out_in_lines(lines, matches, current, n - 1, l, p);
        let before = lines_marked(lines, matches, current, n - 1);
        let (line, range) = matches[n - 1];
        if line == l {
            let marks = seq![(range, current == n - 1)];
            assert(marks_fit(seq![(matches[n - 1].1, true)], flat(lines[l])));
            assert(flat(before[l]) == flat(lines[l]));
            assert(seq![(matches[n - 1].1, true)][0].0 == range);
            assert(marks_fit(marks, flat(before[l])));
            crate::highlight::law_marked_bytes_stand_out(before[l], marks, p);
            assert(marks[0].0 == range);
            if range.0 <= p < range.1 {
                assert forall|i: int|
                    0 <= i < n && (#[trigger] matches[i]).0 == l && matches[i].1.0 <= p
                        < matches[i].1.1 implies i == n - 1 by {
                    if i < n - 1 {
                        assert(matches[i].1.1 <= matches[n - 1].1.0);
                    }
                }
            }
        }
    }
}

/// The state of the screen as a value is what the fields say.
pub proof fn law_screen_is_seen_as_it_is(app: App)
    ensures
        app@.slots == app.mgr@,
        app@.configs.len() == app.mgr.configs@.len(),
        app@.selected == app.selected,
        app@.mode == app.mode,
        app@.should_quit == app.should_quit,
        app@.shutting_down == app.shutting_down,
        app@.shutdown_started == app.shutdown_started,
        app@.wraps == app.wraps@,
        app@.help_visible == app.help_visible,
        app@.details_scroll == app.details_scroll,
        app@.help_scroll == app.help_scroll,
        app@.log.editing == app.log_search.editing,
        app@.log.active == app.log_search.active,
        app@.log.query == app.log_search.query@,
        app@.log.matches == app.log_search.matches@,
        app@.log.current == app.log_search.current,
        app@.log.saved_scrollback == app.log_search.saved_scrollback,
        app@.details.editing == app.details_search.editing,
        app@.details.active == app.details_search.active,
        app@.details.query == app.details_search.query@,
        app@.details.matches == app.details_search.matches@,
        app@.details.current == app.details_search.current,
{
}

} // verus!
