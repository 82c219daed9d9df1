//! The command line, and the sizes that follow from the layout of the screen.

use vstd::prelude::*;
use vstd::string::StringExecFns;

use crate::config::locate;
#[allow(unused_imports)]
use crate::config::located;
#[allow(unused_imports)]
use crate::terminal::fair_size;
use crate::terminal::{LEAST_COLS, MOST_COLS};
#[allow(unused_imports)]
use crate::text::{split, texts, trimmed};
use crate::text::{chars_of, same_text, split_text, text_between, trim_range};

verus! {

// ---- sizes ----

/// Rows that are not for output: the tabs, the borders and the status line.
pub const UI_CHROME_ROWS: u16 = 6;

/// Columns that are not for output: the borders.
pub const UI_CHROME_COLS: u16 = 2;

/// The least rows and columns that are left for output.
pub const MIN_PTY_ROWS: u16 = 2;

pub const MIN_PTY_COLS: u16 = 2;

/// What is left of a length, but never less than a minimum.
pub open spec fn left_of(length: int, taken: int, least: int) -> int {
    if length - taken >= least {
        length - taken
    } else {
        least
    }
}

/// The rows and columns for output on a screen of some width and height.
pub fn body_inner_size(width: u16, height: u16) -> (size: (u16, u16))
    ensures
        size.0 == left_of(height as int, UI_CHROME_ROWS as int, MIN_PTY_ROWS as int),
        size.1 == left_of(width as int, UI_CHROME_COLS as int, MIN_PTY_COLS as int),
        size.0 >= MIN_PTY_ROWS,
        size.1 >= MIN_PTY_COLS,
{
    let rows: u16 = height.saturating_sub(UI_CHROME_ROWS);
    let cols: u16 = width.saturating_sub(UI_CHROME_COLS);
    (
        if rows < MIN_PTY_ROWS {
            MIN_PTY_ROWS
        } else {
            rows
        },
        if cols < MIN_PTY_COLS {
            MIN_PTY_COLS
        } else {
            cols
        },
    )
}

/// A number of columns that a terminal can have, as near as can be.
pub open spec fn fair_cols(cols: u16) -> u16 {
    if cols < LEAST_COLS {
        LEAST_COLS
    } else if cols > MOST_COLS {
        MOST_COLS
    } else {
        cols
    }
}

/// The size of the terminals for output on a screen of some width and height:
/// what is left for output, where a terminal can have that size. Where it
/// cannot, the terminal gets the nearest number of columns that it can have.
pub fn display_size(width: u16, height: u16) -> (size: (u16, u16))
    ensures
        size.0 == left_of(height as int, UI_CHROME_ROWS as int, MIN_PTY_ROWS as int),
        size.1 == fair_cols(
            left_of(width as int, UI_CHROME_COLS as int, MIN_PTY_COLS as int) as u16,
        ),
        fair_size(size.0, size.1),
        ({
            let rows = left_of(height as int, UI_CHROME_ROWS as int, MIN_PTY_ROWS as int) as u16;
            let cols = left_of(width as int, UI_CHROME_COLS as int, MIN_PTY_COLS as int) as u16;
            fair_size(rows, cols) ==> size == (rows, cols)
        }),
{
    let (rows, cols) = body_inner_size(width, height);
    if cols < LEAST_COLS {
        (rows, LEAST_COLS)
    } else if cols > MOST_COLS {
        (rows, MOST_COLS)
    } else {
        (rows, cols)
    }
}

// ---- directories ----

/// The directory for logs: under the home directory where that is known, else
/// under the one for temporary files.
pub open spec fn log_home(home: Option<Seq<char>>, temp: Seq<char>, macos: bool) -> Seq<char> {
    located(
        match home {
            Some(dir) => located(
                dir,
                if macos {
                    "Library/Logs"@
                } else {
                    ".local/share"@
                },
            ),
            None => temp,
        },
        "rumor"@,
    )
}

/// The directory for logs.
pub fn rumor_dir(home: Option<&str>, temp: &str, macos: bool) -> (dir: String)
    ensures
        dir@ == log_home(
            match home {
                Some(h) => Some(h@),
                None => None,
            },
            temp@,
            macos,
        ),
{
    let base = match home {
        Some(h) => locate(
            h,
            if macos {
                "Library/Logs"
            } else {
                ".local/share"
            },
        ),
        None => temp.to_owned(),
    };
    locate(base.as_str(), "rumor")
}

// ---- arguments ----

/// The configuration that is used where none is named.
pub const DEFAULT_CONFIG: &'static str = "rumor.json";

/// The command line, taken apart.
#[derive(Debug, PartialEq)]
pub struct CliArgs {
    pub config_path: String,
    /// Run the processes with one of these tags and what they depend on; all
    /// processes where there is none.
    pub tags: Vec<String>,
    /// Write all output to one stream.
    pub raw: bool,
    /// Write the output of these processes; of all where there is none.
    pub only: Vec<String>,
    /// Write the output with its escape sequences.
    pub color: bool,
}

/// A command line as far as it was read.
pub struct CliModel {
    pub config_path: Option<Seq<char>>,
    pub tags: Seq<Seq<char>>,
    pub raw: bool,
    pub only: Seq<Seq<char>>,
    pub color: bool,
}

impl View for CliArgs {
    type V = CliModel;

    open spec fn view(&self) -> CliModel {
        CliModel {
            config_path: Some(self.config_path@),
            tags: texts(self.tags@),
            raw: self.raw,
            only: texts(self.only@),
            color: self.color,
        }
    }
}

/// Whether an argument is a flag.
pub open spec fn is_flag(arg: Seq<char>) -> bool {
    arg.len() > 0 && arg[0] == '-'
}

/// The parts of a list that are not blank, without the white space around them.
pub open spec fn kept(parts: Seq<Seq<char>>) -> Seq<Seq<char>>
    decreases parts.len(),
{
    if parts.len() == 0 {
        Seq::empty()
    } else {
        let last = trimmed(parts.last());
        if last.len() == 0 {
            kept(parts.drop_last())
        } else {
            kept(parts.drop_last()).push(last)
        }
    }
}

/// The values in one argument, between its commas.
pub open spec fn values_in(arg: Seq<char>) -> Seq<Seq<char>> {
    kept(split(arg, ','))
}

/// Where the arguments from `i` on that are no flags end.
pub open spec fn list_end(args: Seq<Seq<char>>, i: int) -> int
    decreases args.len() - i,
{
    if i >= args.len() || is_flag(args[i]) {
        i
    } else {
        list_end(args, i + 1)
    }
}

/// The values in the arguments `i..j`.
pub open spec fn values_of(args: Seq<Seq<char>>, i: int, j: int) -> Seq<Seq<char>>
    decreases j - i,
{
    if j <= i {
        Seq::empty()
    } else {
        values_of(args, i, j - 1) + values_in(args[j - 1])
    }
}

/// The values that follow a flag at `i`.
pub open spec fn listed(args: Seq<Seq<char>>, i: int) -> Seq<Seq<char>> {
    values_of(args, i + 1, list_end(args, i + 1))
}

/// Read what stands at `i`: where to go on and what is known then, or `None`
/// where it does not belong there.
pub open spec fn read_at(args: Seq<Seq<char>>, i: int, known: CliModel) -> Option<(int, CliModel)> {
    let arg = args[i];
    if arg == "-t"@ || arg == "--tags"@ {
        if listed(args, i).len() == 0 {
            None
        } else {
            Some(
                (
                    list_end(args, i + 1),
                    CliModel { tags: known.tags + listed(args, i), ..known },
                ),
            )
        }
    } else if arg == "--only"@ {
        if listed(args, i).len() == 0 {
            None
        } else {
            Some(
                (
                    list_end(args, i + 1),
                    CliModel { only: known.only + listed(args, i), ..known },
                ),
            )
        }
    } else if arg == "--raw"@ {
        Some((i + 1, CliModel { raw: true, ..known }))
    } else if arg == "--color"@ {
        Some((i + 1, CliModel { color: true, ..known }))
    } else if is_flag(arg) || known.config_path is Some {
        None
    } else {
        Some((i + 1, CliModel { config_path: Some(arg), ..known }))
    }
}

/// All that the arguments from `i` on say.
pub open spec fn read_from(args: Seq<Seq<char>>, i: int, known: CliModel) -> Option<CliModel>
    decreases args.len() - i,
    via read_from_decreases
{
    if i >= args.len() {
        Some(known)
    } else {
        match read_at(args, i, known) {
            Some((next, more)) => read_from(args, next, more),
            None => None,
        }
    }
}

#[via_fn]
proof fn read_from_decreases(args: Seq<Seq<char>>, i: int, known: CliModel) {
    if i < args.len() {
        lemma_list_end(args, i + 1);
    }
}

proof fn lemma_list_end(args: Seq<Seq<char>>, i: int)
    requires
        i <= args.len(),
    ensures
        i <= list_end(args, i) <= args.len(),
    decreases args.len() - i,
{
    if i < args.len() && !is_flag(args[i]) {
        lemma_list_end(args, i + 1);
    }
}

/// A command line of which nothing was read.
pub open spec fn nothing_read() -> CliModel {
    CliModel {
        config_path: None,
        tags: Seq::empty(),
        raw: false,
        only: Seq::empty(),
        color: false,
    }
}

/// What a command line asks for. A filter on the output or its colours need the
/// output to go to one stream, and without a path there has to be a
/// configuration in the usual place.
pub open spec fn understood(args: Seq<Seq<char>>, default_exists: bool) -> Option<CliModel> {
    match read_from(args, 1, nothing_read()) {
        Some(all) => if !all.raw && (all.only.len() > 0 || all.color) {
            None
        } else if all.config_path is Some {
            Some(all)
        } else if default_exists {
            Some(CliModel { config_path: Some(DEFAULT_CONFIG@), ..all })
        } else {
            None
        },
        None => None,
    }
}

fn starts_with_dash(arg: &str) -> (yes: bool)
    ensures
        yes == is_flag(arg@),
{
    let chars = chars_of(arg);
    chars.len() > 0 && chars[0] == '-'
}

fn collect_values(arg: &str, out: &mut Vec<String>)
    ensures
        texts(final(out)@) == texts(old(out)@) + values_in(arg@),
{
    let parts = split_text(arg, ',');
    let ghost before = texts(out@);
    let ghost all = texts(parts@);
    let mut i: usize = 0;
    assert(before + kept(all.take(0)) =~= before);
    while i < parts.len()
        invariant
            i <= parts@.len(),
            all == texts(parts@),
            texts(out@) == before + kept(all.take(i as int)),
        decreases parts@.len() - i,
    {
        let chars = chars_of(parts[i].as_str());
        let (a, b) = trim_range(&chars, 0, chars.len());
        assert(chars@.subrange(0, chars@.len() as int) =~= all[i as int]);
        assert(all.take(i + 1).drop_last() =~= all.take(i as int));
        assert(all.take(i + 1).last() == all[i as int]);
        let ghost now = texts(out@);
        if a < b {
            let value = text_between(&chars, a, b);
            out.push(value);
            assert(texts(out@) =~= now.push(value@));
        }
        assert(texts(out@) =~= before + kept(all.take(i + 1)));
        i = i + 1;
    }
    assert(all.take(all.len() as int) =~= all);
}

/// Collect the values that follow a flag, up to the next flag, and step past
/// them. Says how many there were; a flag without any is a mistake.
pub fn collect_list(args: &[String], i: &mut usize, out: &mut Vec<String>) -> (collected: usize)
    requires
        *old(i) < args@.len(),
    ensures
        *final(i) == list_end(texts(args@), *old(i) + 1),
        *old(i) < *final(i) <= args@.len(),
        texts(final(out)@) == texts(old(out)@) + listed(texts(args@), *old(i) as int),
        collected == listed(texts(args@), *old(i) as int).len(),
{
    let ghost all = texts(args@);
    let ghost at = *i as int;
    let ghost said = texts(out@);
    let before = out.len();
    assert(said.len() == before);
    let n = args.len();
    assert(*i < n);
    *i = *i + 1;
    assert(said + values_of(all, at + 1, at + 1) =~= said);
    while *i < args.len() && !starts_with_dash(args[*i].as_str())
        invariant
            at < *i <= args@.len(),
            all == texts(args@),
            list_end(all, at + 1) == list_end(all, *i as int),
            texts(out@) == said + values_of(all, at + 1, *i as int),
        decreases args@.len() - *i,
    {
        assert(all[*i as int] == args@[*i as int]@);
        collect_values(args[*i].as_str(), out);
        assert(texts(out@) =~= said + values_of(all, at + 1, *i + 1));
        *i = *i + 1;
    }
    assert(list_end(all, *i as int) == *i) by {
        if *i < args@.len() {
            assert(all[*i as int] == args@[*i as int]@);
        }
    }
    assert(texts(out@).len() == out@.len());
    out.len() - before
}

/// Take the command line apart; `default_exists` says whether there is a
/// configuration in the usual place. `None` where it makes no sense.
pub fn parse_args(args: &[String], default_exists: bool) -> (parsed: Option<CliArgs>)
    ensures
        match parsed {
            Some(cli) => understood(texts(args@), default_exists) == Some(cli@),
            None => understood(texts(args@), default_exists) is None,
        },
{
    let ghost all = texts(args@);
    let mut config_path: Option<String> = None;
    let mut tags: Vec<String> = Vec::new();
    let mut only: Vec<String> = Vec::new();
    let mut raw = false;
    let mut color = false;
    let ghost mut known = nothing_read();
    assert(texts(tags@) =~= Seq::<Seq<char>>::empty());
    assert(texts(only@) =~= Seq::<Seq<char>>::empty());
    let mut i: usize = 1;
    while i < args.len()
        invariant
            1 <= i,
            i == 1 || i <= args@.len(),
            all == texts(args@),
            known.tags == texts(tags@),
            known.only == texts(only@),
            known.raw == raw,
            known.color == color,
            known.config_path == (match config_path {
                Some(p) => Some(p@),
                None => None,
            }),
            read_from(all, i as int, known) == read_from(all, 1, nothing_read()),
        decreases args@.len() - i,
    {
        let arg = &args[i];
        assert(arg@ == all[i as int]);
        let ghost at = i as int;
        let ghost before = known;
        if same_text(arg.as_str(), "-t") || same_text(arg.as_str(), "--tags") {
            let n = collect_list(args, &mut i, &mut tags);
            if n == 0 {
                return None;
            }
            proof {
                known = CliModel { tags: texts(tags@), ..known };
            }
        } else if same_text(arg.as_str(), "--only") {
            let n = collect_list(args, &mut i, &mut only);
            if n == 0 {
                return None;
            }
            proof {
                known = CliModel { only: texts(only@), ..known };
            }
        } else if same_text(arg.as_str(), "--raw") {
            raw = true;
            i = i + 1;
            proof {
                known = CliModel { raw: true, ..known };
            }
        } else if same_text(arg.as_str(), "--color") {
            color = true;
            i = i + 1;
            proof {
                known = CliModel { color: true, ..known };
            }
        } else if starts_with_dash(arg.as_str()) {
            return None;
        } else if config_path.is_none() {
            config_path = Some(arg.clone());
            i = i + 1;
            proof {
                known = CliModel { config_path: Some(all[at]), ..known };
            }
        } else {
            return None;
        }
        assert(read_at(all, at, before) == Some((i as int, known)));
    }
    if !raw && (only.len() > 0 || color) {
        assert(texts(only@).len() == only@.len());
        return None;
    }
    assert(texts(only@).len() == only@.len());
    let config_path = match config_path {
        Some(p) => p,
        None => if default_exists {
            DEFAULT_CONFIG.to_owned()
        } else {
            return None;
        },
    };
    Some(CliArgs { config_path, tags, raw, only, color })
}

// ---- commands ----

/// What the program is to do.
pub enum Invocation {
    /// Run the processes.
    Run(CliArgs),
    /// Say how the program is used, as the arguments make no sense.
    Usage,
    /// Say how the program is used, as was asked for.
    Help,
    /// List the topics of the documentation.
    DocsIndex,
    /// Print the guide for agents.
    AgentGuide,
    /// List the topics of the documentation, as there is no such topic.
    DocsUsage,
    /// Update the program.
    Update,
}

/// What the program is to do.
pub fn invocation(args: &[String], default_exists: bool) -> (what: Invocation)
    ensures
        ({
            let all = texts(args@);
            if all.len() > 1 && all[1] == "docs"@ {
                if all.len() == 2 {
                    what is DocsIndex
                } else if all.len() == 3 && (all[2] == "--agent"@ || all[2] == "-a"@) {
                    what is AgentGuide
                } else {
                    what is DocsUsage
                }
            } else if all.len() > 1 && (all[1] == "--help"@ || all[1] == "-h"@) {
                what is Help
            } else if all.len() == 2 && all[1] == "update"@ {
                what is Update
            } else {
                match understood(all, default_exists) {
                    Some(cli) => match what {
                        Invocation::Run(run) => run@ == cli,
                        _ => false,
                    },
                    None => what is Usage,
                }
            }
        }),
{
    let ghost all = texts(args@);
    if args.len() > 1 {
        let first = args[1].as_str();
        assert(all[1] == first@);
        if same_text(first, "docs") {
            if args.len() == 2 {
                return Invocation::DocsIndex;
            }
            let flag = args[2].as_str();
            assert(all[2] == flag@);
            if args.len() == 3 && (same_text(flag, "--agent") || same_text(flag, "-a")) {
                return Invocation::AgentGuide;
            }
            return Invocation::DocsUsage;
        }
        if same_text(first, "--help") || same_text(first, "-h") {
            return Invocation::Help;
        }
        if args.len() == 2 && same_text(first, "update") {
            return Invocation::Update;
        }
    }
    match parse_args(args, default_exists) {
        Some(cli) => Invocation::Run(cli),
        None => Invocation::Usage,
    }
}

// ---- what holds of every command line ----

/// A comma separates values just as a blank between two arguments does.
pub proof fn law_commas_separate_values(a: Seq<char>, b: Seq<char>)
    ensures
        values_in(a + seq![','] + b) == values_in(a) + values_in(b),
{
    lemma_split_apart(a, b);
    lemma_kept_apart(split(a, ','), split(b, ','));
}

proof fn lemma_split_apart(a: Seq<char>, b: Seq<char>)
    ensures
        split(a + seq![','] + b, ',') == split(a, ',') + split(b, ','),
        split(b, ',').len() > 0,
    decreases b.len(),
{
    let all = a + seq![','] + b;
    if b.len() == 0 {
        assert(all.drop_last() =~= a);
        assert(split(all, ',') =~= split(a, ',') + split(b, ','));
    } else {
        lemma_split_apart(a, b.drop_last());
        assert(all.drop_last() =~= a + seq![','] + b.drop_last());
        assert(all.last() == b.last());
        assert(split(all, ',') =~= split(a, ',') + split(b, ','));
    }
}

proof fn lemma_kept_apart(x: Seq<Seq<char>>, y: Seq<Seq<char>>)
    ensures
        kept(x + y) == kept(x) + kept(y),
    decreases y.len(),
{
    if y.len() == 0 {
        assert(x + y =~= x);
        assert(kept(x) + kept(y) =~= kept(x));
    } else {
        lemma_kept_apart(x, y.drop_last());
        assert((x + y).drop_last() =~= x + y.drop_last());
        assert(kept(x + y) =~= kept(x) + kept(y));
    }
}

/// Values are never blank and have no white space around them.
pub proof fn law_values_are_not_blank(arg: Seq<char>, i: int)
    requires
        0 <= i < values_in(arg).len(),
    ensures
        values_in(arg)[i].len() > 0,
        !crate::text::is_white(values_in(arg)[i][0]),
        !crate::text::is_white(values_in(arg)[i].last()),
{
    lemma_kept_not_blank(split(arg, ','), i);
}

proof fn lemma_kept_not_blank(parts: Seq<Seq<char>>, i: int)
    requires
        0 <= i < kept(parts).len(),
    ensures
        kept(parts)[i].len() > 0,
        !crate::text::is_white(kept(parts)[i][0]),
        !crate::text::is_white(kept(parts)[i].last()),
    decreases parts.len(),
{
    if parts.len() > 0 {
        lemma_trimmed_ends(parts.last());
        if i < kept(parts.drop_last()).len() {
            lemma_kept_not_blank(parts.drop_last(), i);
        }
    }
}

proof fn lemma_trimmed_ends(s: Seq<char>)
    ensures
        trimmed(s).len() > 0 ==> !crate::text::is_white(trimmed(s)[0]) && !crate::text::is_white(
            trimmed(s).last(),
        ),
    decreases s.len(),
{
    if s.len() > 0 {
        if crate::text::is_white(s[0]) {
            lemma_trimmed_ends(s.drop_first());
        } else if crate::text::is_white(s.last()) {
            lemma_trimmed_ends(s.drop_last());
        }
    }
}

/// Without the one stream there is neither a filter nor a wish for colours.
pub proof fn law_filters_need_raw(args: Seq<Seq<char>>, default_exists: bool)
    ensures
        match understood(args, default_exists) {
            Some(cli) => cli.raw || (cli.only.len() == 0 && !cli.color),
            None => true,
        },
        match understood(args, default_exists) {
            Some(cli) => cli.config_path is Some,
            None => true,
        },
{
}

/// What is listed after a flag: a value alone is kept without the white space
/// around it, unless it is blank.
pub proof fn law_single_values_are_trimmed(arg: Seq<char>)
    requires
        forall|i: int| 0 <= i < arg.len() ==> #[trigger] arg[i] != ',',
    ensures
        trimmed(arg).len() > 0 ==> values_in(arg) == seq![trimmed(arg)],
        trimmed(arg).len() == 0 ==> values_in(arg) == Seq::<Seq<char>>::empty(),
{
    lemma_split_alone(arg);
    let parts = seq![arg];
    assert(parts.drop_last() =~= Seq::<Seq<char>>::empty());
    assert(kept(Seq::<Seq<char>>::empty()) =~= Seq::<Seq<char>>::empty());
    if trimmed(arg).len() > 0 {
        assert(kept(parts) =~= seq![trimmed(arg)]);
    }
}

proof fn lemma_split_alone(arg: Seq<char>)
    requires
        forall|i: int| 0 <= i < arg.len() ==> #[trigger] arg[i] != ',',
    ensures
        split(arg, ',') == seq![arg],
    decreases arg.len(),
{
    if arg.len() == 0 {
        assert(arg =~= Seq::<char>::empty());
        assert(split(arg, ',') =~= seq![arg]);
    } else {
        let init = arg.drop_last();
        assert forall|i: int| 0 <= i < init.len() implies #[trigger] init[i] != ',' by {
            assert(arg[i] != ',');
        }
        lemma_split_alone(init);
        assert(arg[arg.len() - 1] != ',');
        assert(init.push(arg.last()) =~= arg);
        assert(split(arg, ',') =~= seq![arg]);
    }
}

/// A list goes on up to the next argument that starts with a dash, or to the end.
pub proof fn law_lists_end_at_the_next_flag(args: Seq<Seq<char>>, i: int)
    requires
        0 <= i <= args.len(),
    ensures
        i <= list_end(args, i) <= args.len(),
        forall|k: int|
            i <= k < list_end(args, i) ==> !((#[trigger] args[k]).len() > 0 && args[k][0] == '-'),
        list_end(args, i) < args.len() ==> args[list_end(args, i)].len() > 0 && args[list_end(
            args,
            i,
        )][0] == '-',
    decreases args.len() - i,
{
    if i < args.len() && !is_flag(args[i]) {
        law_lists_end_at_the_next_flag(args, i + 1);
    }
}

/// The values of a list are those of its arguments, one after the other.
pub proof fn law_lists_hold_the_values_of_their_arguments(args: Seq<Seq<char>>, i: int, j: int)
    requires
        i <= j,
    ensures
        values_of(args, i, i) == Seq::<Seq<char>>::empty(),
        values_of(args, i, j + 1) == values_of(args, i, j) + values_in(args[j]),
        listed(args, i) == values_of(args, i + 1, list_end(args, i + 1)),
{
}

/// Each argument is read for what it is: `-t` and `--tags` add tags and `--only`
/// adds names, which all need values; `--raw` and `--color` are switched on; the
/// first argument that is no flag is the path, a second one is a mistake, and so
/// is any other flag.
pub proof fn law_arguments_are_read(args: Seq<Seq<char>>, i: int, known: CliModel)
    requires
        0 <= i < args.len(),
    ensures
        ({
            let arg = args[i];
            let res = read_at(args, i, known);
            let next = list_end(args, i + 1);
            let tag = arg == "-t"@ || arg == "--tags"@;
            let only = arg == "--only"@;
            &&& (tag || only) && listed(args, i).len() == 0 ==> res is None
            &&& tag && listed(args, i).len() > 0 ==> res == Some(
                (next, CliModel { tags: known.tags + listed(args, i), ..known }),
            )
            &&& only && listed(args, i).len() > 0 ==> res == Some(
                (next, CliModel { only: known.only + listed(args, i), ..known }),
            )
            &&& arg == "--raw"@ ==> res == Some((i + 1, CliModel { raw: true, ..known }))
            &&& arg == "--color"@ ==> res == Some((i + 1, CliModel { color: true, ..known }))
            &&& !(arg.len() > 0 && arg[0] == '-') && known.config_path is None ==> res == Some(
                (i + 1, CliModel { config_path: Some(arg), ..known }),
            )
            &&& !(arg.len() > 0 && arg[0] == '-') && known.config_path is Some ==> res is None
            &&& arg.len() > 0 && arg[0] == '-' && !tag && !only && arg != "--raw"@ && arg
                != "--color"@ ==> res is None
        }),
{
    reveal_strlit("-t");
    reveal_strlit("--tags");
    reveal_strlit("--only");
    reveal_strlit("--raw");
    reveal_strlit("--color");
    assert("-t"@.len() != "--raw"@.len());
    assert("-t"@.len() != "--color"@.len());
    assert("-t"@.len() != "--only"@.len());
    assert("--tags"@[2] != "--only"@[2]);
    assert("--tags"@.len() != "--raw"@.len());
    assert("--tags"@.len() != "--color"@.len());
    assert("--only"@.len() != "--raw"@.len());
    assert("--only"@.len() != "--color"@.len());
    assert("--raw"@.len() != "--color"@.len());
}

/// Arguments are read one after the other, up to the last or to a mistake.
pub proof fn law_arguments_are_read_in_order(args: Seq<Seq<char>>, i: int, known: CliModel)
    requires
        0 <= i,
    ensures
        i >= args.len() ==> read_from(args, i, known) == Some(known),
        i < args.len() && read_at(args, i, known) is None ==> read_from(args, i, known) is None,
        i < args.len() ==> (read_at(args, i, known) matches Some(step) ==> read_from(
            args,
            i,
            known,
        ) == read_from(args, step.0, step.1)),
{
}

/// A command line makes sense exactly where its arguments can be read, a filter
/// or colours come with the one stream, and there is a configuration: the one
/// that is named, or `rumor.json` where that exists. What was read is kept.
pub proof fn law_command_lines_make_sense(args: Seq<Seq<char>>, default_exists: bool)
    ensures
        ({
            let read = read_from(args, 1, nothing_read());
            let res = understood(args, default_exists);
            &&& read is None ==> res is None
            &&& read matches Some(all) ==> {
                &&& res is Some <==> (all.raw || (all.only.len() == 0 && !all.color)) && (
                all.config_path is Some || default_exists)
                &&& res matches Some(cli) ==> cli == (CliModel {
                    config_path: if all.config_path is Some {
                        all.config_path
                    } else {
                        Some("rumor.json"@)
                    },
                    ..all
                })
            }
        }),
        nothing_read().config_path is None,
        nothing_read().tags.len() == 0 && nothing_read().only.len() == 0,
        !nothing_read().raw && !nothing_read().color,
{
}

/// Six rows and two columns of a screen are not for output, and at least two of
/// each are left.
pub proof fn law_screen_leaves_room_for_output(length: int)
    ensures
        length >= 8 ==> left_of(length, UI_CHROME_ROWS as int, MIN_PTY_ROWS as int) == length - 6,
        length < 8 ==> left_of(length, UI_CHROME_ROWS as int, MIN_PTY_ROWS as int) == 2,
        length >= 4 ==> left_of(length, UI_CHROME_COLS as int, MIN_PTY_COLS as int) == length - 2,
        length < 4 ==> left_of(length, UI_CHROME_COLS as int, MIN_PTY_COLS as int) == 2,
{
}

/// Logs lie under the home directory where that is known, in the place that the
/// platform has for them, and else under the one for temporary files.
pub proof fn law_logs_lie_at_home(home: Seq<char>, temp: Seq<char>)
    requires
        home.len() > 0 && home.last() != '/',
        temp.len() > 0 && temp.last() != '/',
    ensures
        log_home(Some(home), temp, false) == home + "/.local/share/rumor"@,
        log_home(Some(home), temp, true) == home + "/Library/Logs/rumor"@,
        log_home(None, temp, true) == temp + "/rumor"@,
        log_home(None, temp, false) == temp + "/rumor"@,
{
    reveal_strlit("/");
    reveal_strlit("rumor");
    reveal_strlit(".local/share");
    reveal_strlit("Library/Logs");
    reveal_strlit("/.local/share/rumor");
    reveal_strlit("/Library/Logs/rumor");
    reveal_strlit("/rumor");
    assert(log_home(Some(home), temp, false) =~= home + "/.local/share/rumor"@);
    assert(log_home(Some(home), temp, true) =~= home + "/Library/Logs/rumor"@);
    assert(log_home(None, temp, true) =~= temp + "/rumor"@);
    assert(log_home(None, temp, false) =~= temp + "/rumor"@);
}

/// Columns are kept to what a terminal can have.
pub proof fn law_columns_are_kept_in_bounds(cols: u16)
    ensures
        fair_cols(cols) == vstd::math::max(3, vstd::math::min(cols as int, 65527)),
{
}

} // verus!
