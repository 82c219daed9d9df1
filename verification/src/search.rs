//! Searching the output of a process, and its details.
//!
//! The output is searched as the terminal shows it, row by row, so that a match
//! can be scrolled to and highlighted where it stands.

use vstd::prelude::*;

use crate::output::Output;
#[allow(unused_imports)]
use crate::pattern::{can_seek, found_spans, spans_fit};
use crate::pattern::{build_regex, Query};
#[allow(unused_imports)]
use crate::terminal::{
    screen_rows, screen_size, screen_total, screen_wf, scrolled, shown,
};
use crate::terminal::{visible_rows, Terminal};
#[allow(unused_imports)]
use crate::text::{piece, texts};
use crate::text::{piece_of, same_text};

verus! {

/// The least time, in milliseconds, between two searches that nothing but new
/// output asks for.
pub const STREAM_REFRESH_MS: u64 = 250;

/// One match in the output. Rows count from the oldest one kept; columns are
/// those of the terminal.
#[derive(Clone, Copy, Debug, PartialEq, Eq, Structural)]
pub struct Match {
    pub row: usize,
    pub col_start: u16,
    pub col_end: u16,
}

/// Why the matches no longer fit what the terminal shows.
#[derive(Clone, Copy, Debug, PartialEq, Eq, Structural)]
pub enum Staleness {
    /// Only new output came; searching again can wait.
    GenerationOnly,
    /// The process, the query or the size changed.
    Changed,
}

// ---- the width of a text ----

/// The columns that `unicode_width` gives a text.
pub uninterp spec fn display_width(text: Seq<char>) -> usize;

/// Whether a text holds nothing but printable ASCII characters.
pub open spec fn printable_ascii(text: Seq<char>) -> bool {
    forall|i: int| 0 <= i < text.len() ==> ' ' <= #[trigger] text[i] && text[i] <= '~'
}

/// `unicode_width::UnicodeWidthStr::width`: how many columns a text takes up.
/// The contract names the number, which depends on the text alone, and says
/// that printable ASCII takes up one column for each character.
#[verifier::external_body]
fn width_of(text: &str) -> (columns: usize)
    ensures
        columns == display_width(text@),
        printable_ascii(text@) ==> columns == text@.len(),
{
    unicode_width::UnicodeWidthStr::width(text)
}

// ---- the matches of a row ----

/// The column after one that is `width` columns on, at least one.
pub open spec fn column_after(start: u16, width: u16) -> u16 {
    let step = if width == 0 {
        1u16
    } else {
        width
    };
    if start + step > 65535 {
        65535
    } else {
        (start + step) as u16
    }
}

/// The match that a span of a row's text makes.
pub open spec fn match_at(row: usize, text: Seq<char>, span: (usize, usize)) -> Match {
    let start = display_width(piece(text, 0, span.0 as int)) as u16;
    Match {
        row,
        col_start: start,
        col_end: column_after(
            start,
            display_width(piece(text, span.0 as int, span.1 as int)) as u16,
        ),
    }
}

/// The matches in the text of a row.
pub open spec fn row_matches(query: Seq<char>, row: usize, text: Seq<char>) -> Seq<Match> {
    Seq::new(
        found_spans(query, text).len(),
        |i: int| match_at(row, text, found_spans(query, text)[i]),
    )
}

/// The matches in the first `n` rows, from the oldest on.
pub open spec fn matches_upto(query: Seq<char>, rows: Seq<Seq<char>>, n: int) -> Seq<Match>
    decreases n,
{
    if n <= 0 {
        Seq::empty()
    } else {
        matches_upto(query, rows, n - 1) + row_matches(query, (n - 1) as usize, rows[n - 1])
    }
}

/// The matches in all rows.
pub open spec fn matches_in(query: Seq<char>, rows: Seq<Seq<char>>) -> Seq<Match> {
    matches_upto(query, rows, rows.len() as int)
}

/// The matches in a row that pieces of its text make.
pub fn matches_of_spans(row: usize, text: &str, spans: &[(usize, usize)]) -> (list: Vec<Match>)
    requires
        spans_fit(spans@, vstd::utf8::encode_utf8(text@)),
    ensures
        list@ == Seq::new(spans@.len(), |i: int| match_at(row, text@, spans@[i])),
{
    let mut list: Vec<Match> = Vec::new();
    let mut i: usize = 0;
    while i < spans.len()
        invariant
            i <= spans@.len(),
            spans_fit(spans@, vstd::utf8::encode_utf8(text@)),
            list@.len() == i,
            forall|j: int| 0 <= j < i ==> #[trigger] list@[j] == match_at(row, text@, spans@[j]),
        decreases spans@.len() - i,
    {
        let (start, end) = spans[i];
        proof {
            let span = spans@[i as int];
            assert(span.0 <= span.1 <= vstd::utf8::encode_utf8(text@).len());
            vstd::utf8::encode_utf8_valid_utf8(text@);
            vstd::utf8::is_char_boundary_start_end_of_seq(vstd::utf8::encode_utf8(text@));
        }
        let before_it = piece_of(text, 0, start);
        let it = piece_of(text, start, end);
        let col_start: u16 = #[verifier::truncate] (width_of(before_it) as u16);
        let wide: u16 = #[verifier::truncate] (width_of(it) as u16);
        let step: u16 = if wide == 0 {
            1
        } else {
            wide
        };
        list.push(Match { row, col_start, col_end: col_start.saturating_add(step) });
        i = i + 1;
    }
    assert(list@ =~= Seq::new(spans@.len(), |i: int| match_at(row, text@, spans@[i])));
    list
}

fn scan_row(query: &Query, row: usize, text: &String, matches: &mut Vec<Match>)
    ensures
        final(matches)@ == old(matches)@ + row_matches(query@, row, text@),
{
    let spans = query.spans_in(text.as_str());
    let mut found = matches_of_spans(row, text.as_str(), &spans);
    assert(found@ =~= row_matches(query@, row, text@));
    matches.append(&mut found);
}

/// The number of rows that have scrolled off the terminal.
pub fn probe_total(terminal: &mut Terminal) -> (total: usize)
    requires
        screen_wf(shown(*old(terminal))),
    ensures
        *final(terminal) == *old(terminal),
        total == screen_total(shown(*old(terminal))),
{
    let saved = terminal.screen().scrollback();
    let ghost first = *terminal;
    terminal.set_scrollback(usize::MAX);
    let total = terminal.screen().scrollback();
    let ghost second = *terminal;
    terminal.set_scrollback(saved);
    assert(*terminal == scrolled(second, saved));
    total
}

/// Search all rows of a terminal, those that have scrolled off and those in
/// view. Returns the matches from the oldest row on, and how many rows have
/// scrolled off. The terminal only gives the rows in view, so it is scrolled
/// through and put back.
pub fn compute_matches(terminal: &mut Terminal, query: &Query) -> (res: (Vec<Match>, usize))
    requires
        screen_wf(shown(*old(terminal))),
    ensures
        *final(terminal) == *old(terminal),
        res.0@ == matches_in(query@, screen_rows(shown(*old(terminal)))),
        res.1 == screen_total(shown(*old(terminal))),
{
    let ghost first = *terminal;
    let ghost all = screen_rows(shown(first));
    let (rows, _) = terminal.screen().size();
    let saved = terminal.screen().scrollback();
    terminal.set_scrollback(usize::MAX);
    let total = terminal.screen().scrollback();
    let mut matches: Vec<Match> = Vec::new();
    let mut next_abs: usize = 0;
    let mut offset: usize = total;
    let mut going = true;
    while going
        invariant
            all == screen_rows(shown(first)),
            rows == screen_size(shown(first)).0,
            total == all.len() - rows,
            total <= crate::terminal::SCROLLBACK,
            screen_wf(shown(*terminal)),
            screen_rows(shown(*terminal)) == all,
            screen_size(shown(*terminal)) == screen_size(shown(first)),
            forall|n: usize| #[trigger] scrolled(*terminal, n) == scrolled(first, n),
            offset <= total,
            next_abs <= all.len(),
            going ==> total - offset <= next_abs,
            !going ==> next_abs == all.len(),
            matches@ == matches_upto(query@, all, next_abs as int),
        decreases
                offset,
                if going {
                    1int
                } else {
                    0int
                },
    {
        terminal.set_scrollback(offset);
        let top: usize = total - offset;
        let page = visible_rows(terminal.screen());
        let ghost seen = all.subrange(top as int, top + rows);
        assert(page@.len() == texts(page@).len());
        let mut r: usize = 0;
        while r < page.len()
            invariant
                r <= page@.len(),
                page@.len() == rows,
                texts(page@) == all.subrange(top as int, top + rows),
                top + rows <= all.len(),
                top <= total,
                total <= crate::terminal::SCROLLBACK,
                total == all.len() - rows,
                next_abs <= all.len(),
                top + r <= next_abs || top <= next_abs,
                top + r <= next_abs,
                matches@ == matches_upto(query@, all, next_abs as int),
            decreases page@.len() - r,
        {
            let abs: usize = top + r;
            if abs >= next_abs {
                assert(texts(page@)[r as int] == page@[r as int]@);
                assert(all[abs as int] == page@[r as int]@);
                scan_row(query, abs, &page[r], &mut matches);
                next_abs = abs + 1;
            }
            r = r + 1;
        }
        if offset == 0 {
            going = false;
        } else {
            offset = offset.saturating_sub(rows as usize);
        }
    }
    let ghost last = *terminal;
    terminal.set_scrollback(saved);
    assert(*terminal == scrolled(last, saved));
    assert(scrolled(last, saved) == scrolled(first, saved));
    (matches, total)
}

proof fn lemma_rows_sorted(query: Seq<char>, rows: Seq<Seq<char>>, n: int)
    requires
        0 <= n <= rows.len(),
        rows.len() <= usize::MAX,
    ensures
        forall|i: int|
            0 <= i < matches_upto(query, rows, n).len() ==> (#[trigger] matches_upto(
                query,
                rows,
                n,
            )[i]).row < n,
        forall|i: int, j: int|
            0 <= i < j < matches_upto(query, rows, n).len() ==> (#[trigger] matches_upto(
                query,
                rows,
                n,
            )[i]).row <= (#[trigger] matches_upto(query, rows, n)[j]).row,
    decreases n,
{
    if n > 0 {
        lemma_rows_sorted(query, rows, n - 1);
        let before = matches_upto(query, rows, n - 1);
        let here = row_matches(query, (n - 1) as usize, rows[n - 1]);
        let now = matches_upto(query, rows, n);
        assert forall|i: int| 0 <= i < now.len() implies (#[trigger] now[i]).row < n by {
            if i < before.len() {
                assert(now[i] == before[i]);
            } else {
                assert(now[i] == here[i - before.len()]);
            }
        }
        assert forall|i: int, j: int| 0 <= i < j < now.len() implies (#[trigger] now[i]).row <= (
        #[trigger] now[j]).row by {
            if j < before.len() {
                assert(now[i] == before[i] && now[j] == before[j]);
            } else {
                assert(now[j] == here[j - before.len()]);
                if i < before.len() {
                    assert(now[i] == before[i]);
                } else {
                    assert(now[i] == here[i - before.len()]);
                }
            }
        }
    }
}

/// Matches come in the order of their rows, each in a row that there is.
pub proof fn law_matches_are_in_order(query: Seq<char>, rows: Seq<Seq<char>>, i: int, j: int)
    requires
        rows.len() <= usize::MAX,
        0 <= i < j < matches_in(query, rows).len(),
    ensures
        matches_in(query, rows)[i].row <= matches_in(query, rows)[j].row < rows.len(),
{
    lemma_rows_sorted(query, rows, rows.len() as int);
}

/// No row is left out and none searched twice: each row holds as many matches
/// as are found in its text.
pub proof fn law_every_row_is_searched_once(query: Seq<char>, rows: Seq<Seq<char>>, r: int, n: int)
    requires
        0 <= r < n <= rows.len(),
        rows.len() <= usize::MAX,
    ensures
        matches_upto(query, rows, n).filter(|m: Match| m.row == r) == row_matches(
            query,
            r as usize,
            rows[r],
        ),
    decreases n,
{
    let in_row = |m: Match| m.row == r;
    let before = matches_upto(query, rows, n - 1);
    let here = row_matches(query, (n - 1) as usize, rows[n - 1]);
    lemma_filter_split(before, here, in_row);
    if r == n - 1 {
        lemma_rows_sorted(query, rows, n - 1);
        lemma_filter_none(before, in_row);
        lemma_filter_all(here, in_row);
        assert(Seq::<Match>::empty() + here =~= here);
    } else {
        law_every_row_is_searched_once(query, rows, r, n - 1);
        lemma_filter_none(here, in_row);
        assert(before.filter(in_row) + Seq::<Match>::empty() =~= before.filter(in_row));
    }
}

proof fn lemma_filter_split(a: Seq<Match>, b: Seq<Match>, p: spec_fn(Match) -> bool)
    ensures
        (a + b).filter(p) == a.filter(p) + b.filter(p),
    decreases b.len(),
{
    reveal(Seq::filter);
    if b.len() == 0 {
        assert(a + b =~= a);
        assert(a.filter(p) + b.filter(p) =~= a.filter(p));
    } else {
        lemma_filter_split(a, b.drop_last(), p);
        assert((a + b).drop_last() =~= a + b.drop_last());
        assert((a.filter(p) + b.drop_last().filter(p)).push(b.last()) =~= a.filter(p)
            + b.drop_last().filter(p).push(b.last()));
    }
}

proof fn lemma_filter_none(list: Seq<Match>, p: spec_fn(Match) -> bool)
    requires
        forall|i: int| 0 <= i < list.len() ==> !p(#[trigger] list[i]),
    ensures
        list.filter(p) == Seq::<Match>::empty(),
    decreases list.len(),
{
    reveal(Seq::filter);
    if list.len() > 0 {
        assert(!p(list[list.len() - 1]));
        lemma_filter_none(list.drop_last(), p);
    }
}

proof fn lemma_filter_all(list: Seq<Match>, p: spec_fn(Match) -> bool)
    requires
        forall|i: int| 0 <= i < list.len() ==> p(#[trigger] list[i]),
    ensures
        list.filter(p) == list,
    decreases list.len(),
{
    reveal(Seq::filter);
    if list.len() > 0 {
        assert(p(list[list.len() - 1]));
        lemma_filter_all(list.drop_last(), p);
        assert(list.drop_last().push(list.last()) =~= list);
    }
}

// ---- the nearest match ----

pub open spec fn distance(a: usize, b: usize) -> int {
    if a <= b {
        b - a
    } else {
        a - b
    }
}

/// Whether `a`, which comes after `b` in a list, is to be preferred to it: it is
/// nearer to `row`, or as near and not in a row before.
pub open spec fn nearer(a: Match, b: Match, row: usize) -> bool {
    distance(a.row, row) < distance(b.row, row) || (distance(a.row, row) == distance(b.row, row)
        && a.row >= b.row)
}

/// The last of the nearest matches to a row, among the first `n`.
pub open spec fn nearest_upto(matches: Seq<Match>, row: usize, n: int) -> int
    decreases n,
{
    if n <= 1 {
        0
    } else {
        let best = nearest_upto(matches, row, n - 1);
        if nearer(matches[n - 1], matches[best], row) {
            n - 1
        } else {
            best
        }
    }
}

/// The index of the match nearest to a row, or 0 where there is none. Of
/// equally near ones the later counts.
pub fn nearest_match_idx(matches: &[Match], row: usize) -> (idx: usize)
    ensures
        idx == nearest_upto(matches@, row, matches@.len() as int),
        matches@.len() > 0 ==> idx < matches@.len(),
{
    let mut best: usize = 0;
    let mut i: usize = 1;
    while i < matches.len()
        invariant
            1 <= i,
            matches@.len() > 0 ==> i <= matches@.len() && best < matches@.len(),
            matches@.len() == 0 ==> i == 1,
            best == nearest_upto(matches@, row, i as int),
            best < i,
        decreases matches@.len() - i,
    {
        let a = matches[i];
        let b = matches[best];
        let da: usize = if a.row <= row {
            row - a.row
        } else {
            a.row - row
        };
        let db: usize = if b.row <= row {
            row - b.row
        } else {
            b.row - row
        };
        if da < db || (da == db && a.row >= b.row) {
            best = i;
        }
        i = i + 1;
    }
    best
}

proof fn lemma_nearest(matches: Seq<Match>, row: usize, n: int, j: int)
    requires
        0 <= j < n <= matches.len(),
    ensures
        0 <= nearest_upto(matches, row, n) < n,
        nearer(matches[nearest_upto(matches, row, n)], matches[j], row),
        j > nearest_upto(matches, row, n) ==> !nearer(
            matches[j],
            matches[nearest_upto(matches, row, n)],
            row,
        ),
    decreases n,
{
    if n > 1 {
        if j < n - 1 {
            lemma_nearest(matches, row, n - 1, j);
        } else {
            lemma_nearest(matches, row, n - 1, 0);
        }
    }
}

/// Of matches that come row by row, the one that is picked is the nearest: none
/// is nearer, and of equally near ones it is the last.
pub proof fn law_nearest_is_nearest(matches: Seq<Match>, row: usize, j: int)
    requires
        forall|a: int, b: int|
            0 <= a <= b < matches.len() ==> (#[trigger] matches[a]).row <= (
            #[trigger] matches[b]).row,
        0 <= j < matches.len(),
    ensures
        ({
            let picked = nearest_upto(matches, row, matches.len() as int);
            &&& 0 <= picked < matches.len()
            &&& distance(matches[picked].row, row) <= distance(matches[j].row, row)
            &&& distance(matches[picked].row, row) == distance(matches[j].row, row) ==> j <= picked
        }),
{
    lemma_nearest(matches, row, matches.len() as int, j);
}

/// How far to scroll back to have a row in the middle of the view, with
/// `total` rows scrolled off; as far as that goes.
pub open spec fn centered(total: int, screen_rows: int, row: int) -> int {
    let want = total + screen_rows / 2 - row;
    if want < 0 {
        0
    } else if want > total {
        total
    } else {
        want
    }
}

/// How far to scroll back to have a row in the middle of the view.
pub fn center_scrollback(total: usize, screen_rows: u16, match_row: usize) -> (offset: usize)
    requires
        total + screen_rows / 2 <= usize::MAX,
    ensures
        offset == centered(total as int, screen_rows as int, match_row as int),
{
    let want: usize = (total + (screen_rows as usize) / 2).saturating_sub(match_row);
    if want > total {
        total
    } else {
        want
    }
}

/// A row that there is comes into view.
pub proof fn law_centered_row_is_in_view(total: int, screen_rows: int, row: int)
    requires
        0 <= total,
        0 < screen_rows,
        0 <= row < total + screen_rows,
    ensures
        0 <= centered(total, screen_rows, row) <= total,
        total - centered(total, screen_rows, row) <= row < total - centered(
            total,
            screen_rows,
            row,
        ) + screen_rows,
{
}

// ---- stepping ----

/// The index that `delta` steps lead to, around the ends.
pub open spec fn stepped(current: usize, delta: int, n: nat) -> int {
    let from = if current < n {
        current as int
    } else {
        n - 1
    };
    (from + delta) % (n as int)
}

fn step_index(current: usize, delta: i32, n: usize) -> (next: usize)
    requires
        n > 0,
    ensures
        next == stepped(current, delta as int, n as nat),
        next < n,
{
    let from: usize = if current < n {
        current
    } else {
        n - 1
    };
    let wide: u128 = n as u128;
    let ghost m = n as int;
    if delta >= 0 {
        let sum: u128 = from as u128 + delta as u128;
        let next: u128 = sum % wide;
        next as usize
    } else {
        let back: u128 = (-(delta as i64)) as u128;
        let rest: u128 = back % wide;
        let sum: u128 = from as u128 + wide - rest;
        let next: u128 = sum % wide;
        proof {
            let q = (back as int) / m;
            vstd::arithmetic::div_mod::lemma_fundamental_div_mod(back as int, m);
            assert(sum == from + delta + m * (q + 1)) by {
                assert(m * (q + 1) == m * q + m) by (nonlinear_arith);
            }
            vstd::arithmetic::div_mod::lemma_mod_multiples_vanish(q + 1, from + delta, m);
        }
        next as usize
    }
}

/// Any number of steps, and as many the other way, lead to where they started.
pub proof fn law_steps_undo_each_other(current: usize, delta: int, n: nat)
    requires
        0 < n,
        current < n,
        n <= usize::MAX,
    ensures
        0 <= stepped(current, delta, n) < n,
        stepped(stepped(current, delta, n) as usize, -delta, n) == current,
{
    let m = n as int;
    let there = (current + delta) % m;
    vstd::arithmetic::div_mod::lemma_fundamental_div_mod(current + delta, m);
    let q = (current + delta) / m;
    assert(there - delta == current + m * (-q)) by (nonlinear_arith)
        requires
            current + delta == m * q + there,
    ;
    vstd::arithmetic::div_mod::lemma_mod_multiples_vanish(-q, current as int, m);
    vstd::arithmetic::div_mod::lemma_small_mod(current as nat, n);
}

// ---- the search of the output ----

/// What the matches were computed for.
pub struct CacheKey {
    pub process: u64,
    pub generation: u64,
    pub query: String,
    pub rows: u16,
    pub cols: u16,
}

/// What the matches were computed for, as a value.
pub struct KeyModel {
    pub process: u64,
    pub generation: u64,
    pub query: Seq<char>,
    pub rows: u16,
    pub cols: u16,
}

impl View for CacheKey {
    type V = KeyModel;

    open spec fn view(&self) -> KeyModel {
        KeyModel {
            process: self.process,
            generation: self.generation,
            query: self.query@,
            rows: self.rows,
            cols: self.cols,
        }
    }
}

/// The search of the output.
pub struct LogSearch {
    /// Whether keys go into the query.
    pub editing: bool,
    /// Whether matches are shown.
    pub active: bool,
    pub query: String,
    /// The matches, from the oldest row on.
    pub matches: Vec<Match>,
    /// The index of the match at hand.
    pub current: usize,
    /// How many rows had scrolled off when the matches were computed.
    pub total_at_compute: usize,
    /// How far the view was scrolled back before the search.
    pub saved_scrollback: Option<usize>,
    pub cache_key: Option<CacheKey>,
    /// When the matches were computed, in milliseconds.
    pub last_recompute: Option<u64>,
}

/// The search of the output, as a value.
pub struct LogModel {
    pub editing: bool,
    pub active: bool,
    pub query: Seq<char>,
    pub matches: Seq<Match>,
    pub current: usize,
    pub total_at_compute: usize,
    pub saved_scrollback: Option<usize>,
    pub cache_key: Option<KeyModel>,
    pub last_recompute: Option<u64>,
}

impl View for LogSearch {
    type V = LogModel;

    open spec fn view(&self) -> LogModel {
        LogModel {
            editing: self.editing,
            active: self.active,
            query: self.query@,
            matches: self.matches@,
            current: self.current,
            total_at_compute: self.total_at_compute,
            saved_scrollback: self.saved_scrollback,
            cache_key: match self.cache_key {
                Some(key) => Some(key@),
                None => None,
            },
            last_recompute: self.last_recompute,
        }
    }
}

/// No search.
pub open spec fn no_search() -> LogModel {
    LogModel {
        editing: false,
        active: false,
        query: Seq::empty(),
        matches: Seq::empty(),
        current: 0,
        total_at_compute: 0,
        saved_scrollback: None,
        cache_key: None,
        last_recompute: None,
    }
}

/// The matches of a search: none for an empty query.
pub open spec fn log_matches(query: Seq<char>, rows: Seq<Seq<char>>) -> Seq<Match> {
    if query.len() == 0 || !can_seek(query) {
        Seq::empty()
    } else {
        matches_in(query, rows)
    }
}

/// The first index at which a list holds a match.
pub open spec fn index_of_match(matches: Seq<Match>, m: Match, n: int) -> Option<int>
    decreases n,
{
    if n <= 0 {
        None
    } else {
        match index_of_match(matches, m, n - 1) {
            Some(i) => Some(i),
            None => if matches[n - 1] == m {
                Some(n - 1)
            } else {
                None
            },
        }
    }
}

/// The match at hand after the matches changed: the same one where it is still
/// there, else the one nearest to its row, else the newest.
pub open spec fn anchored(before: Seq<Match>, current: usize, now: Seq<Match>) -> int {
    if current < before.len() {
        match index_of_match(now, before[current as int], now.len() as int) {
            Some(i) => i,
            None => nearest_upto(now, before[current as int].row, now.len() as int),
        }
    } else if now.len() == 0 {
        0
    } else {
        now.len() - 1
    }
}

/// How matches relate to what there is now.
pub open spec fn staleness(
    key: Option<KeyModel>,
    query: Seq<char>,
    process: u64,
    generation: u64,
    size: (u16, u16),
) -> Option<Staleness> {
    match key {
        None => Some(Staleness::Changed),
        Some(k) => if k.process != process || k.query != query || k.rows != size.0 || k.cols
            != size.1 {
            Some(Staleness::Changed)
        } else if k.generation != generation {
            Some(Staleness::GenerationOnly)
        } else {
            None
        },
    }
}

/// A search after it was made again, where anything changed since the last
/// time.
pub open spec fn searched_again(log: LogModel, process: u64, output: Output, now_ms: u64) -> LogModel {
    let screen = shown(output.terminal);
    let matches = log_matches(log.query, screen_rows(screen));
    if staleness(log.cache_key, log.query, process, output.generation, screen_size(screen)) is None {
        log
    } else {
        LogModel {
            matches,
            current: anchored(log.matches, log.current, matches) as usize,
            total_at_compute: (if log.query.len() == 0 {
                0
            } else {
                screen_total(screen)
            }) as usize,
            cache_key: Some(
                KeyModel {
                    process,
                    generation: output.generation,
                    query: log.query,
                    rows: screen_size(screen).0,
                    cols: screen_size(screen).1,
                },
            ),
            last_recompute: Some(now_ms),
            ..log
        }
    }
}

/// A search `delta` matches further on, around the ends.
pub open spec fn stepped_on(log: LogModel, delta: int) -> LogModel {
    LogModel {
        current: if log.matches.len() == 0 {
            log.current
        } else {
            stepped(log.current, delta, log.matches.len()) as usize
        },
        ..log
    }
}

fn find_match(matches: &Vec<Match>, m: Match) -> (at: Option<usize>)
    ensures
        match at {
            Some(i) => i < matches@.len() && index_of_match(matches@, m, matches@.len() as int)
                == Some(i as int),
            None => index_of_match(matches@, m, matches@.len() as int) is None,
        },
{
    let mut i: usize = 0;
    while i < matches.len()
        invariant
            i <= matches@.len(),
            index_of_match(matches@, m, i as int) is None,
        decreases matches@.len() - i,
    {
        if matches[i] == m {
            proof {
                lemma_index_sticks(matches@, m, i + 1, matches@.len() as int);
            }
            return Some(i);
        }
        i = i + 1;
    }
    None
}

proof fn lemma_index_sticks(matches: Seq<Match>, m: Match, a: int, b: int)
    requires
        0 <= a <= b,
        index_of_match(matches, m, a) is Some,
    ensures
        index_of_match(matches, m, b) == index_of_match(matches, m, a),
    decreases b,
{
    if a < b {
        lemma_index_sticks(matches, m, a, b - 1);
    }
}

impl Default for LogSearch {
    fn default() -> (search: LogSearch)
        ensures
            search@ == no_search(),
    {
        LogSearch {
            editing: false,
            active: false,
            query: String::new(),
            matches: Vec::new(),
            current: 0,
            total_at_compute: 0,
            saved_scrollback: None,
            cache_key: None,
            last_recompute: None,
        }
    }
}

impl LogSearch {
    /// End the search.
    pub fn clear(&mut self)
        ensures
            final(self)@ == no_search(),
    {
        *self = LogSearch::default();
    }

    /// How the matches relate to the output of a process.
    pub fn stale_kind(&self, process: u64, output: &Output) -> (kind: Option<Staleness>)
        ensures
            kind == staleness(
                self@.cache_key,
                self.query@,
                process,
                output.generation,
                screen_size(shown(output.terminal)),
            ),
    {
        match &self.cache_key {
            None => Some(Staleness::Changed),
            Some(key) => {
                let (rows, cols) = output.screen().size();
                if key.process != process || !same_text(key.query.as_str(), self.query.as_str())
                    || key.rows != rows || key.cols != cols {
                    Some(Staleness::Changed)
                } else if key.generation != output.generation {
                    Some(Staleness::GenerationOnly)
                } else {
                    None
                }
            },
        }
    }

    /// Whether it is time to search again because of new output.
    pub fn stream_refresh_due(&self, now_ms: u64) -> (due: bool)
        ensures
            due == match self.last_recompute {
                Some(at) => now_ms - at >= STREAM_REFRESH_MS,
                None => true,
            },
    {
        match self.last_recompute {
            Some(at) => now_ms >= at && now_ms - at >= STREAM_REFRESH_MS,
            None => true,
        }
    }

    /// Search again, unless nothing changed since the last time. Says whether
    /// it did.
    pub fn recompute_if_needed(&mut self, process: u64, output: &mut Output, now_ms: u64) -> (done:
        bool)
        requires
            old(output).wf(),
        ensures
            *final(output) == *old(output),
            done == (staleness(
                old(self)@.cache_key,
                old(self).query@,
                process,
                old(output).generation,
                screen_size(shown(old(output).terminal)),
            ) is Some),
            final(self)@ == searched_again(old(self)@, process, *old(output), now_ms),
    {
        if self.stale_kind(process, output).is_none() {
            return false;
        }
        let prev = if self.current < self.matches.len() {
            Some(self.matches[self.current])
        } else {
            None
        };
        let (rows, cols) = output.screen().size();
        let key = CacheKey {
            process,
            generation: output.generation,
            query: self.query.clone(),
            rows,
            cols,
        };
        if self.query.as_str().is_empty() {
            self.matches = Vec::new();
            self.total_at_compute = 0;
            proof {
                lemma_empty_text(self.query@);
            }
        } else {
            proof {
                lemma_empty_text(self.query@);
            }
            match build_regex(self.query.as_str()) {
                Some(query) => {
                    let (matches, total) = compute_matches(&mut output.terminal, &query);
                    self.matches = matches;
                    self.total_at_compute = total;
                },
                None => {
                    self.matches = Vec::new();
                    self.total_at_compute = probe_total(&mut output.terminal);
                },
            }
        }
        self.current = match prev {
            Some(m) => match find_match(&self.matches, m) {
                Some(i) => i,
                None => nearest_match_idx(&self.matches, m.row),
            },
            None => self.matches.len().saturating_sub(1),
        };
        self.cache_key = Some(key);
        self.last_recompute = Some(now_ms);
        true
    }

    /// Go `delta` matches on, around the ends.
    pub fn step(&mut self, delta: i32)
        ensures
            final(self)@ == stepped_on(old(self)@, delta as int),
    {
        let n = self.matches.len();
        if n > 0 {
            self.current = step_index(self.current, delta, n);
        }
    }
}

proof fn lemma_empty_text(s: Seq<char>)
    ensures
        (vstd::utf8::encode_utf8(s).len() == 0) == (s.len() == 0),
{
    if s.len() > 0 {
        assert(vstd::utf8::encode_utf8(s) == vstd::utf8::encode_scalar(s[0] as u32)
            + vstd::utf8::encode_utf8(s.drop_first()));
    }
}

// ---- the search of the details ----

/// A match in the details: the line, and the bytes of its text.
pub type LineMatch = (usize, (usize, usize));

/// The matches in the text of a line.
pub open spec fn line_matches(query: Seq<char>, line: usize, text: Seq<char>) -> Seq<LineMatch> {
    Seq::new(found_spans(query, text).len(), |i: int| (line, found_spans(query, text)[i]))
}

/// The matches in the first `n` lines.
pub open spec fn lines_upto(query: Seq<char>, lines: Seq<Seq<char>>, n: int) -> Seq<LineMatch>
    decreases n,
{
    if n <= 0 {
        Seq::empty()
    } else {
        lines_upto(query, lines, n - 1) + line_matches(query, (n - 1) as usize, lines[n - 1])
    }
}

/// The matches of a search of the details: none for an empty query.
pub open spec fn detail_matches(query: Seq<char>, lines: Seq<Seq<char>>) -> Seq<LineMatch> {
    if query.len() == 0 || !can_seek(query) {
        Seq::empty()
    } else {
        lines_upto(query, lines, lines.len() as int)
    }
}

/// The first index at which a list holds a match.
pub open spec fn index_of_line_match(matches: Seq<LineMatch>, m: LineMatch, n: int) -> Option<int>
    decreases n,
{
    if n <= 0 {
        None
    } else {
        match index_of_line_match(matches, m, n - 1) {
            Some(i) => Some(i),
            None => if matches[n - 1] == m {
                Some(n - 1)
            } else {
                None
            },
        }
    }
}

/// The first of the matches nearest to a line, among the first `n`.
pub open spec fn nearest_line(matches: Seq<LineMatch>, line: usize, n: int) -> int
    decreases n,
{
    if n <= 1 {
        0
    } else {
        let best = nearest_line(matches, line, n - 1);
        if distance(matches[n - 1].0, line) < distance(matches[best].0, line) {
            n - 1
        } else {
            best
        }
    }
}

/// The match at hand after the matches changed: the same one where it is still
/// there, else the one nearest to its line, else the first.
pub open spec fn anchored_line(before: Seq<LineMatch>, current: usize, now: Seq<LineMatch>) -> int {
    if current < before.len() {
        match index_of_line_match(now, before[current as int], now.len() as int) {
            Some(i) => i,
            None => nearest_line(now, before[current as int].0, now.len() as int),
        }
    } else {
        0
    }
}

/// Whether matches mark pieces of the lines.
pub open spec fn line_matches_fit(matches: Seq<LineMatch>, lines: Seq<Seq<char>>) -> bool {
    forall|i: int|
        0 <= i < matches.len() ==> {
            let (line, span) = #[trigger] matches[i];
            &&& line < lines.len()
            &&& span.0 <= span.1 <= vstd::utf8::encode_utf8(lines[line as int]).len()
            &&& vstd::utf8::is_char_boundary(
                vstd::utf8::encode_utf8(lines[line as int]),
                span.0 as int,
            )
            &&& vstd::utf8::is_char_boundary(
                vstd::utf8::encode_utf8(lines[line as int]),
                span.1 as int,
            )
        }
}

/// The search of the details.
pub struct DetailsSearch {
    pub editing: bool,
    pub active: bool,
    pub query: String,
    pub matches: Vec<LineMatch>,
    pub current: usize,
}

/// The search of the details, as a value.
pub struct DetailsModel {
    pub editing: bool,
    pub active: bool,
    pub query: Seq<char>,
    pub matches: Seq<LineMatch>,
    pub current: usize,
}

impl View for DetailsSearch {
    type V = DetailsModel;

    open spec fn view(&self) -> DetailsModel {
        DetailsModel {
            editing: self.editing,
            active: self.active,
            query: self.query@,
            matches: self.matches@,
            current: self.current,
        }
    }
}

/// No search.
pub open spec fn no_details_search() -> DetailsModel {
    DetailsModel {
        editing: false,
        active: false,
        query: Seq::empty(),
        matches: Seq::empty(),
        current: 0,
    }
}

/// A search of some lines.
pub open spec fn lines_searched(search: DetailsModel, lines: Seq<Seq<char>>) -> DetailsModel {
    let matches = detail_matches(search.query, lines);
    DetailsModel {
        matches,
        current: anchored_line(search.matches, search.current, matches) as usize,
        ..search
    }
}

/// A search `delta` matches further on, around the ends.
pub open spec fn line_stepped_on(search: DetailsModel, delta: int) -> DetailsModel {
    DetailsModel {
        current: if search.matches.len() == 0 {
            search.current
        } else {
            stepped(search.current, delta, search.matches.len()) as usize
        },
        ..search
    }
}

impl Default for DetailsSearch {
    fn default() -> (search: DetailsSearch)
        ensures
            search@ == no_details_search(),
    {
        DetailsSearch {
            editing: false,
            active: false,
            query: String::new(),
            matches: Vec::new(),
            current: 0,
        }
    }
}

fn find_line_match(matches: &Vec<LineMatch>, m: LineMatch) -> (at: Option<usize>)
    ensures
        match at {
            Some(i) => i < matches@.len() && index_of_line_match(
                matches@,
                m,
                matches@.len() as int,
            ) == Some(i as int),
            None => index_of_line_match(matches@, m, matches@.len() as int) is None,
        },
{
    let mut i: usize = 0;
    while i < matches.len()
        invariant
            i <= matches@.len(),
            index_of_line_match(matches@, m, i as int) is None,
        decreases matches@.len() - i,
    {
        let (line, span) = matches[i];
        if line == m.0 && span.0 == m.1.0 && span.1 == m.1.1 {
            assert(matches@[i as int] == m);
            proof {
                lemma_line_index_sticks(matches@, m, i + 1, matches@.len() as int);
            }
            return Some(i);
        }
        i = i + 1;
    }
    None
}

proof fn lemma_line_index_sticks(matches: Seq<LineMatch>, m: LineMatch, a: int, b: int)
    requires
        0 <= a <= b,
        index_of_line_match(matches, m, a) is Some,
    ensures
        index_of_line_match(matches, m, b) == index_of_line_match(matches, m, a),
    decreases b,
{
    if a < b {
        lemma_line_index_sticks(matches, m, a, b - 1);
    }
}

fn nearest_line_idx(matches: &Vec<LineMatch>, line: usize) -> (idx: usize)
    ensures
        idx == nearest_line(matches@, line, matches@.len() as int),
{
    let mut best: usize = 0;
    let mut i: usize = 1;
    while i < matches.len()
        invariant
            1 <= i,
            matches@.len() > 0 ==> i <= matches@.len() && best < matches@.len(),
            matches@.len() == 0 ==> i == 1,
            best == nearest_line(matches@, line, i as int),
        decreases matches@.len() - i,
    {
        let a: usize = matches[i].0;
        let b: usize = matches[best].0;
        let da: usize = if a <= line {
            line - a
        } else {
            a - line
        };
        let db: usize = if b <= line {
            line - b
        } else {
            b - line
        };
        if da < db {
            best = i;
        }
        i = i + 1;
    }
    best
}

/// The matches in a line that pieces of its text make.
pub fn line_matches_of_spans(line: usize, spans: &[(usize, usize)]) -> (list: Vec<LineMatch>)
    ensures
        list@ == Seq::new(spans@.len(), |i: int| (line, spans@[i])),
{
    let mut list: Vec<LineMatch> = Vec::new();
    let mut i: usize = 0;
    while i < spans.len()
        invariant
            i <= spans@.len(),
            list@.len() == i,
            forall|j: int| 0 <= j < i ==> #[trigger] list@[j] == (line, spans@[j]),
        decreases spans@.len() - i,
    {
        list.push((line, spans[i]));
        i = i + 1;
    }
    assert(list@ =~= Seq::new(spans@.len(), |i: int| (line, spans@[i])));
    list
}

/// Whether matches come line by line, and in a line one after the other, none
/// of them empty.
pub open spec fn line_matches_in_order(matches: Seq<LineMatch>) -> bool {
    &&& forall|i: int| 0 <= i < matches.len() ==> (#[trigger] matches[i]).1.0 < matches[i].1.1
    &&& forall|i: int, j: int|
        0 <= i < j < matches.len() ==> (#[trigger] matches[i]).0 < (#[trigger] matches[j]).0 || (
        matches[i].0 == matches[j].0 && matches[i].1.1 <= matches[j].1.0)
}

/// No match is listed twice.
pub proof fn law_line_matches_are_distinct(matches: Seq<LineMatch>, i: int, j: int)
    requires
        line_matches_in_order(matches),
        0 <= i < j < matches.len(),
    ensures
        matches[i] != matches[j],
{
    assert(matches[i].1.0 < matches[i].1.1);
}

fn scan_line(
    query: &Query,
    line: usize,
    lines: &[String],
    matches: &mut Vec<LineMatch>,
)
    requires
        query@.len() > 0,
        line < lines@.len(),
        line_matches_fit(old(matches)@, texts(lines@)),
        line_matches_in_order(old(matches)@),
        forall|i: int| 0 <= i < old(matches)@.len() ==> (#[trigger] old(matches)@[i]).0 < line,
    ensures
        final(matches)@ == old(matches)@ + line_matches(query@, line, lines@[line as int]@),
        line_matches_fit(final(matches)@, texts(lines@)),
        line_matches_in_order(final(matches)@),
        forall|i: int| 0 <= i < final(matches)@.len() ==> (#[trigger] final(matches)@[i]).0 <= line,
{
    let text = &lines[line];
    let ghost before = matches@;
    let ghost all = line_matches(query@, line, text@);
    assert(text@ == texts(lines@)[line as int]);
    let spans = query.spans_in(text.as_str());
    let mut found = line_matches_of_spans(line, &spans);
    assert(found@ =~= all);
    matches.append(&mut found);
    proof {
        let now = matches@;
        assert(now == before + all);
        assert forall|i: int| before.len() <= i < now.len() implies (#[trigger] now[i]) == (
            line,
            spans@[i - before.len()],
        ) by {
            assert(now[i] == all[i - before.len()]);
        }
        assert forall|i: int| 0 <= i < before.len() implies (#[trigger] now[i]) == before[i] by {}
    }
}

impl DetailsSearch {
    /// End the search.
    pub fn clear(&mut self)
        ensures
            final(self)@ == no_details_search(),
    {
        *self = DetailsSearch::default();
    }

    /// Search the lines of the details.
    pub fn recompute(&mut self, lines: &[String])
        ensures
            final(self)@ == lines_searched(old(self)@, texts(lines@)),
            line_matches_fit(final(self).matches@, texts(lines@)),
            line_matches_in_order(final(self).matches@),
    {
        let prev = if self.current < self.matches.len() {
            Some(self.matches[self.current])
        } else {
            None
        };
        let ghost all = texts(lines@);
        let mut matches: Vec<LineMatch> = Vec::new();
        proof {
            lemma_empty_text(self.query@);
        }
        if !self.query.as_str().is_empty() {
            if let Some(query) = build_regex(self.query.as_str()) {
                let mut i: usize = 0;
                while i < lines.len()
                    invariant
                        i <= lines@.len(),
                        all == texts(lines@),
                        query@.len() > 0,
                        matches@ == lines_upto(query@, all, i as int),
                        line_matches_fit(matches@, all),
                        line_matches_in_order(matches@),
                        forall|j: int| 0 <= j < matches@.len() ==> (#[trigger] matches@[j]).0 < i,
                    decreases lines@.len() - i,
                {
                    assert(all[i as int] == lines@[i as int]@);
                    scan_line(&query, i, lines, &mut matches);
                    i = i + 1;
                }
            }
        }
        self.matches = matches;
        self.current = match prev {
            Some(m) => match find_line_match(&self.matches, m) {
                Some(i) => i,
                None => nearest_line_idx(&self.matches, m.0),
            },
            None => 0,
        };
    }

    /// Go `delta` matches on, around the ends.
    pub fn step(&mut self, delta: i32)
        ensures
            final(self)@ == line_stepped_on(old(self)@, delta as int),
    {
        let n = self.matches.len();
        if n > 0 {
            self.current = step_index(self.current, delta, n);
        }
    }
}

// ---- what a search is for ----

/// A match covers the columns of its text: it begins after the columns of what
/// stands before it, and takes up as many as its text, but at least one.
pub proof fn law_match_covers_its_text(row: usize, text: Seq<char>, span: (usize, usize))
    requires
        display_width(piece(text, 0, span.0 as int)) + display_width(
            piece(text, span.0 as int, span.1 as int),
        ) < 65535,
    ensures
        ({
            let m = match_at(row, text, span);
            let width = display_width(piece(text, span.0 as int, span.1 as int));
            &&& m.row == row
            &&& m.col_start == display_width(piece(text, 0, span.0 as int))
            &&& m.col_end - m.col_start == vstd::math::max(width as int, 1)
        }),
{
}

/// A row has a match for each place at which the query is found in it, in order.
pub proof fn law_row_has_a_match_for_each_place(
    query: Seq<char>,
    row: usize,
    text: Seq<char>,
    i: int,
)
    ensures
        row_matches(query, row, text).len() == found_spans(query, text).len(),
        0 <= i < found_spans(query, text).len() ==> row_matches(query, row, text)[i] == match_at(
            row,
            text,
            found_spans(query, text)[i],
        ),
{
}

/// An empty query finds nothing, and neither does one that cannot be sought; any
/// other is sought in every row.
pub proof fn law_queries_search_every_row(query: Seq<char>, rows: Seq<Seq<char>>, r: int)
    requires
        rows.len() <= usize::MAX,
    ensures
        query.len() == 0 || !can_seek(query) ==> log_matches(query, rows).len() == 0,
        query.len() > 0 && can_seek(query) && 0 <= r < rows.len() ==> log_matches(
            query,
            rows,
        ).filter(|m: Match| m.row == r) == row_matches(query, r as usize, rows[r]),
{
    if query.len() > 0 && can_seek(query) && 0 <= r < rows.len() {
        law_every_row_is_searched_once(query, rows, r, rows.len() as int);
    }
}

/// The match that is picked is nearest in rows, counted up or down, and the last
/// of those that are.
pub proof fn law_picked_match_is_nearest_in_rows(matches: Seq<Match>, row: usize, j: int)
    requires
        forall|a: int, b: int|
            0 <= a <= b < matches.len() ==> (#[trigger] matches[a]).row <= (
            #[trigger] matches[b]).row,
        0 <= j < matches.len(),
    ensures
        ({
            let picked = nearest_upto(matches, row, matches.len() as int);
            let near = vstd::math::abs(matches[picked].row as int - row as int);
            let other = vstd::math::abs(matches[j].row as int - row as int);
            &&& 0 <= picked < matches.len()
            &&& near <= other
            &&& near == other ==> j <= picked
        }),
{
    law_nearest_is_nearest(matches, row, j);
}

/// A row comes into the middle of the view, unless that would scroll past the
/// newest row or the oldest.
pub proof fn law_row_comes_into_the_middle(total: int, screen_rows: int, row: int)
    requires
        0 <= total,
        0 < screen_rows,
        0 <= row < total + screen_rows,
    ensures
        ({
            let offset = centered(total, screen_rows, row);
            let top = total - offset;
            &&& 0 < offset < total ==> row - top == screen_rows / 2
            &&& offset == 0 && total > 0 ==> row >= total + screen_rows / 2
            &&& offset == total && total > 0 ==> row <= screen_rows / 2
        }),
{
}

/// A step leads to the next match and from the last to the first; a step back
/// the other way. Steps add up, and an index past the end counts as the last.
pub proof fn law_steps_lead_to_the_next(current: usize, a: int, b: int, n: nat)
    requires
        0 < n <= usize::MAX,
    ensures
        current < n - 1 ==> stepped(current, 1, n) == current + 1,
        current >= n - 1 ==> stepped(current, 1, n) == 0,
        0 < current < n ==> stepped(current, -1, n) == current - 1,
        current == 0 ==> stepped(current, -1, n) == n - 1,
        current >= n ==> stepped(current, a, n) == stepped((n - 1) as usize, a, n),
        0 <= stepped(current, a, n) < n,
        stepped(stepped(current, a, n) as usize, b, n) == stepped(current, a + b, n),
{
    let m = n as int;
    let from = if current < n {
        current as int
    } else {
        n - 1
    };
    if from < m - 1 {
        vstd::arithmetic::div_mod::lemma_small_mod((from + 1) as nat, n);
    } else {
        vstd::arithmetic::div_mod::lemma_mod_self_0(m);
    }
    if from > 0 {
        vstd::arithmetic::div_mod::lemma_small_mod((from - 1) as nat, n);
    } else {
        vstd::arithmetic::div_mod::lemma_mod_multiples_vanish(1, -1, m);
        vstd::arithmetic::div_mod::lemma_small_mod((m - 1) as nat, n);
        assert((m * 1 + -1) % m == (-1int) % m);
        assert(m * 1 + -1 == m - 1) by (nonlinear_arith);
    }
    let there = (from + a) % m;
    vstd::arithmetic::div_mod::lemma_fundamental_div_mod(from + a, m);
    let q = (from + a) / m;
    assert(from + a + b == (there + b) + m * q);
    vstd::arithmetic::div_mod::lemma_mod_multiples_vanish(q, there + b, m);
    assert(0 <= there < m);
}

/// Stepping changes nothing but which match is at hand, and nothing at all where
/// there is none.
pub proof fn law_stepping_only_steps(log: LogModel, delta: int)
    ensures
        log.matches.len() == 0 ==> stepped_on(log, delta) == log,
        log.matches.len() > 0 ==> stepped_on(log, delta) == (LogModel {
            current: stepped(log.current, delta, log.matches.len()) as usize,
            ..log
        }),
{
}

proof fn lemma_index_of_match(matches: Seq<Match>, m: Match, n: int)
    requires
        0 <= n <= matches.len(),
    ensures
        index_of_match(matches, m, n) is Some <==> exists|i: int|
            0 <= i < n && #[trigger] matches[i] == m,
        index_of_match(matches, m, n) matches Some(k) ==> 0 <= k < n && matches[k] == m && forall|
            i: int,
        |
            0 <= i < k ==> #[trigger] matches[i] != m,
    decreases n,
{
    if n > 0 {
        lemma_index_of_match(matches, m, n - 1);
        if matches[n - 1] == m {
            assert(exists|i: int| 0 <= i < n && #[trigger] matches[i] == m);
        }
    }
}

/// The match at hand stays at hand as long as it is there. Where it is gone, the
/// nearest one takes its place, and where there was none, the newest.
pub proof fn law_match_at_hand_stays(before: Seq<Match>, current: usize, now: Seq<Match>)
    ensures
        ({
            let at = anchored(before, current, now);
            &&& current < before.len() && now.contains(before[current as int]) ==> 0 <= at
                < now.len() && now[at] == before[current as int]
            &&& current < before.len() && !now.contains(before[current as int]) ==> at
                == nearest_upto(now, before[current as int].row, now.len() as int)
            &&& current >= before.len() && now.len() > 0 ==> at == now.len() - 1
            &&& current >= before.len() && now.len() == 0 ==> at == 0
        }),
{
    if current < before.len() {
        let m = before[current as int];
        lemma_index_of_match(now, m, now.len() as int);
        if now.contains(m) {
            let i = now.index_of(m);
            assert(now[i] == m);
        }
    }
}

/// Matches are up to date exactly where the process, the query, the size and the
/// output are those that were searched. Where only the output is another, that
/// can wait.
pub proof fn law_matches_grow_stale(
    key: KeyModel,
    query: Seq<char>,
    process: u64,
    generation: u64,
    size: (u16, u16),
)
    ensures
        ({
            let same = key.process == process && key.query == query && key.rows == size.0
                && key.cols == size.1;
            let kind = staleness(Some(key), query, process, generation, size);
            &&& kind is None <==> same && key.generation == generation
            &&& kind == Some(Staleness::GenerationOnly) <==> same && key.generation != generation
            &&& kind == Some(Staleness::Changed) <==> !same
        }),
        staleness(None, query, process, generation, size) == Some(Staleness::Changed),
        STREAM_REFRESH_MS == 250,
{
}

/// A search brings the matches up to date: they are those of the query in the
/// rows that there are now. The query and the view that it remembers stay, and
/// another search right after it has nothing to do.
pub proof fn law_searching_brings_up_to_date(
    log: LogModel,
    process: u64,
    output: Output,
    now: u64,
    later: u64,
)
    requires
        log.cache_key is None,
    ensures
        ({
            let screen = shown(output.terminal);
            let after = searched_again(log, process, output, now);
            &&& after.matches == log_matches(log.query, screen_rows(screen))
            &&& after.query == log.query
            &&& after.editing == log.editing && after.active == log.active
            &&& after.saved_scrollback == log.saved_scrollback
            &&& log.query.len() > 0 ==> after.total_at_compute == screen_total(screen) as usize
            &&& after.last_recompute == Some(now)
            &&& searched_again(after, process, output, later) == after
        }),
{
}

/// The search of the details finds in every line what is there, in order, and
/// nothing for an empty query.
pub proof fn law_details_search_every_line(query: Seq<char>, lines: Seq<Seq<char>>, n: int)
    requires
        0 <= n < lines.len(),
    ensures
        query.len() == 0 || !can_seek(query) ==> detail_matches(query, lines).len() == 0,
        query.len() > 0 && can_seek(query) ==> detail_matches(query, lines) == lines_upto(
            query,
            lines,
            lines.len() as int,
        ),
        lines_upto(query, lines, 0).len() == 0,
        lines_upto(query, lines, n + 1) == lines_upto(query, lines, n) + Seq::new(
            found_spans(query, lines[n]).len(),
            |i: int| (n as usize, found_spans(query, lines[n])[i]),
        ),
{
}

proof fn lemma_index_of_line_match(matches: Seq<LineMatch>, m: LineMatch, n: int)
    requires
        0 <= n <= matches.len(),
    ensures
        index_of_line_match(matches, m, n) is Some <==> exists|i: int|
            0 <= i < n && #[trigger] matches[i] == m,
        index_of_line_match(matches, m, n) matches Some(k) ==> 0 <= k < n && matches[k] == m,
    decreases n,
{
    if n > 0 {
        lemma_index_of_line_match(matches, m, n - 1);
        if matches[n - 1] == m {
            assert(exists|i: int| 0 <= i < n && #[trigger] matches[i] == m);
        }
    }
}

proof fn lemma_nearest_line(matches: Seq<LineMatch>, line: usize, n: int, j: int)
    requires
        0 <= j < n <= matches.len(),
    ensures
        0 <= nearest_line(matches, line, n) < n,
        distance(matches[nearest_line(matches, line, n)].0, line) <= distance(matches[j].0, line),
        j < nearest_line(matches, line, n) ==> distance(
            matches[nearest_line(matches, line, n)].0,
            line,
        ) < distance(matches[j].0, line),
    decreases n,
{
    if n > 1 {
        if j < n - 1 {
            lemma_nearest_line(matches, line, n - 1, j);
        } else {
            lemma_nearest_line(matches, line, n - 1, 0);
        }
    }
}

/// The match at hand in the details stays at hand as long as it is there. Where
/// it is gone, the nearest one takes its place, the first of those that are
/// equally near, and where there was none, the first.
pub proof fn law_line_at_hand_stays(
    before: Seq<LineMatch>,
    current: usize,
    now: Seq<LineMatch>,
    j: int,
)
    ensures
        ({
            let at = anchored_line(before, current, now);
            &&& current < before.len() && now.contains(before[current as int]) ==> 0 <= at
                < now.len() && now[at] == before[current as int]
            &&& current < before.len() && !now.contains(before[current as int]) && 0 <= j
                < now.len() ==> {
                let line = before[current as int].0 as int;
                let near = vstd::math::abs(now[at].0 as int - line);
                let other = vstd::math::abs(now[j].0 as int - line);
                &&& 0 <= at < now.len()
                &&& near <= other
                &&& near == other ==> at <= j
            }
            &&& current >= before.len() ==> at == 0
        }),
{
    if current < before.len() {
        let m = before[current as int];
        lemma_index_of_line_match(now, m, now.len() as int);
        if now.contains(m) {
            let i = now.index_of(m);
            assert(now[i] == m);
        } else if 0 <= j < now.len() {
            lemma_nearest_line(now, m.0, now.len() as int, j);
        }
    }
}

/// The search of the details keeps its query, and a step changes nothing but
/// which match is at hand.
pub proof fn law_details_search_keeps_its_query(
    search: DetailsModel,
    lines: Seq<Seq<char>>,
    delta: int,
)
    ensures
        lines_searched(search, lines).matches == detail_matches(search.query, lines),
        lines_searched(search, lines).query == search.query,
        lines_searched(search, lines).editing == search.editing,
        lines_searched(search, lines).active == search.active,
        search.matches.len() == 0 ==> line_stepped_on(search, delta) == search,
        search.matches.len() > 0 ==> line_stepped_on(search, delta) == (DetailsModel {
            current: stepped(search.current, delta, search.matches.len()) as usize,
            ..search
        }),
{
}

/// A match at the far right ends at the last column that can be counted.
pub proof fn law_columns_end_at_the_last(start: u16, width: u16)
    ensures
        column_after(start, width) == vstd::math::min(
            start + vstd::math::max(width as int, 1),
            65535,
        ),
{
}

/// A search is made again wherever anything changed since the last time, and
/// only there.
pub proof fn law_changed_output_is_searched_again(
    log: LogModel,
    process: u64,
    output: Output,
    now: u64,
)
    ensures
        ({
            let screen = shown(output.terminal);
            let after = searched_again(log, process, output, now);
            let known = log.cache_key matches Some(key) && key.process == process && key.generation
                == output.generation && key.query == log.query && (key.rows, key.cols)
                == screen_size(screen);
            &&& known ==> after == log
            &&& !known ==> {
                &&& after.matches == log_matches(log.query, screen_rows(screen))
                &&& after.query == log.query
                &&& after.editing == log.editing && after.active == log.active
                &&& after.saved_scrollback == log.saved_scrollback
                &&& after.last_recompute == Some(now)
                &&& after.cache_key is Some
                &&& after.cache_key->0.process == process
                &&& after.cache_key->0.generation == output.generation
                &&& after.cache_key->0.query == log.query
                &&& (after.cache_key->0.rows, after.cache_key->0.cols) == screen_size(screen)
            }
        }),
{
}

} // verus!
