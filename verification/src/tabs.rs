//! The row of tabs: which of them are in view.

use vstd::prelude::*;

use crate::text::chars_of;

verus! {

/// The texts that a list of string slices holds.
pub open spec fn labels(names: Seq<&str>) -> Seq<Seq<char>> {
    Seq::new(names.len(), |i: int| names[i]@)
}

/// A number of columns, as far as columns are counted.
pub open spec fn counted(columns: int) -> int {
    if columns <= u16::MAX {
        columns
    } else {
        u16::MAX as int
    }
}

/// The columns of a tab: its name, a dot and a blank before it, and a blank on
/// either side. The length of a name counts modulo 65536.
pub open spec fn tab_columns(name: Seq<char>) -> int {
    counted(name.len() as int % 0x1_0000 + 4)
}

/// The columns of a tab.
pub fn tab_width(name: &str) -> (columns: u16)
    ensures
        columns == tab_columns(name@),
{
    let count: usize = chars_of(name).len();
    let short: u16 = (count % 0x1_0000) as u16;
    short.saturating_add(4)
}

/// The columns of the tabs `start..end`, with one column between any two.
pub open spec fn strip(names: Seq<Seq<char>>, start: int, end: int) -> int
    decreases end - start,
{
    if end <= start {
        0
    } else if end == start + 1 {
        tab_columns(names[start])
    } else {
        strip(names, start, end - 1) + 1 + tab_columns(names[end - 1])
    }
}

/// Whether the tabs `start..end` fit into some columns.
pub open spec fn fits(names: Seq<Seq<char>>, start: int, end: int, width: u16) -> bool {
    counted(strip(names, start, end)) <= width
}

/// The greatest end, at most `end`, with which the tabs from `start` on fit; one
/// tab is always in view.
pub open spec fn last_fitting(names: Seq<Seq<char>>, start: int, end: int, width: u16) -> int
    decreases end - start,
{
    if end <= start + 1 {
        start + 1
    } else if fits(names, start, end, width) {
        end
    } else {
        last_fitting(names, start, end - 1, width)
    }
}

/// The end of the tabs in view, where `start` is the first of them.
pub open spec fn view_end(names: Seq<Seq<char>>, start: int, width: u16) -> int {
    last_fitting(names, start, names.len() as int, width)
}

proof fn lemma_strip_grows(names: Seq<Seq<char>>, start: int, a: int, b: int)
    requires
        0 <= start <= a <= b <= names.len(),
    ensures
        0 <= strip(names, start, a) <= strip(names, start, b),
    decreases b - start,
{
    if start < a && a < b {
        lemma_strip_grows(names, start, a, b - 1);
    } else if start == a && a < b {
        lemma_strip_grows(names, start, a, b - 1);
    } else if start < a {
        lemma_strip_grows(names, start, a - 1, b - 1);
    }
}

proof fn lemma_last_fitting(names: Seq<Seq<char>>, start: int, end: int, width: u16, n: int)
    requires
        0 <= start < end <= n <= names.len(),
        end > start + 1 ==> fits(names, start, end, width),
        end < n ==> !fits(names, start, end + 1, width),
    ensures
        last_fitting(names, start, n, width) == end,
    decreases n - end,
{
    if end < n {
        lemma_strip_grows(names, start, end + 1, n);
        lemma_last_fitting(names, start, end, width, n - 1);
    }
}

/// Which tabs are in view where the first is at `offset`.
pub fn visible_tab_range(names: &[&str], offset: usize, available_width: u16) -> (range: (
    usize,
    usize,
))
    ensures
        names@.len() == 0 ==> range == (0usize, 0usize),
        names@.len() > 0 ==> {
            &&& range.0 == (if offset < names@.len() {
                offset as int
            } else {
                names@.len() - 1
            })
            &&& range.1 == view_end(labels(names@), range.0 as int, available_width)
            &&& range.0 < range.1 <= names@.len()
        },
{
    let n = names.len();
    if n == 0 {
        return (0, 0);
    }
    let ghost all = labels(names@);
    let start: usize = if offset < n {
        offset
    } else {
        n - 1
    };
    let mut used: u16 = 0;
    let mut end: usize = start;
    while end < n
        invariant_except_break
            start <= end <= n,
            n == names@.len(),
            all == labels(names@),
            used == counted(strip(all, start as int, end as int)),
            end > start ==> fits(all, start as int, end as int, available_width),
        ensures
            start <= end <= n,
            end > start ==> fits(all, start as int, end as int, available_width),
            end < n ==> !fits(all, start as int, end + 1, available_width),
        decreases n - end,
    {
        assert(all[end as int] == names@[end as int]@);
        let mut needed: u16 = tab_width(names[end]);
        if end > start {
            needed = needed.saturating_add(1);
        }
        proof {
            lemma_strip_grows(all, start as int, start as int, end as int);
        }
        assert(counted(strip(all, start as int, end + 1)) == counted(used + needed));
        if used.saturating_add(needed) > available_width {
            break;
        }
        used = used.saturating_add(needed);
        end = end + 1;
    }
    if end == start {
        end = start + 1;
        proof {
            if start + 1 < n {
                lemma_strip_grows(all, start as int, start + 1, start + 2);
            }
        }
    }
    proof {
        lemma_last_fitting(all, start as int, end as int, available_width, n as int);
    }
    (start, end)
}

/// The first offset, from `offset` on, that has a tab in view.
pub open spec fn first_showing(
    names: Seq<Seq<char>>,
    selected: int,
    offset: int,
    width: u16,
) -> int
    decreases selected - offset,
{
    if offset >= selected || selected < view_end(names, offset, width) {
        offset
    } else {
        first_showing(names, selected, offset + 1, width)
    }
}

/// Where the tabs in view begin, so that the selected one is among them: at
/// `offset` if that will do, at the selected tab if it stands before, and else
/// as little further as will do.
pub open spec fn adjusted(names: Seq<Seq<char>>, selected: int, offset: int, width: u16) -> int {
    if names.len() == 0 || width == 0 {
        0
    } else {
        let tab = if selected < names.len() {
            selected
        } else {
            names.len() - 1
        };
        if offset > tab {
            tab
        } else {
            first_showing(names, tab, offset, width)
        }
    }
}

/// Where the tabs in view begin, so that the selected one is among them.
pub fn adjust_tab_offset(
    names: &[&str],
    selected: usize,
    offset: usize,
    available_width: u16,
) -> (adjusted_offset: usize)
    ensures
        adjusted_offset == adjusted(
            labels(names@),
            selected as int,
            offset as int,
            available_width,
        ),
        names@.len() > 0 ==> adjusted_offset < names@.len(),
{
    let n = names.len();
    if n == 0 || available_width == 0 {
        return 0;
    }
    let ghost all = labels(names@);
    let tab: usize = if selected < n {
        selected
    } else {
        n - 1
    };
    if offset > tab {
        return tab;
    }
    let mut at: usize = offset;
    loop
        invariant
            offset <= at <= tab < n,
            n == names@.len(),
            tab == (if selected < n {
                selected as int
            } else {
                n - 1
            }),
            available_width != 0,
            all == labels(names@),
            first_showing(all, tab as int, offset as int, available_width) == first_showing(
                all,
                tab as int,
                at as int,
                available_width,
            ),
        decreases tab - at,
    {
        let (start, end) = visible_tab_range(names, at, available_width);
        if tab < end || start == tab {
            return at;
        }
        at = at + 1;
    }
}

/// The selected tab is in view, whatever the offset was.
pub proof fn law_selected_tab_is_in_view(
    names: Seq<Seq<char>>,
    selected: int,
    offset: int,
    width: u16,
)
    requires
        0 <= selected < names.len(),
        0 <= offset,
        0 < width,
    ensures
        0 <= adjusted(names, selected, offset, width) <= selected < view_end(
            names,
            adjusted(names, selected, offset, width),
            width,
        ) <= names.len(),
    decreases selected - offset,
{
    let at = adjusted(names, selected, offset, width);
    if offset < selected && selected >= view_end(names, offset, width) {
        law_selected_tab_is_in_view(names, selected, offset + 1, width);
    } else {
        lemma_view_end(names, at, names.len() as int, width);
    }
}

proof fn lemma_view_end(names: Seq<Seq<char>>, start: int, end: int, width: u16)
    requires
        0 <= start < end,
    ensures
        start < last_fitting(names, start, end, width) <= end,
    decreases end - start,
{
    if end > start + 1 {
        lemma_view_end(names, start, end - 1, width);
    }
}

/// An offset that has the selected tab in view is kept.
pub proof fn law_offset_is_kept(names: Seq<Seq<char>>, selected: int, offset: int, width: u16)
    requires
        0 <= offset <= selected < names.len(),
        0 < width,
        selected < view_end(names, offset, width),
    ensures
        adjusted(names, selected, offset, width) == offset,
{
}

/// As many tabs are in view as fit: those in view fit, unless it is a single
/// one, and one more would not.
pub proof fn law_view_is_full(names: Seq<Seq<char>>, start: int, width: u16)
    requires
        0 <= start < names.len(),
    ensures
        view_end(names, start, width) > start + 1 ==> fits(
            names,
            start,
            view_end(names, start, width),
            width,
        ),
        view_end(names, start, width) < names.len() ==> !fits(
            names,
            start,
            view_end(names, start, width) + 1,
            width,
        ),
{
    lemma_view_is_full(names, start, names.len() as int, width);
}

proof fn lemma_view_is_full(names: Seq<Seq<char>>, start: int, end: int, width: u16)
    requires
        0 <= start < end,
    ensures
        last_fitting(names, start, end, width) > start + 1 ==> fits(
            names,
            start,
            last_fitting(names, start, end, width),
            width,
        ),
        last_fitting(names, start, end, width) < end ==> !fits(
            names,
            start,
            last_fitting(names, start, end, width) + 1,
            width,
        ),
    decreases end - start,
{
    if end > start + 1 {
        lemma_view_is_full(names, start, end - 1, width);
    }
}

/// A tab is four columns wider than its name has characters.
pub proof fn law_tab_is_as_wide_as_its_name(name: Seq<char>)
    requires
        name.len() <= 65531,
    ensures
        tab_columns(name) == name.len() + 4,
{
}

/// Tabs next to each other take up their columns and one between any two.
pub proof fn law_strip_adds_up(names: Seq<Seq<char>>, start: int, end: int)
    requires
        start < end,
    ensures
        strip(names, start, start) == 0,
        strip(names, start, start + 1) == tab_columns(names[start]),
        strip(names, start, end + 1) == strip(names, start, end) + 1 + tab_columns(names[end]),
{
}

/// Tabs fit exactly where their columns are no more than there are.
pub proof fn law_tabs_fit_by_their_columns(
    names: Seq<Seq<char>>,
    start: int,
    end: int,
    width: u16,
)
    requires
        width < 65535,
    ensures
        fits(names, start, end, width) <==> strip(names, start, end) <= width,
{
}

/// The tabs in view move no further than they have to: not at all where the
/// selected tab is in view, to the selected tab where it stands before them, and
/// else to the first place that has it in view.
pub proof fn law_view_moves_no_further(
    names: Seq<Seq<char>>,
    selected: int,
    offset: int,
    width: u16,
    between: int,
)
    requires
        0 <= selected < names.len(),
        0 <= offset,
        0 < width,
    ensures
        ({
            let at = adjusted(names, selected, offset, width);
            &&& offset > selected ==> at == selected
            &&& offset <= selected ==> offset <= at <= selected
            &&& offset <= between < at ==> selected >= view_end(names, between, width)
        }),
{
    if offset <= selected {
        lemma_first_showing(names, selected, offset, width, between);
    }
}

proof fn lemma_first_showing(
    names: Seq<Seq<char>>,
    selected: int,
    offset: int,
    width: u16,
    between: int,
)
    requires
        offset <= selected,
    ensures
        offset <= first_showing(names, selected, offset, width) <= selected,
        offset <= between < first_showing(names, selected, offset, width) ==> selected >= view_end(
            names,
            between,
            width,
        ),
    decreases selected - offset,
{
    if offset < selected && selected >= view_end(names, offset, width) {
        lemma_first_showing(names, selected, offset + 1, width, between);
    }
}

} // verus!
