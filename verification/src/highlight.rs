//! Marking matches: in the lines of the details, and in the rows of the output.

use vstd::prelude::*;
use vstd::utf8::{encode_utf8, is_char_boundary};

use crate::search::Match;
use crate::style::{Color, Line, Span, Style};
#[allow(unused_imports)]
use crate::style::{flat, on, span, span_models, SpanModel};
#[allow(unused_imports)]
use crate::text::piece;
use crate::text::piece_of;

verus! {

/// How a match is drawn: the one at hand stands out.
pub open spec fn match_style(current: bool) -> Style {
    if current {
        on(Color::Black, Color::Yellow)
    } else {
        on(Color::White, Color::DarkGray)
    }
}

/// How a match is drawn.
pub fn style_of_match(current: bool) -> (style: Style)
    ensures
        style == match_style(current),
{
    if current {
        Style::color_on(Color::Black, Color::Yellow)
    } else {
        Style::color_on(Color::White, Color::DarkGray)
    }
}

// ---- lines ----

/// Bytes of a line to mark, and whether they are the match at hand.
pub type Mark = ((usize, usize), bool);

/// The number of bytes of a text.
pub open spec fn byte_len(text: Seq<char>) -> int {
    encode_utf8(text).len() as int
}

/// Where a mark begins and ends within a span that begins at `start`; nothing
/// of it is in the span where the end is not after the beginning.
pub open spec fn clipped(mark: Mark, start: int, len: int) -> (int, int) {
    (
        if mark.0.0 >= start {
            mark.0.0 - start
        } else {
            0
        },
        if mark.0.1 <= start + len {
            mark.0.1 - start
        } else {
            len
        },
    )
}

/// What a span is cut into by the first `k` marks, and how far that reaches.
pub open spec fn cut_upto(s: SpanModel, start: int, marks: Seq<Mark>, k: int) -> (
    Seq<SpanModel>,
    int,
)
    decreases k,
{
    if k <= 0 {
        (Seq::empty(), 0)
    } else {
        let (out, cursor) = cut_upto(s, start, marks, k - 1);
        let (a, b) = clipped(marks[k - 1], start, byte_len(s.text));
        if a >= b {
            (out, cursor)
        } else {
            let lead = if a > cursor {
                out.push(span(piece(s.text, cursor, a), s.style))
            } else {
                out
            };
            (lead.push(span(piece(s.text, a, b), match_style(marks[k - 1].1))), b)
        }
    }
}

/// What a span is cut into by all marks: the marked pieces in the style of
/// matches, and what is between them in the style that it had.
pub open spec fn cut(s: SpanModel, start: int, marks: Seq<Mark>) -> Seq<SpanModel> {
    let (out, cursor) = cut_upto(s, start, marks, marks.len() as int);
    if cursor < byte_len(s.text) {
        out.push(span(piece(s.text, cursor, byte_len(s.text)), s.style))
    } else {
        out
    }
}

/// The first `n` spans, cut by the marks.
pub open spec fn marked_upto(spans: Seq<SpanModel>, marks: Seq<Mark>, n: int) -> Seq<SpanModel>
    decreases n,
{
    if n <= 0 {
        Seq::empty()
    } else {
        marked_upto(spans, marks, n - 1) + cut(
            spans[n - 1],
            byte_len(flat(spans.take(n - 1))),
            marks,
        )
    }
}

/// A line with its matches marked.
pub open spec fn marked(spans: Seq<SpanModel>, marks: Seq<Mark>) -> Seq<SpanModel> {
    marked_upto(spans, marks, spans.len() as int)
}

/// Whether marks are pieces of a text, one after the other.
pub open spec fn marks_fit(marks: Seq<Mark>, text: Seq<char>) -> bool {
    &&& forall|i: int|
        0 <= i < marks.len() ==> (#[trigger] marks[i]).0.0 <= marks[i].0.1 <= byte_len(text)
    &&& forall|i: int|
        0 <= i < marks.len() ==> is_char_boundary(
            encode_utf8(text),
            (#[trigger] marks[i]).0.0 as int,
        ) && is_char_boundary(encode_utf8(text), marks[i].0.1 as int)
    &&& forall|i: int, j: int|
        0 <= i < j < marks.len() ==> (#[trigger] marks[i]).0.1 <= (#[trigger] marks[j]).0.0
}

pub proof fn lemma_encode_concat(a: Seq<char>, b: Seq<char>)
    ensures
        encode_utf8(a + b) == encode_utf8(a) + encode_utf8(b),
    decreases a.len(),
{
    if a.len() == 0 {
        assert(a + b =~= b);
        assert(encode_utf8(a) + encode_utf8(b) =~= encode_utf8(b));
    } else {
        assert((a + b).drop_first() =~= a.drop_first() + b);
        lemma_encode_concat(a.drop_first(), b);
        assert(encode_utf8(a + b) =~= encode_utf8(a) + encode_utf8(b));
    }
}

/// A place between characters of a text is one of the part that it lies in.
proof fn lemma_boundary_within(before: Seq<char>, part: Seq<char>, after: Seq<char>, p: int)
    requires
        byte_len(before) <= p <= byte_len(before) + byte_len(part),
        is_char_boundary(encode_utf8(before + part + after), p),
    ensures
        is_char_boundary(encode_utf8(part), p - byte_len(before)),
{
    let whole = encode_utf8(before + part + after);
    let inner = encode_utf8(part);
    let at = p - byte_len(before);
    lemma_encode_concat(before + part, after);
    lemma_encode_concat(before, part);
    vstd::utf8::encode_utf8_valid_utf8(before + part + after);
    vstd::utf8::encode_utf8_valid_utf8(part);
    vstd::utf8::is_char_boundary_start_end_of_seq(inner);
    if at < inner.len() {
        assert(whole[p] == inner[at]);
        vstd::utf8::is_char_boundary_iff_not_is_continuation_byte(whole, p);
        vstd::utf8::is_char_boundary_iff_not_is_continuation_byte(inner, at);
    }
}

proof fn lemma_flat_split(spans: Seq<SpanModel>, n: int)
    requires
        0 <= n <= spans.len(),
    ensures
        flat(spans) == flat(spans.take(n)) + flat(spans.skip(n)),
    decreases spans.len() - n,
{
    if n == spans.len() {
        assert(spans.take(n) =~= spans);
        assert(spans.skip(n) =~= Seq::<SpanModel>::empty());
        assert(flat(spans) + Seq::<char>::empty() =~= flat(spans));
    } else {
        lemma_flat_split(spans, n + 1);
        assert(spans.take(n + 1).drop_last() =~= spans.take(n));
        lemma_flat_first(spans.skip(n));
        assert(spans.skip(n).drop_first() =~= spans.skip(n + 1));
        assert(flat(spans.take(n)) + spans[n].text + flat(spans.skip(n + 1)) =~= flat(
            spans.take(n),
        ) + (spans[n].text + flat(spans.skip(n + 1))));
    }
}

proof fn lemma_flat_first(spans: Seq<SpanModel>)
    requires
        spans.len() > 0,
    ensures
        flat(spans) == spans[0].text + flat(spans.drop_first()),
    decreases spans.len(),
{
    if spans.len() == 1 {
        assert(spans.drop_last() =~= Seq::<SpanModel>::empty());
        assert(spans.drop_first() =~= Seq::<SpanModel>::empty());
        assert(flat(spans) =~= spans[0].text + flat(spans.drop_first()));
    } else {
        lemma_flat_first(spans.drop_last());
        assert(spans.drop_last().drop_first() =~= spans.drop_first().drop_last());
        assert(flat(spans) =~= spans[0].text + flat(spans.drop_first()));
    }
}

fn cut_span(s: &Span, start: usize, marks: &[Mark], out: &mut Vec<Span>, Ghost(context): Ghost<
    (Seq<char>, Seq<char>),
>)
    requires
        byte_len(context.0) == start,
        start + byte_len(s.content@) <= usize::MAX,
        marks_fit(marks@, context.0 + s.content@ + context.1),
    ensures
        span_models(final(out)@) == span_models(old(out)@) + cut(s@, start as int, marks@),
{
    let ghost before = span_models(out@);
    let text = s.content.as_str();
    let len: usize = text.as_bytes().len();
    let ghost whole = context.0 + s.content@ + context.1;
    let mut cursor: usize = 0;
    let mut k: usize = 0;
    proof {
        vstd::utf8::encode_utf8_valid_utf8(text@);
        vstd::utf8::is_char_boundary_start_end_of_seq(encode_utf8(text@));
        assert(before + Seq::<SpanModel>::empty() =~= before);
    }
    while k < marks.len()
        invariant
            k <= marks@.len(),
            text@ == s.content@,
            len == byte_len(s.content@),
            byte_len(context.0) == start,
            start + len <= usize::MAX,
            whole == context.0 + s.content@ + context.1,
            marks_fit(marks@, whole),
            span_models(out@) == before + cut_upto(s@, start as int, marks@, k as int).0,
            cursor == cut_upto(s@, start as int, marks@, k as int).1,
            cursor <= len,
            is_char_boundary(encode_utf8(text@), cursor as int),
            cursor > 0 ==> forall|i: int|
                k <= i < marks@.len() ==> start + cursor <= (#[trigger] marks@[i]).0.0,
        decreases marks@.len() - k,
    {
        let ghost now = span_models(out@);
        let ghost done = cut_upto(s@, start as int, marks@, k as int).0;
        let ((from, to), current) = marks[k];
        let a: usize = if from >= start {
            from - start
        } else {
            0
        };
        let b: usize = if to <= start {
            0
        } else if to - start <= len {
            to - start
        } else {
            len
        };
        assert(a < b ==> clipped(marks@[k as int], start as int, len as int) == (
            a as int,
            b as int,
        ));
        assert(a >= b ==> clipped(marks@[k as int], start as int, len as int).0 >= clipped(
            marks@[k as int],
            start as int,
            len as int,
        ).1);
        if a < b {
            proof {
                vstd::utf8::encode_utf8_valid_utf8(text@);
                vstd::utf8::is_char_boundary_start_end_of_seq(encode_utf8(text@));
                if from >= start {
                    lemma_boundary_within(context.0, text@, context.1, from as int);
                }
                if to - start <= len {
                    lemma_boundary_within(context.0, text@, context.1, to as int);
                }
            }
            if a > cursor {
                out.push(Span::styled(piece_of(text, cursor, a), s.style));
                assert(span_models(out@) =~= now.push(
                    span(piece(text@, cursor as int, a as int), s.style),
                ));
            }
            let ghost lead = span_models(out@);
            out.push(Span::styled(piece_of(text, a, b), style_of_match(current)));
            assert(span_models(out@) =~= lead.push(
                span(piece(text@, a as int, b as int), match_style(current)),
            ));
            cursor = b;
        }
        assert(span_models(out@) =~= before + cut_upto(s@, start as int, marks@, k + 1).0);
        k = k + 1;
    }
    let ghost now = span_models(out@);
    if cursor < len {
        proof {
            vstd::utf8::encode_utf8_valid_utf8(text@);
            vstd::utf8::is_char_boundary_start_end_of_seq(encode_utf8(text@));
        }
        out.push(Span::styled(piece_of(text, cursor, len), s.style));
        assert(span_models(out@) =~= now.push(
            span(piece(text@, cursor as int, len as int), s.style),
        ));
    }
    assert(span_models(out@) =~= before + cut(s@, start as int, marks@));
}

/// Mark the matches of a line: their bytes, counted in the text of the whole
/// line, are drawn in the style of matches.
pub fn highlight_line(line: &Line, marks: &[Mark]) -> (res: Line)
    requires
        byte_len(flat(line@)) <= usize::MAX,
        marks_fit(marks@, flat(line@)),
    ensures
        res@ == marked(line@, marks@),
{
    let mut out: Vec<Span> = Vec::new();
    let ghost all = line@;
    let mut start: usize = 0;
    let mut i: usize = 0;
    proof {
        assert(all.take(0) =~= Seq::<SpanModel>::empty());
        assert(encode_utf8(flat(all.take(0))) =~= Seq::<u8>::empty());
        assert(span_models(out@) =~= Seq::<SpanModel>::empty());
    }
    while i < line.spans.len()
        invariant
            i <= line.spans@.len(),
            all == line@,
            byte_len(flat(all)) <= usize::MAX,
            marks_fit(marks@, flat(all)),
            start == byte_len(flat(all.take(i as int))),
            span_models(out@) == marked_upto(all, marks@, i as int),
        decreases line.spans@.len() - i,
    {
        let ghost before = flat(all.take(i as int));
        let ghost after = flat(all.skip(i + 1));
        let ghost part = all[i as int].text;
        proof {
            assert(all[i as int] == line.spans@[i as int]@);
            assert(all.take(i + 1).drop_last() =~= all.take(i as int));
            lemma_flat_split(all, i + 1);
            lemma_encode_concat(before + part, after);
            lemma_encode_concat(before, part);
        }
        cut_span(&line.spans[i], start, marks, &mut out, Ghost((before, after)));
        start = start + line.spans[i].content.as_str().as_bytes().len();
        i = i + 1;
    }
    Line { spans: out }
}

/// Marking changes how a line looks, not what it says.
pub proof fn law_marking_keeps_the_text(spans: Seq<SpanModel>, marks: Seq<Mark>)
    requires
        marks_fit(marks, flat(spans)),
    ensures
        flat(marked(spans, marks)) == flat(spans),
{
    lemma_marked_flat(spans, marks, spans.len() as int);
    assert(spans.take(spans.len() as int) =~= spans);
}

proof fn lemma_marked_flat(spans: Seq<SpanModel>, marks: Seq<Mark>, n: int)
    requires
        0 <= n <= spans.len(),
        marks_fit(marks, flat(spans)),
    ensures
        flat(marked_upto(spans, marks, n)) == flat(spans.take(n)),
    decreases n,
{
    if n > 0 {
        lemma_marked_flat(spans, marks, n - 1);
        let start = byte_len(flat(spans.take(n - 1)));
        let pieces = cut(spans[n - 1], start, marks);
        lemma_flat_split(spans, n);
        assert(spans.take(n).drop_last() =~= spans.take(n - 1));
        lemma_cut_flat(
            spans[n - 1],
            flat(spans.take(n - 1)),
            flat(spans.skip(n)),
            marks,
            marks.len() as int,
        );
        lemma_flat_concat(marked_upto(spans, marks, n - 1), pieces);
    } else {
        assert(spans.take(n) =~= Seq::<SpanModel>::empty());
    }
}

proof fn lemma_flat_concat(a: Seq<SpanModel>, b: Seq<SpanModel>)
    ensures
        flat(a + b) == flat(a) + flat(b),
{
    lemma_flat_split(a + b, a.len() as int);
    assert((a + b).take(a.len() as int) =~= a);
    assert((a + b).skip(a.len() as int) =~= b);
}

proof fn lemma_cut_flat(
    s: SpanModel,
    before: Seq<char>,
    after: Seq<char>,
    marks: Seq<Mark>,
    k: int,
)
    requires
        0 <= k <= marks.len(),
        marks_fit(marks, before + s.text + after),
    ensures
        ({
            let (out, cursor) = cut_upto(s, byte_len(before), marks, k);
            &&& 0 <= cursor <= byte_len(s.text)
            &&& is_char_boundary(encode_utf8(s.text), cursor)
            &&& cursor > 0 ==> forall|i: int|
                k <= i < marks.len() ==> byte_len(before) + cursor <= (#[trigger] marks[i]).0.0
            &&& flat(out) == piece(s.text, 0, cursor)
        }),
        k == marks.len() ==> flat(cut(s, byte_len(before), marks)) == s.text,
    decreases k,
{
    let bytes = encode_utf8(s.text);
    let start = byte_len(before);
    let (out, cursor) = cut_upto(s, start, marks, k);
    vstd::utf8::encode_utf8_valid_utf8(s.text);
    vstd::utf8::is_char_boundary_start_end_of_seq(bytes);
    if k > 0 {
        lemma_cut_flat(s, before, after, marks, k - 1);
        let (earlier, reached) = cut_upto(s, start, marks, k - 1);
        let mark = marks[k - 1];
        let (a, b) = clipped(mark, start, byte_len(s.text));
        if a < b {
            if mark.0.0 >= start {
                lemma_boundary_within(before, s.text, after, mark.0.0 as int);
            }
            if mark.0.1 <= start + byte_len(s.text) {
                lemma_boundary_within(before, s.text, after, mark.0.1 as int);
            }
            lemma_pieces_join(s.text, reached, a);
            lemma_pieces_join(s.text, a, b);
            let lead = if a > reached {
                earlier.push(span(piece(s.text, reached, a), s.style))
            } else {
                earlier
            };
            assert(lead.push(
                span(piece(s.text, a, b), match_style(mark.1)),
            ).drop_last() =~= lead);
            if a > reached {
                assert(lead.drop_last() =~= earlier);
            }
            assert(flat(lead) == piece(s.text, 0, a));
        }
    } else {
        assert(bytes.subrange(0, 0) =~= Seq::<u8>::empty());
        reveal_with_fuel(vstd::utf8::decode_utf8, 2);
        assert(piece(s.text, 0, 0) =~= Seq::<char>::empty());
    }
    if k == marks.len() {
        lemma_pieces_join(s.text, cursor, bytes.len() as int);
        assert(bytes.subrange(0, bytes.len() as int) =~= bytes);
        vstd::utf8::encode_utf8_decode_utf8(s.text);
        if cursor < bytes.len() {
            let all = out.push(span(piece(s.text, cursor, bytes.len() as int), s.style));
            assert(all.drop_last() =~= out);
            assert(all.last().text == piece(s.text, cursor, bytes.len() as int));
            assert(flat(all) == flat(out) + all.last().text);
            assert(cut(s, start, marks) == all);
        } else {
            assert(cut(s, start, marks) == out);
        }
        assert(piece(s.text, 0, bytes.len() as int) == s.text);
    }
}

proof fn lemma_pieces_join(text: Seq<char>, a: int, b: int)
    requires
        0 <= a <= b <= byte_len(text),
        is_char_boundary(encode_utf8(text), a),
        is_char_boundary(encode_utf8(text), b),
    ensures
        piece(text, 0, a) + piece(text, a, b) == piece(text, 0, b),
{
    let bytes = encode_utf8(text);
    let front = bytes.subrange(0, b);
    vstd::utf8::encode_utf8_valid_utf8(text);
    vstd::utf8::valid_utf8_split(bytes, b);
    vstd::utf8::is_char_boundary_start_end_of_seq(front);
    if a < b {
        vstd::utf8::is_char_boundary_iff_not_is_continuation_byte(bytes, a);
        vstd::utf8::is_char_boundary_iff_not_is_continuation_byte(front, a);
        assert(front[a] == bytes[a]);
    }
    vstd::utf8::decode_utf8_split(front, a);
    assert(front.subrange(0, a) =~= bytes.subrange(0, a));
    assert(front.subrange(a, front.len() as int) =~= bytes.subrange(a, b));
}

// ---- rows of the output ----

/// A part of the screen.
#[derive(Clone, Copy, Debug, PartialEq, Eq, Structural)]
pub struct Area {
    pub x: u16,
    pub y: u16,
    pub width: u16,
    pub height: u16,
}

impl Area {
    /// Whether the area is one of a screen: its far corner has coordinates too.
    pub open spec fn wf(self) -> bool {
        self.x + self.width <= u16::MAX && self.y + self.height <= u16::MAX
    }
}

/// Cells of the screen to draw as a match.
#[derive(Clone, Copy, Debug, PartialEq, Eq, Structural)]
pub struct Highlight {
    pub x: u16,
    pub y: u16,
    pub width: u16,
    /// Whether this is the match at hand.
    pub current: bool,
}

/// A column, at most the last of some width.
pub open spec fn up_to(col: u16, width: int) -> int {
    if col <= width {
        col as int
    } else {
        width
    }
}

/// The cells of a match in a bordered area whose first row shows row `top` of
/// the output, where any of them is in view.
pub open spec fn cells_of(m: Match, current: bool, top: int, area: Area) -> Option<Highlight> {
    let width = area.width - 2;
    let from = up_to(m.col_start, width);
    let to = up_to(m.col_end, width);
    if area.width > 2 && area.height > 2 && top <= m.row < top + area.height - 2 && from < to {
        Some(
            Highlight {
                x: (area.x + 1 + from) as u16,
                y: (area.y + 1 + m.row - top) as u16,
                width: (to - from) as u16,
                current,
            },
        )
    } else {
        None
    }
}

/// The cells of the first `n` matches that are in view.
pub open spec fn cells_upto(matches: Seq<Match>, current: usize, top: int, area: Area, n: int) -> Seq<
    Highlight,
>
    decreases n,
{
    if n <= 0 {
        Seq::empty()
    } else {
        let before = cells_upto(matches, current, top, area, n - 1);
        match cells_of(matches[n - 1], current == n - 1, top, area) {
            Some(cells) => before.push(cells),
            None => before,
        }
    }
}

fn cells(m: Match, current: bool, top: usize, area: Area) -> (found: Option<Highlight>)
    requires
        area.wf(),
    ensures
        found == cells_of(m, current, top as int, area),
{
    if area.width <= 2 || area.height <= 2 || m.row < top {
        return None;
    }
    let width: u16 = area.width - 2;
    let row: usize = m.row - top;
    if row >= (area.height - 2) as usize {
        return None;
    }
    let from: u16 = if m.col_start <= width {
        m.col_start
    } else {
        width
    };
    let to: u16 = if m.col_end <= width {
        m.col_end
    } else {
        width
    };
    if from >= to {
        return None;
    }
    Some(
        Highlight { x: area.x + 1 + from, y: area.y + 1 + row as u16, width: to - from, current },
    )
}

/// The cells to draw as matches in a bordered area that shows the output, of
/// which `total` rows have scrolled off, scrolled back by `offset` rows.
pub fn log_highlights(
    matches: &[Match],
    current: usize,
    total: usize,
    offset: usize,
    area: Area,
) -> (found: Vec<Highlight>)
    requires
        offset <= total,
        area.wf(),
    ensures
        found@ == cells_upto(
            matches@,
            current,
            total - offset,
            area,
            matches@.len() as int,
        ),
{
    let top: usize = total - offset;
    let mut found: Vec<Highlight> = Vec::new();
    let mut i: usize = 0;
    while i < matches.len()
        invariant
            i <= matches@.len(),
            area.wf(),
            top == total - offset,
            found@ == cells_upto(matches@, current, top as int, area, i as int),
        decreases matches@.len() - i,
    {
        if let Some(c) = cells(matches[i], i == current, top, area) {
            found.push(c);
        }
        i = i + 1;
    }
    found
}

/// Marked cells lie within the borders.
pub proof fn law_cells_are_within_borders(m: Match, current: bool, top: int, area: Area)
    requires
        area.wf(),
    ensures
        match cells_of(m, current, top, area) {
            Some(c) => {
                &&& area.x < c.x
                &&& 0 < c.width
                &&& c.x + c.width < area.x + area.width
                &&& area.y < c.y
                &&& c.y < area.y + area.height - 1
            },
            None => true,
        },
{
}

/// A cell of the screen is marked for a match exactly where it shows a column of
/// it, of a row that is in view within the borders.
pub proof fn law_marked_cells_show_the_match(
    m: Match,
    current: bool,
    top: int,
    area: Area,
    x: int,
    y: int,
)
    requires
        area.wf(),
        0 <= top,
        area.x < x < area.x + area.width - 1,
        area.y < y < area.y + area.height - 1,
    ensures
        (cells_of(m, current, top, area) matches Some(c) && c.y == y && c.x <= x < c.x + c.width)
            <==> (m.row == top + (y - area.y - 1) && m.col_start <= x - area.x - 1 < m.col_end),
        cells_of(m, current, top, area) matches Some(c) ==> c.current == current,
{
}

/// Each match in view is marked, and nothing else is; the one at hand stands out.
pub proof fn law_matches_in_view_are_marked(
    matches: Seq<Match>,
    current: usize,
    top: int,
    area: Area,
    n: int,
)
    requires
        0 <= n <= matches.len(),
    ensures
        forall|i: int|
            0 <= i < n ==> (cells_of(#[trigger] matches[i], i == current, top, area) matches Some(c)
                ==> cells_upto(matches, current, top, area, n).contains(c)),
        forall|c: Highlight| #[trigger]
            cells_upto(matches, current, top, area, n).contains(c) ==> exists|i: int|
                0 <= i < n && cells_of(#[trigger] matches[i], i == current, top, area) == Some(c),
    decreases n,
{
    if n > 0 {
        law_matches_in_view_are_marked(matches, current, top, area, n - 1);
        let before = cells_upto(matches, current, top, area, n - 1);
        let all = cells_upto(matches, current, top, area, n);
        assert forall|i: int| 0 <= i < n implies (cells_of(
            #[trigger] matches[i],
            i == current,
            top,
            area,
        ) matches Some(c) ==> all.contains(c)) by {
            if let Some(c) = cells_of(matches[i], i == current, top, area) {
                if i == n - 1 {
                    assert(all == before.push(c));
                    assert(all.last() == c);
                    assert(all[all.len() - 1] == c);
                } else {
                    assert(before.contains(c));
                    let at = before.index_of(c);
                    assert(all[at] == c);
                }
            }
        }
        assert forall|c: Highlight| #[trigger] all.contains(c) implies exists|i: int|
            0 <= i < n && cells_of(#[trigger] matches[i], i == current, top, area) == Some(c) by {
            let at = all.index_of(c);
            if at < before.len() {
                assert(before[at] == c);
                assert(before.contains(c));
            } else {
                assert(cells_of(matches[n - 1], n - 1 == current, top, area) == Some(c));
            }
        }
    }
}

/// The style of each byte of some spans.
pub open spec fn painted(spans: Seq<SpanModel>) -> Seq<Style>
    decreases spans.len(),
{
    if spans.len() == 0 {
        Seq::empty()
    } else {
        painted(spans.drop_last()) + Seq::new(
            byte_len(spans.last().text) as nat,
            |i: int| spans.last().style,
        )
    }
}

/// Whether a byte of a line is marked.
pub open spec fn covers(mark: Mark, p: int) -> bool {
    mark.0.0 <= p < mark.0.1
}

proof fn lemma_piece_length(text: Seq<char>, a: int, b: int)
    requires
        0 <= a <= b <= byte_len(text),
        is_char_boundary(encode_utf8(text), a),
        is_char_boundary(encode_utf8(text), b),
    ensures
        byte_len(piece(text, a, b)) == b - a,
{
    lemma_piece_from_start(text, a);
    lemma_piece_from_start(text, b);
    lemma_pieces_join(text, a, b);
    lemma_encode_concat(piece(text, 0, a), piece(text, a, b));
}

proof fn lemma_piece_from_start(text: Seq<char>, b: int)
    requires
        0 <= b <= byte_len(text),
        is_char_boundary(encode_utf8(text), b),
    ensures
        byte_len(piece(text, 0, b)) == b,
{
    let bytes = encode_utf8(text);
    vstd::utf8::encode_utf8_valid_utf8(text);
    vstd::utf8::valid_utf8_split(bytes, b);
    vstd::utf8::decode_utf8_encode_utf8(bytes.subrange(0, b));
}

proof fn lemma_cut_painted(
    s: SpanModel,
    before: Seq<char>,
    after: Seq<char>,
    marks: Seq<Mark>,
    k: int,
)
    requires
        0 <= k <= marks.len(),
        marks_fit(marks, before + s.text + after),
    ensures
        ({
            let start = byte_len(before);
            let (out, cursor) = cut_upto(s, start, marks, k);
            &&& painted(out).len() == cursor
            &&& forall|i: int, p: int|
                0 <= i < marks.len() && 0 <= p < cursor && #[trigger] covers(marks[i], start + p)
                    ==> painted(out)[p] == match_style(marks[i].1)
            &&& forall|p: int|
                0 <= p < cursor && (forall|i: int|
                    0 <= i < marks.len() ==> !#[trigger] covers(marks[i], start + p))
                    ==> #[trigger] painted(out)[p] == s.style
            &&& forall|i: int, p: int|
                0 <= i < k && cursor <= p < byte_len(s.text) ==> !#[trigger] covers(
                    marks[i],
                    start + p,
                )
        }),
    decreases k,
{
    let start = byte_len(before);
    let len = byte_len(s.text);
    let (out, cursor) = cut_upto(s, start, marks, k);
    lemma_cut_flat(s, before, after, marks, k);
    if k > 0 {
        lemma_cut_painted(s, before, after, marks, k - 1);
        lemma_cut_flat(s, before, after, marks, k - 1);
        let (earlier, reached) = cut_upto(s, start, marks, k - 1);
        let mark = marks[k - 1];
        let (a, b) = clipped(mark, start, len);
        if a < b {
            vstd::utf8::encode_utf8_valid_utf8(s.text);
            vstd::utf8::is_char_boundary_start_end_of_seq(encode_utf8(s.text));
            if mark.0.0 >= start {
                lemma_boundary_within(before, s.text, after, mark.0.0 as int);
            }
            if mark.0.1 <= start + len {
                lemma_boundary_within(before, s.text, after, mark.0.1 as int);
            }
            lemma_piece_length(s.text, a, b);
            let lead = if a > reached {
                earlier.push(span(piece(s.text, reached, a), s.style))
            } else {
                earlier
            };
            if a > reached {
                lemma_piece_length(s.text, reached, a);
                assert(lead.drop_last() =~= earlier);
            }
            assert(out == lead.push(span(piece(s.text, a, b), match_style(mark.1))));
            assert(out.drop_last() =~= lead);
            assert(a >= reached);
            assert(painted(lead).len() == a);
            assert(painted(out).len() == b);
            assert forall|p: int| 0 <= p < reached implies painted(out)[p] == painted(
                earlier,
            )[p] by {}
            assert forall|p: int| reached <= p < a implies painted(out)[p] == s.style by {}
            assert forall|p: int| a <= p < b implies painted(out)[p] == match_style(mark.1) by {}
            assert forall|i: int, p: int|
                0 <= i < marks.len() && 0 <= p < cursor && #[trigger] covers(
                    marks[i],
                    start + p,
                ) implies painted(out)[p] == match_style(marks[i].1) by {
                if p >= reached {
                    if i < k - 1 {
                        assert(!covers(marks[i], start + p));
                    } else if i > k - 1 {
                        assert(marks[k - 1].0.1 <= marks[i].0.0);
                    }
                }
            }
            assert forall|p: int|
                0 <= p < cursor && (forall|i: int|
                    0 <= i < marks.len() ==> !#[trigger] covers(
                        marks[i],
                        start + p,
                    )) implies #[trigger] painted(out)[p] == s.style by {
                assert(!covers(marks[k - 1], start + p));
            }
        }
    }
}

proof fn lemma_cut_painted_whole(
    s: SpanModel,
    before: Seq<char>,
    after: Seq<char>,
    marks: Seq<Mark>,
)
    requires
        marks_fit(marks, before + s.text + after),
    ensures
        ({
            let start = byte_len(before);
            let all = painted(cut(s, start, marks));
            &&& all.len() == byte_len(s.text)
            &&& forall|i: int, p: int|
                0 <= i < marks.len() && 0 <= p < all.len() && #[trigger] covers(marks[i], start + p)
                    ==> all[p] == match_style(marks[i].1)
            &&& forall|p: int|
                0 <= p < all.len() && (forall|i: int|
                    0 <= i < marks.len() ==> !#[trigger] covers(marks[i], start + p))
                    ==> #[trigger] all[p] == s.style
        }),
{
    let start = byte_len(before);
    let len = byte_len(s.text);
    let n = marks.len() as int;
    lemma_cut_painted(s, before, after, marks, n);
    lemma_cut_flat(s, before, after, marks, n);
    let (out, cursor) = cut_upto(s, start, marks, n);
    if cursor < len {
        vstd::utf8::encode_utf8_valid_utf8(s.text);
        vstd::utf8::is_char_boundary_start_end_of_seq(encode_utf8(s.text));
        lemma_piece_length(s.text, cursor, len);
        let all = out.push(span(piece(s.text, cursor, len), s.style));
        assert(all.drop_last() =~= out);
        assert(cut(s, start, marks) == all);
    }
}

proof fn lemma_painted_concat(a: Seq<SpanModel>, b: Seq<SpanModel>)
    ensures
        painted(a + b) == painted(a) + painted(b),
    decreases b.len(),
{
    if b.len() == 0 {
        assert(a + b =~= a);
        assert(painted(a) + painted(b) =~= painted(a));
    } else {
        lemma_painted_concat(a, b.drop_last());
        assert((a + b).drop_last() =~= a + b.drop_last());
        assert(painted(a + b) =~= painted(a) + painted(b));
    }
}

proof fn lemma_marked_painted(spans: Seq<SpanModel>, marks: Seq<Mark>, n: int)
    requires
        0 <= n <= spans.len(),
        marks_fit(marks, flat(spans)),
    ensures
        ({
            let all = painted(marked_upto(spans, marks, n));
            &&& all.len() == byte_len(flat(spans.take(n)))
            &&& painted(spans.take(n)).len() == byte_len(flat(spans.take(n)))
            &&& forall|i: int, p: int|
                0 <= i < marks.len() && 0 <= p < all.len() && #[trigger] covers(marks[i], p)
                    ==> all[p] == match_style(marks[i].1)
            &&& forall|p: int|
                0 <= p < all.len() && (forall|i: int|
                    0 <= i < marks.len() ==> !#[trigger] covers(marks[i], p)) ==> #[trigger] all[p]
                    == painted(spans.take(n))[p]
        }),
    decreases n,
{
    if n > 0 {
        lemma_marked_painted(spans, marks, n - 1);
        let s = spans[n - 1];
        let before = flat(spans.take(n - 1));
        let after = flat(spans.skip(n));
        let start = byte_len(before);
        assert(spans.take(n).drop_last() =~= spans.take(n - 1));
        assert(spans.take(n).last() == s);
        lemma_flat_split(spans, n);
        lemma_encode_concat(before, s.text);
        lemma_cut_painted_whole(s, before, after, marks);
        lemma_painted_concat(marked_upto(spans, marks, n - 1), cut(s, start, marks));
        let front = painted(marked_upto(spans, marks, n - 1));
        let own = painted(cut(s, start, marks));
        let all = painted(marked_upto(spans, marks, n));
        assert(all == front + own);
        assert forall|i: int, p: int|
            0 <= i < marks.len() && 0 <= p < all.len() && #[trigger] covers(
                marks[i],
                p,
            ) implies all[p] == match_style(marks[i].1) by {
            if p >= start {
                assert(covers(marks[i], start + (p - start)));
            }
        }
        assert forall|p: int|
            0 <= p < all.len() && (forall|i: int|
                0 <= i < marks.len() ==> !#[trigger] covers(marks[i], p)) implies #[trigger] all[p]
            == painted(spans.take(n))[p] by {
            if p >= start {
                assert forall|i: int| 0 <= i < marks.len() implies !#[trigger] covers(
                    marks[i],
                    start + (p - start),
                ) by {
                    assert(!covers(marks[i], p));
                }
                assert(own[p - start] == s.style);
            } else {
                assert(front[p] == all[p]);
            }
        }
    } else {
        assert(spans.take(0) =~= Seq::<SpanModel>::empty());
        assert(encode_utf8(flat(spans.take(0))) =~= Seq::<u8>::empty());
    }
}

/// Each byte under a mark is drawn as a match, the one at hand in black on
/// yellow and any other in white on dark gray, and every other byte as it was.
pub proof fn law_marked_bytes_stand_out(spans: Seq<SpanModel>, marks: Seq<Mark>, p: int)
    requires
        marks_fit(marks, flat(spans)),
        0 <= p < byte_len(flat(spans)),
    ensures
        painted(marked(spans, marks)).len() == byte_len(flat(spans)),
        forall|i: int|
            0 <= i < marks.len() && (#[trigger] marks[i]).0.0 <= p < marks[i].0.1 ==> painted(
                marked(spans, marks),
            )[p] == (Style {
                fg: Some(
                    if marks[i].1 {
                        Color::Black
                    } else {
                        Color::White
                    },
                ),
                bg: Some(
                    if marks[i].1 {
                        Color::Yellow
                    } else {
                        Color::DarkGray
                    },
                ),
                bold: false,
                reversed: false,
            }),
        (forall|i: int| 0 <= i < marks.len() ==> !((#[trigger] marks[i]).0.0 <= p < marks[i].0.1))
            ==> painted(marked(spans, marks))[p] == painted(spans)[p],
{
    let n = spans.len() as int;
    assert(spans.take(n) =~= spans);
    lemma_marked_painted(spans, marks, n);
    assert forall|i: int|
        0 <= i < marks.len() && (#[trigger] marks[i]).0.0 <= p < marks[i].0.1 implies painted(
        marked(spans, marks),
    )[p] == match_style(marks[i].1) by {
        assert(covers(marks[i], p));
    }
}

} // verus!
