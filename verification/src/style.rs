//! Styled text: what is to be drawn, before anything is drawn.

use vstd::prelude::*;
use vstd::string::StringExecFns;

verus! {

/// A colour of the terminal.
#[derive(Clone, Copy, Debug, PartialEq, Eq, Structural)]
pub enum Color {
    Black,
    Red,
    Green,
    Yellow,
    Blue,
    Magenta,
    Cyan,
    Gray,
    DarkGray,
    White,
    /// The orange of the palette of 256 colours.
    Orange,
}

impl Color {
    /// The place of the colour in the palette of 256, for a colour that is not
    /// one of the basic ones.
    pub fn palette_index(self) -> (index: Option<u8>)
        ensures
            index == (if self == Color::Orange {
                Some(208u8)
            } else {
                None
            }),
    {
        if self == Color::Orange {
            Some(208)
        } else {
            None
        }
    }
}

/// How a text is drawn.
#[derive(Clone, Copy, Debug, PartialEq, Eq, Structural)]
pub struct Style {
    pub fg: Option<Color>,
    pub bg: Option<Color>,
    pub bold: bool,
    pub reversed: bool,
}

/// No style at all.
pub open spec fn unstyled() -> Style {
    Style { fg: None, bg: None, bold: false, reversed: false }
}

/// A text colour.
pub open spec fn colored(fg: Color) -> Style {
    Style { fg: Some(fg), ..unstyled() }
}

/// A text colour, in bold.
pub open spec fn bold(fg: Color) -> Style {
    Style { fg: Some(fg), bold: true, ..unstyled() }
}

/// A text colour on a background.
pub open spec fn on(fg: Color, bg: Color) -> Style {
    Style { fg: Some(fg), bg: Some(bg), ..unstyled() }
}

/// A text colour on a background, in bold.
pub open spec fn bold_on(fg: Color, bg: Color) -> Style {
    Style { fg: Some(fg), bg: Some(bg), bold: true, reversed: false }
}

impl Style {
    /// No style at all.
    pub fn plain() -> (style: Style)
        ensures
            style == unstyled(),
    {
        Style { fg: None, bg: None, bold: false, reversed: false }
    }

    /// A text colour.
    pub fn color(fg: Color) -> (style: Style)
        ensures
            style == colored(fg),
    {
        Style { fg: Some(fg), bg: None, bold: false, reversed: false }
    }

    /// A text colour, in bold.
    pub fn bold_color(fg: Color) -> (style: Style)
        ensures
            style == bold(fg),
    {
        Style { fg: Some(fg), bg: None, bold: true, reversed: false }
    }

    /// A text colour on a background.
    pub fn color_on(fg: Color, bg: Color) -> (style: Style)
        ensures
            style == on(fg, bg),
    {
        Style { fg: Some(fg), bg: Some(bg), bold: false, reversed: false }
    }

    /// A text colour on a background, in bold.
    pub fn bold_color_on(fg: Color, bg: Color) -> (style: Style)
        ensures
            style == bold_on(fg, bg),
    {
        Style { fg: Some(fg), bg: Some(bg), bold: true, reversed: false }
    }
}

/// A text in one style.
#[derive(Debug)]
pub struct Span {
    pub content: String,
    pub style: Style,
}

/// A text in one style, as a value.
pub struct SpanModel {
    pub text: Seq<char>,
    pub style: Style,
}

impl View for Span {
    type V = SpanModel;

    open spec fn view(&self) -> SpanModel {
        SpanModel { text: self.content@, style: self.style }
    }
}

/// A span as a value.
pub open spec fn span(text: Seq<char>, style: Style) -> SpanModel {
    SpanModel { text, style }
}

impl Span {
    pub fn styled(text: &str, style: Style) -> (s: Span)
        ensures
            s@ == span(text@, style),
    {
        Span { content: text.to_owned(), style }
    }

    pub fn raw(text: &str) -> (s: Span)
        ensures
            s@ == span(text@, unstyled()),
    {
        Span { content: text.to_owned(), style: Style::plain() }
    }
}

/// One line.
#[derive(Debug)]
pub struct Line {
    pub spans: Vec<Span>,
}

/// The spans of a list as values.
pub open spec fn span_models(list: Seq<Span>) -> Seq<SpanModel> {
    Seq::new(list.len(), |i: int| list[i]@)
}

impl View for Line {
    type V = Seq<SpanModel>;

    open spec fn view(&self) -> Seq<SpanModel> {
        span_models(self.spans@)
    }
}

/// The lines of a list as values.
pub open spec fn line_models(list: Seq<Line>) -> Seq<Seq<SpanModel>> {
    Seq::new(list.len(), |i: int| list[i]@)
}

impl Line {
    /// A line without anything on it.
    pub fn blank() -> (line: Line)
        ensures
            line@ == Seq::<SpanModel>::empty(),
    {
        let line = Line { spans: Vec::new() };
        assert(line@ =~= Seq::<SpanModel>::empty());
        line
    }

    /// A line of one text.
    pub fn one(text: &str, style: Style) -> (line: Line)
        ensures
            line@ == seq![span(text@, style)],
    {
        let mut line = Line::blank();
        line.add(Span::styled(text, style));
        assert(line@ =~= seq![span(text@, style)]);
        line
    }

    /// A line of two texts.
    pub fn two(first: &str, first_style: Style, second: &str, second_style: Style) -> (line: Line)
        ensures
            line@ == seq![span(first@, first_style), span(second@, second_style)],
    {
        let mut line = Line::one(first, first_style);
        line.add(Span::styled(second, second_style));
        assert(line@ =~= seq![span(first@, first_style), span(second@, second_style)]);
        line
    }

    /// Add a span to the end.
    pub fn add(&mut self, s: Span)
        ensures
            final(self)@ == old(self)@.push(s@),
    {
        self.spans.push(s);
        assert(self@ =~= old(self)@.push(s@));
    }
}

/// The text of some spans, one after the other.
pub open spec fn flat(spans: Seq<SpanModel>) -> Seq<char>
    decreases spans.len(),
{
    if spans.len() == 0 {
        Seq::empty()
    } else {
        flat(spans.drop_last()) + spans.last().text
    }
}

/// The text of a line, as it is seen.
pub fn flatten_line(line: &Line) -> (text: String)
    ensures
        text@ == flat(line@),
{
    let mut text = String::new();
    let ghost all = line@;
    let mut i: usize = 0;
    while i < line.spans.len()
        invariant
            i <= line.spans@.len(),
            all == line@,
            text@ == flat(all.take(i as int)),
        decreases line.spans@.len() - i,
    {
        assert(all[i as int] == line.spans@[i as int]@);
        text.append(line.spans[i].content.as_str());
        assert(all.take(i + 1).drop_last() =~= all.take(i as int));
        i = i + 1;
    }
    assert(all.take(all.len() as int) =~= all);
    text
}

/// A line reads as its spans do, one after the other.
pub proof fn law_lines_read_span_by_span(a: Seq<SpanModel>, text: Seq<char>, style: Style)
    ensures
        flat(Seq::empty()) == Seq::<char>::empty(),
        flat(a.push(SpanModel { text, style })) == flat(a) + text,
{
    assert(a.push(SpanModel { text, style }).drop_last() =~= a);
}

/// A style has the colours that it is asked for, and nothing else.
pub proof fn law_styles_are_as_asked_for(fg: Color, bg: Color)
    ensures
        colored(fg) == (Style { fg: Some(fg), bg: None, bold: false, reversed: false }),
        bold(fg) == (Style { fg: Some(fg), bg: None, bold: true, reversed: false }),
        on(fg, bg) == (Style { fg: Some(fg), bg: Some(bg), bold: false, reversed: false }),
        bold_on(fg, bg) == (Style { fg: Some(fg), bg: Some(bg), bold: true, reversed: false }),
        unstyled() == (Style { fg: None, bg: None, bold: false, reversed: false }),
{
}

} // verus!
