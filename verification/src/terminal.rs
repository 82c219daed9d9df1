//! What a process has written, as a terminal shows it.

use vstd::prelude::*;

#[allow(unused_imports)]
use crate::text::texts;

verus! {

/// How many rows that have scrolled off a terminal are kept.
pub const SCROLLBACK: usize = 2000;

/// `vt100::Screen`: what a terminal shows.
#[verifier::external_type_specification]
#[verifier::external_body]
pub struct ExScreen(vt100::Screen);

/// The rows and columns of a screen.
pub uninterp spec fn screen_size(screen: vt100::Screen) -> (u16, u16);

/// How many rows a screen is scrolled back.
pub uninterp spec fn screen_offset(screen: vt100::Screen) -> usize;

/// The texts of all rows of a screen, oldest first: those that have scrolled
/// off, and then one for each row of its size.
pub uninterp spec fn screen_rows(screen: vt100::Screen) -> Seq<Seq<char>>;

/// How many rows have scrolled off a screen.
pub open spec fn screen_total(screen: vt100::Screen) -> int {
    screen_rows(screen).len() - screen_size(screen).0
}

/// A terminal of the `vt100` crate: bytes go in, a screen comes out.
#[verifier::external_body]
pub struct Terminal {
    parser: vt100::Parser,
}

/// What a terminal shows.
pub uninterp spec fn shown(terminal: Terminal) -> vt100::Screen;

/// A terminal of some rows and columns before it has seen any bytes.
pub uninterp spec fn blank_terminal(rows: u16, cols: u16) -> Terminal;

/// A terminal after it has seen some bytes.
pub uninterp spec fn fed(terminal: Terminal, bytes: Seq<u8>) -> Terminal;

/// A terminal scrolled back by some rows.
pub uninterp spec fn scrolled(terminal: Terminal, offset: usize) -> Terminal;

/// The fewest rows that the `vt100` crate can handle: with one it fails where
/// text scrolls.
pub const LEAST_ROWS: u16 = 2;

/// The fewest columns that the `vt100` crate can handle: it fails where a
/// character takes up more columns than there are, and `U+17D8` takes up three.
pub const LEAST_COLS: u16 = 3;

/// The most columns that the `vt100` crate can handle: with more it fails at a
/// tab.
pub const MOST_COLS: u16 = 65527;

/// Whether the `vt100` crate can handle a size.
pub open spec fn fair_size(rows: u16, cols: u16) -> bool {
    LEAST_ROWS <= rows && LEAST_COLS <= cols && cols <= MOST_COLS
}

/// Whether a screen is in order: a size that can be handled, a row of text for
/// each row of it, and an offset within what has scrolled off.
pub open spec fn screen_wf(screen: vt100::Screen) -> bool {
    &&& fair_size(screen_size(screen).0, screen_size(screen).1)
    &&& screen_rows(screen).len() >= screen_size(screen).0
    &&& screen_offset(screen) <= screen_total(screen) <= SCROLLBACK
}

/// `vt100::Screen::size`: the rows and columns.
pub assume_specification[ vt100::Screen::size ](screen: &vt100::Screen) -> (size: (u16, u16))
    ensures
        size == screen_size(*screen),
;

/// `vt100::Screen::scrollback`: how far the screen is scrolled back.
pub assume_specification[ vt100::Screen::scrollback ](screen: &vt100::Screen) -> (offset: usize)
    ensures
        offset == screen_offset(*screen),
;

/// `vt100::Screen::rows` over the whole width: the texts of the rows in view,
/// which are as many as the screen has, ending `screen_offset` rows above the
/// newest.
#[verifier::external_body]
pub(crate) fn visible_rows(screen: &vt100::Screen) -> (rows: Vec<String>)
    requires
        screen_wf(*screen),
    ensures
        texts(rows@) == screen_rows(*screen).subrange(
            screen_total(*screen) - screen_offset(*screen),
            screen_total(*screen) - screen_offset(*screen) + screen_size(*screen).0,
        ),
{
    screen.rows(0, screen.size().1).collect()
}

impl Terminal {
    /// `vt100::Parser::new`, with `SCROLLBACK` rows of history: an empty
    /// terminal of that size.
    #[verifier::external_body]
    pub(crate) fn new(rows: u16, cols: u16) -> (terminal: Terminal)
        requires
            fair_size(rows, cols),
        ensures
            terminal == blank_terminal(rows, cols),
            screen_wf(shown(terminal)),
            screen_size(shown(terminal)) == (rows, cols),
            screen_offset(shown(terminal)) == 0,
            screen_total(shown(terminal)) == 0,
    {
        Terminal { parser: vt100::Parser::new(rows, cols, SCROLLBACK) }
    }

    /// `vt100::Parser::process`: take in bytes. The size stays, and no bytes
    /// change nothing. What the screen shows depends on the terminal and the
    /// bytes alone; what that is, is not said here.
    #[verifier::external_body]
    pub(crate) fn process(&mut self, bytes: &[u8])
        requires
            screen_wf(shown(*old(self))),
        ensures
            *final(self) == fed(*old(self), bytes@),
            bytes@.len() == 0 ==> *final(self) == *old(self),
            screen_wf(shown(*final(self))),
            screen_size(shown(*final(self))) == screen_size(shown(*old(self))),
    {
        self.parser.process(bytes)
    }

    /// `vt100::Parser::screen`: what the terminal shows.
    #[verifier::external_body]
    pub(crate) fn screen(&self) -> (screen: &vt100::Screen)
        ensures
            *screen == shown(*self),
    {
        self.parser.screen()
    }

    /// `vt100::Screen::set_scrollback`: scroll back by `offset` rows, or as many
    /// as have scrolled off. Nothing else changes, so scrolling again undoes it.
    #[verifier::external_body]
    pub(crate) fn set_scrollback(&mut self, offset: usize)
        requires
            screen_wf(shown(*old(self))),
        ensures
            *final(self) == scrolled(*old(self), offset),
            forall|n: usize| #[trigger] scrolled(*final(self), n) == scrolled(*old(self), n),
            scrolled(*final(self), screen_offset(shown(*old(self)))) == *old(self),
            screen_wf(shown(*final(self))),
            screen_size(shown(*final(self))) == screen_size(shown(*old(self))),
            screen_rows(shown(*final(self))) == screen_rows(shown(*old(self))),
            screen_offset(shown(*final(self))) == (if offset <= screen_total(shown(*old(self))) {
                offset as int
            } else {
                screen_total(shown(*old(self)))
            }),
    {
        self.parser.screen_mut().set_scrollback(offset)
    }
}

} // verus!
