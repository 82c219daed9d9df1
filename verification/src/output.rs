//! What a process has written: the bytes, and the terminal that shows them.

use std::collections::VecDeque;

use vstd::prelude::*;

use crate::raw::{evict_to_cap, RAW_CAP};
#[allow(unused_imports)]
use crate::raw::{evicted, law_eviction};
use crate::terminal::Terminal;
#[allow(unused_imports)]
use crate::terminal::{
    blank_terminal, fair_size, fed, screen_offset, screen_rows, screen_size, screen_total,
    screen_wf, scrolled, shown,
};

verus! {

/// The output of one process. The last bytes of it are kept, so that a terminal
/// of another size can be filled with them.
pub struct Output {
    pub raw: VecDeque<u8>,
    pub terminal: Terminal,
    /// Changes whenever the output does.
    pub generation: u64,
}

impl Output {
    /// Whether the record is within its cap and the terminal in order.
    pub open spec fn wf(self) -> bool {
        self.raw@.len() <= RAW_CAP && screen_wf(shown(self.terminal))
    }

    /// No output, on a terminal of some rows and columns.
    pub fn new(rows: u16, cols: u16) -> (output: Output)
        requires
            fair_size(rows, cols),
        ensures
            output.wf(),
            output.raw@ == Seq::<u8>::empty(),
            output.terminal == blank_terminal(rows, cols),
            screen_size(shown(output.terminal)) == (rows, cols),
            screen_offset(shown(output.terminal)) == 0,
            output.generation == 0,
    {
        Output { raw: VecDeque::new(), terminal: Terminal::new(rows, cols), generation: 0 }
    }

    /// Take in what the process wrote.
    pub fn feed(&mut self, bytes: &[u8])
        requires
            old(self).wf(),
        ensures
            final(self).wf(),
            final(self).raw@ == evicted(old(self).raw@ + bytes@, RAW_CAP as int),
            final(self).terminal == fed(old(self).terminal, bytes@),
            screen_size(shown(final(self).terminal)) == screen_size(shown(old(self).terminal)),
            final(self).generation == (old(self).generation + bytes@.len()) as u64,
    {
        let ghost before = self.raw@;
        let mut i: usize = 0;
        while i < bytes.len()
            invariant
                i <= bytes@.len(),
                self.raw@ == before + bytes@.take(i as int),
                self.terminal == old(self).terminal,
                self.generation == old(self).generation,
            decreases bytes@.len() - i,
        {
            self.raw.push_back(bytes[i]);
            assert(self.raw@ =~= before + bytes@.take(i + 1));
            i = i + 1;
        }
        assert(bytes@.take(bytes@.len() as int) =~= bytes@);
        proof {
            law_eviction(before + bytes@, RAW_CAP as int);
        }
        evict_to_cap(&mut self.raw, RAW_CAP);
        self.terminal.process(bytes);
        self.generation = self.generation.wrapping_add(bytes.len() as u64);
        assert(bytes@.len() <= 0xffff_ffff_ffff_ffff);
        proof {
            lemma_wrapping(old(self).generation, bytes@.len() as u64);
        }
    }

    /// The bytes that are kept.
    pub fn raw_snapshot(&self) -> (bytes: Vec<u8>)
        ensures
            bytes@ == self.raw@,
    {
        let mut bytes: Vec<u8> = Vec::new();
        let mut i: usize = 0;
        while i < self.raw.len()
            invariant
                i <= self.raw@.len(),
                bytes@ == self.raw@.take(i as int),
            decreases self.raw@.len() - i,
        {
            bytes.push(self.raw[i]);
            assert(bytes@ =~= self.raw@.take(i + 1));
            i = i + 1;
        }
        assert(self.raw@.take(self.raw@.len() as int) =~= self.raw@);
        bytes
    }

    /// Show the output on a terminal of another size: a fresh terminal takes in
    /// what was kept, and is scrolled back as far as the one before, if there
    /// is as much to scroll. Where nothing was kept it stays blank.
    pub fn resize(&mut self, rows: u16, cols: u16)
        requires
            old(self).wf(),
            fair_size(rows, cols),
        ensures
            final(self).wf(),
            final(self).raw == old(self).raw,
            final(self).generation == old(self).generation,
            final(self).terminal == scrolled(
                fed(blank_terminal(rows, cols), old(self).raw@),
                screen_offset(shown(old(self).terminal)),
            ),
            old(self).raw@.len() == 0 ==> final(self).terminal == scrolled(
                blank_terminal(rows, cols),
                screen_offset(shown(old(self).terminal)),
            ),
            screen_size(shown(final(self).terminal)) == (rows, cols),
    {
        let offset = self.terminal.screen().scrollback();
        let bytes = self.raw_snapshot();
        let mut fresh = Terminal::new(rows, cols);
        fresh.process(&bytes);
        fresh.set_scrollback(offset);
        self.terminal = fresh;
    }

    /// Forget the output. As nothing is kept, a later resize does not bring it
    /// back either.
    pub fn clear_display(&mut self)
        requires
            old(self).wf(),
        ensures
            final(self).wf(),
            final(self).raw@ == Seq::<u8>::empty(),
            final(self).terminal == blank_terminal(
                screen_size(shown(old(self).terminal)).0,
                screen_size(shown(old(self).terminal)).1,
            ),
            screen_size(shown(final(self).terminal)) == screen_size(shown(old(self).terminal)),
            final(self).generation == (old(self).generation + 1) as u64,
    {
        let (rows, cols) = self.terminal.screen().size();
        self.raw.clear();
        self.terminal = Terminal::new(rows, cols);
        self.generation = self.generation.wrapping_add(1);
        proof {
            lemma_wrapping(old(self).generation, 1);
        }
    }

    /// What the terminal shows.
    pub fn screen(&self) -> (screen: &vt100::Screen)
        ensures
            *screen == shown(self.terminal),
    {
        self.terminal.screen()
    }

    /// Scroll back to `offset` rows above the newest, or as far as there is.
    pub fn set_scroll(&mut self, offset: usize)
        requires
            old(self).wf(),
        ensures
            final(self).wf(),
            final(self).raw == old(self).raw,
            final(self).generation == old(self).generation,
            final(self).terminal == scrolled(old(self).terminal, offset),
            screen_size(shown(final(self).terminal)) == screen_size(shown(old(self).terminal)),
            screen_rows(shown(final(self).terminal)) == screen_rows(shown(old(self).terminal)),
            screen_offset(shown(final(self).terminal)) == at_most(
                offset as int,
                screen_total(shown(old(self).terminal)),
            ),
    {
        self.terminal.set_scrollback(offset);
    }

    /// Scroll by some rows: back where `delta` is positive, forward where it is
    /// negative; never past either end.
    pub fn scroll_by(&mut self, delta: i32)
        requires
            old(self).wf(),
        ensures
            final(self).wf(),
            final(self).raw == old(self).raw,
            final(self).generation == old(self).generation,
            screen_size(shown(final(self).terminal)) == screen_size(shown(old(self).terminal)),
            screen_rows(shown(final(self).terminal)) == screen_rows(shown(old(self).terminal)),
            final(self).terminal == scrolled(
                old(self).terminal,
                at_least(screen_offset(shown(old(self).terminal)) + delta, 0) as usize,
            ),
            screen_offset(shown(final(self).terminal)) == at_most(
                at_least(screen_offset(shown(old(self).terminal)) + delta, 0),
                screen_total(shown(old(self).terminal)),
            ),
    {
        let now: i64 = self.terminal.screen().scrollback() as i64;
        let want: i64 = now + delta as i64;
        let offset: usize = if want < 0 {
            0
        } else {
            want as usize
        };
        self.terminal.set_scrollback(offset);
    }
}

pub open spec fn at_most(value: int, limit: int) -> int {
    if value <= limit {
        value
    } else {
        limit
    }
}

pub open spec fn at_least(value: int, limit: int) -> int {
    if value >= limit {
        value
    } else {
        limit
    }
}

proof fn lemma_wrapping(a: u64, b: u64)
    ensures
        a.wrapping_add(b) == (a + b) as u64,
{
    assert(a + b <= 0xffff_ffff_ffff_ffff ==> (a + b) as u64 == a + b) by (bit_vector);
    assert(a + b > 0xffff_ffff_ffff_ffff ==> (a + b) as u64 == a + b - 0x1_0000_0000_0000_0000)
        by (bit_vector);
}

} // verus!
