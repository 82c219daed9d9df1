//! Output as a stream of lines, a run that prints it, and the record of it that
//! is kept.

use std::collections::VecDeque;

use vstd::prelude::*;
use vstd::string::StringExecFns;

#[allow(unused_imports)]
use crate::logfile::{
    chunk_pending, chunk_text, is_clean, law_chunks_come_to_the_same, law_extracted_is_clean,
    line_break,
};
use crate::logfile::TextExtractor;
use crate::text::same_text;
#[allow(unused_imports)]
use crate::text::texts;
#[allow(unused_imports)]
use crate::vt::{vt_cut, vt_fresh, vt_ground, vt_next, vt_torn, vt_whole};
use crate::vt::{vt_advance, vt_parser};

verus! {

// ---- carriage returns ----

/// Bytes with their carriage returns resolved, from a state in which one may
/// be pending; and whether one is pending afterwards. A carriage return before
/// a line feed means nothing, any other ends a line. All other bytes stay.
pub open spec fn normalized(pending: bool, bytes: Seq<u8>) -> (Seq<u8>, bool)
    decreases bytes.len(),
{
    if bytes.len() == 0 {
        (Seq::empty(), pending)
    } else {
        let (out, open) = normalized(pending, bytes.drop_last());
        let b = bytes.last();
        if b == 10 {
            (out.push(10), false)
        } else if b == 13 {
            (out + line_break(open), true)
        } else {
            (out + line_break(open) + seq![b], false)
        }
    }
}

/// Append bytes to `acc` with their carriage returns resolved.
pub fn normalize_cr(bytes: &[u8], pending_cr: &mut bool, acc: &mut Vec<u8>)
    ensures
        final(acc)@ == old(acc)@ + normalized(*old(pending_cr), bytes@).0,
        *final(pending_cr) == normalized(*old(pending_cr), bytes@).1,
{
    let ghost acc0 = acc@;
    let ghost pending0 = *pending_cr;
    let mut i: usize = 0;
    assert(bytes@.take(0) =~= Seq::<u8>::empty());
    assert(acc0 + Seq::<u8>::empty() =~= acc0);
    while i < bytes.len()
        invariant
            i <= bytes@.len(),
            acc@ == acc0 + normalized(pending0, bytes@.take(i as int)).0,
            *pending_cr == normalized(pending0, bytes@.take(i as int)).1,
        decreases bytes@.len() - i,
    {
        let ghost now = bytes@.take(i + 1);
        assert(now.drop_last() =~= bytes@.take(i as int));
        let b: u8 = bytes[i];
        if b == 10 {
            *pending_cr = false;
            acc.push(10);
        } else if b == 13 {
            if *pending_cr {
                acc.push(10);
            }
            *pending_cr = true;
        } else {
            if *pending_cr {
                acc.push(10);
                *pending_cr = false;
            }
            acc.push(b);
        }
        assert(acc@ =~= acc0 + normalized(pending0, now).0);
        i = i + 1;
    }
    assert(bytes@.take(bytes@.len() as int) =~= bytes@);
}

/// Bytes in two parts come out as all at once.
pub proof fn law_normalizing_in_pieces(pending: bool, a: Seq<u8>, b: Seq<u8>)
    ensures
        normalized(pending, a + b).0 == normalized(pending, a).0 + normalized(
            normalized(pending, a).1,
            b,
        ).0,
        normalized(pending, a + b).1 == normalized(normalized(pending, a).1, b).1,
    decreases b.len(),
{
    if b.len() == 0 {
        assert(a + b =~= a);
        assert(normalized(pending, a).0 + Seq::<u8>::empty() =~= normalized(pending, a).0);
    } else {
        law_normalizing_in_pieces(pending, a, b.drop_last());
        assert((a + b).drop_last() =~= a + b.drop_last());
        assert((a + b).last() == b.last());
        let first = normalized(pending, a).0;
        let second = normalized(normalized(pending, a).1, b.drop_last()).0;
        let open = normalized(pending, a + b.drop_last()).1;
        assert((first + second).push(10) =~= first + second.push(10));
        assert(first + second + line_break(open) =~= first + (second + line_break(open)));
        assert(first + second + line_break(open) + seq![b.last()] =~= first + (second + line_break(
            open,
        ) + seq![b.last()]));
    }
}

/// Resolved bytes hold no carriage return.
pub proof fn law_no_carriage_return_is_left(pending: bool, bytes: Seq<u8>)
    ensures
        forall|i: int|
            0 <= i < normalized(pending, bytes).0.len() ==> #[trigger] normalized(
                pending,
                bytes,
            ).0[i] != 13,
    decreases bytes.len(),
{
    if bytes.len() > 0 {
        let init = bytes.drop_last();
        law_no_carriage_return_is_left(pending, init);
        let out = normalized(pending, init).0;
        assert forall|i: int| 0 <= i < normalized(pending, bytes).0.len() implies #[trigger] normalized(
            pending,
            bytes,
        ).0[i] != 13 by {
            if i < out.len() {
                assert(normalized(pending, bytes).0[i] == out[i]);
            }
        }
    }
}

// ---- lines ----

/// The finished lines of some bytes, without their line feeds.
pub open spec fn finished(bytes: Seq<u8>) -> Seq<Seq<u8>>
    decreases bytes.len(),
{
    if bytes.len() == 0 {
        Seq::empty()
    } else if bytes.last() == 10 {
        finished(bytes.drop_last()).push(unfinished(bytes.drop_last()))
    } else {
        finished(bytes.drop_last())
    }
}

/// What follows the last line feed of some bytes.
pub open spec fn unfinished(bytes: Seq<u8>) -> Seq<u8>
    decreases bytes.len(),
{
    if bytes.len() == 0 || bytes.last() == 10 {
        Seq::empty()
    } else {
        unfinished(bytes.drop_last()).push(bytes.last())
    }
}

/// One finished line of output of a process.
pub struct RawLine {
    pub name: String,
    pub line: Vec<u8>,
}

/// What the lines of a list hold.
pub open spec fn lines_held(list: Seq<RawLine>) -> Seq<Seq<u8>> {
    Seq::new(list.len(), |i: int| list[i].line@)
}

/// Whether each line of a list is of the process of that name.
pub open spec fn all_from(list: Seq<RawLine>, name: Seq<char>) -> bool {
    forall|i: int| 0 <= i < list.len() ==> (#[trigger] list[i]).name@ == name
}

/// Lines, each with its line feed, one after the other.
pub open spec fn recomposed(lines: Seq<Seq<u8>>) -> Seq<u8>
    decreases lines.len(),
{
    if lines.len() == 0 {
        Seq::empty()
    } else {
        recomposed(lines.drop_last()) + lines.last() + seq![10u8]
    }
}

/// The finished lines and the rest hold all bytes, in order.
pub proof fn law_lines_recompose(bytes: Seq<u8>)
    ensures
        recomposed(finished(bytes)) + unfinished(bytes) == bytes,
    decreases bytes.len(),
{
    if bytes.len() > 0 {
        let init = bytes.drop_last();
        law_lines_recompose(init);
        assert(init.push(bytes.last()) =~= bytes);
        let lines = finished(init);
        let rest = unfinished(init);
        if bytes.last() == 10 {
            assert(lines.push(rest).drop_last() =~= lines);
            assert(recomposed(lines) + rest + seq![10u8] + Seq::<u8>::empty() =~= (recomposed(lines)
                + rest).push(10));
        } else {
            assert(recomposed(lines) + rest.push(bytes.last()) =~= (recomposed(lines) + rest).push(
                bytes.last(),
            ));
        }
    } else {
        assert(recomposed(finished(bytes)) + unfinished(bytes) =~= bytes);
    }
}

proof fn lemma_unfinished_has_no_feed(bytes: Seq<u8>)
    ensures
        forall|k: int| 0 <= k < unfinished(bytes).len() ==> #[trigger] unfinished(bytes)[k] != 10,
    decreases bytes.len(),
{
    if bytes.len() > 0 {
        lemma_unfinished_has_no_feed(bytes.drop_last());
        let init = unfinished(bytes.drop_last());
        assert forall|k: int| 0 <= k < unfinished(bytes).len() implies #[trigger] unfinished(
            bytes,
        )[k] != 10 by {
            if k < init.len() {
                assert(unfinished(bytes)[k] == init[k]);
            }
        }
    }
}

/// No line holds a line feed.
pub proof fn law_lines_hold_no_feed(bytes: Seq<u8>, i: int, k: int)
    requires
        0 <= i < finished(bytes).len(),
        0 <= k < finished(bytes)[i].len(),
    ensures
        finished(bytes)[i][k] != 10,
    decreases bytes.len(),
{
    if bytes.len() > 0 {
        let init = bytes.drop_last();
        if i < finished(init).len() {
            assert(finished(bytes)[i] == finished(init)[i]);
            law_lines_hold_no_feed(init, i, k);
        } else {
            lemma_unfinished_has_no_feed(init);
        }
    }
}

/// Splitting goes on where it stopped: the lines of all bytes are those of the
/// first part, and those of what it left with the second part behind it.
pub proof fn law_splitting_in_pieces(a: Seq<u8>, b: Seq<u8>)
    ensures
        finished(a + b) == finished(a) + finished(unfinished(a) + b),
        unfinished(a + b) == unfinished(unfinished(a) + b),
    decreases b.len(),
{
    if b.len() == 0 {
        assert(a + b =~= a);
        assert(unfinished(a) + b =~= unfinished(a));
        lemma_unfinished_has_no_feed(a);
        lemma_one_line(unfinished(a));
        assert(finished(a) + Seq::<Seq<u8>>::empty() =~= finished(a));
    } else {
        law_splitting_in_pieces(a, b.drop_last());
        let left = unfinished(a);
        assert((a + b).drop_last() =~= a + b.drop_last());
        assert((left + b).drop_last() =~= left + b.drop_last());
        assert((a + b).last() == b.last() && (left + b).last() == b.last());
        assert((finished(a) + finished(left + b.drop_last())).push(
            unfinished(left + b.drop_last()),
        ) =~= finished(a) + finished(left + b.drop_last()).push(unfinished(left + b.drop_last())));
    }
}

proof fn lemma_one_line(bytes: Seq<u8>)
    requires
        forall|k: int| 0 <= k < bytes.len() ==> #[trigger] bytes[k] != 10,
    ensures
        finished(bytes) == Seq::<Seq<u8>>::empty(),
        unfinished(bytes) == bytes,
    decreases bytes.len(),
{
    if bytes.len() > 0 {
        assert(bytes[bytes.len() - 1] != 10);
        assert forall|k: int| 0 <= k < bytes.drop_last().len() implies #[trigger] bytes.drop_last()[k]
            != 10 by {
            assert(bytes[k] != 10);
        }
        lemma_one_line(bytes.drop_last());
        assert(bytes.drop_last().push(bytes.last()) =~= bytes);
    } else {
        assert(unfinished(bytes) =~= bytes);
    }
}

// ---- the lines of one process ----

/// How the output of a process is turned into lines.
pub enum EmitMode {
    /// As it is, with carriage returns resolved.
    Color { pending_cr: bool },
    /// Without escape sequences.
    Strip { parser: vte::Parser, extractor: TextExtractor },
}

impl EmitMode {
    /// The text that bytes come to.
    pub open spec fn text(self, bytes: Seq<u8>) -> Seq<u8> {
        match self {
            EmitMode::Color { pending_cr } => normalized(pending_cr, bytes).0,
            EmitMode::Strip { parser, extractor } => chunk_text(
                parser,
                extractor.pending_cr,
                bytes,
            ),
        }
    }

    /// What ends the text: the end of a line that a carriage return left open.
    pub open spec fn ending(self) -> Seq<u8> {
        match self {
            EmitMode::Color { pending_cr } => line_break(pending_cr),
            EmitMode::Strip { extractor, .. } => line_break(extractor.pending_cr),
        }
    }

    /// Whether no text is held back.
    pub open spec fn drained(self) -> bool {
        match self {
            EmitMode::Color { .. } => true,
            EmitMode::Strip { extractor, .. } => extractor.out@.len() == 0,
        }
    }

    /// Whether `next` is what bytes leave behind.
    pub open spec fn leads_to(self, bytes: Seq<u8>, next: EmitMode) -> bool {
        match (self, next) {
            (EmitMode::Color { pending_cr }, EmitMode::Color { pending_cr: after }) => after
                == normalized(pending_cr, bytes).1,
            (
                EmitMode::Strip { parser, extractor },
                EmitMode::Strip { parser: parser2, extractor: extractor2 },
            ) => parser2 == vt_next(parser, bytes) && extractor2.pending_cr == chunk_pending(
                parser,
                extractor.pending_cr,
                bytes,
            ),
            _ => false,
        }
    }
}

/// Turns the output of one process into lines. Escape sequences and carriage
/// returns may be cut anywhere between two chunks.
pub struct RawEmitter {
    pub name: String,
    /// What came after the last line feed.
    pub acc: Vec<u8>,
    pub mode: EmitMode,
}

impl RawEmitter {
    pub open spec fn wf(self) -> bool {
        self.mode.drained()
    }

    /// An emitter for the process of that name. With `strip`, escape sequences
    /// are left out.
    pub fn new(name: &str, strip: bool) -> (emitter: RawEmitter)
        ensures
            emitter.wf(),
            emitter.name@ == name@,
            emitter.acc@ == Seq::<u8>::empty(),
            match emitter.mode {
                EmitMode::Color { pending_cr } => !strip && !pending_cr,
                EmitMode::Strip { parser, extractor } => strip && vt_fresh(parser) && (forall|
                    other: vte::Parser,
                | #[trigger]
                    vt_fresh(other) ==> other == parser) && vt_ground(parser) && vt_whole(parser)
                    && !extractor.pending_cr,
            },
    {
        let mode = if strip {
            EmitMode::Strip { parser: vt_parser(), extractor: TextExtractor::new() }
        } else {
            EmitMode::Color { pending_cr: false }
        };
        RawEmitter { name: name.to_owned(), acc: Vec::new(), mode }
    }

    /// Hand out the finished lines.
    fn emit_lines(&mut self) -> (lines: Vec<RawLine>)
        ensures
            lines_held(lines@) == finished(old(self).acc@),
            all_from(lines@, old(self).name@),
            final(self).acc@ == unfinished(old(self).acc@),
            final(self).name == old(self).name,
            final(self).mode == old(self).mode,
    {
        let mut lines: Vec<RawLine> = Vec::new();
        let mut current: Vec<u8> = Vec::new();
        let mut i: usize = 0;
        let ghost acc = self.acc@;
        assert(acc.take(0) =~= Seq::<u8>::empty());
        assert(lines_held(lines@) =~= Seq::empty());
        while i < self.acc.len()
            invariant
                i <= self.acc@.len(),
                acc == self.acc@,
                lines_held(lines@) == finished(acc.take(i as int)),
                all_from(lines@, self.name@),
                current@ == unfinished(acc.take(i as int)),
            decreases self.acc@.len() - i,
        {
            let ghost now = acc.take(i + 1);
            assert(now.drop_last() =~= acc.take(i as int));
            let b: u8 = self.acc[i];
            if b == 10 {
                let ghost before = lines_held(lines@);
                let mut line: Vec<u8> = Vec::new();
                std::mem::swap(&mut line, &mut current);
                lines.push(RawLine { name: self.name.clone(), line });
                assert(lines_held(lines@) =~= before.push(line@));
            } else {
                current.push(b);
            }
            i = i + 1;
        }
        assert(acc.take(acc.len() as int) =~= acc);
        self.acc = current;
        lines
    }

    /// Take in a chunk of output, and hand out the lines that it finishes.
    pub fn feed(&mut self, bytes: &[u8]) -> (lines: Vec<RawLine>)
        requires
            old(self).wf(),
        ensures
            final(self).wf(),
            final(self).name == old(self).name,
            lines_held(lines@) == finished(old(self).acc@ + old(self).mode.text(bytes@)),
            all_from(lines@, old(self).name@),
            final(self).acc@ == unfinished(old(self).acc@ + old(self).mode.text(bytes@)),
            old(self).mode.leads_to(bytes@, final(self).mode),
            old(self).mode matches EmitMode::Strip { parser, .. } ==> {
                &&& is_clean(old(self).mode.text(bytes@))
                &&& vt_whole(parser) && vstd::utf8::valid_utf8(bytes@) ==> vt_whole(
                    vt_next(parser, bytes@),
                )
                &&& bytes@.len() > 0 && bytes@.last() < 0x80 ==> vt_whole(vt_next(parser, bytes@))
                &&& vt_whole(parser) ==> forall|k: int|
                    0 <= k <= bytes@.len() && (vt_whole(vt_next(parser, #[trigger] bytes@.take(k)))
                        || !vt_torn(bytes@.take(k), bytes@.skip(k))) ==> vt_cut(
                        parser,
                        bytes@.take(k),
                        bytes@.skip(k),
                    )
            },
    {
        match &mut self.mode {
            EmitMode::Strip { parser, extractor } => {
                let events = vt_advance(parser, bytes);
                proof {
                    law_extracted_is_clean(extractor.pending_cr, events@);
                    assert forall|k: int| 0 <= k <= bytes@.len() implies #[trigger] bytes@.take(k)
                        + bytes@.skip(k) == bytes@ by {
                        assert(bytes@.take(k) + bytes@.skip(k) =~= bytes@);
                    }
                }
                extractor.take_in(&events);
                let mut text = extractor.drain();
                self.acc.append(&mut text);
            },
            EmitMode::Color { pending_cr } => {
                normalize_cr(bytes, pending_cr, &mut self.acc);
            },
        }
        assert(self.acc@ =~= old(self).acc@ + old(self).mode.text(bytes@));
        self.emit_lines()
    }

    /// The end of the output: hand out what is left, even where no line feed
    /// finished it.
    pub fn finish(&mut self) -> (lines: Vec<RawLine>)
        requires
            old(self).wf(),
        ensures
            final(self).acc@ == Seq::<u8>::empty(),
            all_from(lines@, old(self).name@),
            ({
                let all = old(self).acc@ + old(self).mode.ending();
                lines_held(lines@) == (if unfinished(all).len() == 0 {
                    finished(all)
                } else {
                    finished(all).push(unfinished(all))
                })
            }),
    {
        match &mut self.mode {
            EmitMode::Strip { parser: _, extractor } => {
                extractor.resolve_cr();
                let mut text = extractor.drain();
                self.acc.append(&mut text);
            },
            EmitMode::Color { pending_cr } => {
                if *pending_cr {
                    self.acc.push(10);
                    *pending_cr = false;
                }
            },
        }
        let ghost all = old(self).acc@ + old(self).mode.ending();
        assert(self.acc@ =~= all);
        let mut lines = self.emit_lines();
        if self.acc.len() > 0 {
            let ghost before = lines_held(lines@);
            let mut line: Vec<u8> = Vec::new();
            std::mem::swap(&mut line, &mut self.acc);
            lines.push(RawLine { name: self.name.clone(), line });
            assert(lines_held(lines@) =~= before.push(line@));
        }
        assert(self.acc@ =~= Seq::<u8>::empty());
        lines
    }
}

/// With colours kept, it does not matter where the output is cut: the lines of
/// two chunks are those of both at once.
pub proof fn law_emitting_in_pieces(acc: Seq<u8>, pending: bool, a: Seq<u8>, b: Seq<u8>)
    ensures
        ({
            let one = acc + normalized(pending, a).0;
            let two = unfinished(one) + normalized(normalized(pending, a).1, b).0;
            let both = acc + normalized(pending, a + b).0;
            finished(both) == finished(one) + finished(two) && unfinished(both) == unfinished(two)
        }),
{
    law_normalizing_in_pieces(pending, a, b);
    let one = acc + normalized(pending, a).0;
    let more = normalized(normalized(pending, a).1, b).0;
    assert(acc + normalized(pending, a + b).0 =~= one + more);
    law_splitting_in_pieces(one, more);
}

/// Without colours it does not matter either, wherever the parser can be cut.
pub proof fn law_stripping_in_pieces(
    acc: Seq<u8>,
    parser: vte::Parser,
    pending: bool,
    a: Seq<u8>,
    b: Seq<u8>,
)
    requires
        vt_cut(parser, a, b),
    ensures
        ({
            let one = acc + chunk_text(parser, pending, a);
            let two = unfinished(one) + chunk_text(
                vt_next(parser, a),
                chunk_pending(parser, pending, a),
                b,
            );
            let both = acc + chunk_text(parser, pending, a + b);
            finished(both) == finished(one) + finished(two) && unfinished(both) == unfinished(two)
        }),
{
    law_chunks_come_to_the_same(parser, pending, a, b);
    let one = acc + chunk_text(parser, pending, a);
    let more = chunk_text(vt_next(parser, a), chunk_pending(parser, pending, a), b);
    assert(acc + chunk_text(parser, pending, a + b) =~= one + more);
    law_splitting_in_pieces(one, more);
}

// ---- printing ----

/// Whether the lines of a process are printed: all are, unless some names were
/// picked.
pub open spec fn is_printed(only: Seq<Seq<char>>, name: Seq<char>) -> bool {
    only.len() == 0 || only.contains(name)
}

/// Whether the lines of the process of that name are printed.
pub fn prints(only: &[String], name: &str) -> (yes: bool)
    ensures
        yes == is_printed(texts(only@), name@),
{
    let ghost picked = texts(only@);
    if only.len() == 0 {
        return true;
    }
    let mut i: usize = 0;
    while i < only.len()
        invariant
            i <= only@.len(),
            picked == texts(only@),
            forall|j: int| 0 <= j < i ==> #[trigger] picked[j] != name@,
        decreases only@.len() - i,
    {
        if same_text(only[i].as_str(), name) {
            assert(picked[i as int] == name@);
            return true;
        }
        i = i + 1;
    }
    false
}

/// A line as it is printed: the process in brackets, then the line.
pub open spec fn printed(name: Seq<char>, line: Seq<u8>) -> Seq<u8> {
    vstd::utf8::encode_utf8("["@ + name + "] "@) + line + seq![10u8]
}

/// A line as it is printed.
pub fn printed_line(raw: &RawLine) -> (bytes: Vec<u8>)
    ensures
        bytes@ == printed(raw.name@, raw.line@),
{
    let mut head = "[".to_owned();
    head.append(raw.name.as_str());
    head.append("] ");
    let mut bytes: Vec<u8> = Vec::new();
    bytes.extend_from_slice(head.as_str().as_bytes());
    bytes.extend_from_slice(&raw.line);
    bytes.push(10);
    assert(bytes@ =~= printed(raw.name@, raw.line@));
    bytes
}

/// The first of some names that no process has.
pub open spec fn first_unknown(only: Seq<Seq<char>>, names: Seq<Seq<char>>) -> Option<Seq<char>>
    decreases only.len(),
{
    if only.len() == 0 {
        None
    } else {
        match first_unknown(only.drop_last(), names) {
            Some(name) => Some(name),
            None => if names.contains(only.last()) {
                None
            } else {
                Some(only.last())
            },
        }
    }
}

/// The message for a picked name that no process has.
pub open spec fn unknown_name_text(name: Seq<char>) -> Seq<char> {
    "--only: no process named '"@ + name + "' in this config"@
}

proof fn lemma_first_unknown_sticks(only: Seq<Seq<char>>, names: Seq<Seq<char>>, n: int)
    requires
        0 <= n <= only.len(),
        first_unknown(only.take(n), names) is Some,
    ensures
        first_unknown(only, names) == first_unknown(only.take(n), names),
    decreases only.len(),
{
    if n < only.len() {
        assert(only.drop_last().take(n) =~= only.take(n));
        lemma_first_unknown_sticks(only.drop_last(), names, n);
    } else {
        assert(only.take(n) =~= only);
    }
}

/// Check that each picked name is that of a process.
pub fn check_only(only: &[String], names: &[String]) -> (res: Result<(), String>)
    ensures
        match res {
            Ok(_) => first_unknown(texts(only@), texts(names@)) is None,
            Err(text) => first_unknown(texts(only@), texts(names@)) matches Some(name) && text@
                == unknown_name_text(name),
        },
{
    let ghost picked = texts(only@);
    let ghost known = texts(names@);
    let mut i: usize = 0;
    assert(picked.take(0) =~= Seq::<Seq<char>>::empty());
    while i < only.len()
        invariant
            i <= only@.len(),
            picked == texts(only@),
            known == texts(names@),
            first_unknown(picked.take(i as int), known) is None,
        decreases only@.len() - i,
    {
        let ghost now = picked.take(i + 1);
        assert(now.drop_last() =~= picked.take(i as int));
        assert(now.last() == only@[i as int]@);
        let mut found = false;
        let mut j: usize = 0;
        while j < names.len()
            invariant
                i < only@.len(),
                j <= names@.len(),
                known == texts(names@),
                found ==> known.contains(only@[i as int]@),
                !found ==> forall|k: int| 0 <= k < j ==> #[trigger] known[k] != only@[i as int]@,
            decreases names@.len() - j,
        {
            if same_text(names[j].as_str(), only[i].as_str()) {
                assert(known[j as int] == only@[i as int]@);
                found = true;
            }
            j = j + 1;
        }
        if !found {
            let mut text = "--only: no process named '".to_owned();
            text.append(only[i].as_str());
            text.append("' in this config");
            proof {
                lemma_first_unknown_sticks(picked, known, i + 1);
            }
            return Err(text);
        }
        i = i + 1;
    }
    assert(picked.take(picked.len() as int) =~= picked);
    Ok(())
}

// ---- a run without a screen ----

/// How long the processes of such a run have to end before they are killed.
pub const RAW_SHUTDOWN_GRACE_MS: u64 = 3000;

/// Where a run is.
#[derive(Clone, Copy, Debug, PartialEq, Eq, Structural)]
pub enum RawPhase {
    Running,
    /// Waiting for what still runs, since some time.
    Ending { since: u64 },
    Over,
}

/// What is seen of a run at some time, in milliseconds.
#[derive(Clone, Copy, Debug, PartialEq, Eq, Structural)]
pub struct RawSight {
    /// Whether someone asks for the end.
    pub asked: bool,
    /// Whether every slot has come to an end by itself.
    pub finished: bool,
    /// Whether no process runs.
    pub exited: bool,
    pub now: u64,
}

/// What is to be done.
#[derive(Clone, Copy, Debug, PartialEq, Eq, Structural)]
pub enum RawAction {
    Wait,
    /// Ask all processes to end.
    Shutdown,
    /// Kill whatever is left.
    KillAll,
}

/// The next phase of a run, and what is to be done.
pub open spec fn raw_next(phase: RawPhase, sight: RawSight) -> (RawPhase, RawAction) {
    match phase {
        RawPhase::Running => if sight.asked {
            (RawPhase::Ending { since: sight.now }, RawAction::Shutdown)
        } else if sight.finished {
            (RawPhase::Ending { since: sight.now }, RawAction::Wait)
        } else {
            (phase, RawAction::Wait)
        },
        RawPhase::Ending { since } => if sight.exited || sight.now - since
            >= RAW_SHUTDOWN_GRACE_MS {
            (RawPhase::Over, RawAction::KillAll)
        } else {
            (phase, RawAction::Wait)
        },
        RawPhase::Over => (phase, RawAction::Wait),
    }
}

/// The next phase of a run, and what is to be done.
pub fn raw_step(phase: RawPhase, sight: RawSight) -> (step: (RawPhase, RawAction))
    ensures
        step == raw_next(phase, sight),
{
    match phase {
        RawPhase::Running => if sight.asked {
            (RawPhase::Ending { since: sight.now }, RawAction::Shutdown)
        } else if sight.finished {
            (RawPhase::Ending { since: sight.now }, RawAction::Wait)
        } else {
            (phase, RawAction::Wait)
        },
        RawPhase::Ending { since } => if sight.exited || (sight.now >= since && sight.now - since
            >= RAW_SHUTDOWN_GRACE_MS) {
            (RawPhase::Over, RawAction::KillAll)
        } else {
            (phase, RawAction::Wait)
        },
        RawPhase::Over => (phase, RawAction::Wait),
    }
}

/// The phase of a run after a list of sights.
pub open spec fn raw_phase(sights: Seq<RawSight>) -> RawPhase
    decreases sights.len(),
{
    if sights.len() == 0 {
        RawPhase::Running
    } else {
        raw_next(raw_phase(sights.drop_last()), sights.last()).0
    }
}

/// How often a run has killed whatever was left.
pub open spec fn raw_kills(sights: Seq<RawSight>) -> int
    decreases sights.len(),
{
    if sights.len() == 0 {
        0
    } else {
        raw_kills(sights.drop_last()) + if raw_next(
            raw_phase(sights.drop_last()),
            sights.last(),
        ).1 == RawAction::KillAll {
            1int
        } else {
            0
        }
    }
}

/// As long as no one asks for the end and some slot has not come to one, a run
/// goes on.
pub proof fn law_raw_run_goes_on(sights: Seq<RawSight>)
    requires
        forall|i: int|
            0 <= i < sights.len() ==> !(#[trigger] sights[i]).asked && !sights[i].finished,
    ensures
        raw_phase(sights) == RawPhase::Running,
        raw_kills(sights) == 0,
    decreases sights.len(),
{
    if sights.len() > 0 {
        let before = sights.drop_last();
        assert(sights.last() == sights[sights.len() - 1]);
        assert forall|i: int| 0 <= i < before.len() implies !(#[trigger] before[i]).asked
            && !before[i].finished by {
            assert(before[i] == sights[i]);
        }
        law_raw_run_goes_on(before);
    }
}

/// A run is over exactly when it has killed whatever was left, and it does so
/// once.
pub proof fn law_raw_run_kills_once(sights: Seq<RawSight>)
    ensures
        raw_kills(sights) == (if raw_phase(sights) == RawPhase::Over {
            1int
        } else {
            0
        }),
    decreases sights.len(),
{
    if sights.len() > 0 {
        law_raw_run_kills_once(sights.drop_last());
    }
}

/// Once a run ends, it is over as soon as no process runs, and after the grace
/// in any case.
pub proof fn law_raw_run_ends_in_time(since: u64, sight: RawSight)
    requires
        sight.exited || sight.now - since >= RAW_SHUTDOWN_GRACE_MS,
    ensures
        raw_next(RawPhase::Ending { since }, sight).0 == RawPhase::Over,
{
}

// ---- the record of the output ----

/// How many bytes of output are kept for each process.
pub const RAW_CAP: usize = 1048576;

/// Bytes without their first line.
pub open spec fn without_first_line(bytes: Seq<u8>) -> Seq<u8>
    decreases bytes.len(),
{
    if bytes.len() == 0 {
        bytes
    } else if bytes[0] == 10 {
        bytes.skip(1)
    } else {
        without_first_line(bytes.skip(1))
    }
}

/// Bytes cut down to `cap`: whole lines go from the front until the rest fits.
pub open spec fn evicted(bytes: Seq<u8>, cap: int) -> Seq<u8>
    decreases bytes.len(),
    when 0 <= cap
    via evicted_decreases
{
    if bytes.len() <= cap {
        bytes
    } else {
        evicted(without_first_line(bytes), cap)
    }
}

#[via_fn]
proof fn evicted_decreases(bytes: Seq<u8>, cap: int) {
    lemma_without_first_line(bytes);
}

proof fn lemma_without_first_line(bytes: Seq<u8>)
    ensures
        bytes.len() > 0 ==> without_first_line(bytes).len() < bytes.len(),
        without_first_line(bytes).len() <= bytes.len(),
        without_first_line(bytes) == bytes.skip(bytes.len() - without_first_line(bytes).len()),
    decreases bytes.len(),
{
    if bytes.len() > 0 {
        if bytes[0] != 10 {
            lemma_without_first_line(bytes.skip(1));
            let rest = without_first_line(bytes.skip(1));
            assert(bytes.skip(1).skip(bytes.len() - 1 - rest.len()) =~= bytes.skip(
                bytes.len() - rest.len(),
            ));
        }
    } else {
        assert(bytes.skip(0) =~= bytes);
    }
}

/// Cut a record down to `cap` bytes, dropping whole lines from its front so
/// that no escape sequence is split. Without a line feed to cut at, everything
/// goes.
pub fn evict_to_cap(buf: &mut VecDeque<u8>, cap: usize)
    ensures
        final(buf)@ == evicted(old(buf)@, cap as int),
{
    let ghost whole = evicted(buf@, cap as int);
    while buf.len() > cap
        invariant
            whole == evicted(buf@, cap as int),
        decreases buf@.len(),
    {
        let ghost start = buf@;
        let mut going = true;
        while going && buf.len() > 0
            invariant
                going ==> without_first_line(start) == without_first_line(buf@),
                !going ==> without_first_line(start) == buf@,
                buf@.len() <= start.len(),
                going || buf@.len() < start.len(),
            decreases buf@.len(),
        {
            let ghost before = buf@;
            let first = buf.pop_front();
            assert(buf@ =~= before.skip(1));
            if let Some(b) = first {
                if b == 10 {
                    going = false;
                }
            }
        }
        assert(without_first_line(start) =~= buf@);
    }
}

/// The record never exceeds its cap, is the end of what it was made from, and
/// where anything was cut off it starts with a line or is empty.
pub proof fn law_eviction(bytes: Seq<u8>, cap: int)
    requires
        0 <= cap,
    ensures
        evicted(bytes, cap).len() <= cap,
        evicted(bytes, cap).len() <= bytes.len(),
        evicted(bytes, cap) == bytes.skip(bytes.len() - evicted(bytes, cap).len()),
        bytes.len() <= cap ==> evicted(bytes, cap) == bytes,
        0 < evicted(bytes, cap).len() < bytes.len() ==> bytes[bytes.len() - evicted(
            bytes,
            cap,
        ).len() - 1] == 10,
    decreases bytes.len(),
{
    if bytes.len() <= cap {
        assert(bytes.skip(0) =~= bytes);
    } else {
        lemma_without_first_line(bytes);
        let rest = without_first_line(bytes);
        law_eviction(rest, cap);
        let end = evicted(bytes, cap);
        assert(bytes.skip(bytes.len() - rest.len()).skip(rest.len() - end.len()) =~= bytes.skip(
            bytes.len() - end.len(),
        ));
        if 0 < end.len() && end.len() == rest.len() {
            lemma_line_start(bytes);
        }
    }
}

proof fn lemma_line_start(bytes: Seq<u8>)
    requires
        bytes.len() > 0,
        without_first_line(bytes).len() > 0,
    ensures
        bytes[bytes.len() - without_first_line(bytes).len() - 1] == 10,
    decreases bytes.len(),
{
    if bytes[0] != 10 {
        lemma_without_first_line(bytes.skip(1));
        lemma_line_start(bytes.skip(1));
    }
}

// ---- what lines keep ----

/// What one byte adds to a line: a line feed ends it once, a carriage return
/// waits, and any other byte stays, after the end of the line where a carriage
/// return was pending.
pub proof fn law_bytes_are_kept(pending: bool, b: u8)
    ensures
        b == 10 ==> normalized(pending, seq![b]) == (seq![10u8], false),
        b == 13 ==> normalized(pending, seq![b]) == (if pending {
            seq![10u8]
        } else {
            Seq::empty()
        }, true),
        b != 10 && b != 13 ==> normalized(pending, seq![b]) == (if pending {
            seq![10u8, b]
        } else {
            seq![b]
        }, false),
{
    assert(seq![b].drop_last() =~= Seq::<u8>::empty());
    assert(normalized(pending, Seq::<u8>::empty()) == (Seq::<u8>::empty(), pending));
    if b == 10 {
        assert(normalized(pending, seq![b]).0 =~= seq![10u8]);
    } else if b == 13 {
        assert(normalized(pending, seq![b]).0 =~= if pending {
            seq![10u8]
        } else {
            Seq::empty()
        });
    } else {
        assert(normalized(pending, seq![b]).0 =~= if pending {
            seq![10u8, b]
        } else {
            seq![b]
        });
    }
}

/// There are as many finished lines as line feeds.
pub proof fn law_each_feed_finishes_a_line(bytes: Seq<u8>, b: u8)
    ensures
        finished(Seq::<u8>::empty()).len() == 0,
        b == 10 ==> finished(bytes.push(b)).len() == finished(bytes).len() + 1,
        b != 10 ==> finished(bytes.push(b)) == finished(bytes),
{
    assert(bytes.push(b).drop_last() =~= bytes);
}

/// All processes are printed where no name was picked, and else exactly those
/// whose names were.
pub proof fn law_picked_processes_are_printed(only: Seq<Seq<char>>, name: Seq<char>)
    ensures
        only.len() == 0 ==> is_printed(only, name),
        only.len() > 0 ==> (is_printed(only, name) <==> exists|i: int|
            0 <= i < only.len() && #[trigger] only[i] == name),
{
}

/// A line is printed after its process in brackets, and ends with a line feed.
pub proof fn law_lines_are_printed_with_their_process(name: Seq<char>, line: Seq<u8>)
    ensures
        printed(name, line) == vstd::utf8::encode_utf8(seq!['['] + name + seq![']', ' ']) + line
            + seq![10u8],
{
    reveal_strlit("[");
    reveal_strlit("] ");
    assert("["@ + name + "] "@ =~= seq!['['] + name + seq![']', ' ']);
}

/// Picked names are accepted exactly where each is that of a process, and else
/// the first that is not is named.
pub proof fn law_picked_names_have_to_be_known(only: Seq<Seq<char>>, names: Seq<Seq<char>>)
    ensures
        first_unknown(only, names) is None <==> forall|i: int|
            0 <= i < only.len() ==> names.contains(#[trigger] only[i]),
        forall|i: int|
            0 <= i < only.len() && !names.contains(#[trigger] only[i]) && (forall|j: int|
                0 <= j < i ==> names.contains(#[trigger] only[j])) ==> first_unknown(only, names)
                == Some(only[i]),
    decreases only.len(),
{
    if only.len() > 0 {
        let init = only.drop_last();
        law_picked_names_have_to_be_known(init, names);
        assert forall|i: int| 0 <= i < init.len() implies #[trigger] init[i] == only[i] by {}
        if first_unknown(only, names) is None {
            assert forall|i: int| 0 <= i < only.len() implies names.contains(#[trigger] only[i]) by {
                if i < init.len() {
                    assert(names.contains(init[i]));
                }
            }
        }
        if forall|i: int| 0 <= i < only.len() ==> names.contains(#[trigger] only[i]) {
            assert forall|i: int| 0 <= i < init.len() implies names.contains(#[trigger] init[i]) by {
                assert(names.contains(only[i]));
            }
            assert(names.contains(only[only.len() - 1]));
        }
        assert forall|i: int|
            0 <= i < only.len() && !names.contains(#[trigger] only[i]) && (forall|j: int|
                0 <= j < i ==> names.contains(#[trigger] only[j])) implies first_unknown(
            only,
            names,
        ) == Some(only[i]) by {
            assert forall|j: int| 0 <= j < i && j < init.len() implies names.contains(
                #[trigger] init[j],
            ) by {
                assert(names.contains(only[j]));
            }
            if i < init.len() {
                assert(!names.contains(init[i]));
            }
        }
    }
}

/// A run without a screen: it goes on until someone asks for its end, which is
/// when all are asked to end, or until every slot has come to one. Then it waits
/// until no process runs, or for three seconds, kills what is left, and is over.
pub proof fn law_raw_run_steps(phase: RawPhase, sight: RawSight)
    ensures
        ({
            let (next, action) = raw_next(phase, sight);
            match phase {
                RawPhase::Running => {
                    &&& action == RawAction::Shutdown <==> sight.asked
                    &&& action != RawAction::KillAll
                    &&& sight.asked || sight.finished ==> next == (RawPhase::Ending {
                        since: sight.now,
                    })
                    &&& !sight.asked && !sight.finished ==> next == phase
                },
                RawPhase::Ending { since } => {
                    let done = sight.exited || sight.now - since >= 3000;
                    &&& done ==> next == RawPhase::Over && action == RawAction::KillAll
                    &&& !done ==> next == phase && action == RawAction::Wait
                },
                RawPhase::Over => next == RawPhase::Over && action == RawAction::Wait,
            }
        }),
{
}

proof fn lemma_first_line_is_first(bytes: Seq<u8>, p: int)
    requires
        1 <= p <= bytes.len(),
        bytes[p - 1] == 10,
    ensures
        without_first_line(bytes).len() >= bytes.len() - p,
    decreases bytes.len(),
{
    if bytes[0] != 10 {
        lemma_first_line_is_first(bytes.skip(1), p - 1);
    }
}

/// No more of a record goes than has to: wherever a line begins from which on
/// the rest would fit, that line and all after it are kept. A mebibyte is kept
/// for each process.
pub proof fn law_no_line_goes_without_need(bytes: Seq<u8>, cap: int, p: int)
    requires
        0 <= cap,
        1 <= p <= bytes.len(),
        bytes[p - 1] == 10,
        bytes.len() - p <= cap,
    ensures
        evicted(bytes, cap).len() >= bytes.len() - p,
        RAW_CAP == 1024 * 1024,
    decreases bytes.len(),
{
    if bytes.len() > cap {
        lemma_without_first_line(bytes);
        lemma_first_line_is_first(bytes, p);
        let rest = without_first_line(bytes);
        let gone = bytes.len() - rest.len();
        if p > gone {
            assert(rest[p - gone - 1] == bytes[p - 1]);
            law_no_line_goes_without_need(rest, cap, p - gone);
        }
    }
}

/// A chunk leaves behind what the next one needs: two chunks, one after the
/// other, come to the same text as both at once, wherever the parser makes the
/// same of them.
pub proof fn law_chunks_go_on_where_they_stopped(
    mode: EmitMode,
    next: EmitMode,
    a: Seq<u8>,
    b: Seq<u8>,
)
    requires
        mode.leads_to(a, next),
        mode matches EmitMode::Strip { parser, .. } ==> crate::vt::vt_events(parser, a + b)
            == crate::vt::vt_events(parser, a) + crate::vt::vt_events(vt_next(parser, a), b),
    ensures
        mode is Color <==> next is Color,
        mode.text(a + b) == mode.text(a) + next.text(b),
{
    match mode {
        EmitMode::Color { pending_cr } => {
            law_normalizing_in_pieces(pending_cr, a, b);
        },
        EmitMode::Strip { parser, extractor } => {
            crate::logfile::law_extracting_in_pieces(
                extractor.pending_cr,
                crate::vt::vt_events(parser, a),
                crate::vt::vt_events(vt_next(parser, a), b),
            );
        },
    }
}

/// A carriage return that nothing followed ends the line, and nothing else is
/// added at the end.
pub proof fn law_open_return_ends_the_line(mode: EmitMode)
    ensures
        match mode {
            EmitMode::Color { pending_cr } => mode.ending().len() == (if pending_cr {
                1int
            } else {
                0
            }),
            EmitMode::Strip { extractor, .. } => mode.ending().len() == (if extractor.pending_cr {
                1int
            } else {
                0
            }),
        },
        mode.ending().len() > 0 ==> mode.ending()[0] == 10,
{
}

} // verus!
