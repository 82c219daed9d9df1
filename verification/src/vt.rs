//! Terminal byte streams, taken apart by the `vte` parser.

use vstd::prelude::*;

verus! {

/// What a terminal is told to do, as far as plain text is concerned.
pub enum VtEvent {
    /// Show a character.
    Print(char),
    /// Obey a control byte.
    Execute(u8),
}

/// `vte::Parser`, with the buffer size that it is made with.
#[verifier::external_type_specification]
#[verifier::external_body]
pub struct ExVteParser<const N: usize>(vte::Parser<N>);

/// What `vte::Parser::advance` reports for bytes, from a state of the parser.
pub uninterp spec fn vt_events(parser: vte::Parser, bytes: Seq<u8>) -> Seq<VtEvent>;

/// The state in which `vte::Parser::advance` leaves a parser.
pub uninterp spec fn vt_next(parser: vte::Parser, bytes: Seq<u8>) -> vte::Parser;

/// Whether a parser is between two characters and outside any escape sequence.
pub uninterp spec fn vt_ground(parser: vte::Parser) -> bool;

/// Whether a parser has seen whole characters only: it holds no first part of
/// one whose rest is yet to come. It may be within an escape sequence.
pub uninterp spec fn vt_whole(parser: vte::Parser) -> bool;

/// Whether a parser has seen nothing yet, as `vte::Parser::new` makes it.
pub uninterp spec fn vt_fresh(parser: vte::Parser) -> bool;

/// The state in which chunks of bytes, one after the other, leave a parser.
pub open spec fn vt_run(parser: vte::Parser, chunks: Seq<Seq<u8>>) -> vte::Parser
    decreases chunks.len(),
{
    if chunks.len() == 0 {
        parser
    } else {
        vt_next(vt_run(parser, chunks.drop_last()), chunks.last())
    }
}

/// Whether two parsers cannot be told apart: whatever chunks they are fed from
/// now on, they report the same for each.
pub open spec fn vt_alike(p: vte::Parser, q: vte::Parser) -> bool {
    forall|chunks: Seq<Seq<u8>>, bytes: Seq<u8>|
        #![trigger vt_events(vt_run(p, chunks), bytes)]
        #![trigger vt_events(vt_run(q, chunks), bytes)]
        vt_events(vt_run(p, chunks), bytes) == vt_events(vt_run(q, chunks), bytes)
}

/// Whether a parser reports for two chunks, one after the other, what it
/// reports for both at once, and cannot be told apart afterwards.
pub open spec fn vt_cut(parser: vte::Parser, a: Seq<u8>, b: Seq<u8>) -> bool {
    &&& vt_events(parser, a + b) == vt_events(parser, a) + vt_events(vt_next(parser, a), b)
    &&& vt_alike(vt_next(parser, a + b), vt_next(vt_next(parser, a), b))
}

/// Whether a cut between two chunks runs through a character of two bytes that
/// a parser does not put together as it should: one that is a control
/// character, which is shown and not obeyed, or one that is followed by a byte
/// of ASCII and then by another byte, which lets the ASCII be lost.
pub open spec fn vt_torn(a: Seq<u8>, b: Seq<u8>) -> bool {
    &&& a.len() > 0 && 0xc2 <= a.last() <= 0xdf
    &&& b.len() > 0 && 0x80 <= b[0] <= 0xbf
    &&& (a.last() == 0xc2 && b[0] < 0xa0) || (b.len() >= 3 && b[1] < 0x80 && b[2] >= 0x80)
}

proof fn lemma_run_on(parser: vte::Parser, first: Seq<u8>, chunks: Seq<Seq<u8>>)
    ensures
        vt_run(vt_next(parser, first), chunks) == vt_run(parser, seq![first] + chunks),
    decreases chunks.len(),
{
    let all = seq![first] + chunks;
    if chunks.len() == 0 {
        assert(all.drop_last() =~= Seq::<Seq<u8>>::empty());
        assert(vt_run(parser, all.drop_last()) == parser);
    } else {
        lemma_run_on(parser, first, chunks.drop_last());
        assert(all.drop_last() =~= seq![first] + chunks.drop_last());
    }
}

/// Parsers that cannot be told apart report the same for the next bytes, and
/// cannot be told apart after them either.
pub proof fn law_alike_parsers_stay_alike(p: vte::Parser, q: vte::Parser, next: Seq<u8>)
    requires
        vt_alike(p, q),
    ensures
        vt_events(p, next) == vt_events(q, next),
        vt_alike(vt_next(p, next), vt_next(q, next)),
{
    let none = Seq::<Seq<u8>>::empty();
    assert(vt_events(vt_run(p, none), next) == vt_events(vt_run(q, none), next));
    assert forall|chunks: Seq<Seq<u8>>, bytes: Seq<u8>| #[trigger]
        vt_events(vt_run(vt_next(p, next), chunks), bytes) == vt_events(
            vt_run(vt_next(q, next), chunks),
            bytes,
        ) by {
        lemma_run_on(p, next, chunks);
        lemma_run_on(q, next, chunks);
        let all = seq![next] + chunks;
        assert(vt_events(vt_run(p, all), bytes) == vt_events(vt_run(q, all), bytes));
    }
}

/// Whether no event shows a control character of ASCII: those are obeyed.
pub open spec fn shows_no_controls(events: Seq<VtEvent>) -> bool {
    forall|i: int|
        0 <= i < events.len() ==> (#[trigger] events[i] matches VtEvent::Print(c) ==> c as u32
            >= 0x20)
}

/// What a character on its own means to a terminal: control characters are
/// obeyed, all others shown.
pub open spec fn plain_event(c: char) -> VtEvent {
    if (c as u32) < 0x20 || (0x80 <= (c as u32) && (c as u32) < 0xa0) {
        VtEvent::Execute((c as u32) as u8)
    } else {
        VtEvent::Print(c)
    }
}

/// What a text without escape characters means to a terminal.
pub open spec fn plain_events(text: Seq<char>) -> Seq<VtEvent> {
    Seq::new(text.len(), |i: int| plain_event(text[i]))
}

/// Whether no byte of a sequence starts an escape sequence.
pub open spec fn no_escape(bytes: Seq<u8>) -> bool {
    forall|i: int| 0 <= i < bytes.len() ==> #[trigger] bytes[i] != 0x1b
}

/// `vte::Parser::new`: a parser that has seen nothing yet, the same at every
/// call.
#[verifier::external_body]
pub(crate) fn vt_parser() -> (parser: vte::Parser)
    ensures
        vt_fresh(parser),
        forall|other: vte::Parser| #[trigger] vt_fresh(other) ==> other == parser,
        vt_ground(parser),
        vt_whole(parser),
{
    vte::Parser::new()
}

/// Collects what a parser reports. Escape sequences are reported to the
/// methods of `vte::Perform` that do nothing.
pub struct VtCollector {
    events: Vec<VtEvent>,
}

impl View for VtCollector {
    type V = Seq<VtEvent>;

    closed spec fn view(&self) -> Seq<VtEvent> {
        self.events@
    }
}

impl vte::Perform for VtCollector {
    /// A character to show is put at the end.
    fn print(&mut self, c: char)
        ensures
            final(self)@ == old(self)@.push(VtEvent::Print(c)),
    {
        self.events.push(VtEvent::Print(c));
    }

    /// A control byte is put at the end.
    fn execute(&mut self, byte: u8)
        ensures
            final(self)@ == old(self)@.push(VtEvent::Execute(byte)),
    {
        self.events.push(VtEvent::Execute(byte));
    }
}

/// `vte::Parser::advance`: feed bytes to a parser, and collect the calls of
/// `print` and `execute` that it makes. The contract names the calls and the
/// state that the parser is left in, which depend on its state and the bytes
/// alone. Of what they are it says that valid UTF-8 without the escape byte,
/// fed outside an escape sequence, comes out character by character; that no
/// control character is shown; and that it does not matter where the bytes are
/// cut, but for the cuts through a character of two bytes that `vt_torn` tells.
/// Valid UTF-8, and bytes that end with ASCII, leave no part of a character
/// behind. What a torn character comes to is left unsaid.
#[verifier::external_body]
pub(crate) fn vt_advance(parser: &mut vte::Parser, bytes: &[u8]) -> (events: Vec<VtEvent>)
    ensures
        events@ == vt_events(*old(parser), bytes@),
        *final(parser) == vt_next(*old(parser), bytes@),
        vt_ground(*old(parser)) && vstd::utf8::valid_utf8(bytes@) && no_escape(bytes@)
            ==> vt_ground(*final(parser)) && events@ == plain_events(
            vstd::utf8::decode_utf8(bytes@),
        ),
        shows_no_controls(events@),
        vt_whole(*old(parser)) && vstd::utf8::valid_utf8(bytes@) ==> vt_whole(*final(parser)),
        bytes@.len() > 0 && bytes@.last() < 0x80 ==> vt_whole(*final(parser)),
        vt_whole(*old(parser)) ==> forall|k: int|
            0 <= k <= bytes@.len() && (vt_whole(vt_next(*old(parser), #[trigger] bytes@.take(k)))
                || !vt_torn(bytes@.take(k), bytes@.skip(k))) ==> events@ == vt_events(
                *old(parser),
                bytes@.take(k),
            ) + vt_events(vt_next(*old(parser), bytes@.take(k)), bytes@.skip(k)) && vt_alike(
                *final(parser),
                vt_next(vt_next(*old(parser), bytes@.take(k)), bytes@.skip(k)),
            ),
{
    let mut collector = VtCollector { events: Vec::new() };
    parser.advance(&mut collector, bytes);
    collector.events
}

} // verus!
