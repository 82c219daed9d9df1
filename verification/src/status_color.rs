//! The colours that states are shown in.

use vstd::prelude::*;

use crate::style::Color;

verus! {

/// The colour of what is not there yet: waiting or starting.
pub const PENDING: Color = Color::Orange;

/// The colour of an end: grey where a signal caused it, green where a one-shot
/// ended with code 0, and red for all that should not have happened.
pub open spec fn end_color(code: u32, has_signal: bool, long_lived: bool) -> Color {
    if has_signal {
        Color::DarkGray
    } else if code == 0 && !long_lived {
        Color::Green
    } else {
        Color::Red
    }
}

/// The colour of an end.
pub fn exited_color(code: u32, has_signal: bool, long_lived: bool) -> (color: Color)
    ensures
        color == end_color(code, has_signal, long_lived),
{
    if has_signal {
        Color::DarkGray
    } else if code == 0 && !long_lived {
        Color::Green
    } else {
        Color::Red
    }
}

/// What is pending is shown in a colour of its own.
pub proof fn law_pending_is_distinct(code: u32, has_signal: bool, long_lived: bool)
    ensures
        PENDING != Color::Green,
        PENDING != Color::Yellow,
        PENDING != end_color(code, has_signal, long_lived),
{
}

/// An end by a signal is grey; else the end of a one-shot with code 0 is green,
/// and any other is red.
pub proof fn law_ends_have_their_colours(code: u32, has_signal: bool, long_lived: bool)
    ensures
        end_color(code, has_signal, long_lived) == Color::DarkGray <==> has_signal,
        end_color(code, has_signal, long_lived) == Color::Green <==> !has_signal && !long_lived
            && code == 0,
        end_color(code, has_signal, long_lived) == Color::Red <==> !has_signal && (long_lived
            || code != 0),
{
}

} // verus!
