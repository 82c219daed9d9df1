//! Copying a text to the clipboard: what to try, in which order.
//!
//! The tools of the platform are tried first, as they always reach the
//! clipboard of the system; then the terminal is asked.

use vstd::prelude::*;
use vstd::string::StringExecFns;

#[allow(unused_imports)]
use crate::text::texts;

verus! {

/// A tool and its arguments, as texts.
pub open spec fn tool_texts(list: Seq<Vec<String>>) -> Seq<Seq<Seq<char>>> {
    Seq::new(list.len(), |i: int| texts(list[i]@))
}

/// The clipboard tools of a platform, in the order to try them, each with its
/// arguments.
pub open spec fn tools_of(macos: bool) -> Seq<Seq<Seq<char>>> {
    if macos {
        seq![seq!["pbcopy"@]]
    } else {
        seq![seq!["wl-copy"@], seq!["xclip"@, "-selection"@, "clipboard"@]]
    }
}

fn tool(words: &[&str]) -> (list: Vec<String>)
    ensures
        texts(list@) == Seq::new(words@.len(), |i: int| words@[i]@),
{
    let mut list: Vec<String> = Vec::new();
    let mut i: usize = 0;
    while i < words.len()
        invariant
            i <= words@.len(),
            list@.len() == i,
            forall|j: int| 0 <= j < i ==> (#[trigger] list@[j])@ == words@[j]@,
        decreases words@.len() - i,
    {
        list.push(words[i].to_owned());
        i = i + 1;
    }
    assert(texts(list@) =~= Seq::new(words@.len(), |i: int| words@[i]@));
    list
}

/// The clipboard tools of a platform.
pub fn clipboard_tools(macos: bool) -> (tools: Vec<Vec<String>>)
    ensures
        tool_texts(tools@) == tools_of(macos),
{
    let mut tools: Vec<Vec<String>> = Vec::new();
    if macos {
        tools.push(tool(&["pbcopy"]));
        assert(tool_texts(tools@)[0] =~= tools_of(macos)[0]);
    } else {
        tools.push(tool(&["wl-copy"]));
        tools.push(tool(&["xclip", "-selection", "clipboard"]));
        assert(tool_texts(tools@)[0] =~= tools_of(macos)[0]);
        assert(tool_texts(tools@)[1] =~= tools_of(macos)[1]);
    }
    assert(tool_texts(tools@) =~= tools_of(macos));
    tools
}

/// What to do next to copy a text.
#[derive(Clone, Copy, Debug, PartialEq, Eq, Structural)]
pub enum CopyStep {
    /// Hand the text to a tool.
    Tool(usize),
    /// Send the text to the terminal.
    Terminal,
    /// Nothing more; whether the text was copied.
    Done(bool),
}

/// What to do next to copy a text, where there are some tools and the attempts
/// so far came out as `outcomes` says. The first attempt that comes out well is
/// the last; the terminal is the last resort.
pub fn copy(tools: usize, outcomes: &[bool]) -> (step: CopyStep)
    ensures
        step == (if exists|i: int| 0 <= i < outcomes@.len() && #[trigger] outcomes@[i] {
            CopyStep::Done(true)
        } else if outcomes@.len() < tools {
            CopyStep::Tool(outcomes@.len() as usize)
        } else if outcomes@.len() == tools {
            CopyStep::Terminal
        } else {
            CopyStep::Done(false)
        }),
{
    let mut i: usize = 0;
    while i < outcomes.len()
        invariant
            i <= outcomes@.len(),
            forall|j: int| 0 <= j < i ==> !#[trigger] outcomes@[j],
        decreases outcomes@.len() - i,
    {
        if outcomes[i] {
            return CopyStep::Done(true);
        }
        i = i + 1;
    }
    if outcomes.len() < tools {
        CopyStep::Tool(outcomes.len())
    } else if outcomes.len() == tools {
        CopyStep::Terminal
    } else {
        CopyStep::Done(false)
    }
}

/// Copying goes on until an attempt comes out well, and tries each tool once and
/// the terminal last.
pub proof fn law_copying_tries_all(tools: usize, outcomes: &[bool], step: CopyStep)
    requires
        call_ensures(copy, (tools, outcomes), step),
    ensures
        step == CopyStep::Done(true) <==> outcomes@.contains(true),
        !outcomes@.contains(true) && outcomes@.len() < tools ==> step == CopyStep::Tool(
            outcomes@.len() as usize,
        ),
        step == CopyStep::Terminal <==> !outcomes@.contains(true) && outcomes@.len() == tools,
        step == CopyStep::Done(false) <==> !outcomes@.contains(true) && outcomes@.len() > tools,
{
    if outcomes@.contains(true) {
        let i = outcomes@.index_of(true);
        assert(outcomes@[i]);
    }
}

} // verus!
