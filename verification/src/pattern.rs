//! Regular expressions.

use vstd::prelude::*;

verus! {

/// What `regex::Regex::new` objects to in a pattern, or `None` where it accepts
/// the pattern.
pub uninterp spec fn pattern_problem(pattern: Seq<char>) -> Option<Seq<char>>;

/// `regex::Regex::new`: compile a pattern. The contract names the outcome,
/// which depends on the pattern alone: the error's message, or none. Which
/// patterns are accepted is left to that crate's syntax.
#[verifier::external_body]
pub(crate) fn check_pattern(pattern: &str) -> (problem: Option<String>)
    ensures
        match problem {
            Some(why) => pattern_problem(pattern@) == Some(why@),
            None => pattern_problem(pattern@) is None,
        },
{
    match regex::Regex::new(pattern) {
        Ok(_) => None,
        Err(e) => Some(e.to_string()),
    }
}

/// Whether `regex::Regex::is_match` finds an accepted pattern in a text.
pub uninterp spec fn pattern_occurs(pattern: Seq<char>, text: Seq<char>) -> bool;

/// `regex::Regex::new` and `regex::Regex::is_match`: whether a pattern matches
/// somewhere in a text, or why it is no pattern. The contract names both
/// outcomes, which depend on the pattern and the text alone.
#[verifier::external_body]
pub(crate) fn find_pattern(pattern: &str, text: &str) -> (found: Result<bool, String>)
    ensures
        match found {
            Ok(yes) => pattern_problem(pattern@) is None && yes == pattern_occurs(pattern@, text@),
            Err(why) => pattern_problem(pattern@) == Some(why@),
        },
{
    match regex::Regex::new(pattern) {
        Ok(re) => Ok(re.is_match(text)),
        Err(e) => Err(e.to_string()),
    }
}

/// What `String::from_utf8_lossy` makes of bytes.
pub uninterp spec fn lossy(bytes: Seq<u8>) -> Seq<char>;

/// `String::from_utf8_lossy`, from the standard library. The contract names the
/// text, which depends on the bytes alone, and says that valid UTF-8 comes out
/// as it is. How much of an invalid sequence one replacement character stands
/// for is left unsaid.
#[verifier::external_body]
pub(crate) fn lossy_text(bytes: &[u8]) -> (text: String)
    ensures
        text@ == lossy(bytes@),
        vstd::utf8::valid_utf8(bytes@) ==> vstd::utf8::encode_utf8(text@) == bytes@,
{
    String::from_utf8_lossy(bytes).into_owned()
}

// ---- searching for a text ----

/// `regex::Regex`: a compiled regular expression.
#[verifier::external_type_specification]
#[verifier::external_body]
pub struct ExRegex(regex::Regex);

/// What a regular expression looks for, where it was made to look for a text
/// with its letter case ignored.
pub uninterp spec fn sought(re: regex::Regex) -> Option<Seq<char>>;

/// Whether `regex::RegexBuilder::build` accepts an escaped text: it refuses one
/// that is too long to compile.
pub uninterp spec fn can_seek(query: Seq<char>) -> bool;

/// Where `regex::Regex::find_iter` finds a sought text, as byte positions.
pub uninterp spec fn found_spans(query: Seq<char>, text: Seq<char>) -> Seq<(usize, usize)>;

/// Whether byte positions mark pieces of a text, one after the other.
pub open spec fn spans_fit(spans: Seq<(usize, usize)>, bytes: Seq<u8>) -> bool {
    &&& forall|i: int|
        0 <= i < spans.len() ==> (#[trigger] spans[i]).0 <= spans[i].1 <= bytes.len()
    &&& forall|i: int|
        0 <= i < spans.len() ==> vstd::utf8::is_char_boundary(
            bytes,
            (#[trigger] spans[i]).0 as int,
        ) && vstd::utf8::is_char_boundary(bytes, spans[i].1 as int)
    &&& forall|i: int, j: int|
        0 <= i < j < spans.len() ==> (#[trigger] spans[i]).1 <= (#[trigger] spans[j]).0
}

/// Whether no piece is empty.
pub open spec fn spans_hold_text(spans: Seq<(usize, usize)>) -> bool {
    forall|i: int| 0 <= i < spans.len() ==> (#[trigger] spans[i]).0 < spans[i].1
}

/// `regex::escape` and `regex::RegexBuilder` with `case_insensitive`: a regular
/// expression for a text, taken literally and without regard to letter case.
#[verifier::external_body]
fn compile_query(query: &str) -> (re: Option<regex::Regex>)
    ensures
        match re {
            Some(r) => can_seek(query@) && sought(r) == Some(query@),
            None => !can_seek(query@),
        },
{
    regex::RegexBuilder::new(&regex::escape(query)).case_insensitive(true).build().ok()
}

/// `regex::Regex::find_iter`: all matches in a text, as byte positions. The
/// contract names them, which depend on what is sought and the text alone, and
/// says that they lie within the text, between characters, in order and without
/// overlap, and that none is empty where the text that is sought is not.
#[verifier::external_body]
fn find_spans(re: &regex::Regex, text: &str) -> (spans: Vec<(usize, usize)>)
    requires
        sought(*re) is Some,
    ensures
        spans@ == found_spans(sought(*re)->0, text@),
        spans_fit(spans@, vstd::utf8::encode_utf8(text@)),
        sought(*re)->0.len() > 0 ==> spans_hold_text(spans@),
{
    re.find_iter(text).map(|m| (m.start(), m.end())).collect()
}

/// A text to look for, compiled.
pub struct Query {
    text: String,
    re: regex::Regex,
}

impl View for Query {
    type V = Seq<char>;

    closed spec fn view(&self) -> Seq<char> {
        self.text@
    }
}

impl Query {
    #[verifier::type_invariant]
    spec fn compiled(self) -> bool {
        sought(self.re) == Some(self.text@)
    }

    /// Where the text occurs, as byte positions.
    pub fn spans_in(&self, text: &str) -> (spans: Vec<(usize, usize)>)
        ensures
            spans@ == found_spans(self@, text@),
            spans_fit(spans@, vstd::utf8::encode_utf8(text@)),
            self@.len() > 0 ==> spans_hold_text(spans@),
    {
        proof {
            use_type_invariant(self);
        }
        find_spans(&self.re, text)
    }
}

/// Prepare to look for a text, literally and without regard to letter case.
pub fn build_regex(query: &str) -> (compiled: Option<Query>)
    ensures
        match compiled {
            Some(q) => can_seek(query@) && q@ == query@,
            None => !can_seek(query@),
        },
{
    match compile_query(query) {
        Some(re) => Some(Query { text: query.to_owned(), re }),
        None => None,
    }
}

} // verus!
