//! `${NAME}` references in commands, arguments and values.

use vstd::prelude::*;
use vstd::string::StringExecFns;

use crate::env::Env;
use crate::text::{chars_of, text_between};

verus! {

/// An ASCII letter or an underscore.
pub open spec fn is_name_start(c: char) -> bool {
    ('a' <= c && c <= 'z') || ('A' <= c && c <= 'Z') || c == '_'
}

/// What may follow the first character of a name.
pub open spec fn is_name_char(c: char) -> bool {
    is_name_start(c) || ('0' <= c && c <= '9')
}

/// A name as `[A-Za-z_][A-Za-z0-9_]*` describes it.
pub open spec fn strict_ident(s: Seq<char>) -> bool {
    &&& s.len() > 0
    &&& is_name_start(s[0])
    &&& forall|i: int| 0 <= i < s.len() ==> is_name_char(#[trigger] s[i])
}

fn name_start(c: char) -> (b: bool)
    ensures
        b == is_name_start(c),
{
    ('a' <= c && c <= 'z') || ('A' <= c && c <= 'Z') || c == '_'
}

/// Whether the characters from `from` up to `to` are a name.
fn is_ident_between(chars: &[char], from: usize, to: usize) -> (b: bool)
    requires
        from <= to <= chars@.len(),
    ensures
        b == strict_ident(chars@.subrange(from as int, to as int)),
{
    let ghost s = chars@.subrange(from as int, to as int);
    if from == to || !name_start(chars[from]) {
        return false;
    }
    let mut i: usize = from;
    while i < to
        invariant
            from <= i <= to <= chars@.len(),
            s == chars@.subrange(from as int, to as int),
            forall|j: int| 0 <= j < i - from ==> is_name_char(#[trigger] s[j]),
        decreases to - i,
    {
        let c = chars[i];
        assert(s[i - from] == c);
        if !(name_start(c) || ('0' <= c && c <= '9')) {
            return false;
        }
        i = i + 1;
    }
    true
}

/// Whether a text is a name: an ASCII letter or underscore, followed by ASCII
/// letters, digits and underscores.
pub fn is_strict_ident(s: &str) -> (b: bool)
    ensures
        b == strict_ident(s@),
{
    let chars = chars_of(s);
    assert(chars@.subrange(0, chars@.len() as int) =~= s@);
    is_ident_between(&chars, 0, chars.len())
}

/// Where the first `}` stands, if there is one.
pub open spec fn closing_brace(s: Seq<char>) -> Option<nat>
    decreases s.len(),
{
    if s.len() == 0 {
        None
    } else if s[0] == '}' {
        Some(0)
    } else {
        match closing_brace(s.skip(1)) {
            Some(k) => Some(k + 1),
            None => None,
        }
    }
}

/// What `${inner}` stands for: the value of the variable, nothing where it is
/// not set, and itself where `inner` is no name.
pub open spec fn reference(inner: Seq<char>, env: Map<Seq<char>, Seq<char>>) -> Seq<char> {
    if !strict_ident(inner) {
        seq!['$', '{'] + inner + seq!['}']
    } else if env.contains_key(inner) {
        env[inner]
    } else {
        Seq::empty()
    }
}

/// A template with its references replaced, or `None` where a `${` has no `}`
/// after it.
pub open spec fn expanded(s: Seq<char>, env: Map<Seq<char>, Seq<char>>) -> Option<Seq<char>>
    decreases s.len(),
{
    if s.len() == 0 {
        Some(Seq::empty())
    } else if s[0] == '$' && s.len() > 1 && s[1] == '$' {
        prefixed(seq!['$'], expanded(s.skip(2), env))
    } else if s[0] == '$' && s.len() > 1 && s[1] == '{' {
        match closing_brace(s.skip(2)) {
            Some(k) => if k < s.len() - 2 {
                prefixed(reference(s.skip(2).take(k as int), env), expanded(s.skip(k as int + 3), env))
            } else {
                None
            },
            None => None,
        }
    } else {
        prefixed(seq![s[0]], expanded(s.skip(1), env))
    }
}

/// `head` in front of a text, where there is one.
pub open spec fn prefixed(head: Seq<char>, rest: Option<Seq<char>>) -> Option<Seq<char>> {
    match rest {
        Some(tail) => Some(head + tail),
        None => None,
    }
}

/// The message for a template that does not end its `${`.
pub open spec fn unterminated_text(context: Seq<char>) -> Seq<char> {
    context + ": invalid template: unterminated `${...` (missing `}`)"@
}

proof fn lemma_closing_brace_bound(s: Seq<char>)
    ensures
        closing_brace(s) matches Some(k) ==> k < s.len() && s[k as int] == '}',
    decreases s.len(),
{
    if s.len() > 0 && s[0] != '}' {
        lemma_closing_brace_bound(s.skip(1));
    }
}

fn find_brace(chars: &[char], from: usize) -> (at: Option<usize>)
    requires
        from <= chars@.len(),
    ensures
        match at {
            Some(i) => from <= i < chars@.len() && closing_brace(chars@.skip(from as int)) == Some(
                (i - from) as nat,
            ),
            None => closing_brace(chars@.skip(from as int)) is None,
        },
{
    let ghost whole = closing_brace(chars@.skip(from as int));
    let mut i: usize = from;
    while i < chars.len()
        invariant
            from <= i <= chars@.len(),
            whole == closing_brace(chars@.skip(from as int)),
            whole == match closing_brace(chars@.skip(i as int)) {
                Some(k) => Some((k + (i - from)) as nat),
                None => None,
            },
        decreases chars@.len() - i,
    {
        if chars[i] == '}' {
            return Some(i);
        }
        assert(chars@.skip(i as int).skip(1) =~= chars@.skip(i + 1));
        i = i + 1;
    }
    None
}

/// Append what the reference `${..}` in `chars[from..close + 1]` stands for.
fn add_reference(out: &mut String, chars: &[char], from: usize, close: usize, env: &Env)
    requires
        from + 2 <= close < chars@.len(),
        chars@[from as int] == '$',
        chars@[from + 1] == '{',
        chars@[close as int] == '}',
    ensures
        final(out)@ == old(out)@ + reference(chars@.subrange(from + 2, close as int), env@),
{
    let ghost inner = chars@.subrange(from + 2, close as int);
    if is_ident_between(chars, from + 2, close) {
        let name = text_between(chars, from + 2, close);
        match env.get(name.as_str()) {
            Some(value) => out.append(value.as_str()),
            None => {
                assert(out@ + reference(inner, env@) =~= out@);
            },
        }
    } else {
        let n = chars.len();
        assert(close < n);
        let piece = text_between(chars, from, close + 1);
        assert(piece@ =~= reference(inner, env@));
        out.append(piece.as_str());
    }
}

/// Replace the `${NAME}` references of a template.
///
/// `$$` gives a `$`; a `$` that is followed by neither `$` nor `{` stands for
/// itself, and so does a `${...}` that holds no name, so that a shell can
/// interpolate it later. A variable that is not set gives nothing. A `${`
/// without a `}` is an error, whose message starts with `context`.
pub fn substitute(input: &str, env: &Env, context: &str) -> (res: Result<String, String>)
    ensures
        match res {
            Ok(text) => expanded(input@, env@) == Some(text@),
            Err(message) => expanded(input@, env@) is None && message@ == unterminated_text(
                context@,
            ),
        },
{
    let chars = chars_of(input);
    let mut out = String::new();
    let mut i: usize = 0;
    let ghost whole = expanded(input@, env@);
    proof {
        assert(chars@.skip(0) =~= input@);
        if let Some(tail) = whole {
            assert(out@ + tail =~= tail);
        }
    }
    while i < chars.len()
        invariant
            i <= chars@.len(),
            whole == prefixed(out@, expanded(chars@.skip(i as int), env@)),
            whole == expanded(input@, env@),
        decreases chars@.len() - i,
    {
        let ghost rest = chars@.skip(i as int);
        let ghost before = out@;
        let c = chars[i];
        if c == '$' && i + 1 < chars.len() && chars[i + 1] == '$' {
            out.push('$');
            i = i + 2;
            proof {
                assert(rest.skip(2) =~= chars@.skip(i as int));
                if let Some(tail) = expanded(rest.skip(2), env@) {
                    assert(before + (seq!['$'] + tail) =~= before.push('$') + tail);
                }
            }
        } else if c == '$' && i + 1 < chars.len() && chars[i + 1] == '{' {
            assert(rest.skip(2) =~= chars@.skip(i + 2));
            proof {
                lemma_closing_brace_bound(rest.skip(2));
            }
            match find_brace(&chars, i + 2) {
                None => {
                    let mut message = context.to_owned();
                    message.append(": invalid template: unterminated `${...` (missing `}`)");
                    return Err(message);
                },
                Some(close) => {
                    let ghost k = close - i - 2;
                    let ghost inner = rest.skip(2).take(k);
                    assert(inner =~= chars@.subrange(i + 2, close as int));
                    add_reference(&mut out, &chars, i, close, env);
                    assert(out@ == before + reference(inner, env@));
                    i = close + 1;
                    proof {
                        assert(rest.skip(k + 3) =~= chars@.skip(i as int));
                        if let Some(tail) = expanded(rest.skip(k + 3), env@) {
                            assert(before + (reference(inner, env@) + tail) =~= out@ + tail);
                        }
                    }
                },
            }
        } else {
            out.push(c);
            i = i + 1;
            proof {
                assert(rest.skip(1) =~= chars@.skip(i as int));
                if let Some(tail) = expanded(rest.skip(1), env@) {
                    assert(before + (seq![c] + tail) =~= before.push(c) + tail);
                }
            }
        }
    }
    assert(out@ + Seq::<char>::empty() =~= out@);
    Ok(out)
}

// ---- what a template keeps ----

/// A text without `$` stands for itself in every environment.
pub proof fn law_plain_text_is_unchanged(s: Seq<char>, env: Map<Seq<char>, Seq<char>>)
    requires
        forall|i: int| 0 <= i < s.len() ==> #[trigger] s[i] != '$',
    ensures
        expanded(s, env) == Some(s),
    decreases s.len(),
{
    if s.len() > 0 {
        assert(s[0] != '$');
        assert forall|i: int| 0 <= i < s.skip(1).len() implies #[trigger] s.skip(1)[i] != '$' by {
            assert(s[i + 1] != '$');
        }
        law_plain_text_is_unchanged(s.skip(1), env);
        assert(seq![s[0]] + s.skip(1) =~= s);
    } else {
        assert(s =~= Seq::empty());
    }
}

/// A text with every `$` written twice.
pub open spec fn escaped(s: Seq<char>) -> Seq<char>
    decreases s.len(),
{
    if s.len() == 0 {
        Seq::empty()
    } else if s[0] == '$' {
        seq!['$', '$'] + escaped(s.skip(1))
    } else {
        seq![s[0]] + escaped(s.skip(1))
    }
}

/// Writing every `$` twice protects a text: it comes out as it was.
pub proof fn law_escaping_round_trips(s: Seq<char>, env: Map<Seq<char>, Seq<char>>)
    ensures
        expanded(escaped(s), env) == Some(s),
    decreases s.len(),
{
    if s.len() == 0 {
        assert(s =~= Seq::empty());
    } else {
        let rest = escaped(s.skip(1));
        law_escaping_round_trips(s.skip(1), env);
        assert(seq![s[0]] + s.skip(1) =~= s);
        if s[0] == '$' {
            assert(escaped(s).skip(2) =~= rest);
        } else {
            assert(escaped(s).skip(1) =~= rest);
        }
    }
}

proof fn lemma_no_brace_inside(inner: Seq<char>, rest: Seq<char>)
    requires
        forall|i: int| 0 <= i < inner.len() ==> #[trigger] inner[i] != '}',
    ensures
        closing_brace(inner + seq!['}'] + rest) == Some(inner.len()),
    decreases inner.len(),
{
    let s = inner + seq!['}'] + rest;
    if inner.len() > 0 {
        assert(inner[0] != '}');
        assert(s.skip(1) =~= inner.skip(1) + seq!['}'] + rest);
        assert forall|i: int| 0 <= i < inner.skip(1).len() implies #[trigger] inner.skip(1)[i]
            != '}' by {
            assert(inner[i + 1] != '}');
        }
        lemma_no_brace_inside(inner.skip(1), rest);
    }
}

/// A reference at the front of a template gives what `reference` says of its
/// name, whatever comes after it; so a variable that is not set gives nothing,
/// and `${...}` around anything but a name comes through unchanged.
pub proof fn law_reference_in_front(
    inner: Seq<char>,
    rest: Seq<char>,
    env: Map<Seq<char>, Seq<char>>,
)
    requires
        forall|i: int| 0 <= i < inner.len() ==> #[trigger] inner[i] != '}',
    ensures
        expanded(seq!['$', '{'] + inner + seq!['}'] + rest, env) == prefixed(
            reference(inner, env),
            expanded(rest, env),
        ),
{
    let s = seq!['$', '{'] + inner + seq!['}'] + rest;
    lemma_no_brace_inside(inner, rest);
    assert(s.skip(2) =~= inner + seq!['}'] + rest);
    assert(s.skip(2).take(inner.len() as int) =~= inner);
    assert(s.skip(inner.len() as int + 3) =~= rest);
}

/// A name is an ASCII letter or underscore, followed by nothing but ASCII
/// letters, digits and underscores.
pub proof fn law_names_are_ascii(s: Seq<char>)
    ensures
        strict_ident(s) <==> (s.len() > 0 && !('0' <= s[0] <= '9') && forall|i: int|
            0 <= i < s.len() ==> ('a' <= #[trigger] s[i] <= 'z' || 'A' <= s[i] <= 'Z' || '0'
                <= s[i] <= '9' || s[i] == '_')),
{
    if strict_ident(s) {
        assert forall|i: int| 0 <= i < s.len() implies ('a' <= #[trigger] s[i] <= 'z' || 'A' <= s[i]
            <= 'Z' || '0' <= s[i] <= '9' || s[i] == '_') by {
            assert(is_name_char(s[i]));
        }
    } else if s.len() > 0 && !('0' <= s[0] <= '9') && forall|i: int|
        0 <= i < s.len() ==> ('a' <= #[trigger] s[i] <= 'z' || 'A' <= s[i] <= 'Z' || '0' <= s[i]
            <= '9' || s[i] == '_') {
        assert(is_name_start(s[0]));
        assert forall|i: int| 0 <= i < s.len() implies is_name_char(#[trigger] s[i]) by {}
    }
}

/// What stands around a reference: a text in front of it that holds no `$`
/// comes through, and the rest is a template of its own.
pub proof fn law_text_in_front_is_kept(
    text: Seq<char>,
    rest: Seq<char>,
    env: Map<Seq<char>, Seq<char>>,
)
    requires
        forall|i: int| 0 <= i < text.len() ==> #[trigger] text[i] != '$',
    ensures
        expanded(rest, env) is None ==> expanded(text + rest, env) is None,
        expanded(rest, env) matches Some(tail) ==> expanded(text + rest, env) == Some(text + tail),
    decreases text.len(),
{
    if text.len() == 0 {
        assert(text + rest =~= rest);
        if let Some(tail) = expanded(rest, env) {
            assert(text + tail =~= tail);
        }
    } else {
        assert(text[0] != '$');
        let more = text.skip(1);
        assert forall|i: int| 0 <= i < more.len() implies #[trigger] more[i] != '$' by {
            assert(text[i + 1] != '$');
        }
        law_text_in_front_is_kept(more, rest, env);
        assert((text + rest).skip(1) =~= more + rest);
        if let Some(tail) = expanded(rest, env) {
            assert(seq![text[0]] + (more + tail) =~= text + tail);
        }
    }
}

/// A reference to a variable that is set gives its value.
pub proof fn law_set_variable_gives_its_value(
    name: Seq<char>,
    rest: Seq<char>,
    env: Map<Seq<char>, Seq<char>>,
)
    requires
        strict_ident(name),
        env.contains_key(name),
        expanded(rest, env) is Some,
    ensures
        expanded(seq!['$', '{'] + name + seq!['}'] + rest, env) == Some(
            env[name] + expanded(rest, env)->0,
        ),
{
    lemma_name_has_no_brace(name);
    law_reference_in_front(name, rest, env);
}

proof fn lemma_name_has_no_brace(name: Seq<char>)
    requires
        strict_ident(name),
    ensures
        forall|i: int| 0 <= i < name.len() ==> #[trigger] name[i] != '}',
{
    assert forall|i: int| 0 <= i < name.len() implies #[trigger] name[i] != '}' by {
        assert(is_name_char(name[i]));
    }
}

/// A reference to a variable that is not set gives nothing.
pub proof fn law_unset_variable_gives_nothing(
    name: Seq<char>,
    rest: Seq<char>,
    env: Map<Seq<char>, Seq<char>>,
)
    requires
        strict_ident(name),
        !env.contains_key(name),
    ensures
        expanded(seq!['$', '{'] + name + seq!['}'] + rest, env) == expanded(rest, env),
{
    lemma_name_has_no_brace(name);
    law_reference_in_front(name, rest, env);
    if let Some(tail) = expanded(rest, env) {
        assert(Seq::<char>::empty() + tail =~= tail);
    }
}

/// A `${...}` that holds no name comes through as it is written.
pub proof fn law_other_braces_are_kept(
    inner: Seq<char>,
    rest: Seq<char>,
    env: Map<Seq<char>, Seq<char>>,
)
    requires
        !strict_ident(inner),
        forall|i: int| 0 <= i < inner.len() ==> #[trigger] inner[i] != '}',
        expanded(rest, env) is Some,
    ensures
        expanded(seq!['$', '{'] + inner + seq!['}'] + rest, env) == Some(
            seq!['$', '{'] + inner + seq!['}'] + expanded(rest, env)->0,
        ),
{
    law_reference_in_front(inner, rest, env);
}

/// A `$` that is followed by neither `$` nor `{` stands for itself.
pub proof fn law_lone_dollar_is_kept(rest: Seq<char>, env: Map<Seq<char>, Seq<char>>)
    requires
        rest.len() > 0 ==> rest[0] != '$' && rest[0] != '{',
        expanded(rest, env) is Some,
    ensures
        expanded(seq!['$'] + rest, env) == Some(seq!['$'] + expanded(rest, env)->0),
{
    assert((seq!['$'] + rest).skip(1) =~= rest);
}

/// Two `$` give one.
pub proof fn law_double_dollar_gives_one(rest: Seq<char>, env: Map<Seq<char>, Seq<char>>)
    requires
        expanded(rest, env) is Some,
    ensures
        expanded(seq!['$', '$'] + rest, env) == Some(seq!['$'] + expanded(rest, env)->0),
{
    assert((seq!['$', '$'] + rest).skip(2) =~= rest);
}

/// A `${` without a `}` after it is an error, and the message says where.
pub proof fn law_open_reference_is_an_error(
    rest: Seq<char>,
    env: Map<Seq<char>, Seq<char>>,
    context: Seq<char>,
)
    requires
        forall|i: int| 0 <= i < rest.len() ==> #[trigger] rest[i] != '}',
    ensures
        expanded(seq!['$', '{'] + rest, env) is None,
        context.len() <= unterminated_text(context).len(),
        unterminated_text(context).take(context.len() as int) == context,
{
    assert((seq!['$', '{'] + rest).skip(2) =~= rest);
    lemma_closing_brace_bound(rest);
    assert(unterminated_text(context).take(context.len() as int) =~= context);
}

/// A template goes wrong for no other reason: where every `${` has a `}` after
/// it, it comes to a text.
pub proof fn law_closed_templates_expand(s: Seq<char>, env: Map<Seq<char>, Seq<char>>)
    requires
        forall|i: int|
            0 <= i < s.len() - 1 && #[trigger] s[i] == '$' && s[i + 1] == '{' ==> exists|j: int|
                i + 1 < j < s.len() && #[trigger] s[j] == '}',
    ensures
        expanded(s, env) is Some,
    decreases s.len(),
{
    if s.len() > 0 {
        if s[0] == '$' && s.len() > 1 && s[1] == '$' {
            lemma_closed_after(s, 2);
            law_closed_templates_expand(s.skip(2), env);
        } else if s[0] == '$' && s.len() > 1 && s[1] == '{' {
            let j = choose|j: int| 1 < j < s.len() && #[trigger] s[j] == '}';
            lemma_brace_is_found(s.skip(2), j - 2);
            lemma_closing_brace_bound(s.skip(2));
            let k = closing_brace(s.skip(2))->0 as int;
            lemma_closed_after(s, k + 3);
            law_closed_templates_expand(s.skip(k + 3), env);
        } else {
            lemma_closed_after(s, 1);
            law_closed_templates_expand(s.skip(1), env);
        }
    }
}

proof fn lemma_closed_after(s: Seq<char>, n: int)
    requires
        0 <= n <= s.len(),
        forall|i: int|
            0 <= i < s.len() - 1 && #[trigger] s[i] == '$' && s[i + 1] == '{' ==> exists|j: int|
                i + 1 < j < s.len() && #[trigger] s[j] == '}',
    ensures
        forall|i: int|
            0 <= i < s.skip(n).len() - 1 && #[trigger] s.skip(n)[i] == '$' && s.skip(n)[i + 1]
                == '{' ==> exists|j: int|
                i + 1 < j < s.skip(n).len() && #[trigger] s.skip(n)[j] == '}',
{
    let t = s.skip(n);
    assert forall|i: int|
        0 <= i < t.len() - 1 && #[trigger] t[i] == '$' && t[i + 1] == '{' implies exists|j: int|
        i + 1 < j < t.len() && #[trigger] t[j] == '}' by {
        assert(s[i + n] == '$' && s[i + n + 1] == '{');
        let j = choose|j: int| i + n + 1 < j < s.len() && #[trigger] s[j] == '}';
        assert(t[j - n] == '}');
    }
}

proof fn lemma_brace_is_found(s: Seq<char>, j: int)
    requires
        0 <= j < s.len(),
        s[j] == '}',
    ensures
        closing_brace(s) is Some,
    decreases s.len(),
{
    if s[0] != '}' {
        lemma_brace_is_found(s.skip(1), j - 1);
    }
}

} // verus!
