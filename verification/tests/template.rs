use rumor::env::Env;
use rumor::template::{is_strict_ident, substitute};

fn env(pairs: &[(&str, &str)]) -> Env {
    let mut env = Env::new();
    for (k, v) in pairs {
        env.insert(k, v);
    }
    env
}

#[test]
fn substitutes_simple_var() {
    let e = env(&[("PORT", "5432")]);
    assert_eq!(substitute("${PORT}", &e, "ctx").unwrap(), "5432");
}

#[test]
fn substitutes_in_middle() {
    let e = env(&[("X", "abc")]);
    assert_eq!(substitute("a-${X}-b", &e, "ctx").unwrap(), "a-abc-b");
}

#[test]
fn missing_var_becomes_empty() {
    let e = env(&[]);
    assert_eq!(substitute("a-${MISSING}-b", &e, "ctx").unwrap(), "a--b");
}

#[test]
fn double_dollar_escapes() {
    let e = env(&[("X", "y")]);
    assert_eq!(substitute("$${X}", &e, "ctx").unwrap(), "${X}");
}

#[test]
fn lone_dollar_is_literal() {
    let e = env(&[]);
    assert_eq!(substitute("price: $5", &e, "ctx").unwrap(), "price: $5");
    assert_eq!(substitute("trailing $", &e, "ctx").unwrap(), "trailing $");
}

#[test]
fn unterminated_errors() {
    let e = env(&[]);
    let err = substitute("${FOO", &e, "ctx").unwrap_err().to_string();
    assert!(err.contains("unterminated"), "got: {err}");
    assert!(err.contains("ctx"), "got: {err}");
    assert_eq!(err, "ctx: invalid template: unterminated `${...` (missing `}`)");
}

#[test]
fn empty_braces_pass_through() {
    let e = env(&[]);
    assert_eq!(substitute("${}", &e, "ctx").unwrap(), "${}");
}

#[test]
fn invalid_identifier_passes_through() {
    let e = env(&[]);
    assert_eq!(substitute("${1FOO}", &e, "ctx").unwrap(), "${1FOO}");
}

#[test]
fn shell_default_value_syntax_passes_through() {
    let e = env(&[]);
    assert_eq!(
        substitute("sleep ${RATE:-1}", &e, "ctx").unwrap(),
        "sleep ${RATE:-1}"
    );
}

#[test]
fn preserves_utf8() {
    let e = env(&[("X", "world")]);
    assert_eq!(substitute("héllo ${X}", &e, "ctx").unwrap(), "héllo world");
}

#[test]
fn empty_input() {
    let e = env(&[]);
    assert_eq!(substitute("", &e, "ctx").unwrap(), "");
}

#[test]
fn multiple_substitutions() {
    let e = env(&[("A", "1"), ("B", "2")]);
    assert_eq!(substitute("${A}+${B}=${A}${B}", &e, "ctx").unwrap(), "1+2=12");
}

#[test]
fn values_are_not_expanded_again() {
    let e = env(&[("A", "${B}"), ("B", "no")]);
    assert_eq!(substitute("${A}", &e, "ctx").unwrap(), "${B}");
}

#[test]
fn escaping_every_dollar_gives_the_text_back() {
    let e = env(&[("A", "x")]);
    assert_eq!(substitute("$${A} $$$$ b", &e, "ctx").unwrap(), "${A} $$ b");
}

#[test]
fn names_are_ascii_words() {
    for good in ["A", "_", "A_PORT", "a1", "_9"] {
        assert!(is_strict_ident(good), "{good}");
    }
    for bad in ["", "1A", "A-B", "A B", "é", "A."] {
        assert!(!is_strict_ident(bad), "{bad}");
    }
}
