use rumor::env::Env;
use rumor::text::{
    chars_of, comes_before, decimal_text, is_blank, join, parse_i32, parse_u16, piece_of,
    same_text, signed_decimal_text, split_text,
};

fn texts(list: &[&str]) -> Vec<String> {
    list.iter().map(|s| s.to_string()).collect()
}

#[test]
fn numbers_are_written_and_read() {
    assert_eq!(decimal_text(0), "0");
    assert_eq!(decimal_text(u128::MAX), "340282366920938463463374607431768211455");
    assert_eq!(signed_decimal_text(i32::MIN), "-2147483648");
    assert_eq!(signed_decimal_text(7), "7");
    assert_eq!(parse_u16("65535"), Some(65535));
    assert_eq!(parse_u16("+80"), Some(80));
    for bad in ["", "65536", "-1", "8 ", "0x1", "+"] {
        assert_eq!(parse_u16(bad), None, "{bad}");
    }
    assert_eq!(parse_i32("-2147483648"), Some(i32::MIN));
    assert_eq!(parse_i32("2147483647"), Some(i32::MAX));
    for bad in ["2147483648", "-2147483649", "-", "", "1.0"] {
        assert_eq!(parse_i32(bad), None, "{bad}");
    }
}

#[test]
fn texts_are_split_and_joined() {
    assert_eq!(split_text("a,,b", ','), texts(&["a", "", "b"]));
    assert_eq!(split_text("", ','), texts(&[""]));
    assert_eq!(split_text(",", ','), texts(&["", ""]));
    assert_eq!(join(&split_text("x.y.z", '.'), "."), "x.y.z");
    assert_eq!(join(&[], ", "), "");
}

#[test]
fn white_space_is_unicode() {
    assert!(is_blank(" \t\u{a0}\u{3000}\n"));
    assert!(!is_blank("\u{200b}"));
    assert!(is_blank(""));
}

#[test]
fn texts_are_ordered_by_code_point() {
    assert!(comes_before("A", "a"));
    assert!(comes_before("a", "ab"));
    assert!(!comes_before("b", "ab"));
    assert!(!comes_before("a", "a"));
}

#[test]
fn pieces_are_cut_by_bytes() {
    assert_eq!(piece_of("aéb", 1, 3), "é");
    assert_eq!(piece_of("aéb", 0, 4), "aéb");
    assert_eq!(piece_of("aéb", 3, 3), "");
    assert_eq!(chars_of("aé"), vec!['a', 'é']);
}

#[test]
fn variables_are_listed_in_order() {
    let mut env = Env::new();
    env.insert("B", "1");
    env.insert("A", "2");
    env.insert("B", "3");
    assert_eq!(env.len(), 2);
    let pairs = env.sorted();
    assert_eq!(pairs, vec![("A".into(), "2".into()), ("B".into(), "3".into())]);
    let mut other = env.clone();
    other.insert("C", "4");
    env.extend_env(&other);
    assert_eq!(env.get("C").map(|v| v.as_str()), Some("4"));
    assert!(env.get("D").is_none());
}

#[test]
fn texts_are_the_same_character_by_character() {
    assert!(same_text("", ""));
    assert!(same_text("hé", "hé"));
    assert!(!same_text("hé", "he\u{301}"));
    assert!(!same_text("ab", "abc"));
    assert!(!same_text("abc", "abd"));
    assert!(!same_text("a", "A"));
}
