use rumor::cli::{
    body_inner_size, display_size, collect_list, invocation, parse_args, rumor_dir, CliArgs, Invocation,
    DEFAULT_CONFIG, MIN_PTY_COLS, MIN_PTY_ROWS,
};

fn args(v: &[&str]) -> Vec<String> {
    v.iter().map(|s| s.to_string()).collect()
}

/// CliArgs with the given config + tags and all raw-mode fields defaulted.
fn cli(config: &str, tags: &[&str]) -> CliArgs {
    CliArgs {
        config_path: config.to_string(),
        tags: tags.iter().map(|s| s.to_string()).collect(),
        raw: false,
        only: vec![],
        color: false,
    }
}

fn parse(v: &[&str]) -> Option<CliArgs> {
    parse_args(&args(v), false)
}

#[test]
fn body_inner_size_stays_above_vt100_minimum() {
    for (w, h) in [(0u16, 0u16), (1, 1), (2, 6), (7, 7), (8, 7), (200, 50)] {
        let (rows, cols) = body_inner_size(w, h);
        assert!(rows >= MIN_PTY_ROWS, "rows {rows} < {MIN_PTY_ROWS} for {w}x{h}");
        assert!(cols >= MIN_PTY_COLS, "cols {cols} < {MIN_PTY_COLS} for {w}x{h}");
    }
}

#[test]
fn body_inner_size_leaves_room_for_the_borders() {
    assert_eq!(body_inner_size(200, 50), (44, 198));
    assert_eq!(body_inner_size(4, 8), (2, 2));
    assert_eq!(body_inner_size(5, 9), (3, 3));
    assert_eq!(body_inner_size(0, 0), (2, 2));
}

#[test]
fn explicit_path_is_used_verbatim() {
    assert_eq!(parse(&["rumor", "custom.json"]), Some(cli("custom.json", &[])));
}

#[test]
fn two_positional_args_is_invalid() {
    assert_eq!(parse(&["rumor", "a", "b"]), None);
}

#[test]
fn tags_collect_space_separated() {
    assert_eq!(
        parse(&["rumor", "c.json", "-t", "backend", "api"]),
        Some(cli("c.json", &["backend", "api"]))
    );
}

#[test]
fn tags_split_on_commas() {
    assert_eq!(
        parse(&["rumor", "c.json", "--tags", "backend,api"]),
        Some(cli("c.json", &["backend", "api"]))
    );
}

#[test]
fn repeated_tag_flag_accumulates() {
    assert_eq!(
        parse(&["rumor", "c.json", "-t", "backend", "-t", "api"]),
        Some(cli("c.json", &["backend", "api"]))
    );
}

#[test]
fn tag_flag_without_value_is_invalid() {
    assert_eq!(parse(&["rumor", "c.json", "-t"]), None);
}

#[test]
fn unknown_flag_is_invalid() {
    assert_eq!(parse(&["rumor", "c.json", "-x"]), None);
}

#[test]
fn raw_flag_sets_raw() {
    let parsed = parse(&["rumor", "c.json", "--raw"]).unwrap();
    assert!(parsed.raw);
    assert!(parsed.only.is_empty());
    assert!(!parsed.color);
}

#[test]
fn only_collects_like_tags() {
    let space = parse(&["rumor", "c.json", "--raw", "--only", "a", "b"]).unwrap();
    let comma = parse(&["rumor", "c.json", "--raw", "--only", "a,b"]).unwrap();
    let repeated = parse(&["rumor", "c.json", "--raw", "--only", "a", "--only", "b"]).unwrap();
    let want = vec!["a".to_string(), "b".to_string()];
    assert_eq!(space.only, want);
    assert_eq!(comma.only, want);
    assert_eq!(repeated.only, want);
}

#[test]
fn color_flag_requires_raw() {
    assert!(parse(&["rumor", "c.json", "--raw", "--color"]).unwrap().color);
    // --color / --only without --raw is invalid usage.
    assert_eq!(parse(&["rumor", "c.json", "--color"]), None);
    assert_eq!(parse(&["rumor", "c.json", "--only", "a"]), None);
}

#[test]
fn only_without_value_is_invalid() {
    assert_eq!(parse(&["rumor", "c.json", "--raw", "--only"]), None);
}

#[test]
fn bare_invocation_uses_rumor_json_only_when_present() {
    let without = parse_args(&args(&["rumor"]), false);
    let with = parse_args(&args(&["rumor"]), true);
    assert_eq!(without, None);
    assert_eq!(with, Some(cli(DEFAULT_CONFIG, &[])));
    // Not even the program's own name is needed.
    assert_eq!(parse_args(&[], true), Some(cli("rumor.json", &[])));
}

#[test]
fn a_named_config_beats_the_default() {
    assert_eq!(parse_args(&args(&["rumor", "x"]), true), Some(cli("x", &[])));
}

#[test]
fn blank_values_are_dropped() {
    assert_eq!(
        parse(&["rumor", "c", "-t", " a , ,b,", ","]),
        Some(cli("c", &["a", "b"]))
    );
    assert_eq!(parse(&["rumor", "c", "-t", ",", " "]), None);
}

#[test]
fn a_list_ends_at_the_next_flag() {
    let mut i = 1;
    let mut out = Vec::new();
    let given = args(&["rumor", "-t", "a,b", "c", "--raw", "d"]);
    assert_eq!(collect_list(&given, &mut i, &mut out), 3);
    assert_eq!(i, 4);
    assert_eq!(out, args(&["a", "b", "c"]));
}

#[test]
fn commands_are_told_apart() {
    let what = |v: &[&str]| invocation(&args(v), true);
    assert!(matches!(what(&["rumor"]), Invocation::Run(_)));
    assert!(matches!(what(&["rumor", "--bogus"]), Invocation::Usage));
    assert!(matches!(what(&["rumor", "--help"]), Invocation::Help));
    assert!(matches!(what(&["rumor", "-h"]), Invocation::Help));
    assert!(matches!(what(&["rumor", "docs"]), Invocation::DocsIndex));
    assert!(matches!(what(&["rumor", "docs", "--agent"]), Invocation::AgentGuide));
    assert!(matches!(what(&["rumor", "docs", "-a"]), Invocation::AgentGuide));
    assert!(matches!(what(&["rumor", "docs", "--bogus"]), Invocation::DocsUsage));
    assert!(matches!(what(&["rumor", "update"]), Invocation::Update));
}

#[test]
fn logs_lie_under_the_home_directory() {
    assert_eq!(rumor_dir(Some("/home/x"), "/tmp", false), "/home/x/.local/share/rumor");
    assert_eq!(rumor_dir(Some("/Users/x"), "/tmp", true), "/Users/x/Library/Logs/rumor");
    assert_eq!(rumor_dir(None, "/tmp", false), "/tmp/rumor");
}

#[test]
fn terminals_have_a_size_that_can_be_handled() {
    assert_eq!(display_size(80, 24), (18, 78));
    assert_eq!(display_size(0, 0), (2, 3));
    assert_eq!(display_size(4, 9), (3, 3));
    assert_eq!(display_size(u16::MAX, 24), (18, 65527));
}
