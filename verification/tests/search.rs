use rumor::output::Output;
use rumor::pattern::build_regex;
use rumor::search::{
    center_scrollback, compute_matches, line_matches_of_spans, matches_of_spans,
    nearest_match_idx, probe_total, DetailsSearch, LogSearch, Match, Staleness,
};

/// An output with a screen small enough that scrollback paging needs several
/// steps, fed some lines.
fn output_with_lines(rows: u16, cols: u16, lines: &[&str]) -> Output {
    let mut o = Output::new(rows, cols);
    for l in lines {
        o.feed(l.as_bytes());
        o.feed(b"\r\n");
    }
    o
}

fn spot(row: usize) -> Match {
    Match { row, col_start: 0, col_end: 1 }
}

#[test]
fn finds_matches_across_scrollback_pages() {
    // 23 lines on a 5-row screen: 4+ pages, last step partial.
    let lines: Vec<String> = (0..23).map(|i| format!("line {i} alpha")).collect();
    let refs: Vec<&str> = lines.iter().map(|s| s.as_str()).collect();
    let mut p = output_with_lines(5, 20, &refs);

    let re = build_regex("alpha").unwrap();
    let (matches, total) = compute_matches(&mut p.terminal, &re);
    assert_eq!(matches.len(), 23);
    assert_eq!(total, probe_total(&mut p.terminal));
    assert_eq!(total, 19);
    // Rows are consecutive and start at the oldest line.
    let rows: Vec<usize> = matches.iter().map(|m| m.row).collect();
    for w in rows.windows(2) {
        assert_eq!(w[1], w[0] + 1, "no duplicate or skipped rows");
    }
    assert_eq!(rows[0], 0);
}

#[test]
fn match_columns_account_for_prefix_width() {
    let mut p = output_with_lines(5, 30, &["xx needle yy"]);
    let re = build_regex("needle").unwrap();
    let (matches, _) = compute_matches(&mut p.terminal, &re);
    assert_eq!(matches.len(), 1);
    assert_eq!(matches[0].col_start, 3);
    assert_eq!(matches[0].col_end, 9);
}

#[test]
fn wide_chars_shift_display_columns() {
    // "你好" occupies 4 display columns.
    let mut p = output_with_lines(5, 30, &["你好needle"]);
    let re = build_regex("needle").unwrap();
    let (matches, _) = compute_matches(&mut p.terminal, &re);
    assert_eq!(matches.len(), 1);
    assert_eq!(matches[0].col_start, 4);
    assert_eq!(matches[0].col_end, 10);
}

#[test]
fn ansi_styled_text_still_matches() {
    let mut p = Output::new(5, 40);
    p.feed(b"\x1b[31mred needle here\x1b[0m\r\n");
    let re = build_regex("needle").unwrap();
    let (matches, _) = compute_matches(&mut p.terminal, &re);
    assert_eq!(matches.len(), 1);
    assert_eq!(matches[0].col_start, 4);
}

#[test]
fn case_insensitive_literal_not_regex() {
    let mut p = output_with_lines(5, 30, &["found A.B not AxB"]);
    let (matches, _) = compute_matches(&mut p.terminal, &build_regex("a.b").unwrap());
    assert_eq!(matches.len(), 1, "dot must be literal, case-insensitive");
    assert_eq!(matches[0].col_start, 6);
}

#[test]
fn scrollback_position_is_restored() {
    let lines: Vec<String> = (0..50).map(|i| format!("l{i}")).collect();
    let refs: Vec<&str> = lines.iter().map(|s| s.as_str()).collect();
    let mut p = output_with_lines(5, 20, &refs);
    p.set_scroll(7);
    let re = build_regex("l1").unwrap();
    compute_matches(&mut p.terminal, &re);
    assert_eq!(p.screen().scrollback(), 7);
    probe_total(&mut p.terminal);
    assert_eq!(p.screen().scrollback(), 7);
}

#[test]
fn center_scrollback_math() {
    // 100 scrollback rows, 10-row screen. Window at offset s covers
    // absolute rows (100 - s)..(110 - s).
    // Newest row (109) -> offset 0 region.
    assert_eq!(center_scrollback(100, 10, 109), 0);
    // Oldest row (0) -> clamped to total.
    assert_eq!(center_scrollback(100, 10, 0), 100);
    // Middle row 50: s = 100 + 5 - 50 = 55; window covers 45..55. 50 is
    // inside, centered.
    let s = center_scrollback(100, 10, 50);
    assert_eq!(s, 55);
    let (lo, hi) = (100 - s, 100 - s + 10);
    assert!((lo..hi).contains(&50));
}

#[test]
fn step_wraps_both_directions() {
    let mut s = LogSearch {
        matches: vec![
            Match { row: 0, col_start: 0, col_end: 1 },
            Match { row: 1, col_start: 0, col_end: 1 },
            Match { row: 2, col_start: 0, col_end: 1 },
        ],
        current: 2,
        ..Default::default()
    };
    s.step(1);
    assert_eq!(s.current, 0, "wraps forward");
    s.step(-1);
    assert_eq!(s.current, 2, "wraps backward");
    s.step(-8);
    assert_eq!(s.current, 0);
    s.current = 99;
    s.step(-1);
    assert_eq!(s.current, 1, "starts from the last match");
    s.clear();
    s.step(1);
    assert_eq!(s.current, 0);
}

#[test]
fn details_search_finds_and_steps() {
    let lines = vec![
        "PID:    123".to_string(),
        "Status: running".to_string(),
        "PATH=/usr/bin".to_string(),
    ];
    let mut s = DetailsSearch { query: "ru".to_string(), ..Default::default() };
    s.recompute(&lines);
    assert_eq!(s.matches.len(), 1);
    assert_eq!(s.matches[0].0, 1);
    assert_eq!(s.matches[0].1, (8, 10));
    s.query = "i".to_string();
    s.recompute(&lines);
    assert_eq!(s.matches.len(), 3); // PID, runnIng, /usr/bIn
    assert_eq!(s.current, 1, "stays near the line it was on");
    s.step(1);
    assert_eq!(s.current, 2);
    s.step(1);
    assert_eq!(s.current, 0);
    s.step(-1);
    assert_eq!(s.current, 2);
}

#[test]
fn empty_query_yields_no_matches() {
    let lines = vec!["anything".to_string()];
    let mut s = DetailsSearch::default();
    s.recompute(&lines);
    assert!(s.matches.is_empty());
}

#[test]
fn nearest_match_anchoring() {
    let ms = vec![
        Match { row: 5, col_start: 0, col_end: 1 },
        Match { row: 20, col_start: 0, col_end: 1 },
        Match { row: 40, col_start: 0, col_end: 1 },
    ];
    assert_eq!(nearest_match_idx(&ms, 18), 1);
    assert_eq!(nearest_match_idx(&ms, 0), 0);
    assert_eq!(nearest_match_idx(&ms, 100), 2);
    assert_eq!(nearest_match_idx(&[], 3), 0);
}

#[test]
fn of_two_equally_near_rows_the_later_counts() {
    assert_eq!(nearest_match_idx(&[spot(4), spot(8)], 6), 1);
    let same = [
        Match { row: 4, col_start: 0, col_end: 1 },
        Match { row: 4, col_start: 7, col_end: 8 },
    ];
    assert_eq!(nearest_match_idx(&same, 4), 1);
}

#[test]
fn matches_are_computed_only_when_something_changed() {
    let mut o = output_with_lines(5, 30, &["one needle", "two needle"]);
    let mut s = LogSearch { query: "needle".to_string(), ..Default::default() };
    assert_eq!(s.stale_kind(1, &o), Some(Staleness::Changed));
    assert!(s.stream_refresh_due(0));
    assert!(s.recompute_if_needed(1, &mut o, 1000));
    assert_eq!(s.matches.len(), 2);
    assert_eq!(s.current, 1, "begins at the newest");
    assert_eq!(s.stale_kind(1, &o), None);
    assert!(!s.recompute_if_needed(1, &mut o, 1100));
    assert!(!s.stream_refresh_due(1249));
    assert!(s.stream_refresh_due(1250));

    o.feed(b"three needle\r\n");
    assert_eq!(s.stale_kind(1, &o), Some(Staleness::GenerationOnly));
    assert_eq!(s.stale_kind(2, &o), Some(Staleness::Changed));
    assert!(s.recompute_if_needed(1, &mut o, 1300));
    assert_eq!(s.matches.len(), 3);
    assert_eq!(s.current, 1, "stays at the match it was at");

    o.resize(5, 40);
    assert_eq!(s.stale_kind(1, &o), Some(Staleness::Changed));
    s.query = "three".to_string();
    assert!(s.recompute_if_needed(1, &mut o, 1400));
    assert_eq!(s.matches.len(), 1);
    assert_eq!(s.current, 0);
    s.query = String::new();
    assert!(s.recompute_if_needed(1, &mut o, 1500));
    assert!(s.matches.is_empty());
    assert_eq!(s.total_at_compute, 0);
}

#[test]
fn pieces_of_a_row_become_matches() {
    // "你" takes three bytes and two columns; the combining accent none.
    let text = "你a\u{301}b";
    assert_eq!(
        matches_of_spans(7, text, &[(0, 3), (3, 4), (4, 6), (6, 7)]),
        vec![
            Match { row: 7, col_start: 0, col_end: 2 },
            Match { row: 7, col_start: 2, col_end: 3 },
            Match { row: 7, col_start: 3, col_end: 4 },
            Match { row: 7, col_start: 3, col_end: 4 },
        ]
    );
    assert!(matches_of_spans(7, text, &[]).is_empty());
    assert_eq!(line_matches_of_spans(2, &[(0, 1), (4, 6)]), vec![(2, (0, 1)), (2, (4, 6))]);
}

#[test]
fn the_matches_of_details_come_in_order() {
    let lines = vec!["aa aaa".to_string(), "".to_string(), "bA".to_string()];
    let mut s = DetailsSearch { query: "a".to_string(), ..Default::default() };
    s.recompute(&lines);
    assert_eq!(
        s.matches,
        vec![(0, (0, 1)), (0, (1, 2)), (0, (3, 4)), (0, (4, 5)), (0, (5, 6)), (2, (1, 2))]
    );
    s.query = "aa".to_string();
    s.recompute(&lines);
    assert_eq!(s.matches, vec![(0, (0, 2)), (0, (3, 5))]);
}

#[test]
fn steps_back_undo_steps_on() {
    for steps in [1, 2, 5, 12] {
        for current in 0..3 {
            let mut s = LogSearch {
                matches: vec![spot(0), spot(1), spot(2)],
                current,
                ..Default::default()
            };
            s.step(steps);
            s.step(-steps);
            assert_eq!(s.current, current);
        }
    }
}
