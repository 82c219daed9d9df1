use rumor::tabs::{adjust_tab_offset, tab_width, visible_tab_range};

#[test]
fn tab_width_includes_padding_dot_and_name() {
    // padding(1) + "● "(2) + name + padding(1) = name + 4
    assert_eq!(tab_width(""), 4);
    assert_eq!(tab_width("api"), 7);
    assert_eq!(tab_width("counter"), 11);
}

#[test]
fn tab_width_counts_characters() {
    assert_eq!(tab_width("åäö"), 7);
    assert_eq!(tab_width(&"x".repeat(65535)), 65535);
    assert_eq!(tab_width(&"x".repeat(65536)), 4);
}

#[test]
fn visible_range_fits_everything_when_wide() {
    let names = ["a", "b", "c"];
    let (start, end) = visible_tab_range(&names, 0, 200);
    assert_eq!((start, end), (0, 3));
}

#[test]
fn visible_range_truncates_when_narrow() {
    // "a"=5, "b"=5 (with divider in between: 5+1+5=11). Allow 11 → fits 2.
    // "c" would need another +1+5 = 17 total.
    let names = ["a", "b", "c"];
    let (start, end) = visible_tab_range(&names, 0, 11);
    assert_eq!((start, end), (0, 2));
    assert_eq!(visible_tab_range(&names, 0, 16), (0, 2));
    assert_eq!(visible_tab_range(&names, 0, 17), (0, 3));
}

#[test]
fn visible_range_respects_offset() {
    let names = ["a", "b", "c", "d"];
    let (start, end) = visible_tab_range(&names, 2, 200);
    assert_eq!((start, end), (2, 4));
    assert_eq!(visible_tab_range(&names, 99, 200), (3, 4));
}

#[test]
fn visible_range_returns_one_tab_when_overflow_at_offset() {
    let names = ["x"];
    let (start, end) = visible_tab_range(&names, 0, 2);
    assert_eq!((start, end), (0, 1));
}

#[test]
fn adjust_offset_keeps_selected_visible_when_walking_right() {
    let names = ["a", "b", "c", "d", "e"];
    // Each tab = 5 cols, with 1-col divider between. Width 12 fits 2 tabs.
    let w = 12;
    assert_eq!(adjust_tab_offset(&names, 0, 0, w), 0);
    assert_eq!(adjust_tab_offset(&names, 1, 0, w), 0); // 0,1 visible
    assert_eq!(adjust_tab_offset(&names, 2, 0, w), 1); // slide → 1,2
    assert_eq!(adjust_tab_offset(&names, 3, 1, w), 2); // slide → 2,3
    assert_eq!(adjust_tab_offset(&names, 4, 2, w), 3); // slide → 3,4
}

#[test]
fn adjust_offset_snaps_left_when_selected_before_window() {
    let names = ["a", "b", "c", "d", "e"];
    let w = 12;
    // Walking back from 4 → 0 should jump the offset left to keep selected visible.
    assert_eq!(adjust_tab_offset(&names, 0, 3, w), 0);
    assert_eq!(adjust_tab_offset(&names, 1, 3, w), 1);
}

#[test]
fn adjust_offset_handles_zero_width_and_empty() {
    let empty: [&str; 0] = [];
    assert_eq!(adjust_tab_offset(&empty, 0, 0, 100), 0);
    let names = ["a", "b"];
    assert_eq!(adjust_tab_offset(&names, 1, 0, 0), 0);
    assert_eq!(visible_tab_range(&empty, 0, 100), (0, 0));
}

#[test]
fn adjust_offset_handles_selected_past_end() {
    let names = ["a", "b", "c"];
    // selected clamped to last
    assert_eq!(adjust_tab_offset(&names, 99, 0, 200), 0);
}

#[test]
fn a_tab_wider_than_the_screen_is_reached() {
    let wide = "x".repeat(100);
    let names = ["a", wide.as_str(), "b"];
    assert_eq!(adjust_tab_offset(&names, 1, 0, 20), 1);
    assert_eq!(visible_tab_range(&names, 1, 20), (1, 2));
}
