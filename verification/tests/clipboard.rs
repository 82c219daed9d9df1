use rumor::clipboard::{clipboard_tools, copy, CopyStep};

#[test]
fn tools_follow_from_the_platform() {
    assert_eq!(clipboard_tools(true), vec![vec!["pbcopy".to_string()]]);
    let linux = clipboard_tools(false);
    assert_eq!(linux.len(), 2);
    assert_eq!(linux[0], vec!["wl-copy".to_string()]);
    assert_eq!(
        linux[1],
        vec!["xclip".to_string(), "-selection".to_string(), "clipboard".to_string()]
    );
}

#[test]
fn tools_are_tried_before_the_terminal() {
    assert_eq!(copy(2, &[]), CopyStep::Tool(0));
    assert_eq!(copy(2, &[false]), CopyStep::Tool(1));
    assert_eq!(copy(2, &[false, false]), CopyStep::Terminal);
    assert_eq!(copy(2, &[false, false, true]), CopyStep::Done(true));
    assert_eq!(copy(2, &[false, false, false]), CopyStep::Done(false));
}

#[test]
fn the_first_success_is_the_last_attempt() {
    assert_eq!(copy(2, &[true]), CopyStep::Done(true));
    assert_eq!(copy(2, &[false, true]), CopyStep::Done(true));
    assert_eq!(copy(0, &[]), CopyStep::Terminal);
}
