use rumor::probe::{ExitProbe, LogProbe, PortProbe, Verdict};
use rumor::status::{ExitInfo, Status};

fn exited(code: u32) -> Status {
    Status::Exited(ExitInfo { code, signal: None })
}

#[test]
fn a_port_is_tried_less_and_less_often() {
    let mut probe = PortProbe::new(5432, "db");
    let mut delays = Vec::new();
    let mut said = Vec::new();
    for _ in 0..8 {
        let check = probe.check(true, false, false);
        match check.verdict {
            Verdict::Again { after_ms } => delays.push(after_ms),
            _ => panic!("expected another try"),
        }
        if let Some(diag) = check.said {
            said.push(diag.text());
        }
    }
    assert_eq!(delays, vec![50, 100, 200, 400, 800, 1600, 2000, 2000]);
    assert_eq!(said.len(), 3, "the first and every third attempt: {said:?}");
    assert!(said[0].contains("5432"));
}

#[test]
fn a_port_is_ready_on_either_address() {
    let check = PortProbe::new(80, "web").check(true, true, false);
    assert!(matches!(check.verdict, Verdict::Ready));
    assert_eq!(check.said.unwrap().text(), "port 80: 127.0.0.1 OK");
    let check = PortProbe::new(80, "web").check(true, false, true);
    assert!(matches!(check.verdict, Verdict::Ready));
    assert_eq!(check.said.unwrap().text(), "port 80: ::1 OK");
    let check = PortProbe::new(80, "web").check(false, true, true);
    assert!(matches!(check.verdict, Verdict::Failed(why) if why == "exited before port 80 accepted"));
}

#[test]
fn a_line_that_matches_makes_a_log_ready() {
    let mut probe = LogProbe::new(r"Listening on port \d+");
    let check = probe.check(b"starting\n", true, b"");
    assert!(matches!(check.verdict, Verdict::Again { .. }));
    let check = probe.check(b"starting\nListening on port 8080\n", true, b"");
    assert!(matches!(check.verdict, Verdict::Ready));
}

#[test]
fn a_last_look_is_taken_after_the_end() {
    let mut probe = LogProbe::new("ready");
    let check = probe.check(b"", false, b"ready\n");
    assert!(matches!(check.verdict, Verdict::Ready));
    let check = LogProbe::new("ready").check(b"", false, b"no\n");
    assert!(matches!(check.verdict, Verdict::Failed(_)));
    let check = LogProbe::new("[").check(b"[", true, b"");
    assert!(matches!(check.verdict, Verdict::Failed(_)), "no pattern at all");
}

#[test]
fn bytes_that_are_no_text_do_not_hide_a_match() {
    let check = LogProbe::new("^ok$").check(b"ok", true, b"");
    assert!(matches!(check.verdict, Verdict::Ready));
    let check = LogProbe::new("ready").check(b"\xff\xfe ready \xc3", true, b"");
    assert!(matches!(check.verdict, Verdict::Ready));
}

#[test]
fn an_exit_has_to_have_the_code() {
    let probe = ExitProbe::new("migrate", 0);
    assert_eq!(probe.begin().text(), "waiting for 'migrate' to exit with code 0");
    assert!(matches!(probe.check(&Status::Running).verdict, Verdict::OnChange));
    let check = probe.check(&exited(0));
    assert!(matches!(check.verdict, Verdict::Ready));
    assert_eq!(check.said.unwrap().text(), "'migrate' exited 0");
    let check = probe.check(&exited(3));
    assert!(matches!(&check.verdict, Verdict::Failed(why) if why == "exited with code 3 (expected 0)"));
    assert_eq!(check.said.unwrap().text(), "'migrate' exited 3 (expected 0)");
    let check = probe.check(&Status::SpawnFailed("gone".into()));
    assert!(matches!(check.verdict, Verdict::Failed(why) if why == "dep spawn failed: gone"));
    assert!(matches!(probe.closed().verdict, Verdict::Failed(_)));
    assert!(matches!(ExitProbe::new("x", -1).check(&exited(u32::MAX)).verdict, Verdict::Ready));
}
