use rumor::update::{
    detect_medium, is_newer, parse_brew, parse_github, update_plan, version_tuple, BrewFormula,
    GithubRelease, InstallMedium,
};

fn formula(name: &str, current_version: &str) -> BrewFormula {
    BrewFormula { name: name.to_string(), current_version: current_version.to_string() }
}

fn release(tag: &str) -> GithubRelease {
    GithubRelease { tag_name: tag.to_string() }
}

#[test]
fn newer_versions_detected() {
    assert!(is_newer("0.12.0", "0.11.0"));
    assert!(is_newer("1.0.0", "0.11.0"));
    assert!(is_newer("0.11.1", "0.11.0"));
    assert!(!is_newer("0.11.0", "0.11.0"));
    assert!(!is_newer("0.10.0", "0.11.0"));
    assert!(!is_newer("0.11.0", "0.11.1"));
}

#[test]
fn version_suffixes_ignored() {
    assert_eq!(version_tuple("0.11.0-rc1"), (0, 11, 0));
    assert_eq!(version_tuple("0.11.0+build5"), (0, 11, 0));
    assert_eq!(version_tuple("1.2"), (1, 2, 0));
}

#[test]
fn odd_versions_count_as_zero() {
    assert_eq!(version_tuple(""), (0, 0, 0));
    assert_eq!(version_tuple("a.b.c"), (0, 0, 0));
    assert_eq!(version_tuple("1.x.3.9"), (1, 0, 3));
    assert_eq!(version_tuple("18446744073709551615.1"), (u64::MAX, 1, 0));
    assert_eq!(version_tuple("18446744073709551616.1"), (0, 1, 0));
    assert_eq!(version_tuple("-1.2.3"), (0, 0, 0));
}

#[test]
fn github_parse_strips_v_and_compares() {
    let info = parse_github(&release("v0.12.0"), "0.11.0").expect("update");
    assert_eq!(info.latest, "0.12.0");
    assert!(info.action.contains("releases"));
    assert_eq!(info.action, "download from github.com/ornitech/rumor/releases");

    // Same version -> no update.
    assert!(parse_github(&release("v0.11.0"), "0.11.0").is_none());
}

#[test]
fn every_leading_v_is_stripped() {
    assert_eq!(parse_github(&release("vv2.0.0v"), "0.1.0").unwrap().latest, "2.0.0v");
}

#[test]
fn brew_parse_reads_current_version() {
    let info = parse_brew(&[formula("rumor", "0.11.0")]).expect("update");
    assert_eq!(info.latest, "0.11.0");
    assert_eq!(info.action, "brew upgrade rumor");
}

#[test]
fn brew_parse_takes_the_formula_of_that_name() {
    let list = [formula("other", "9.9.9"), formula("rumor", "0.12.0"), formula("rumor", "0.1.0")];
    assert_eq!(parse_brew(&list).unwrap().latest, "0.12.0");
    assert!(parse_brew(&[formula("rumors", "1.0.0")]).is_none());
}

#[test]
fn brew_parse_empty_means_up_to_date() {
    assert!(parse_brew(&[]).is_none());
}

#[test]
fn medium_follows_from_the_path() {
    assert_eq!(
        detect_medium(Some("/opt/homebrew/Cellar/rumor/0.10.0/bin/rumor")),
        InstallMedium::Homebrew
    );
    assert_eq!(detect_medium(Some("/usr/local/bin/rumor")), InstallMedium::Other);
    assert_eq!(detect_medium(Some("/Cellar/rumor")), InstallMedium::Other);
    assert_eq!(detect_medium(None), InstallMedium::Other);
}

#[test]
fn plan_follows_from_the_medium() {
    let brew = update_plan(InstallMedium::Homebrew);
    assert_eq!(brew.program, "brew");
    assert_eq!(brew.args, vec!["upgrade".to_string(), "rumor".to_string()]);
    assert_eq!(brew.human, "brew upgrade rumor");
    let other = update_plan(InstallMedium::Other);
    let pipeline =
        "curl -fsSL https://raw.githubusercontent.com/ornitech/rumor/main/install.sh | sh";
    assert_eq!(other.program, "sh");
    assert_eq!(other.args, vec!["-c".to_string(), pipeline.to_string()]);
    assert_eq!(other.human, pipeline);
}
