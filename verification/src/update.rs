//! Whether there is a newer version, and how to get it.
//!
//! The check goes through the medium that the program was installed with, so
//! that what it suggests will work.

use vstd::prelude::*;
use vstd::string::StringExecFns;

#[allow(unused_imports)]
use crate::text::{digits_at_most, split, texts};
use crate::text::{chars_of, parse_digits, same_text, split_text};

verus! {

pub const GITHUB_REPO: &'static str = "ornitech/rumor";

/// How long a check may take, in milliseconds.
pub const CHECK_TIMEOUT_MS: u64 = 30_000;

/// The script that installs the latest release.
pub const INSTALL_URL: &'static str = "https://raw.githubusercontent.com/ornitech/rumor/main/install.sh";

// ---- versions ----

/// A version without what follows its first `-` or `+`.
pub open spec fn core_of(v: Seq<char>) -> Seq<char>
    decreases v.len(),
{
    if v.len() == 0 || v[0] == '-' || v[0] == '+' {
        Seq::empty()
    } else {
        seq![v[0]] + core_of(v.drop_first())
    }
}

/// The number that a part of a version stands for: 0 where it is missing, is
/// not a number, or is none that fits into 64 bits.
pub open spec fn part_number(parts: Seq<Seq<char>>, i: int) -> u64 {
    if i < parts.len() {
        match digits_at_most(parts[i], u64::MAX) {
            Some(n) => n,
            None => 0,
        }
    } else {
        0
    }
}

/// The numbers of a version: major, minor and patch.
pub open spec fn version_of(v: Seq<char>) -> (u64, u64, u64) {
    let parts = split(core_of(v), '.');
    (part_number(parts, 0), part_number(parts, 1), part_number(parts, 2))
}

fn core_text(v: &str) -> (core: String)
    ensures
        core@ == core_of(v@),
{
    let chars = chars_of(v);
    let mut core = String::new();
    let mut i: usize = 0;
    assert(v@.skip(0) =~= v@);
    while i < chars.len()
        invariant
            i <= chars@.len(),
            chars@ == v@,
            core_of(v@) == core@ + core_of(v@.skip(i as int)),
        decreases chars@.len() - i,
    {
        let c = chars[i];
        let ghost rest = v@.skip(i as int);
        assert(rest[0] == c);
        if c == '-' || c == '+' {
            assert(core@ + Seq::<char>::empty() =~= core@);
            return core;
        }
        let ghost before = core@;
        core.push(c);
        assert(rest.drop_first() =~= v@.skip(i + 1));
        assert(before + (seq![c] + core_of(v@.skip(i + 1))) =~= core@ + core_of(v@.skip(i + 1)));
        i = i + 1;
    }
    assert(core@ + Seq::<char>::empty() =~= core@);
    core
}

fn part_at(parts: &Vec<String>, i: usize) -> (n: u64)
    ensures
        n == part_number(texts(parts@), i as int),
{
    if i < parts.len() {
        let chars = chars_of(parts[i].as_str());
        assert(chars@.skip(0) =~= chars@);
        match parse_digits(&chars, 0, u64::MAX) {
            Some(n) => n,
            None => 0,
        }
    } else {
        0
    }
}

/// The numbers of a version: major, minor and patch. What follows a `-` or `+`
/// is left out, and what is no number counts as 0.
pub fn version_tuple(v: &str) -> (numbers: (u64, u64, u64))
    ensures
        numbers == version_of(v@),
{
    let core = core_text(v);
    let parts = split_text(core.as_str(), '.');
    (part_at(&parts, 0), part_at(&parts, 1), part_at(&parts, 2))
}

/// Whether a version is higher than another.
pub open spec fn higher(a: (u64, u64, u64), b: (u64, u64, u64)) -> bool {
    ||| a.0 > b.0
    ||| a.0 == b.0 && a.1 > b.1
    ||| a.0 == b.0 && a.1 == b.1 && a.2 > b.2
}

/// Whether `latest` is a higher version than `current`.
pub fn is_newer(latest: &str, current: &str) -> (yes: bool)
    ensures
        yes == higher(version_of(latest@), version_of(current@)),
{
    let a = version_tuple(latest);
    let b = version_tuple(current);
    a.0 > b.0 || (a.0 == b.0 && (a.1 > b.1 || (a.1 == b.1 && a.2 > b.2)))
}

/// Versions are ordered: none is newer than itself, of two with different
/// numbers one is newer and not the other, and newer than newer is newer.
pub proof fn law_versions_are_ordered(a: Seq<char>, b: Seq<char>, c: Seq<char>)
    ensures
        !higher(version_of(a), version_of(a)),
        higher(version_of(a), version_of(b)) ==> !higher(version_of(b), version_of(a)),
        version_of(a) != version_of(b) ==> higher(version_of(a), version_of(b)) || higher(
            version_of(b),
            version_of(a),
        ),
        higher(version_of(a), version_of(b)) && higher(version_of(b), version_of(c)) ==> higher(
            version_of(a),
            version_of(c),
        ),
{
}

/// What follows a `-` or `+` makes no difference.
pub proof fn law_suffixes_are_ignored(core: Seq<char>, suffix: Seq<char>)
    requires
        suffix.len() > 0 ==> suffix[0] == '-' || suffix[0] == '+',
    ensures
        version_of(core + suffix) == version_of(core),
{
    lemma_core_of_suffix(core, suffix);
}

proof fn lemma_core_of_suffix(core: Seq<char>, suffix: Seq<char>)
    requires
        suffix.len() > 0 ==> suffix[0] == '-' || suffix[0] == '+',
    ensures
        core_of(core + suffix) == core_of(core),
    decreases core.len(),
{
    let all = core + suffix;
    if core.len() == 0 {
        assert(all =~= suffix);
    } else {
        assert(all.drop_first() =~= core.drop_first() + suffix);
        assert(all[0] == core[0]);
        lemma_core_of_suffix(core.drop_first(), suffix);
    }
}

// ---- the medium ----

/// How the program was installed.
#[derive(Clone, Copy, Debug, PartialEq, Eq, Structural)]
pub enum InstallMedium {
    Homebrew,
    Other,
}

/// Whether a text holds another one at a position.
pub open spec fn holds_at(text: Seq<char>, part: Seq<char>, at: int) -> bool {
    0 <= at && at + part.len() <= text.len() && text.subrange(at, at + part.len()) == part
}

/// Whether a text holds another one.
pub open spec fn holds(text: Seq<char>, part: Seq<char>) -> bool {
    exists|at: int| #[trigger] holds_at(text, part, at)
}

fn text_holds_at(text: &[char], part: &[char], at: usize) -> (yes: bool)
    requires
        at + part@.len() <= text@.len(),
    ensures
        yes == holds_at(text@, part@, at as int),
{
    let ghost window = text@.subrange(at as int, at + part@.len());
    let n = text.len();
    let mut i: usize = 0;
    while i < part.len()
        invariant
            i <= part@.len(),
            at + part@.len() <= n,
            n == text@.len(),
            window == text@.subrange(at as int, at + part@.len()),
            forall|j: int| 0 <= j < i ==> #[trigger] window[j] == part@[j],
        decreases part@.len() - i,
    {
        assert(window[i as int] == text@[at + i]);
        if text[at + i] != part[i] {
            return false;
        }
        i = i + 1;
    }
    assert(window =~= part@);
    true
}

fn text_holds(text: &str, part: &str) -> (yes: bool)
    ensures
        yes == holds(text@, part@),
{
    let chars = chars_of(text);
    let sought = chars_of(part);
    if sought.len() > chars.len() {
        return false;
    }
    let last: usize = chars.len() - sought.len();
    let mut at: usize = 0;
    while at < last
        invariant
            at <= last,
            last == text@.len() - part@.len(),
            chars@ == text@,
            sought@ == part@,
            forall|i: int| 0 <= i < at ==> !#[trigger] holds_at(text@, part@, i),
        decreases last - at,
    {
        if text_holds_at(&chars, &sought, at) {
            return true;
        }
        at = at + 1;
    }
    text_holds_at(&chars, &sought, at)
}

/// How the program at a path was installed, where its path is known: Homebrew
/// keeps what it installs in its cellar, and nothing else does.
pub fn detect_medium(exe: Option<&str>) -> (medium: InstallMedium)
    ensures
        medium == (if exe is Some && holds(exe->0@, "/Cellar/rumor/"@) {
            InstallMedium::Homebrew
        } else {
            InstallMedium::Other
        }),
{
    match exe {
        Some(path) => if text_holds(path, "/Cellar/rumor/") {
            InstallMedium::Homebrew
        } else {
            InstallMedium::Other
        },
        None => InstallMedium::Other,
    }
}

/// A program to run, its arguments, and what to call it.
pub struct UpdatePlan {
    pub program: String,
    pub args: Vec<String>,
    pub human: String,
}

/// The command that fetches the installer and runs it.
pub open spec fn install_pipeline() -> Seq<char> {
    "curl -fsSL "@ + INSTALL_URL@ + " | sh"@
}

/// What to run to update the program, by the medium that it was installed with.
pub fn update_plan(medium: InstallMedium) -> (plan: UpdatePlan)
    ensures
        match medium {
            InstallMedium::Homebrew => {
                &&& plan.program@ == "brew"@
                &&& texts(plan.args@) == seq!["upgrade"@, "rumor"@]
                &&& plan.human@ == "brew upgrade rumor"@
            },
            InstallMedium::Other => {
                &&& plan.program@ == "sh"@
                &&& texts(plan.args@) == seq!["-c"@, install_pipeline()]
                &&& plan.human@ == install_pipeline()
            },
        },
{
    let mut args: Vec<String> = Vec::new();
    match medium {
        InstallMedium::Homebrew => {
            args.push("upgrade".to_owned());
            args.push("rumor".to_owned());
            assert(texts(args@) =~= seq!["upgrade"@, "rumor"@]);
            UpdatePlan {
                program: "brew".to_owned(),
                args,
                human: "brew upgrade rumor".to_owned(),
            }
        },
        InstallMedium::Other => {
            let mut pipeline = "curl -fsSL ".to_owned();
            pipeline.append(INSTALL_URL);
            pipeline.append(" | sh");
            args.push("-c".to_owned());
            args.push(pipeline.clone());
            assert(texts(args@) =~= seq!["-c"@, install_pipeline()]);
            UpdatePlan { program: "sh".to_owned(), args, human: pipeline }
        },
    }
}

// ---- the check ----

/// A newer version, and what to do to get it.
#[derive(Debug)]
pub struct UpdateInfo {
    pub latest: String,
    pub action: String,
}

/// An outdated formula, as Homebrew lists it.
pub struct BrewFormula {
    pub name: String,
    pub current_version: String,
}

/// The first formula of that name among the first `n`.
pub open spec fn formula_named(formulae: Seq<BrewFormula>, name: Seq<char>, n: int) -> Option<int>
    decreases n,
{
    if n <= 0 {
        None
    } else {
        match formula_named(formulae, name, n - 1) {
            Some(i) => Some(i),
            None => if formulae[n - 1].name@ == name {
                Some(n - 1)
            } else {
                None
            },
        }
    }
}

proof fn lemma_formula_sticks(formulae: Seq<BrewFormula>, name: Seq<char>, a: int, b: int)
    requires
        0 <= a <= b,
        formula_named(formulae, name, a) is Some,
    ensures
        formula_named(formulae, name, b) == formula_named(formulae, name, a),
    decreases b,
{
    if a < b {
        lemma_formula_sticks(formulae, name, a, b - 1);
    }
}

/// The update that Homebrew's list of outdated formulae tells of: the version
/// that it has of this program, where the program is on the list.
pub fn parse_brew(formulae: &[BrewFormula]) -> (info: Option<UpdateInfo>)
    ensures
        match info {
            Some(update) => {
                &&& formula_named(formulae@, "rumor"@, formulae@.len() as int) matches Some(i)
                    && update.latest@ == formulae@[i].current_version@
                &&& update.action@ == "brew upgrade rumor"@
            },
            None => formula_named(formulae@, "rumor"@, formulae@.len() as int) is None,
        },
{
    let mut i: usize = 0;
    while i < formulae.len()
        invariant
            i <= formulae@.len(),
            formula_named(formulae@, "rumor"@, i as int) is None,
        decreases formulae@.len() - i,
    {
        if same_text(formulae[i].name.as_str(), "rumor") {
            proof {
                lemma_formula_sticks(formulae@, "rumor"@, i + 1, formulae@.len() as int);
            }
            return Some(
                UpdateInfo {
                    latest: formulae[i].current_version.clone(),
                    action: "brew upgrade rumor".to_owned(),
                },
            );
        }
        i = i + 1;
    }
    None
}

/// The latest release.
pub struct GithubRelease {
    pub tag_name: String,
}

/// A tag without the `v`s in front.
pub open spec fn untagged(tag: Seq<char>) -> Seq<char>
    decreases tag.len(),
{
    if tag.len() > 0 && tag[0] == 'v' {
        untagged(tag.drop_first())
    } else {
        tag
    }
}

fn version_in(tag: &str) -> (version: String)
    ensures
        version@ == untagged(tag@),
{
    let chars = chars_of(tag);
    let mut i: usize = 0;
    assert(tag@.skip(0) =~= tag@);
    while i < chars.len() && chars[i] == 'v'
        invariant
            i <= chars@.len(),
            chars@ == tag@,
            untagged(tag@) == untagged(tag@.skip(i as int)),
        decreases chars@.len() - i,
    {
        assert(tag@.skip(i as int).drop_first() =~= tag@.skip(i + 1));
        i = i + 1;
    }
    assert(tag@.subrange(i as int, tag@.len() as int) =~= tag@.skip(i as int));
    crate::text::text_between(&chars, i, chars.len())
}

/// Where a newer release is to be had.
pub open spec fn download_text() -> Seq<char> {
    "download from github.com/"@ + GITHUB_REPO@ + "/releases"@
}

/// The update that the latest release makes, where it is newer than the version
/// that runs.
pub fn parse_github(release: &GithubRelease, current: &str) -> (info: Option<UpdateInfo>)
    ensures
        match info {
            Some(update) => {
                &&& higher(version_of(untagged(release.tag_name@)), version_of(current@))
                &&& update.latest@ == untagged(release.tag_name@)
                &&& update.action@ == download_text()
            },
            None => !higher(version_of(untagged(release.tag_name@)), version_of(current@)),
        },
{
    let latest = version_in(release.tag_name.as_str());
    if is_newer(latest.as_str(), current) {
        let mut action = "download from github.com/".to_owned();
        action.append(GITHUB_REPO);
        action.append("/releases");
        Some(UpdateInfo { latest, action })
    } else {
        None
    }
}

// ---- what holds of versions ----

/// A version is higher exactly where its numbers, read as one number with the
/// major part in front, are.
pub proof fn law_higher_is_by_significance(a: (u64, u64, u64), b: (u64, u64, u64))
    ensures
        higher(a, b) <==> a.0 * 0x1_0000_0000_0000_0000_0000_0000_0000_0000 + a.1
            * 0x1_0000_0000_0000_0000 + a.2 > b.0
            * 0x1_0000_0000_0000_0000_0000_0000_0000_0000 + b.1 * 0x1_0000_0000_0000_0000 + b.2,
{
}

proof fn lemma_split_at(a: Seq<char>, b: Seq<char>, sep: char)
    ensures
        split(a + seq![sep] + b, sep) == split(a, sep) + split(b, sep),
        split(b, sep).len() > 0,
    decreases b.len(),
{
    let all = a + seq![sep] + b;
    if b.len() == 0 {
        assert(all.drop_last() =~= a);
        assert(split(all, sep) =~= split(a, sep) + split(b, sep));
    } else {
        lemma_split_at(a, b.drop_last(), sep);
        assert(all.drop_last() =~= a + seq![sep] + b.drop_last());
        assert(all.last() == b.last());
        assert(split(all, sep) =~= split(a, sep) + split(b, sep));
    }
}

proof fn lemma_split_none(s: Seq<char>, sep: char)
    requires
        forall|i: int| 0 <= i < s.len() ==> #[trigger] s[i] != sep,
    ensures
        split(s, sep) == seq![s],
    decreases s.len(),
{
    if s.len() == 0 {
        assert(s =~= Seq::<char>::empty());
        assert(split(s, sep) =~= seq![s]);
    } else {
        let init = s.drop_last();
        assert forall|i: int| 0 <= i < init.len() implies #[trigger] init[i] != sep by {
            assert(s[i] != sep);
        }
        lemma_split_none(init, sep);
        assert(s[s.len() - 1] != sep);
        assert(init.push(s.last()) =~= s);
        assert(split(s, sep) =~= seq![s]);
    }
}

proof fn lemma_core_is_all(v: Seq<char>)
    requires
        forall|i: int| 0 <= i < v.len() ==> #[trigger] v[i] != '-' && v[i] != '+',
    ensures
        core_of(v) == v,
    decreases v.len(),
{
    if v.len() > 0 {
        assert(v[0] != '-' && v[0] != '+');
        let rest = v.drop_first();
        assert forall|i: int| 0 <= i < rest.len() implies #[trigger] rest[i] != '-' && rest[i]
            != '+' by {
            assert(v[i + 1] != '-');
        }
        lemma_core_is_all(rest);
        assert(seq![v[0]] + rest =~= v);
    } else {
        assert(core_of(v) =~= v);
    }
}

proof fn lemma_number_is_digits(n: u64, c: char)
    requires
        !('0' <= c <= '9'),
    ensures
        forall|i: int|
            0 <= i < crate::text::decimal(n as nat).len() ==> #[trigger] crate::text::decimal(
                n as nat,
            )[i] != c,
        digits_at_most(crate::text::decimal(n as nat), u64::MAX) == Some(n),
{
    crate::text::law_decimal_stands_for_its_number(n as nat);
    let d = crate::text::decimal(n as nat);
    assert forall|i: int| 0 <= i < d.len() implies #[trigger] d[i] != c by {
        assert(crate::text::is_digit(d[i]));
    }
}

/// Three numbers with dots between them are the numbers of a version.
pub proof fn law_versions_are_three_numbers(major: u64, minor: u64, patch: u64)
    ensures
        version_of(
            crate::text::decimal(major as nat) + seq!['.'] + crate::text::decimal(minor as nat)
                + seq!['.'] + crate::text::decimal(patch as nat),
        ) == (major, minor, patch),
{
    let a = crate::text::decimal(major as nat);
    let b = crate::text::decimal(minor as nat);
    let c = crate::text::decimal(patch as nat);
    let v = a + seq!['.'] + b + seq!['.'] + c;
    lemma_number_is_digits(major, '.');
    lemma_number_is_digits(minor, '.');
    lemma_number_is_digits(patch, '.');
    lemma_number_is_digits(major, '-');
    lemma_number_is_digits(minor, '-');
    lemma_number_is_digits(patch, '-');
    lemma_number_is_digits(major, '+');
    lemma_number_is_digits(minor, '+');
    lemma_number_is_digits(patch, '+');
    assert forall|i: int| 0 <= i < v.len() implies #[trigger] v[i] != '-' && v[i] != '+' by {
        if i < a.len() {
            assert(v[i] == a[i]);
        } else if i == a.len() {
        } else if i < a.len() + 1 + b.len() {
            assert(v[i] == b[i - a.len() - 1]);
        } else if i == a.len() + 1 + b.len() {
        } else {
            assert(v[i] == c[i - a.len() - b.len() - 2]);
        }
    }
    lemma_core_is_all(v);
    lemma_split_none(a, '.');
    lemma_split_none(b, '.');
    lemma_split_none(c, '.');
    lemma_split_at(a, b, '.');
    lemma_split_at(a + seq!['.'] + b, c, '.');
    assert(split(v, '.') =~= seq![a, b, c]);
}

/// What is no number, or missing, counts as 0.
pub proof fn law_missing_parts_count_as_zero(parts: Seq<Seq<char>>, i: int)
    requires
        0 <= i,
    ensures
        i >= parts.len() ==> part_number(parts, i) == 0,
        i < parts.len() && !crate::text::all_digits(parts[i]) ==> part_number(parts, i) == 0,
{
}

/// A tag is read without the `v`s in front, and with all that follows them.
pub proof fn law_tags_lose_their_v(tag: Seq<char>) -> (n: int)
    ensures
        0 <= n <= tag.len(),
        untagged(tag) == tag.skip(n),
        forall|i: int| 0 <= i < n ==> #[trigger] tag[i] == 'v',
        n < tag.len() ==> tag[n] != 'v',
    decreases tag.len(),
{
    if tag.len() > 0 && tag[0] == 'v' {
        let k = law_tags_lose_their_v(tag.drop_first());
        assert(tag.drop_first().skip(k) =~= tag.skip(k + 1));
        assert forall|i: int| 0 <= i < k + 1 implies #[trigger] tag[i] == 'v' by {
            if i > 0 {
                assert(tag.drop_first()[i - 1] == 'v');
            }
        }
        k + 1
    } else {
        assert(tag.skip(0) =~= tag);
        0
    }
}

/// A text holds every part of it.
pub proof fn law_texts_hold_their_parts(a: Seq<char>, part: Seq<char>, b: Seq<char>)
    ensures
        holds(a + part + b, part),
{
    let text = a + part + b;
    assert(text.subrange(a.len() as int, (a.len() + part.len()) as int) =~= part);
    assert(holds_at(text, part, a.len() as int));
}

/// The first formula of a name is found, and one is found exactly where there is
/// one.
pub proof fn law_formulae_are_found_by_name(formulae: Seq<BrewFormula>, name: Seq<char>, n: int)
    requires
        0 <= n <= formulae.len(),
    ensures
        formula_named(formulae, name, n) is None <==> forall|i: int|
            0 <= i < n ==> (#[trigger] formulae[i]).name@ != name,
        formula_named(formulae, name, n) matches Some(k) ==> 0 <= k < n && formulae[k].name@
            == name && forall|i: int| 0 <= i < k ==> (#[trigger] formulae[i]).name@ != name,
    decreases n,
{
    if n > 0 {
        law_formulae_are_found_by_name(formulae, name, n - 1);
        if forall|i: int| 0 <= i < n ==> (#[trigger] formulae[i]).name@ != name {
            assert(formulae[n - 1].name@ != name);
        }
    }
}

/// A program is told of a release exactly where that is higher than what runs.
pub proof fn law_newer_releases_are_told(
    release: &GithubRelease,
    current: &str,
    info: Option<UpdateInfo>,
)
    requires
        call_ensures(parse_github, (release, current), info),
    ensures
        info is Some <==> higher(version_of(untagged(release.tag_name@)), version_of(current@)),
        info matches Some(update) ==> update.latest@ == untagged(release.tag_name@),
{
}

/// A program in the cellar of Homebrew is updated by that, and any other by the
/// installer.
pub proof fn law_programs_are_updated_as_installed(
    before: Seq<char>,
    after: Seq<char>,
    exe: &str,
    medium: InstallMedium,
    plan: UpdatePlan,
)
    requires
        exe@ == before + "/Cellar/rumor/"@ + after,
        call_ensures(detect_medium, (Some(exe),), medium),
        call_ensures(update_plan, (medium,), plan),
    ensures
        plan.program@ == "brew"@,
        texts(plan.args@) == seq!["upgrade"@, "rumor"@],
{
    law_texts_hold_their_parts(before, "/Cellar/rumor/"@, after);
}

/// A text that holds another one is that with something before and after it.
pub proof fn law_held_parts_are_parts(text: Seq<char>, part: Seq<char>) -> (around: (
    Seq<char>,
    Seq<char>,
))
    requires
        holds(text, part),
    ensures
        text == around.0 + part + around.1,
{
    let at = choose|at: int| #[trigger] holds_at(text, part, at);
    let before = text.take(at);
    let after = text.skip(at + part.len());
    assert(text.subrange(at, at + part.len()) == part);
    assert forall|i: int| at <= i < at + part.len() implies #[trigger] text[i] == part[i - at] by {
        assert(text.subrange(at, at + part.len())[i - at] == text[i]);
    }
    assert(text =~= before + part + after);
    (before, after)
}

} // verus!
