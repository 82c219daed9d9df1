//! Session logs: plain-text copies of what each process wrote.

use vstd::prelude::*;
use vstd::string::StringExecFns;

use crate::config::{locate, ProcessConfig};
#[allow(unused_imports)]
use crate::config::{located, process_models, ProcessModel};
use crate::diag::now_hms;
#[allow(unused_imports)]
use crate::diag::hms;
#[allow(unused_imports)]
use crate::text::{all_digits, decimal, digit_char, digits_value, is_digit, texts};
use crate::text::{chars_of, decimal_text, same_text, text_between};
#[allow(unused_imports)]
use crate::vt::{
    no_escape, plain_event, plain_events, shows_no_controls, vt_cut, vt_events, vt_fresh, vt_ground,
    vt_next, vt_torn, vt_whole,
};
use crate::vt::{vt_advance, vt_parser, VtEvent};

verus! {

// ---- file names ----

/// A character that may stand in a file name as it is.
pub open spec fn is_safe(c: char) -> bool {
    ('a' <= c && c <= 'z') || ('A' <= c && c <= 'Z') || ('0' <= c && c <= '9') || c == '.' || c
        == '_' || c == '-'
}

/// A character for a file name: what is not safe becomes an underscore.
pub open spec fn safe_char(c: char) -> char {
    if is_safe(c) {
        c
    } else {
        '_'
    }
}

/// A text without the dots in front.
pub open spec fn undotted(s: Seq<char>) -> Seq<char>
    decreases s.len(),
{
    if s.len() > 0 && s[0] == '.' {
        undotted(s.skip(1))
    } else {
        s
    }
}

/// The most characters that a file name is made of.
pub const NAME_CAP: usize = 100;

/// A name as a file name: only safe characters, no dot in front, at most
/// `NAME_CAP` characters, and never empty.
pub open spec fn sanitized(name: Seq<char>) -> Seq<char> {
    let kept = undotted(name.map_values(|c: char| safe_char(c)));
    let short = if kept.len() > NAME_CAP {
        kept.take(NAME_CAP as int)
    } else {
        kept
    };
    if short.len() == 0 {
        "process"@
    } else {
        short
    }
}

/// Make a name safe to use as a file name.
pub fn sanitize_name(name: &str) -> (safe: String)
    ensures
        safe@ == sanitized(name@),
{
    let chars = chars_of(name);
    let ghost mapped = name@.map_values(|c: char| safe_char(c));
    let mut kept: Vec<char> = Vec::new();
    let mut i: usize = 0;
    while i < chars.len()
        invariant
            i <= chars@.len(),
            kept@.len() == i,
            forall|j: int| 0 <= j < i ==> #[trigger] kept@[j] == safe_char(chars@[j]),
        decreases chars@.len() - i,
    {
        let c = chars[i];
        if ('a' <= c && c <= 'z') || ('A' <= c && c <= 'Z') || ('0' <= c && c <= '9') || c == '.'
            || c == '_' || c == '-' {
            kept.push(c);
        } else {
            kept.push('_');
        }
        i = i + 1;
    }
    assert(kept@ =~= mapped);
    let mut from: usize = 0;
    assert(mapped.skip(0) =~= mapped);
    while from < kept.len() && kept[from] == '.'
        invariant
            from <= kept@.len(),
            kept@ == mapped,
            undotted(mapped) == undotted(mapped.skip(from as int)),
        decreases kept@.len() - from,
    {
        assert(mapped.skip(from as int).skip(1) =~= mapped.skip(from + 1));
        from = from + 1;
    }
    let rest = kept.len() - from;
    let to = if rest > NAME_CAP {
        from + NAME_CAP
    } else {
        kept.len()
    };
    assert(undotted(mapped) == mapped.skip(from as int));
    assert(rest > NAME_CAP ==> mapped.skip(from as int).take(NAME_CAP as int) =~= mapped.subrange(
        from as int,
        to as int,
    ));
    assert(rest <= NAME_CAP ==> mapped.skip(from as int) =~= mapped.subrange(
        from as int,
        to as int,
    ));
    if from == to {
        return "process".to_owned();
    }
    text_between(&kept, from, to)
}

/// A file name is never empty, holds only safe characters, is no hidden file
/// and has at most `NAME_CAP` characters.
pub proof fn law_sanitized_is_a_file_name(name: Seq<char>)
    ensures
        0 < sanitized(name).len() <= NAME_CAP,
        sanitized(name)[0] != '.',
        forall|i: int| 0 <= i < sanitized(name).len() ==> is_safe(#[trigger] sanitized(name)[i]),
{
    reveal_strlit("process");
    let mapped = name.map_values(|c: char| safe_char(c));
    lemma_undotted(mapped);
}

proof fn lemma_undotted(s: Seq<char>)
    requires
        forall|i: int| 0 <= i < s.len() ==> is_safe(#[trigger] s[i]),
    ensures
        undotted(s).len() > 0 ==> undotted(s)[0] != '.',
        forall|i: int| 0 <= i < undotted(s).len() ==> is_safe(#[trigger] undotted(s)[i]),
    decreases s.len(),
{
    if s.len() > 0 && s[0] == '.' {
        assert forall|i: int| 0 <= i < s.skip(1).len() implies is_safe(#[trigger] s.skip(1)[i]) by {
            assert(is_safe(s[i + 1]));
        }
        lemma_undotted(s.skip(1));
    }
}

/// A file name stays as it is when it is made safe again.
pub proof fn law_sanitizing_twice_changes_nothing(name: Seq<char>)
    ensures
        sanitized(sanitized(name)) == sanitized(name),
{
    law_sanitized_is_a_file_name(name);
    let s = sanitized(name);
    assert(s.map_values(|c: char| safe_char(c)) =~= s);
}

// ---- a log file for each process ----

/// The file name bases of a list of processes.
pub open spec fn bases(models: Seq<ProcessModel>) -> Seq<Seq<char>> {
    Seq::new(models.len(), |i: int| sanitized(models[i].name))
}

/// How often `base` occurs among the first `n` of a list.
pub open spec fn occurrences(list: Seq<Seq<char>>, base: Seq<char>, n: int) -> nat
    decreases n,
{
    if n <= 0 {
        0
    } else if list[n - 1] == base {
        occurrences(list, base, n - 1) + 1
    } else {
        occurrences(list, base, n - 1)
    }
}

/// The file name without its ending: the base, with a number after the first
/// use of it.
pub open spec fn stem(base: Seq<char>, n: nat) -> Seq<char> {
    if n == 1 {
        base
    } else {
        base + "-"@ + decimal(n)
    }
}

/// The number that slot `i` has among the slots with its base.
pub open spec fn use_of(list: Seq<Seq<char>>, i: int) -> nat {
    occurrences(list, list[i], i + 1)
}

proof fn lemma_decimal_digits(n: nat)
    ensures
        all_digits(decimal(n)),
        digits_value(decimal(n)) == n,
    decreases n,
{
    if n < 10 {
        let s = decimal(n);
        assert(s.drop_last() =~= Seq::<char>::empty());
        assert(digits_value(Seq::<char>::empty()) == 0);
        assert(s.last() == digit_char(n));
    } else {
        lemma_decimal_digits(n / 10);
        assert(decimal(n).drop_last() =~= decimal(n / 10));
        assert(is_digit(digit_char(n % 10)));
    }
}

proof fn lemma_numbered_stems(a: Seq<char>, n: nat, b: Seq<char>, m: nat)
    requires
        a + "-"@ + decimal(n) == b + "-"@ + decimal(m),
    ensures
        a == b,
        n == m,
{
    reveal_strlit("-");
    lemma_decimal_digits(n);
    lemma_decimal_digits(m);
    let s = a + "-"@ + decimal(n);
    let t = b + "-"@ + decimal(m);
    let p = a.len() as int;
    let q = b.len() as int;
    assert(s[p] == '-' && t[q] == '-');
    assert(s.len() == p + 1 + decimal(n).len());
    assert(t.len() == q + 1 + decimal(m).len());
    assert(decimal(n).len() > 0 && decimal(m).len() > 0);
    if p < q {
        assert(s[q] == decimal(n)[q - p - 1]);
        assert(is_digit(decimal(n)[q - p - 1]));
    } else if q < p {
        assert(t[p] == decimal(m)[p - q - 1]);
        assert(is_digit(decimal(m)[p - q - 1]));
    } else {
        assert(a =~= s.take(p));
        assert(b =~= t.take(q));
        assert(decimal(n) =~= s.skip(p + 1));
        assert(decimal(m) =~= t.skip(q + 1));
    }
}

/// Whether `k` is the first number from `n` on that makes a base a file name
/// that is not used yet.
pub open spec fn is_next_free(used: Seq<Seq<char>>, base: Seq<char>, n: nat, k: nat) -> bool {
    &&& n <= k
    &&& !used.contains(stem(base, k))
    &&& forall|m: nat| n <= m < k ==> used.contains(#[trigger] stem(base, m))
}

/// The first number from `n` on that makes a base a file name that is not used
/// yet.
pub open spec fn next_free(used: Seq<Seq<char>>, base: Seq<char>, n: nat) -> nat {
    choose|k: nat| is_next_free(used, base, n, k)
}

/// The file names of the first `n` slots without their endings. A slot gets its
/// base, with the number that it has among the slots with that base; where that
/// is taken, with the next number that is not.
pub open spec fn stems_upto(list: Seq<Seq<char>>, n: int) -> Seq<Seq<char>>
    decreases n,
{
    if n <= 0 {
        Seq::empty()
    } else {
        let before = stems_upto(list, n - 1);
        before.push(stem(list[n - 1], next_free(before, list[n - 1], use_of(list, n - 1))))
    }
}

/// The log file of slot `i`.
pub open spec fn log_file(list: Seq<Seq<char>>, i: int) -> Seq<char> {
    stems_upto(list, i + 1)[i] + ".log"@
}

proof fn lemma_stems_differ(base: Seq<char>, n: nat, m: nat)
    requires
        1 <= n,
        1 <= m,
        stem(base, n) == stem(base, m),
    ensures
        n == m,
{
    reveal_strlit("-");
    if n != 1 && m != 1 {
        lemma_numbered_stems(base, n, base, m);
    } else if n != m {
        assert(stem(base, n).len() != stem(base, m).len());
    }
}

/// No more numbers in a row are taken than there are file names.
proof fn lemma_taken(used: Seq<Seq<char>>, base: Seq<char>, n: nat, k: nat)
    requires
        1 <= n <= k,
        forall|m: nat| n <= m < k ==> used.contains(#[trigger] stem(base, m)),
    ensures
        k - n <= used.len(),
{
    let taken = Seq::new((k - n) as nat, |i: int| stem(base, (n + i) as nat));
    assert(taken.no_duplicates()) by {
        assert forall|i: int, j: int|
            0 <= i < taken.len() && 0 <= j < taken.len() && i != j implies taken[i] != taken[j] by {
            if taken[i] == taken[j] {
                lemma_stems_differ(base, (n + i) as nat, (n + j) as nat);
            }
        }
    }
    taken.unique_seq_to_set();
    assert(taken.to_set().subset_of(used.to_set())) by {
        assert forall|s: Seq<char>| taken.to_set().contains(s) implies used.to_set().contains(s) by {
            let i = choose|i: int| 0 <= i < taken.len() && taken[i] == s;
            assert(used.contains(stem(base, (n + i) as nat)));
        }
    }
    vstd::seq_lib::seq_to_set_is_finite(used);
    vstd::set_lib::lemma_len_subset(taken.to_set(), used.to_set());
    used.lemma_cardinality_of_set();
}

proof fn lemma_next_free(used: Seq<Seq<char>>, base: Seq<char>, n: nat, k: nat)
    requires
        is_next_free(used, base, n, k),
    ensures
        next_free(used, base, n) == k,
{
    let other = next_free(used, base, n);
    assert(is_next_free(used, base, n, other));
    if other < k {
        assert(used.contains(stem(base, other)));
    } else if k < other {
        assert(used.contains(stem(base, k)));
    }
}

fn is_used(used: &Vec<String>, name: &String) -> (yes: bool)
    ensures
        yes == texts(used@).contains(name@),
{
    let mut i: usize = 0;
    while i < used.len()
        invariant
            i <= used@.len(),
            forall|j: int| 0 <= j < i ==> (#[trigger] texts(used@)[j]) != name@,
        decreases used@.len() - i,
    {
        assert(texts(used@)[i as int] == used@[i as int]@);
        if same_text(used[i].as_str(), name.as_str()) {
            return true;
        }
        i = i + 1;
    }
    false
}

fn numbered(base: &String, n: u128) -> (name: String)
    ensures
        name@ == stem(base@, n as nat),
{
    let mut name = base.clone();
    if n != 1 {
        name.append("-");
        name.append(decimal_text(n).as_str());
    }
    name
}

fn free_name(used: &Vec<String>, base: &String, n: usize) -> (name: String)
    requires
        1 <= n,
    ensures
        name@ == stem(base@, next_free(texts(used@), base@, n as nat)),
        !texts(used@).contains(name@),
{
    let count: usize = used.len();
    let mut k: u128 = n as u128;
    let mut name = numbered(base, k);
    while is_used(used, &name)
        invariant
            1 <= n <= k,
            count == used@.len(),
            k - n <= count,
            name@ == stem(base@, k as nat),
            forall|m: nat| n <= m < k ==> texts(used@).contains(#[trigger] stem(base@, m)),
        decreases used@.len() - (k - n),
    {
        proof {
            assert forall|m: nat| n <= m < k + 1 implies texts(used@).contains(
                #[trigger] stem(base@, m),
            ) by {
                if m == k {
                    assert(stem(base@, m) == name@);
                }
            }
            lemma_taken(texts(used@), base@, n as nat, (k + 1) as nat);
        }
        k = k + 1;
        name = numbered(base, k);
    }
    proof {
        lemma_next_free(texts(used@), base@, n as nat, k as nat);
    }
    name
}

proof fn lemma_stems(list: Seq<Seq<char>>, n: int)
    requires
        0 <= n,
    ensures
        stems_upto(list, n).len() == n,
    decreases n,
{
    if n > 0 {
        lemma_stems(list, n - 1);
    }
}

proof fn lemma_stems_stay(list: Seq<Seq<char>>, i: int, n: int)
    requires
        0 <= i < n,
    ensures
        stems_upto(list, n).len() == n,
        stems_upto(list, n)[i] == stems_upto(list, i + 1)[i],
    decreases n,
{
    lemma_stems(list, n);
    if i < n - 1 {
        lemma_stems_stay(list, i, n - 1);
    }
}

/// Not all numbers from `n` on are taken.
proof fn lemma_some_is_free(used: Seq<Seq<char>>, base: Seq<char>, n: nat, k: nat)
    requires
        1 <= n <= k,
        forall|m: nat| n <= m < k ==> used.contains(#[trigger] stem(base, m)),
    ensures
        is_next_free(used, base, n, next_free(used, base, n)),
    decreases used.len() + n + 1 - k,
{
    lemma_taken(used, base, n, k);
    if used.contains(stem(base, k)) {
        assert forall|m: nat| n <= m < k + 1 implies used.contains(#[trigger] stem(base, m)) by {
            if m == k {
                assert(used.contains(stem(base, k)));
            }
        }
        lemma_taken(used, base, n, (k + 1) as nat);
        lemma_some_is_free(used, base, n, (k + 1) as nat);
    } else {
        assert(is_next_free(used, base, n, k));
    }
}

/// No two slots share a log file.
pub proof fn law_log_files_are_distinct(list: Seq<Seq<char>>, i: int, j: int)
    requires
        0 <= i < j < list.len(),
    ensures
        log_file(list, i) != log_file(list, j),
{
    let before = stems_upto(list, j);
    lemma_stems_stay(list, i, j);
    lemma_stems_stay(list, i, j + 1);
    lemma_stems(list, j + 1);
    lemma_use_counts(list, list[j], j);
    lemma_some_is_free(before, list[j], use_of(list, j), use_of(list, j));
    let a = stems_upto(list, i + 1)[i];
    let b = stems_upto(list, j + 1)[j];
    assert(before[i] == a);
    assert(before.contains(a));
    assert(!before.contains(b));
    if log_file(list, i) == log_file(list, j) {
        assert(a =~= log_file(list, i).take(log_file(list, i).len() - ".log"@.len()));
        assert(b =~= log_file(list, j).take(log_file(list, j).len() - ".log"@.len()));
    }
}

/// A slot whose base no slot before it has, nor reads like, gets that base.
pub proof fn law_log_file_is_named_after_its_process(list: Seq<Seq<char>>, i: int)
    requires
        0 <= i < list.len(),
        !stems_upto(list, i).contains(list[i]),
        use_of(list, i) == 1,
    ensures
        log_file(list, i) == list[i] + ".log"@,
{
    lemma_stems(list, i);
    assert(stem(list[i], 1) == list[i]);
    lemma_next_free(stems_upto(list, i), list[i], 1, 1);
}

proof fn lemma_use_counts(list: Seq<Seq<char>>, base: Seq<char>, i: int)
    requires
        0 <= i < list.len(),
        list[i] == base,
    ensures
        occurrences(list, base, i + 1) >= 1,
{
}

proof fn lemma_log_file_starts_safe(models: Seq<ProcessModel>, i: int)
    requires
        0 <= i < models.len(),
    ensures
        log_file(bases(models), i).len() > 0,
        log_file(bases(models), i)[0] != '/',
{
    let list = bases(models);
    lemma_stems(list, i + 1);
    lemma_stems(list, i);
    law_sanitized_is_a_file_name(models[i].name);
    assert(is_safe(list[i][0]));
    let k = next_free(stems_upto(list, i), list[i], use_of(list, i));
    assert(stem(list[i], k)[0] == list[i][0]);
}

proof fn lemma_located_differ(dir: Seq<char>, a: Seq<char>, b: Seq<char>)
    requires
        a.len() > 0 && a[0] != '/',
        b.len() > 0 && b[0] != '/',
        a != b,
    ensures
        located(dir, a) != located(dir, b),
{
    if located(dir, a) == located(dir, b) {
        let all = located(dir, a);
        let front = if dir.len() == 0 || dir.last() == '/' {
            dir
        } else {
            dir + "/"@
        };
        assert(all == front + a && all == front + b);
        assert(a =~= all.skip(front.len() as int));
        assert(b =~= all.skip(front.len() as int));
    }
}

/// One log path per process, in the session's directory, and no two the same.
/// Processes whose names come to the same file name are numbered.
pub fn assign_log_paths(configs: &[ProcessConfig], session_dir: &str) -> (paths: Vec<
    Option<String>,
>)
    ensures
        paths@.len() == configs@.len(),
        forall|i: int|
            0 <= i < paths@.len() ==> (#[trigger] paths@[i] matches Some(path) && path@ == located(
                session_dir@,
                log_file(bases(process_models(configs@)), i),
            )),
        forall|i: int, j: int|
            0 <= i < paths@.len() && 0 <= j < paths@.len() && i != j ==> (
            #[trigger] paths@[i])->0@ != (#[trigger] paths@[j])->0@,
{
    let ghost models = process_models(configs@);
    let ghost list = bases(models);
    let mut names: Vec<String> = Vec::new();
    let mut used: Vec<String> = Vec::new();
    let mut paths: Vec<Option<String>> = Vec::new();
    let mut i: usize = 0;
    assert(texts(used@) =~= stems_upto(list, 0));
    while i < configs.len()
        invariant
            i <= configs@.len(),
            models == process_models(configs@),
            list == bases(models),
            names@.len() == i,
            forall|j: int| 0 <= j < i ==> (#[trigger] names@[j])@ == list[j],
            texts(used@) == stems_upto(list, i as int),
            paths@.len() == i,
            forall|j: int|
                0 <= j < i ==> (#[trigger] paths@[j] matches Some(path) && path@ == located(
                    session_dir@,
                    log_file(list, j),
                )),
        decreases configs@.len() - i,
    {
        let base = sanitize_name(configs[i].name.as_str());
        assert(base@ == list[i as int]);
        let mut n: usize = 0;
        let mut j: usize = 0;
        while j < i
            invariant
                j <= i,
                i < configs@.len(),
                names@.len() == i,
                forall|k: int| 0 <= k < i ==> (#[trigger] names@[k])@ == list[k],
                base@ == list[i as int],
                n <= j,
                n == occurrences(list, base@, j as int),
            decreases i - j,
        {
            if same_text(names[j].as_str(), base.as_str()) {
                n = n + 1;
            }
            j = j + 1;
        }
        n = n + 1;
        let stem = free_name(&used, &base, n);
        proof {
            lemma_stems(list, i as int);
        }
        let mut file = stem.clone();
        file.append(".log");
        assert(file@ == log_file(list, i as int));
        let ghost before = texts(used@);
        names.push(base);
        used.push(stem);
        assert(texts(used@) =~= before.push(stem@));
        paths.push(Some(locate(session_dir, file.as_str())));
        i = i + 1;
    }
    proof {
        assert forall|i: int, j: int|
            0 <= i < paths@.len() && 0 <= j < paths@.len() && i != j implies (
        #[trigger] paths@[i])->0@ != (#[trigger] paths@[j])->0@ by {
            if i < j {
                law_log_files_are_distinct(list, i, j);
            } else {
                law_log_files_are_distinct(list, j, i);
            }
            lemma_log_file_starts_safe(models, i);
            lemma_log_file_starts_safe(models, j);
            lemma_located_differ(session_dir@, log_file(list, i), log_file(list, j));
        }
    }
    paths
}

// ---- sessions ----

/// The directory name of a session.
pub open spec fn session_name(config_stem: Seq<char>, stamp: Seq<char>) -> Seq<char> {
    sanitized(config_stem) + "-"@ + stamp
}

/// The directory name of a session, from the name of its configuration and the
/// time at which it started.
pub fn session_dir_name(config_stem: &str, stamp: &str) -> (name: String)
    ensures
        name@ == session_name(config_stem@, stamp@),
{
    let mut name = sanitize_name(config_stem);
    name.append("-");
    name.append(stamp);
    name
}

/// The latest of some points in time.
pub open spec fn latest(first: u64, others: Seq<u64>) -> u64
    decreases others.len(),
{
    if others.len() == 0 {
        first
    } else {
        let before = latest(first, others.drop_last());
        if others.last() > before {
            others.last()
        } else {
            before
        }
    }
}

/// Whether a session is to be deleted: neither its directory nor a file in it
/// was changed within `max_age` up to now. Times are in one unit from one
/// starting point; a session from the future stays.
pub fn session_expired(now: u64, dir_time: u64, file_times: &[u64], max_age: u64) -> (yes: bool)
    ensures
        yes == (now - latest(dir_time, file_times@) > max_age),
{
    let mut newest: u64 = dir_time;
    let mut i: usize = 0;
    assert(file_times@.take(0) =~= Seq::<u64>::empty());
    while i < file_times.len()
        invariant
            i <= file_times@.len(),
            newest == latest(dir_time, file_times@.take(i as int)),
        decreases file_times@.len() - i,
    {
        assert(file_times@.take(i + 1).drop_last() =~= file_times@.take(i as int));
        if file_times[i] > newest {
            newest = file_times[i];
        }
        i = i + 1;
    }
    assert(file_times@.take(file_times@.len() as int) =~= file_times@);
    now >= newest && now - newest > max_age
}

/// A session that was touched within `max_age` is kept, whichever of its files
/// was touched.
pub proof fn law_touched_session_is_kept(
    now: u64,
    dir_time: u64,
    file_times: Seq<u64>,
    max_age: u64,
    i: int,
)
    requires
        0 <= i < file_times.len(),
        now - file_times[i] <= max_age || now - dir_time <= max_age,
    ensures
        now - latest(dir_time, file_times) <= max_age,
    decreases file_times.len(),
{
    lemma_latest(dir_time, file_times);
}

proof fn lemma_latest(first: u64, others: Seq<u64>)
    ensures
        latest(first, others) >= first,
        forall|i: int| 0 <= i < others.len() ==> latest(first, others) >= #[trigger] others[i],
    decreases others.len(),
{
    if others.len() > 0 {
        lemma_latest(first, others.drop_last());
        assert forall|i: int| 0 <= i < others.len() implies latest(first, others)
            >= #[trigger] others[i] by {
            if i < others.len() - 1 {
                assert(others.drop_last()[i] == others[i]);
            }
        }
    }
}

/// What marks the restart of a process in its log file.
pub open spec fn restart_marker(secs: nat) -> Seq<char> {
    "\n----- restarted at "@ + hms(secs) + " -----\n"@
}

/// What to append to a log file, before anything else, when its process is
/// started and the file is not empty.
pub fn restart_mark(file_len: u64, secs: u64) -> (mark: Option<String>)
    ensures
        match mark {
            Some(text) => file_len > 0 && text@ == restart_marker(secs as nat),
            None => file_len == 0,
        },
{
    if file_len == 0 {
        return None;
    }
    let mut text = "\n----- restarted at ".to_owned();
    text.append(now_hms(secs).as_str());
    text.append(" -----\n");
    Some(text)
}

// ---- plain text from a terminal's bytes ----

/// The bytes that end the line that a carriage return left open.
pub open spec fn line_break(pending: bool) -> Seq<u8> {
    if pending {
        seq![10u8]
    } else {
        Seq::empty()
    }
}

/// The text that events come to, from a state in which a carriage return may
/// be pending; and whether one is pending afterwards. A carriage return before
/// a line feed means nothing, any other ends a line.
pub open spec fn extracted(pending: bool, events: Seq<VtEvent>) -> (Seq<u8>, bool)
    decreases events.len(),
{
    if events.len() == 0 {
        (Seq::empty(), pending)
    } else {
        let (out, open) = extracted(pending, events.drop_last());
        match events.last() {
            VtEvent::Print(c) => (
                out + line_break(open) + vstd::utf8::encode_utf8(seq![c]),
                false,
            ),
            VtEvent::Execute(byte) => if byte == 10 {
                (out.push(10), false)
            } else if byte == 13 {
                (out + line_break(open), true)
            } else if byte == 9 {
                (out + line_break(open) + seq![9u8], false)
            } else {
                (out, open)
            },
        }
    }
}

/// Gathers the text that a terminal's bytes come to.
pub struct TextExtractor {
    pub out: Vec<u8>,
    pub pending_cr: bool,
}

impl TextExtractor {
    pub fn new() -> (extractor: TextExtractor)
        ensures
            extractor.out@ == Seq::<u8>::empty(),
            !extractor.pending_cr,
    {
        TextExtractor { out: Vec::new(), pending_cr: false }
    }

    /// End the line that a carriage return left open.
    pub fn resolve_cr(&mut self)
        ensures
            final(self).out@ == old(self).out@ + line_break(old(self).pending_cr),
            !final(self).pending_cr,
    {
        if self.pending_cr {
            self.out.push(10);
            self.pending_cr = false;
        }
        assert(self.out@ =~= old(self).out@ + line_break(old(self).pending_cr));
    }

    /// Show a character.
    pub fn print(&mut self, c: char)
        ensures
            final(self).out@ == old(self).out@ + line_break(old(self).pending_cr)
                + vstd::utf8::encode_utf8(seq![c]),
            !final(self).pending_cr,
    {
        self.resolve_cr();
        let ghost before = self.out@;
        let mut text = String::new();
        text.push(c);
        assert(text@ =~= seq![c]);
        let bytes = text.as_str().as_bytes();
        self.out.extend_from_slice(bytes);
        assert(self.out@ =~= before + bytes@);
    }

    /// Obey a control byte. Only line feeds, carriage returns and tabs leave a
    /// trace in the text.
    pub fn execute(&mut self, byte: u8)
        ensures
            (final(self).out@, final(self).pending_cr) == (if byte == 10 {
                (old(self).out@.push(10), false)
            } else if byte == 13 {
                (old(self).out@ + line_break(old(self).pending_cr), true)
            } else if byte == 9 {
                (old(self).out@ + line_break(old(self).pending_cr) + seq![9u8], false)
            } else {
                (old(self).out@, old(self).pending_cr)
            }),
    {
        if byte == 10 {
            self.pending_cr = false;
            self.out.push(10);
        } else if byte == 13 {
            self.resolve_cr();
            self.pending_cr = true;
        } else if byte == 9 {
            self.resolve_cr();
            let ghost before = self.out@;
            self.out.push(9);
            assert(self.out@ =~= before + seq![9u8]);
        }
    }

    /// Take events in, in order.
    pub fn take_in(&mut self, events: &Vec<VtEvent>)
        ensures
            final(self).out@ == old(self).out@ + extracted(old(self).pending_cr, events@).0,
            final(self).pending_cr == extracted(old(self).pending_cr, events@).1,
    {
        let ghost out0 = self.out@;
        let ghost pending0 = self.pending_cr;
        let mut i: usize = 0;
        assert(events@.take(0) =~= Seq::<VtEvent>::empty());
        assert(out0 + Seq::<u8>::empty() =~= out0);
        while i < events.len()
            invariant
                i <= events@.len(),
                self.out@ == out0 + extracted(pending0, events@.take(i as int)).0,
                self.pending_cr == extracted(pending0, events@.take(i as int)).1,
            decreases events@.len() - i,
        {
            let ghost now = events@.take(i + 1);
            let ghost before = self.out@;
            assert(now.drop_last() =~= events@.take(i as int));
            assert(now.last() == events@[i as int]);
            match &events[i] {
                VtEvent::Print(c) => self.print(*c),
                VtEvent::Execute(byte) => self.execute(*byte),
            }
            assert(self.out@ =~= out0 + extracted(pending0, now).0);
            i = i + 1;
        }
        assert(events@.take(events@.len() as int) =~= events@);
    }

    /// Hand out the text gathered so far.
    pub fn drain(&mut self) -> (text: Vec<u8>)
        ensures
            text@ == old(self).out@,
            final(self).out@ == Seq::<u8>::empty(),
            final(self).pending_cr == old(self).pending_cr,
    {
        let mut text: Vec<u8> = Vec::new();
        std::mem::swap(&mut text, &mut self.out);
        text
    }
}

/// Events in two parts come to the same text as all at once.
pub proof fn law_extracting_in_pieces(pending: bool, a: Seq<VtEvent>, b: Seq<VtEvent>)
    ensures
        extracted(pending, a + b).0 == extracted(pending, a).0 + extracted(
            extracted(pending, a).1,
            b,
        ).0,
        extracted(pending, a + b).1 == extracted(extracted(pending, a).1, b).1,
    decreases b.len(),
{
    if b.len() == 0 {
        assert(a + b =~= a);
        assert(extracted(pending, a).0 + Seq::<u8>::empty() =~= extracted(pending, a).0);
    } else {
        law_extracting_in_pieces(pending, a, b.drop_last());
        assert((a + b).drop_last() =~= a + b.drop_last());
        assert((a + b).last() == b.last());
        let first = extracted(pending, a).0;
        let second = extracted(extracted(pending, a).1, b.drop_last()).0;
        let open = extracted(pending, a + b.drop_last()).1;
        match b.last() {
            VtEvent::Print(c) => {
                let e = vstd::utf8::encode_utf8(seq![c]);
                assert(first + second + line_break(open) + e =~= first + (second + line_break(open)
                    + e));
            },
            VtEvent::Execute(byte) => {
                assert((first + second).push(10) =~= first + second.push(10));
                assert(first + second + line_break(open) =~= first + (second + line_break(open)));
                assert(first + second + line_break(open) + seq![9u8] =~= first + (second
                    + line_break(open) + seq![9u8]));
            },
        }
    }
}

/// Whether bytes hold no control bytes of ASCII but tabs and line feeds: above
/// all, nothing that starts an escape sequence.
pub open spec fn is_clean(bytes: Seq<u8>) -> bool {
    forall|i: int| 0 <= i < bytes.len() ==> (#[trigger] bytes[i] >= 0x20 || bytes[i] == 9 || bytes[i]
        == 10)
}

proof fn lemma_encoded_is_clean(c: char)
    requires
        c as u32 >= 0x20,
    ensures
        is_clean(vstd::utf8::encode_utf8(seq![c])),
{
    let v = c as u32;
    reveal_with_fuel(vstd::utf8::encode_utf8, 2);
    assert(seq![c].drop_first() =~= Seq::<char>::empty());
    assert(vstd::utf8::encode_utf8(seq![c]) =~= vstd::utf8::encode_scalar(v));
    assert(0x20 <= v <= 0x7f ==> (v & 0x7F) as u8 >= 0x20) by (bit_vector);
    assert(0xC0u8 | ((v >> 6) & 0x1F) as u8 >= 0x20) by (bit_vector);
    assert(0xE0u8 | ((v >> 12) & 0x0F) as u8 >= 0x20) by (bit_vector);
    assert(0xF0u8 | ((v >> 18) & 0x7) as u8 >= 0x20) by (bit_vector);
    assert(0x80u8 | (v & 0x3F) as u8 >= 0x20) by (bit_vector);
    assert(0x80u8 | ((v >> 6) & 0x3F) as u8 >= 0x20) by (bit_vector);
    assert(0x80u8 | ((v >> 12) & 0x3F) as u8 >= 0x20) by (bit_vector);
}

/// No escape sequence reaches the text, nor any other control byte but tabs and
/// line feeds.
pub proof fn law_extracted_is_clean(pending: bool, events: Seq<VtEvent>)
    requires
        shows_no_controls(events),
    ensures
        is_clean(extracted(pending, events).0),
    decreases events.len(),
{
    if events.len() > 0 {
        let init = events.drop_last();
        assert forall|i: int| 0 <= i < init.len() implies (#[trigger] init[i] matches VtEvent::Print(
            c,
        ) ==> c as u32 >= 0x20) by {
            assert(init[i] == events[i]);
        }
        law_extracted_is_clean(pending, init);
        if let VtEvent::Print(c) = events.last() {
            assert(events[events.len() - 1] == events.last());
            lemma_encoded_is_clean(c);
        }
    }
}

/// What a parser and a pending carriage return make of a chunk of output.
pub open spec fn chunk_text(parser: vte::Parser, pending: bool, bytes: Seq<u8>) -> Seq<u8> {
    extracted(pending, vt_events(parser, bytes)).0
}

/// Whether a carriage return is pending after a chunk.
pub open spec fn chunk_pending(parser: vte::Parser, pending: bool, bytes: Seq<u8>) -> bool {
    extracted(pending, vt_events(parser, bytes)).1
}

/// Output in two chunks comes to the same text as both at once, and what comes
/// afterwards does not tell them apart, wherever the parser can be cut.
pub proof fn law_chunks_come_to_the_same(
    parser: vte::Parser,
    pending: bool,
    a: Seq<u8>,
    b: Seq<u8>,
)
    requires
        vt_cut(parser, a, b),
    ensures
        chunk_text(parser, pending, a + b) == chunk_text(parser, pending, a) + chunk_text(
            vt_next(parser, a),
            chunk_pending(parser, pending, a),
            b,
        ),
        chunk_pending(parser, pending, a + b) == chunk_pending(
            vt_next(parser, a),
            chunk_pending(parser, pending, a),
            b,
        ),
{
    law_extracting_in_pieces(pending, vt_events(parser, a), vt_events(vt_next(parser, a), b));
}

proof fn lemma_encode_push(text: Seq<char>, c: char)
    ensures
        vstd::utf8::encode_utf8(text.push(c)) == vstd::utf8::encode_utf8(text)
            + vstd::utf8::encode_utf8(seq![c]),
    decreases text.len(),
{
    let whole = text.push(c);
    if text.len() == 0 {
        assert(whole =~= seq![c]);
        assert(vstd::utf8::encode_utf8(text) =~= Seq::<u8>::empty());
        assert(Seq::<u8>::empty() + vstd::utf8::encode_utf8(seq![c]) =~= vstd::utf8::encode_utf8(
            seq![c],
        ));
    } else {
        lemma_encode_push(text.drop_first(), c);
        assert(whole.drop_first() =~= text.drop_first().push(c));
        let first = vstd::utf8::encode_scalar(text[0] as u32);
        let rest = vstd::utf8::encode_utf8(text.drop_first());
        let last = vstd::utf8::encode_utf8(seq![c]);
        assert(first + (rest + last) =~= first + rest + last);
    }
}

/// Text that a log keeps as it is: line feeds, tabs, and everything that is no
/// control character.
pub open spec fn is_plain(text: Seq<char>) -> bool {
    forall|i: int|
        0 <= i < text.len() ==> (#[trigger] text[i] == '\n' || text[i] == '\t' || plain_event(
            text[i],
        ) is Print)
}

/// Plain text, seen by a terminal, comes to itself.
pub proof fn law_plain_text_is_kept(text: Seq<char>)
    requires
        is_plain(text),
    ensures
        extracted(false, plain_events(text)) == (vstd::utf8::encode_utf8(text), false),
    decreases text.len(),
{
    if text.len() == 0 {
        assert(plain_events(text) =~= Seq::<VtEvent>::empty());
    } else {
        let init = text.drop_last();
        let c = text.last();
        assert(c == text[text.len() - 1]);
        assert forall|i: int| 0 <= i < init.len() implies (#[trigger] init[i] == '\n' || init[i]
            == '\t' || plain_event(init[i]) is Print) by {
            assert(text[i] == init[i]);
        }
        law_plain_text_is_kept(init);
        lemma_encode_push(init, c);
        assert(init.push(c) =~= text);
        assert(plain_events(text).drop_last() =~= plain_events(init));
        assert(plain_events(text).last() == plain_event(c));
        let out = vstd::utf8::encode_utf8(init);
        if c == '\n' || c == '\t' {
            vstd::utf8::is_ascii_chars_encode_utf8(seq![c]);
            assert(vstd::utf8::encode_utf8(seq![c]) =~= seq![(c as u8)]);
            assert(out.push(10) =~= out + seq![10u8]);
        }
        assert(out + Seq::<u8>::empty() =~= out);
    }
}

// ---- the log of one process ----

/// Turns the bytes that a process writes to its terminal into the text of its
/// log file. The file itself is the caller's: what is returned is to be
/// appended to it.
pub struct AnsiLogWriter {
    parser: vte::Parser,
    extractor: TextExtractor,
    enabled: bool,
}

impl AnsiLogWriter {
    /// The state of the terminal parser.
    pub closed spec fn parser(self) -> vte::Parser {
        self.parser
    }

    /// Whether a carriage return is pending.
    pub closed spec fn pending(self) -> bool {
        self.extractor.pending_cr
    }

    /// Whether the log is still written.
    pub closed spec fn enabled(self) -> bool {
        self.enabled
    }

    /// Nothing is kept from one chunk to the next but the state of the parser
    /// and a pending carriage return.
    #[verifier::type_invariant]
    spec fn drained(self) -> bool {
        self.extractor.out@.len() == 0
    }

    pub fn new() -> (writer: AnsiLogWriter)
        ensures
            writer.enabled(),
            !writer.pending(),
            vt_fresh(writer.parser()),
            forall|other: vte::Parser| #[trigger] vt_fresh(other) ==> other == writer.parser(),
            vt_ground(writer.parser()),
            vt_whole(writer.parser()),
    {
        AnsiLogWriter { parser: vt_parser(), extractor: TextExtractor::new(), enabled: true }
    }

    /// What a chunk of output adds to the log.
    pub fn write_chunk(&mut self, bytes: &[u8]) -> (text: Vec<u8>)
        ensures
            final(self).enabled() == old(self).enabled(),
            old(self).enabled() ==> {
                let events = vt_events(old(self).parser(), bytes@);
                &&& text@ == chunk_text(old(self).parser(), old(self).pending(), bytes@)
                &&& final(self).pending() == chunk_pending(
                    old(self).parser(),
                    old(self).pending(),
                    bytes@,
                )
                &&& final(self).parser() == vt_next(old(self).parser(), bytes@)
                &&& is_clean(text@)
                &&& vt_whole(old(self).parser()) && vstd::utf8::valid_utf8(bytes@) ==> vt_whole(
                    final(self).parser(),
                )
                &&& bytes@.len() > 0 && bytes@.last() < 0x80 ==> vt_whole(final(self).parser())
                &&& vt_whole(old(self).parser()) ==> forall|k: int|
                    0 <= k <= bytes@.len() && (vt_whole(
                        vt_next(old(self).parser(), #[trigger] bytes@.take(k)),
                    ) || !vt_torn(bytes@.take(k), bytes@.skip(k))) ==> vt_cut(
                        old(self).parser(),
                        bytes@.take(k),
                        bytes@.skip(k),
                    )
                &&& vt_ground(old(self).parser()) && vstd::utf8::valid_utf8(bytes@) && no_escape(
                    bytes@,
                ) ==> vt_ground(final(self).parser()) && events == plain_events(
                    vstd::utf8::decode_utf8(bytes@),
                )
            },
            !old(self).enabled() ==> text@.len() == 0 && final(self).pending() == old(
                self,
            ).pending() && final(self).parser() == old(self).parser(),
    {
        if !self.enabled {
            return Vec::new();
        }
        proof {
            use_type_invariant(&*self);
        }
        let mut parser = vt_parser();
        std::mem::swap(&mut parser, &mut self.parser);
        let events = vt_advance(&mut parser, bytes);
        self.parser = parser;
        proof {
            law_extracted_is_clean(self.pending(), events@);
            assert forall|k: int| 0 <= k <= bytes@.len() implies #[trigger] bytes@.take(k)
                + bytes@.skip(k) == bytes@ by {
                assert(bytes@.take(k) + bytes@.skip(k) =~= bytes@);
            }
        }
        let mut extractor = TextExtractor::new();
        std::mem::swap(&mut extractor, &mut self.extractor);
        extractor.take_in(&events);
        let text = extractor.drain();
        self.extractor = extractor;
        assert(Seq::<u8>::empty() + extracted(old(self).pending(), events@).0 =~= extracted(
            old(self).pending(),
            events@,
        ).0);
        text
    }

    /// What the end of the output adds to the log: the end of a line that a
    /// carriage return left open.
    pub fn flush(&mut self) -> (text: Vec<u8>)
        ensures
            final(self).enabled() == old(self).enabled(),
            !final(self).pending(),
            final(self).parser() == old(self).parser(),
            text@ == (if old(self).enabled() {
                line_break(old(self).pending())
            } else {
                Seq::empty()
            }),
    {
        proof {
            use_type_invariant(&*self);
        }
        let mut extractor = TextExtractor::new();
        std::mem::swap(&mut extractor, &mut self.extractor);
        extractor.resolve_cr();
        let text = extractor.drain();
        self.extractor = extractor;
        assert(text@ =~= line_break(old(self).pending()));
        if self.enabled {
            text
        } else {
            Vec::new()
        }
    }

    /// Stop logging, after a write has failed.
    pub fn disable(&mut self)
        ensures
            !final(self).enabled(),
            final(self).pending() == old(self).pending(),
            final(self).parser() == old(self).parser(),
    {
        proof {
            use_type_invariant(&*self);
        }
        self.enabled = false;
    }
}

// ---- what names and logs keep ----

/// A name becomes a file name character by character: ASCII letters, digits,
/// dots, underscores and dashes stay, and anything else becomes an underscore.
/// No more than a hundred characters are used.
pub proof fn law_names_keep_their_safe_characters(name: Seq<char>)
    requires
        name.len() > 0,
        name[0] != '.',
    ensures
        sanitized(name) == Seq::new(
            (if name.len() > 100 {
                100
            } else {
                name.len()
            }),
            |i: int|
                if 'a' <= name[i] <= 'z' || 'A' <= name[i] <= 'Z' || '0' <= name[i] <= '9'
                    || name[i] == '.' || name[i] == '_' || name[i] == '-' {
                    name[i]
                } else {
                    '_'
                },
        ),
{
    let mapped = name.map_values(|c: char| safe_char(c));
    assert(mapped[0] != '.');
    assert(undotted(mapped) == mapped);
    assert(sanitized(name) =~= Seq::new(
        (if name.len() > 100 {
            100
        } else {
            name.len()
        }),
        |i: int|
            if 'a' <= name[i] <= 'z' || 'A' <= name[i] <= 'Z' || '0' <= name[i] <= '9' || name[i]
                == '.' || name[i] == '_' || name[i] == '-' {
                name[i]
            } else {
                '_'
            },
    ));
}

/// Dots in front of a name are left out, and what leaves nothing is called
/// `process`.
pub proof fn law_dots_in_front_are_left_out(name: Seq<char>)
    ensures
        sanitized(seq!['.'] + name) == sanitized(name),
        sanitized(Seq::empty()) == "process"@,
{
    let dotted = (seq!['.'] + name).map_values(|c: char| safe_char(c));
    assert(dotted.skip(1) =~= name.map_values(|c: char| safe_char(c)));
    assert(Seq::<char>::empty().map_values(|c: char| safe_char(c)) =~= Seq::empty());
}

/// A log file is named after its process: the name, a number where one is
/// needed, and the ending.
pub proof fn law_log_file_starts_with_the_name(list: Seq<Seq<char>>, i: int) -> (n: nat)
    requires
        0 <= i < list.len(),
    ensures
        1 <= n,
        log_file(list, i) == (if n == 1 {
            list[i] + ".log"@
        } else {
            list[i] + "-"@ + decimal(n) + ".log"@
        }),
        n >= use_of(list, i),
{
    lemma_stems(list, i);
    lemma_use_counts(list, list[i], i);
    lemma_some_is_free(stems_upto(list, i), list[i], use_of(list, i), use_of(list, i));
    next_free(stems_upto(list, i), list[i], use_of(list, i))
}

/// Where nothing else stands in the way, the `n`th process of a name gets the
/// number `n`.
pub proof fn law_same_names_are_numbered(list: Seq<Seq<char>>, i: int)
    requires
        0 <= i < list.len(),
        use_of(list, i) > 1,
        !stems_upto(list, i).contains(list[i] + "-"@ + decimal(use_of(list, i))),
    ensures
        log_file(list, i) == list[i] + "-"@ + decimal(use_of(list, i)) + ".log"@,
{
    lemma_stems(list, i);
    lemma_next_free(stems_upto(list, i), list[i], use_of(list, i), use_of(list, i));
}

/// The number that a process has among those of its name counts the ones before
/// it, and itself.
pub proof fn law_uses_are_counted(list: Seq<Seq<char>>, base: Seq<char>, n: int)
    requires
        0 <= n < list.len(),
    ensures
        occurrences(list, base, 0) == 0,
        occurrences(list, base, n + 1) == occurrences(list, base, n) + (if list[n] == base {
            1int
        } else {
            0
        }),
        use_of(list, n) == occurrences(list, list[n], n) + 1,
{
}

/// The latest of some points in time is one of them, and none is later.
pub proof fn law_latest_is_the_latest(first: u64, others: Seq<u64>)
    ensures
        latest(first, others) == first || others.contains(latest(first, others)),
        latest(first, others) >= first,
        forall|i: int| 0 <= i < others.len() ==> latest(first, others) >= #[trigger] others[i],
    decreases others.len(),
{
    lemma_latest(first, others);
    if others.len() > 0 {
        law_latest_is_the_latest(first, others.drop_last());
        let before = latest(first, others.drop_last());
        if others.last() > before {
            assert(others[others.len() - 1] == latest(first, others));
        } else if others.drop_last().contains(before) {
            let i = others.drop_last().index_of(before);
            assert(others[i] == before);
        }
    }
}

/// A session is named after its configuration and its time.
pub proof fn law_sessions_are_named(config: Seq<char>, stamp: Seq<char>)
    ensures
        session_name(config, stamp) == sanitized(config).push('-') + stamp,
{
    reveal_strlit("-");
    assert(session_name(config, stamp) =~= sanitized(config).push('-') + stamp);
}

/// What one event adds to a log: a character that is shown is written, after the
/// end of the line where a carriage return was pending; a line feed ends the
/// line once; a tab stays; a carriage return waits; and nothing else leaves a
/// trace.
pub proof fn law_events_are_written(pending: bool, c: char, byte: u8)
    ensures
        extracted(pending, seq![VtEvent::Print(c)]) == ((if pending {
            seq![10u8]
        } else {
            Seq::empty()
        }) + vstd::utf8::encode_utf8(seq![c]), false),
        byte == 10 ==> extracted(pending, seq![VtEvent::Execute(byte)]) == (seq![10u8], false),
        byte == 13 ==> extracted(pending, seq![VtEvent::Execute(byte)]) == (if pending {
            seq![10u8]
        } else {
            Seq::empty()
        }, true),
        byte == 9 ==> extracted(pending, seq![VtEvent::Execute(byte)]) == (if pending {
            seq![10u8, 9u8]
        } else {
            seq![9u8]
        }, false),
        byte != 10 && byte != 13 && byte != 9 ==> extracted(
            pending,
            seq![VtEvent::Execute(byte)],
        ) == (Seq::<u8>::empty(), pending),
{
    let p = seq![VtEvent::Print(c)];
    let e = seq![VtEvent::Execute(byte)];
    assert(p.drop_last() =~= Seq::<VtEvent>::empty());
    assert(e.drop_last() =~= Seq::<VtEvent>::empty());
    let none = Seq::<u8>::empty();
    assert(extracted(pending, Seq::<VtEvent>::empty()) == (none, pending));
    assert(extracted(pending, p).0 =~= (if pending {
        seq![10u8]
    } else {
        Seq::empty()
    }) + vstd::utf8::encode_utf8(seq![c]));
    if byte == 10 {
        assert(extracted(pending, e).0 =~= seq![10u8]);
    } else if byte == 13 {
        assert(extracted(pending, e).0 =~= if pending {
            seq![10u8]
        } else {
            Seq::empty()
        });
    } else if byte == 9 {
        assert(extracted(pending, e).0 =~= if pending {
            seq![10u8, 9u8]
        } else {
            seq![9u8]
        });
    }
}

/// A restart is marked in the log with the time of day.
pub proof fn law_restarts_are_marked(secs: nat)
    ensures
        restart_marker(secs) == "\n----- restarted at "@ + hms(secs) + " -----\n"@,
{
}

} // verus!
