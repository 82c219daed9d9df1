//! The environment of a child process, and the order in which its sources
//! override one another.

use vstd::prelude::*;

use crate::text::{comes_before, same_text};
#[allow(unused_imports)]
use crate::text::{lemma_text_before_total, lemma_text_before_transitive, text_before};

verus! {

/// What a list of assignments means: of two assignments to one name the later
/// one counts.
pub open spec fn assigned(pairs: Seq<(String, String)>) -> Map<Seq<char>, Seq<char>>
    decreases pairs.len(),
{
    if pairs.len() == 0 {
        Map::empty()
    } else {
        assigned(pairs.drop_last()).insert(pairs.last().0@, pairs.last().1@)
    }
}

/// Whether no name is assigned twice.
pub open spec fn distinct_names(pairs: Seq<(String, String)>) -> bool {
    forall|i: int, j: int|
        0 <= i < j < pairs.len() ==> #[trigger] pairs[i].0@ != #[trigger] pairs[j].0@
}

/// Variables by name. Viewed as a map from names to values.
pub struct Env {
    entries: Vec<(String, String)>,
}

impl View for Env {
    type V = Map<Seq<char>, Seq<char>>;

    closed spec fn view(&self) -> Map<Seq<char>, Seq<char>> {
        assigned(self.entries@)
    }
}

proof fn lemma_assigned_contains(pairs: Seq<(String, String)>, key: Seq<char>)
    ensures
        assigned(pairs).contains_key(key) <==> exists|i: int|
            0 <= i < pairs.len() && #[trigger] pairs[i].0@ == key,
    decreases pairs.len(),
{
    if pairs.len() > 0 {
        let init = pairs.drop_last();
        lemma_assigned_contains(init, key);
        if pairs.last().0@ == key {
            assert(pairs[pairs.len() - 1].0@ == key);
        }
        if exists|i: int| 0 <= i < init.len() && #[trigger] init[i].0@ == key {
            let i = choose|i: int| 0 <= i < init.len() && #[trigger] init[i].0@ == key;
            assert(pairs[i].0@ == key);
        }
        if exists|i: int| 0 <= i < pairs.len() && #[trigger] pairs[i].0@ == key {
            let i = choose|i: int| 0 <= i < pairs.len() && #[trigger] pairs[i].0@ == key;
            if i < init.len() {
                assert(init[i].0@ == key);
            }
        }
    }
}

proof fn lemma_assigned_at(pairs: Seq<(String, String)>, i: int)
    requires
        distinct_names(pairs),
        0 <= i < pairs.len(),
    ensures
        assigned(pairs).contains_key(pairs[i].0@),
        assigned(pairs)[pairs[i].0@] == pairs[i].1@,
    decreases pairs.len(),
{
    if i < pairs.len() - 1 {
        lemma_assigned_at(pairs.drop_last(), i);
    }
}

proof fn lemma_assigned_update(pairs: Seq<(String, String)>, i: int, pair: (String, String))
    requires
        distinct_names(pairs),
        0 <= i < pairs.len(),
        pair.0@ == pairs[i].0@,
    ensures
        assigned(pairs.update(i, pair)) == assigned(pairs).insert(pair.0@, pair.1@),
    decreases pairs.len(),
{
    let last = pairs.len() - 1;
    if i == last {
        assert(pairs.update(i, pair).drop_last() =~= pairs.drop_last());
        assert(assigned(pairs.update(i, pair)) =~= assigned(pairs).insert(pair.0@, pair.1@));
    } else {
        lemma_assigned_update(pairs.drop_last(), i, pair);
        assert(pairs.update(i, pair).drop_last() =~= pairs.drop_last().update(i, pair));
        assert(pairs[last].0@ != pairs[i].0@);
        assert(assigned(pairs.update(i, pair)) =~= assigned(pairs).insert(pair.0@, pair.1@));
    }
}

proof fn lemma_assigned_len(pairs: Seq<(String, String)>)
    requires
        distinct_names(pairs),
    ensures
        assigned(pairs).dom().finite(),
        assigned(pairs).dom().len() == pairs.len(),
    decreases pairs.len(),
{
    if pairs.len() > 0 {
        let init = pairs.drop_last();
        lemma_assigned_len(init);
        lemma_assigned_contains(init, pairs.last().0@);
        assert forall|i: int| 0 <= i < init.len() implies #[trigger] init[i].0@
            != pairs.last().0@ by {
            assert(pairs[i].0@ != pairs[pairs.len() - 1].0@);
        }
        assert(assigned(pairs).dom() =~= assigned(init).dom().insert(pairs.last().0@));
    } else {
        assert(assigned(pairs).dom() =~= Set::empty());
    }
}

impl Clone for Env {
    fn clone(&self) -> (copy: Env)
        ensures
            copy@ == self@,
    {
        let mut copy = Env::new();
        copy.extend_env(self);
        assert(copy@ =~= self@);
        copy
    }
}

impl Env {
    #[verifier::type_invariant]
    spec fn names_are_distinct(self) -> bool {
        distinct_names(self.entries@)
    }

    /// An environment without variables.
    pub fn new() -> (env: Env)
        ensures
            env@ == Map::<Seq<char>, Seq<char>>::empty(),
    {
        Env { entries: Vec::new() }
    }

    /// The number of variables.
    pub fn len(&self) -> (n: usize)
        ensures
            self@.dom().finite(),
            n == self@.dom().len(),
    {
        proof {
            use_type_invariant(self);
            lemma_assigned_len(self.entries@);
        }
        self.entries.len()
    }

    fn position(&self, name: &str) -> (at: Option<usize>)
        ensures
            match at {
                Some(i) => i < self.entries@.len() && self.entries@[i as int].0@ == name@,
                None => forall|i: int|
                    0 <= i < self.entries@.len() ==> #[trigger] self.entries@[i].0@ != name@,
            },
    {
        let mut i: usize = 0;
        while i < self.entries.len()
            invariant
                i <= self.entries@.len(),
                forall|j: int| 0 <= j < i ==> #[trigger] self.entries@[j].0@ != name@,
            decreases self.entries@.len() - i,
        {
            if same_text(self.entries[i].0.as_str(), name) {
                return Some(i);
            }
            i = i + 1;
        }
        None
    }

    /// The value of a variable, where it is set.
    pub fn get(&self, name: &str) -> (value: Option<&String>)
        ensures
            value is Some <==> self@.contains_key(name@),
            value matches Some(v) ==> v@ == self@[name@],
    {
        proof {
            use_type_invariant(self);
            lemma_assigned_contains(self.entries@, name@);
        }
        match self.position(name) {
            Some(i) => {
                proof {
                    lemma_assigned_at(self.entries@, i as int);
                }
                Some(&self.entries[i].1)
            },
            None => None,
        }
    }

    /// Set a variable, over any value that it had.
    pub fn insert(&mut self, name: &str, value: &str)
        ensures
            final(self)@ == old(self)@.insert(name@, value@),
    {
        proof {
            use_type_invariant(&*self);
        }
        let at = self.position(name);
        let mut entries: Vec<(String, String)> = Vec::new();
        std::mem::swap(&mut entries, &mut self.entries);
        let pair = (name.to_owned(), value.to_owned());
        let ghost before = entries@;
        match at {
            Some(i) => {
                proof {
                    lemma_assigned_update(before, i as int, pair);
                }
                entries.set(i, pair);
            },
            None => {
                assert(before.push(pair).drop_last() =~= before);
                entries.push(pair);
            },
        }
        self.entries = entries;
    }

    /// Set every variable of a list, in order.
    pub fn extend(&mut self, pairs: &[(String, String)])
        ensures
            final(self)@ == old(self)@.union_prefer_right(assigned(pairs@)),
    {
        let ghost before = self@;
        let mut i: usize = 0;
        assert(pairs@.take(0) =~= Seq::<(String, String)>::empty());
        assert(before.union_prefer_right(assigned(pairs@.take(0))) =~= before);
        while i < pairs.len()
            invariant
                i <= pairs@.len(),
                self@ == before.union_prefer_right(assigned(pairs@.take(i as int))),
            decreases pairs@.len() - i,
        {
            let ghost so_far = pairs@.take(i as int);
            let ghost now = pairs@.take(i + 1);
            self.insert(pairs[i].0.as_str(), pairs[i].1.as_str());
            assert(now.drop_last() =~= so_far);
            assert(self@ =~= before.union_prefer_right(assigned(now)));
            i = i + 1;
        }
        assert(pairs@.take(pairs@.len() as int) =~= pairs@);
    }

    /// Set every variable of another environment.
    pub fn extend_env(&mut self, other: &Env)
        ensures
            final(self)@ == old(self)@.union_prefer_right(other@),
    {
        self.extend(&other.entries)
    }

    /// The variables in the order of their names.
    pub fn sorted(&self) -> (pairs: Vec<(String, String)>)
        ensures
            assigned(pairs@) == self@,
            in_name_order(pairs@),
            lists(listing(self@), self@),
            pair_texts(pairs@) == listing(self@),
    {
        proof {
            use_type_invariant(self);
            assert(self.entries@.take(0) =~= Seq::<(String, String)>::empty());
        }
        let mut pairs: Vec<(String, String)> = Vec::new();
        let mut i: usize = 0;
        while i < self.entries.len()
            invariant
                i <= self.entries@.len(),
                distinct_names(self.entries@),
                in_name_order(pairs@),
                assigned(pairs@) == assigned(self.entries@.take(i as int)),
            decreases self.entries@.len() - i,
        {
            let ghost so_far = self.entries@.take(i as int);
            let ghost now = self.entries@.take(i + 1);
            let ghost key = self.entries@[i as int].0@;
            proof {
                assert(now.drop_last() =~= so_far);
                lemma_assigned_contains(so_far, key);
                lemma_assigned_contains(pairs@, key);
                assert forall|j: int| 0 <= j < so_far.len() implies #[trigger] so_far[j].0@
                    != key by {
                    assert(self.entries@[j].0@ != self.entries@[i as int].0@);
                }
            }
            let pair = (self.entries[i].0.clone(), self.entries[i].1.clone());
            insert_in_order(&mut pairs, pair);
            i = i + 1;
        }
        assert(self.entries@.take(self.entries@.len() as int) =~= self.entries@);
        proof {
            lemma_listing(pairs@);
        }
        pairs
    }
}

/// A list of assignments as texts.
pub open spec fn pair_texts(pairs: Seq<(String, String)>) -> Seq<(Seq<char>, Seq<char>)> {
    Seq::new(pairs.len(), |i: int| (pairs[i].0@, pairs[i].1@))
}

/// Whether a list holds just the variables of an environment, in the order of
/// their names.
pub open spec fn lists(list: Seq<(Seq<char>, Seq<char>)>, env: Map<Seq<char>, Seq<char>>) -> bool {
    &&& forall|i: int, j: int|
        0 <= i < j < list.len() ==> text_before((#[trigger] list[i]).0, (#[trigger] list[j]).0)
    &&& forall|i: int|
        0 <= i < list.len() ==> env.contains_key((#[trigger] list[i]).0) && env[list[i].0]
            == list[i].1
    &&& forall|k: Seq<char>| #[trigger]
        env.contains_key(k) ==> exists|i: int| 0 <= i < list.len() && (#[trigger] list[i]).0 == k
}

/// The variables of an environment in the order of their names.
pub open spec fn listing(env: Map<Seq<char>, Seq<char>>) -> Seq<(Seq<char>, Seq<char>)> {
    choose|list: Seq<(Seq<char>, Seq<char>)>| lists(list, env)
}

/// There is only one list of the variables in the order of their names.
pub proof fn law_listing_is_unique(
    a: Seq<(Seq<char>, Seq<char>)>,
    b: Seq<(Seq<char>, Seq<char>)>,
    env: Map<Seq<char>, Seq<char>>,
)
    requires
        lists(a, env),
        lists(b, env),
    ensures
        a == b,
    decreases a.len(),
{
    if a.len() == 0 {
        if b.len() > 0 {
            assert(env.contains_key(b[0].0));
        }
        assert(a =~= b);
    } else {
        let x = a.last().0;
        assert(env.contains_key(a[a.len() - 1].0));
        let j = choose|j: int| 0 <= j < b.len() && (#[trigger] b[j]).0 == x;
        let y = b.last().0;
        assert(env.contains_key(b[b.len() - 1].0));
        let i = choose|i: int| 0 <= i < a.len() && (#[trigger] a[i]).0 == y;
        if x != y {
            assert(text_before(b[j].0, b[b.len() - 1].0));
            assert(text_before(a[i].0, a[a.len() - 1].0));
            lemma_text_before_transitive(x, y, x);
            crate::text::lemma_text_before_irreflexive(x);
        }
        lemma_list_without_last(a, env);
        lemma_list_without_last(b, env);
        law_listing_is_unique(a.drop_last(), b.drop_last(), env.remove(x));
        assert(a =~= a.drop_last().push(a.last()));
        assert(b =~= b.drop_last().push(b.last()));
    }
}

proof fn lemma_list_without_last(
    list: Seq<(Seq<char>, Seq<char>)>,
    env: Map<Seq<char>, Seq<char>>,
)
    requires
        lists(list, env),
        list.len() > 0,
    ensures
        lists(list.drop_last(), env.remove(list.last().0)),
{
    let init = list.drop_last();
    let rest = env.remove(list.last().0);
    assert forall|i: int| 0 <= i < init.len() implies rest.contains_key((#[trigger] init[i]).0)
        && rest[init[i].0] == init[i].1 by {
        assert(init[i] == list[i]);
        assert(text_before(list[i].0, list[list.len() - 1].0));
        crate::text::lemma_text_before_irreflexive(list[i].0);
    }
    assert forall|k: Seq<char>| #[trigger] rest.contains_key(k) implies exists|i: int|
        0 <= i < init.len() && (#[trigger] init[i]).0 == k by {
        assert(env.contains_key(k));
        let i = choose|i: int| 0 <= i < list.len() && (#[trigger] list[i]).0 == k;
        assert(init[i].0 == k);
    }
}

pub(crate) proof fn lemma_listing(pairs: Seq<(String, String)>)
    requires
        in_name_order(pairs),
    ensures
        lists(pair_texts(pairs), assigned(pairs)),
        pair_texts(pairs) == listing(assigned(pairs)),
{
    let env = assigned(pairs);
    let list = pair_texts(pairs);
    lemma_order_is_distinct(pairs);
    assert forall|i: int, j: int| 0 <= i < j < list.len() implies text_before(
        (#[trigger] list[i]).0,
        (#[trigger] list[j]).0,
    ) by {
        assert(text_before(pairs[i].0@, pairs[j].0@));
    }
    assert forall|i: int| 0 <= i < list.len() implies env.contains_key((#[trigger] list[i]).0)
        && env[list[i].0] == list[i].1 by {
        lemma_assigned_at(pairs, i);
    }
    assert forall|k: Seq<char>| #[trigger] env.contains_key(k) implies exists|i: int|
        0 <= i < list.len() && (#[trigger] list[i]).0 == k by {
        lemma_assigned_contains(pairs, k);
        let i = choose|i: int| 0 <= i < pairs.len() && #[trigger] pairs[i].0@ == k;
        assert(list[i].0 == k);
    }
    assert(lists(list, env));
    law_listing_is_unique(list, listing(env), env);
}

/// Whether a list is in the strict order of its names.
pub open spec fn in_name_order(pairs: Seq<(String, String)>) -> bool {
    forall|i: int, j: int|
        0 <= i < j < pairs.len() ==> text_before(#[trigger] pairs[i].0@, #[trigger] pairs[j].0@)
}

proof fn lemma_order_is_distinct(pairs: Seq<(String, String)>)
    requires
        in_name_order(pairs),
    ensures
        distinct_names(pairs),
{
    assert forall|i: int, j: int| 0 <= i < j < pairs.len() implies #[trigger] pairs[i].0@
        != #[trigger] pairs[j].0@ by {
        crate::text::lemma_text_before_irreflexive(pairs[i].0@);
    }
}

proof fn lemma_assigned_insert(pairs: Seq<(String, String)>, at: int, pair: (String, String))
    requires
        0 <= at <= pairs.len(),
        forall|j: int| 0 <= j < pairs.len() ==> #[trigger] pairs[j].0@ != pair.0@,
    ensures
        assigned(pairs.insert(at, pair)) == assigned(pairs).insert(pair.0@, pair.1@),
    decreases pairs.len(),
{
    let put = pairs.insert(at, pair);
    if at == pairs.len() {
        assert(put.drop_last() =~= pairs);
    } else {
        let init = pairs.drop_last();
        assert(put.drop_last() =~= init.insert(at, pair));
        assert forall|j: int| 0 <= j < init.len() implies #[trigger] init[j].0@ != pair.0@ by {
            assert(pairs[j].0@ != pair.0@);
        }
        lemma_assigned_insert(init, at, pair);
        assert(put.last() == pairs.last());
        assert(pairs[pairs.len() - 1].0@ != pair.0@);
        assert(assigned(put) =~= assigned(pairs).insert(pair.0@, pair.1@));
    }
}

fn insert_in_order(pairs: &mut Vec<(String, String)>, pair: (String, String))
    requires
        in_name_order(old(pairs)@),
        !assigned(old(pairs)@).contains_key(pair.0@),
    ensures
        in_name_order(final(pairs)@),
        assigned(final(pairs)@) == assigned(old(pairs)@).insert(pair.0@, pair.1@),
{
    let ghost before = pairs@;
    proof {
        lemma_assigned_contains(before, pair.0@);
    }
    let mut at: usize = 0;
    while at < pairs.len() && comes_before(pairs[at].0.as_str(), pair.0.as_str())
        invariant
            at <= pairs@.len(),
            pairs@ == before,
            forall|j: int| 0 <= j < at ==> text_before(#[trigger] before[j].0@, pair.0@),
        decreases pairs@.len() - at,
    {
        at = at + 1;
    }
    proof {
        lemma_assigned_insert(before, at as int, pair);
        if at < before.len() {
            lemma_text_before_total(before[at as int].0@, pair.0@);
        }
        assert forall|j: int| at <= j < before.len() implies text_before(
            pair.0@,
            #[trigger] before[j].0@,
        ) by {
            if j > at {
                lemma_text_before_transitive(pair.0@, before[at as int].0@, before[j].0@);
            }
        }
        let put = before.insert(at as int, pair);
        assert forall|i: int, j: int| 0 <= i < j < put.len() implies text_before(
            #[trigger] put[i].0@,
            #[trigger] put[j].0@,
        ) by {
            if i < at && j > at {
                assert(text_before(before[i].0@, before[j - 1].0@));
            } else if i > at {
                assert(text_before(before[i - 1].0@, before[j - 1].0@));
            } else if i == at {
                assert(text_before(pair.0@, before[j - 1].0@));
            } else if j == at {
                assert(text_before(before[i].0@, pair.0@));
            } else {
                assert(text_before(before[i].0@, before[j].0@));
            }
        }
    }
    pairs.insert(at, pair);
}

// ---- merging the sources ----

/// What came of reading one env file: its assignments in order, or why it
/// could not be read.
pub enum FileVars {
    Loaded(Vec<(String, String)>),
    Failed(String),
}

impl FileVars {
    /// What the file assigns.
    pub open spec fn vars(self) -> Map<Seq<char>, Seq<char>> {
        match self {
            FileVars::Loaded(pairs) => assigned(pairs@),
            FileVars::Failed(_) => Map::empty(),
        }
    }
}

/// Everything that a process's environment is read from, apart from its
/// configuration.
pub struct EnvSources {
    /// The orchestrator's own environment.
    pub orchestrator: Vec<(String, String)>,
    /// The env files that all processes share, in order.
    pub global_files: Vec<FileVars>,
    /// `.env` in the working directory, where there is one.
    pub dotenv: Option<FileVars>,
    /// The process's own env files, in order.
    pub env_files: Vec<FileVars>,
}

impl EnvSources {
    /// The files in the order in which they are read.
    pub open spec fn files(self) -> Seq<FileVars> {
        self.global_files@ + self.dotenv_files() + self.env_files@
    }

    /// `.env` as a list of at most one file.
    pub open spec fn dotenv_files(self) -> Seq<FileVars> {
        match self.dotenv {
            Some(file) => seq![file],
            None => Seq::empty(),
        }
    }
}

/// What the first unreadable file of a list says, where there is one.
pub open spec fn failure_of(files: Seq<FileVars>) -> Option<Seq<char>>
    decreases files.len(),
{
    if files.len() == 0 {
        None
    } else {
        match failure_of(files.drop_last()) {
            Some(why) => Some(why),
            None => match files.last() {
                FileVars::Loaded(_) => None,
                FileVars::Failed(why) => Some(why@),
            },
        }
    }
}

/// A list of files read one after the other over `base`.
pub open spec fn overlaid(
    base: Map<Seq<char>, Seq<char>>,
    files: Seq<FileVars>,
) -> Map<Seq<char>, Seq<char>>
    decreases files.len(),
{
    if files.len() == 0 {
        base
    } else {
        overlaid(base, files.drop_last()).union_prefer_right(files.last().vars())
    }
}

/// The environment of a process. Later sources win: the orchestrator's own
/// environment, the shared files, `.env`, the process's files, the `env` block
/// of its configuration, and at last the dynamic ports.
pub open spec fn merged_env(
    sources: EnvSources,
    json_env: Map<Seq<char>, Seq<char>>,
    dynamic_ports: Map<Seq<char>, Seq<char>>,
) -> Map<Seq<char>, Seq<char>> {
    overlaid(assigned(sources.orchestrator@), sources.files()).union_prefer_right(
        json_env,
    ).union_prefer_right(dynamic_ports)
}

fn overlay(env: &mut Env, files: &[FileVars]) -> (failure: Option<String>)
    ensures
        match failure {
            None => failure_of(files@) is None && final(env)@ == overlaid(old(env)@, files@),
            Some(why) => failure_of(files@) == Some(why@),
        },
{
    let ghost before = env@;
    let mut i: usize = 0;
    assert(files@.take(0) =~= Seq::<FileVars>::empty());
    while i < files.len()
        invariant
            i <= files@.len(),
            failure_of(files@.take(i as int)) is None,
            env@ == overlaid(before, files@.take(i as int)),
        decreases files@.len() - i,
    {
        let ghost now = files@.take(i + 1);
        assert(now.drop_last() =~= files@.take(i as int));
        assert(now.last() == files@[i as int]);
        match &files[i] {
            FileVars::Loaded(pairs) => {
                env.extend(pairs);
            },
            FileVars::Failed(why) => {
                proof {
                    lemma_failure_split(now, files@.skip(i + 1));
                    assert(now + files@.skip(i + 1) =~= files@);
                }
                return Some(why.clone());
            },
        }
        i = i + 1;
    }
    assert(files@.take(files@.len() as int) =~= files@);
    None
}

proof fn lemma_overlaid_split(base: Map<Seq<char>, Seq<char>>, a: Seq<FileVars>, b: Seq<FileVars>)
    ensures
        overlaid(base, a + b) == overlaid(overlaid(base, a), b),
    decreases b.len(),
{
    if b.len() == 0 {
        assert(a + b =~= a);
    } else {
        assert((a + b).drop_last() =~= a + b.drop_last());
        lemma_overlaid_split(base, a, b.drop_last());
    }
}

proof fn lemma_failure_split(a: Seq<FileVars>, b: Seq<FileVars>)
    ensures
        failure_of(a + b) == match failure_of(a) {
            Some(why) => Some(why),
            None => failure_of(b),
        },
    decreases b.len(),
{
    if b.len() == 0 {
        assert(a + b =~= a);
    } else {
        assert((a + b).drop_last() =~= a + b.drop_last());
        lemma_failure_split(a, b.drop_last());
    }
}

/// Merge the sources of a process's environment. Fails where an env file could
/// not be read, with what the first such file says.
pub fn build_env(sources: &EnvSources, json_env: &Env, dynamic_ports: &Env) -> (res: Result<
    Env,
    String,
>)
    ensures
        match res {
            Ok(env) => failure_of(sources.files()) is None && env@ == merged_env(
                *sources,
                json_env@,
                dynamic_ports@,
            ),
            Err(why) => failure_of(sources.files()) == Some(why@),
        },
{
    let ghost a = sources.global_files@;
    let ghost b = sources.dotenv_files();
    let ghost c = sources.env_files@;
    let ghost none = Seq::<FileVars>::empty();
    let mut env = Env::new();
    env.extend(&sources.orchestrator);
    let ghost base = env@;
    proof {
        assert(base =~= assigned(sources.orchestrator@));
        lemma_failure_split(a, b);
        lemma_failure_split(a + b, c);
        lemma_overlaid_split(base, a, b);
        lemma_overlaid_split(base, a + b, c);
    }
    let failure = overlay(&mut env, &sources.global_files);
    if let Some(why) = failure {
        return Err(why);
    }
    match &sources.dotenv {
        Some(file) => {
            proof {
                assert(b.drop_last() =~= none);
                assert(failure_of(none) is None);
                assert(overlaid(overlaid(base, a), none) == overlaid(base, a));
            }
            match file {
                FileVars::Loaded(pairs) => {
                    env.extend(pairs);
                },
                FileVars::Failed(why) => {
                    return Err(why.clone());
                },
            }
        },
        None => {},
    }
    let failure = overlay(&mut env, &sources.env_files);
    if let Some(why) = failure {
        return Err(why);
    }
    env.extend_env(json_env);
    env.extend_env(dynamic_ports);
    Ok(env)
}

// ---- what overrides what ----

/// A dynamic port beats every other source of its variable.
pub proof fn law_dynamic_ports_win(
    sources: EnvSources,
    json_env: Map<Seq<char>, Seq<char>>,
    dynamic_ports: Map<Seq<char>, Seq<char>>,
    name: Seq<char>,
)
    requires
        dynamic_ports.contains_key(name),
    ensures
        merged_env(sources, json_env, dynamic_ports).contains_key(name),
        merged_env(sources, json_env, dynamic_ports)[name] == dynamic_ports[name],
{
}

/// The `env` block of the configuration beats every file and the orchestrator.
pub proof fn law_env_block_beats_files(
    sources: EnvSources,
    json_env: Map<Seq<char>, Seq<char>>,
    dynamic_ports: Map<Seq<char>, Seq<char>>,
    name: Seq<char>,
)
    requires
        json_env.contains_key(name),
        !dynamic_ports.contains_key(name),
    ensures
        merged_env(sources, json_env, dynamic_ports).contains_key(name),
        merged_env(sources, json_env, dynamic_ports)[name] == json_env[name],
{
}

proof fn lemma_overlaid_last_wins(
    base: Map<Seq<char>, Seq<char>>,
    files: Seq<FileVars>,
    k: int,
    name: Seq<char>,
)
    requires
        0 <= k < files.len(),
        files[k].vars().contains_key(name),
        forall|j: int| k < j < files.len() ==> !(#[trigger] files[j]).vars().contains_key(name),
    ensures
        overlaid(base, files).contains_key(name),
        overlaid(base, files)[name] == files[k].vars()[name],
    decreases files.len(),
{
    if k < files.len() - 1 {
        assert(!files[files.len() - 1].vars().contains_key(name));
        lemma_overlaid_last_wins(base, files.drop_last(), k, name);
    }
}

/// Of the files, the last one that sets a variable decides it, unless the
/// configuration or a dynamic port sets it too. The shared files come first,
/// then `.env`, then the process's own files.
pub proof fn law_later_files_win(
    sources: EnvSources,
    json_env: Map<Seq<char>, Seq<char>>,
    dynamic_ports: Map<Seq<char>, Seq<char>>,
    k: int,
    name: Seq<char>,
)
    requires
        0 <= k < sources.files().len(),
        sources.files()[k].vars().contains_key(name),
        forall|j: int|
            k < j < sources.files().len() ==> !(#[trigger] sources.files()[j]).vars().contains_key(
                name,
            ),
        !json_env.contains_key(name),
        !dynamic_ports.contains_key(name),
    ensures
        merged_env(sources, json_env, dynamic_ports).contains_key(name),
        merged_env(sources, json_env, dynamic_ports)[name] == sources.files()[k].vars()[name],
{
    lemma_overlaid_last_wins(assigned(sources.orchestrator@), sources.files(), k, name);
}

proof fn lemma_overlaid_untouched(
    base: Map<Seq<char>, Seq<char>>,
    files: Seq<FileVars>,
    name: Seq<char>,
)
    requires
        forall|j: int| 0 <= j < files.len() ==> !(#[trigger] files[j]).vars().contains_key(name),
    ensures
        overlaid(base, files).contains_key(name) == base.contains_key(name),
        base.contains_key(name) ==> overlaid(base, files)[name] == base[name],
    decreases files.len(),
{
    if files.len() > 0 {
        assert(!files[files.len() - 1].vars().contains_key(name));
        lemma_overlaid_untouched(base, files.drop_last(), name);
    }
}

/// A variable that no file, no configuration and no dynamic port sets comes
/// from the orchestrator's environment unchanged.
pub proof fn law_orchestrator_env_propagates(
    sources: EnvSources,
    json_env: Map<Seq<char>, Seq<char>>,
    dynamic_ports: Map<Seq<char>, Seq<char>>,
    name: Seq<char>,
)
    requires
        forall|j: int|
            0 <= j < sources.files().len() ==> !(#[trigger] sources.files()[j]).vars().contains_key(
                name,
            ),
        !json_env.contains_key(name),
        !dynamic_ports.contains_key(name),
    ensures
        merged_env(sources, json_env, dynamic_ports).contains_key(name) == assigned(
            sources.orchestrator@,
        ).contains_key(name),
        assigned(sources.orchestrator@).contains_key(name) ==> merged_env(
            sources,
            json_env,
            dynamic_ports,
        )[name] == assigned(sources.orchestrator@)[name],
{
    lemma_overlaid_untouched(assigned(sources.orchestrator@), sources.files(), name);
}

/// Of the assignments to a name the last one counts, and a name is set exactly
/// where one assigns it.
pub proof fn law_last_assignment_counts(pairs: Seq<(String, String)>, name: Seq<char>)
    ensures
        assigned(pairs).contains_key(name) <==> exists|i: int|
            0 <= i < pairs.len() && #[trigger] pairs[i].0@ == name,
        forall|i: int|
            0 <= i < pairs.len() && #[trigger] pairs[i].0@ == name && (forall|j: int|
                i < j < pairs.len() ==> #[trigger] pairs[j].0@ != name) ==> assigned(pairs)[name]
                == pairs[i].1@,
    decreases pairs.len(),
{
    lemma_assigned_contains(pairs, name);
    if pairs.len() > 0 {
        let init = pairs.drop_last();
        law_last_assignment_counts(init, name);
        assert forall|i: int|
            0 <= i < pairs.len() && #[trigger] pairs[i].0@ == name && (forall|j: int|
                i < j < pairs.len() ==> #[trigger] pairs[j].0@ != name) implies assigned(
            pairs,
        )[name] == pairs[i].1@ by {
            if i < pairs.len() - 1 {
                assert(pairs[pairs.len() - 1].0@ != name);
                assert(init[i].0@ == name);
                assert forall|j: int| i < j < init.len() implies #[trigger] init[j].0@ != name by {
                    assert(pairs[j].0@ != name);
                }
            }
        }
    }
}

/// Reading env files goes wrong exactly where one of them cannot be read, and
/// then with what the first such file says.
pub proof fn law_first_unreadable_file_is_named(files: Seq<FileVars>)
    ensures
        failure_of(files) is None <==> forall|i: int|
            0 <= i < files.len() ==> #[trigger] files[i] is Loaded,
        forall|i: int|
            0 <= i < files.len() && #[trigger] files[i] is Failed && (forall|j: int|
                0 <= j < i ==> #[trigger] files[j] is Loaded) ==> failure_of(files) == Some(
                files[i]->Failed_0@,
            ),
    decreases files.len(),
{
    if files.len() > 0 {
        let init = files.drop_last();
        law_first_unreadable_file_is_named(init);
        assert forall|i: int| 0 <= i < init.len() implies #[trigger] init[i] == files[i] by {}
        if failure_of(files) is None {
            assert forall|i: int| 0 <= i < files.len() implies #[trigger] files[i] is Loaded by {
                if i < init.len() {
                    assert(init[i] is Loaded);
                }
            }
        }
        if forall|i: int| 0 <= i < files.len() ==> #[trigger] files[i] is Loaded {
            assert forall|i: int| 0 <= i < init.len() implies #[trigger] init[i] is Loaded by {
                assert(files[i] is Loaded);
            }
            assert(files[files.len() - 1] is Loaded);
        }
        assert forall|i: int|
            0 <= i < files.len() && #[trigger] files[i] is Failed && (forall|j: int|
                0 <= j < i ==> #[trigger] files[j] is Loaded) implies failure_of(files) == Some(
            files[i]->Failed_0@,
        ) by {
            if i < init.len() {
                assert(init[i] is Failed);
                assert forall|j: int| 0 <= j < i implies #[trigger] init[j] is Loaded by {
                    assert(files[j] is Loaded);
                }
            } else {
                assert forall|j: int| 0 <= j < init.len() implies #[trigger] init[j] is Loaded by {
                    assert(files[j] is Loaded);
                }
            }
        }
    }
}

/// What a file that could be read sets is what it assigns, and one that could
/// not be read sets nothing.
pub proof fn law_files_set_what_they_assign(pairs: Vec<(String, String)>, why: String)
    ensures
        FileVars::Loaded(pairs).vars() == assigned(pairs@),
        FileVars::Failed(why).vars() == Map::<Seq<char>, Seq<char>>::empty(),
{
}

/// A file of the process beats `.env`, the shared files and the orchestrator;
/// of the process's files the last one that sets the variable counts.
pub proof fn law_own_files_beat_the_others(
    sources: EnvSources,
    json_env: Map<Seq<char>, Seq<char>>,
    dynamic_ports: Map<Seq<char>, Seq<char>>,
    k: int,
    name: Seq<char>,
)
    requires
        0 <= k < sources.env_files@.len(),
        sources.env_files@[k].vars().contains_key(name),
        forall|j: int|
            k < j < sources.env_files@.len() ==> !(#[trigger] sources.env_files@[j]).vars().contains_key(
                name,
            ),
        !json_env.contains_key(name),
        !dynamic_ports.contains_key(name),
    ensures
        merged_env(sources, json_env, dynamic_ports).contains_key(name),
        merged_env(sources, json_env, dynamic_ports)[name] == sources.env_files@[k].vars()[name],
{
    let lead = (sources.global_files@ + sources.dotenv_files()).len();
    let files = sources.files();
    assert(files[lead + k] == sources.env_files@[k]);
    assert forall|j: int| lead + k < j < files.len() implies !(#[trigger] files[j]).vars().contains_key(
        name,
    ) by {
        assert(files[j] == sources.env_files@[j - lead]);
    }
    law_later_files_win(sources, json_env, dynamic_ports, lead + k, name);
}

/// `.env` in the working directory beats the shared files and the orchestrator.
pub proof fn law_dotenv_beats_shared_files(
    sources: EnvSources,
    json_env: Map<Seq<char>, Seq<char>>,
    dynamic_ports: Map<Seq<char>, Seq<char>>,
    name: Seq<char>,
)
    requires
        sources.dotenv is Some,
        sources.dotenv->0.vars().contains_key(name),
        forall|j: int|
            0 <= j < sources.env_files@.len() ==> !(#[trigger] sources.env_files@[j]).vars().contains_key(
                name,
            ),
        !json_env.contains_key(name),
        !dynamic_ports.contains_key(name),
    ensures
        merged_env(sources, json_env, dynamic_ports).contains_key(name),
        merged_env(sources, json_env, dynamic_ports)[name] == sources.dotenv->0.vars()[name],
{
    let at = sources.global_files@.len() as int;
    let files = sources.files();
    assert(files[at] == sources.dotenv->0);
    assert forall|j: int| at < j < files.len() implies !(#[trigger] files[j]).vars().contains_key(
        name,
    ) by {
        assert(files[j] == sources.env_files@[j - at - 1]);
    }
    law_later_files_win(sources, json_env, dynamic_ports, at, name);
}

/// A shared file beats the orchestrator; of the shared files the last one that
/// sets the variable counts.
pub proof fn law_shared_files_beat_the_orchestrator(
    sources: EnvSources,
    json_env: Map<Seq<char>, Seq<char>>,
    dynamic_ports: Map<Seq<char>, Seq<char>>,
    k: int,
    name: Seq<char>,
)
    requires
        0 <= k < sources.global_files@.len(),
        sources.global_files@[k].vars().contains_key(name),
        forall|j: int|
            k < j < sources.global_files@.len() ==> !(
            #[trigger] sources.global_files@[j]).vars().contains_key(name),
        sources.dotenv is None || !sources.dotenv->0.vars().contains_key(name),
        forall|j: int|
            0 <= j < sources.env_files@.len() ==> !(#[trigger] sources.env_files@[j]).vars().contains_key(
                name,
            ),
        !json_env.contains_key(name),
        !dynamic_ports.contains_key(name),
    ensures
        merged_env(sources, json_env, dynamic_ports).contains_key(name),
        merged_env(sources, json_env, dynamic_ports)[name] == sources.global_files@[k].vars()[name],
{
    let files = sources.files();
    let shared = sources.global_files@.len();
    let lead = (sources.global_files@ + sources.dotenv_files()).len();
    assert(files[k] == sources.global_files@[k]);
    assert forall|j: int| k < j < files.len() implies !(#[trigger] files[j]).vars().contains_key(
        name,
    ) by {
        if j < shared {
            assert(files[j] == sources.global_files@[j]);
        } else if j < lead {
            assert(files[j] == sources.dotenv->0);
        } else {
            assert(files[j] == sources.env_files@[j - lead]);
        }
    }
    law_later_files_win(sources, json_env, dynamic_ports, k, name);
}

/// A variable that none of the six sources sets is not set.
pub proof fn law_nothing_else_is_set(
    sources: EnvSources,
    json_env: Map<Seq<char>, Seq<char>>,
    dynamic_ports: Map<Seq<char>, Seq<char>>,
    name: Seq<char>,
)
    requires
        merged_env(sources, json_env, dynamic_ports).contains_key(name),
    ensures
        dynamic_ports.contains_key(name) || json_env.contains_key(name) || (exists|j: int|
            0 <= j < sources.env_files@.len() && (
            #[trigger] sources.env_files@[j]).vars().contains_key(name)) || (sources.dotenv is Some
            && sources.dotenv->0.vars().contains_key(name)) || (exists|j: int|
            0 <= j < sources.global_files@.len() && (
            #[trigger] sources.global_files@[j]).vars().contains_key(name)) || assigned(
            sources.orchestrator@,
        ).contains_key(name),
{
    let files = sources.files();
    let shared = sources.global_files@.len();
    let lead = (sources.global_files@ + sources.dotenv_files()).len();
    if exists|j: int| 0 <= j < files.len() && (#[trigger] files[j]).vars().contains_key(name) {
        let j = choose|j: int| 0 <= j < files.len() && (#[trigger] files[j]).vars().contains_key(name);
        if j < shared {
            assert(files[j] == sources.global_files@[j]);
        } else if j < lead {
            assert(files[j] == sources.dotenv->0);
        } else {
            assert(files[j] == sources.env_files@[j - lead]);
        }
    } else {
        lemma_overlaid_untouched(assigned(sources.orchestrator@), files, name);
    }
}

} // verus!
