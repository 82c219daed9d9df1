//! Ports for the names under `dynamicPorts`, kept in a file beside the
//! configuration so that later runs get the same ones.

use vstd::prelude::*;
use vstd::string::StringExecFns;

use crate::env::Env;
use crate::template::is_strict_ident;
#[allow(unused_imports)]
use crate::template::strict_ident;
#[allow(unused_imports)]
use crate::text::{decimal, quoted, texts};
use crate::text::{decimal_text, quote, same_text};

verus! {

/// The file that holds the allocated ports.
pub const STORE_FILE: &'static str = ".rumor-ports.json";

// ---- names ----

/// The message for a name that no environment variable can have.
pub open spec fn bad_name_text(i: int, name: Seq<char>) -> Seq<char> {
    "dynamicPorts["@ + decimal(i as nat) + "]: "@ + quoted(name)
        + " is not a valid env var name (expected [A-Za-z_][A-Za-z0-9_]*)"@
}

/// The message for a name that is listed twice.
pub open spec fn duplicate_name_text(name: Seq<char>) -> Seq<char> {
    "dynamicPorts: duplicate entry: "@ + name
}

/// What is wrong with the first `n` names, if anything: the first that is no
/// name or was listed before.
pub open spec fn names_problem(names: Seq<Seq<char>>, n: int) -> Option<Seq<char>>
    decreases n,
{
    if n <= 0 {
        None
    } else {
        match names_problem(names, n - 1) {
            Some(text) => Some(text),
            None => {
                let name = names[n - 1];
                if !strict_ident(name) {
                    Some(bad_name_text(n - 1, name))
                } else if names.take(n - 1).contains(name) {
                    Some(duplicate_name_text(name))
                } else {
                    None
                }
            },
        }
    }
}

proof fn lemma_names_problem_sticks(names: Seq<Seq<char>>, n: int, m: int)
    requires
        0 <= n <= m,
        names_problem(names, n) is Some,
    ensures
        names_problem(names, m) == names_problem(names, n),
    decreases m,
{
    if n < m {
        lemma_names_problem_sticks(names, n, m - 1);
    }
}

/// Check that each name can be an environment variable and is listed once.
pub fn validate_names(names: &[String]) -> (res: Result<(), String>)
    ensures
        match res {
            Ok(_) => names_problem(texts(names@), names@.len() as int) is None,
            Err(text) => names_problem(texts(names@), names@.len() as int) == Some(text@),
        },
{
    let ghost all = texts(names@);
    let mut i: usize = 0;
    while i < names.len()
        invariant
            i <= names@.len(),
            all == texts(names@),
            names_problem(all, i as int) is None,
        decreases names@.len() - i,
    {
        assert(all[i as int] == names@[i as int]@);
        if !is_strict_ident(names[i].as_str()) {
            let mut text = "dynamicPorts[".to_owned();
            text.append(decimal_text(i as u128).as_str());
            text.append("]: ");
            text.append(quote(names[i].as_str()).as_str());
            text.append(" is not a valid env var name (expected [A-Za-z_][A-Za-z0-9_]*)");
            proof {
                lemma_names_problem_sticks(all, i + 1, names@.len() as int);
            }
            return Err(text);
        }
        let mut j: usize = 0;
        while j < i
            invariant
                j <= i < names@.len(),
                all == texts(names@),
                names_problem(all, i as int) is None,
                strict_ident(all[i as int]),
                forall|k: int| 0 <= k < j ==> #[trigger] all[k] != all[i as int],
            decreases i - j,
        {
            if same_text(names[j].as_str(), names[i].as_str()) {
                let mut text = "dynamicPorts: duplicate entry: ".to_owned();
                text.append(names[i].as_str());
                proof {
                    assert(all.take(i as int)[j as int] == all[i as int]);
                    assert(names_problem(all, i + 1) == Some(text@));
                    lemma_names_problem_sticks(all, i + 1, names@.len() as int);
                }
                return Err(text);
            }
            j = j + 1;
        }
        assert(!all.take(i as int).contains(all[i as int])) by {
            if all.take(i as int).contains(all[i as int]) {
                let k = choose|k: int| 0 <= k < i && all.take(i as int)[k] == all[i as int];
                assert(all[k] == all[i as int]);
            }
        }
        i = i + 1;
    }
    Ok(())
}

/// Names that pass are all names, no two of them alike.
pub proof fn law_valid_names_are_distinct(names: Seq<Seq<char>>, n: int)
    requires
        0 <= n <= names.len(),
        names_problem(names, n) is None,
    ensures
        forall|i: int| 0 <= i < n ==> strict_ident(#[trigger] names[i]),
        forall|i: int, j: int| 0 <= i < j < n ==> #[trigger] names[i] != #[trigger] names[j],
    decreases n,
{
    if n > 0 {
        law_valid_names_are_distinct(names, n - 1);
        assert forall|i: int, j: int| 0 <= i < j < n implies #[trigger] names[i]
            != #[trigger] names[j] by {
            if j == n - 1 {
                assert(names.take(n - 1)[i] == names[i]);
            }
        }
    }
}

// ---- the store ----

/// What a list of entries holds; of two entries for one name the later counts.
pub open spec fn port_map(entries: Seq<(String, u16)>) -> Map<Seq<char>, u16>
    decreases entries.len(),
{
    if entries.len() == 0 {
        Map::empty()
    } else {
        port_map(entries.drop_last()).insert(entries.last().0@, entries.last().1)
    }
}

/// Whether no name occurs twice.
pub open spec fn distinct_names(entries: Seq<(String, u16)>) -> bool {
    forall|i: int, j: int|
        0 <= i < j < entries.len() ==> #[trigger] entries[i].0@ != #[trigger] entries[j].0@
}

proof fn lemma_port_map_update(entries: Seq<(String, u16)>, i: int, entry: (String, u16))
    requires
        distinct_names(entries),
        0 <= i < entries.len(),
        entry.0@ == entries[i].0@,
    ensures
        port_map(entries.update(i, entry)) == port_map(entries).insert(entry.0@, entry.1),
    decreases entries.len(),
{
    let last = entries.len() - 1;
    if i == last {
        assert(entries.update(i, entry).drop_last() =~= entries.drop_last());
    } else {
        lemma_port_map_update(entries.drop_last(), i, entry);
        assert(entries.update(i, entry).drop_last() =~= entries.drop_last().update(i, entry));
        assert(entries[last].0@ != entries[i].0@);
    }
    assert(port_map(entries.update(i, entry)) =~= port_map(entries).insert(entry.0@, entry.1));
}

/// The allocated ports by name.
pub struct PortStore {
    entries: Vec<(String, u16)>,
}

impl View for PortStore {
    type V = Map<Seq<char>, u16>;

    closed spec fn view(&self) -> Map<Seq<char>, u16> {
        port_map(self.entries@)
    }
}

impl PortStore {
    #[verifier::type_invariant]
    spec fn names_are_distinct(self) -> bool {
        distinct_names(self.entries@)
    }

    pub fn new() -> (store: PortStore)
        ensures
            store@ == Map::<Seq<char>, u16>::empty(),
    {
        PortStore { entries: Vec::new() }
    }

    /// The port of a name, where one is stored.
    pub fn get(&self, name: &str) -> (port: Option<u16>)
        ensures
            port == if self@.contains_key(name@) {
                Some(self@[name@])
            } else {
                None
            },
    {
        let mut i: usize = self.entries.len();
        assert(self.entries@.take(i as int) =~= self.entries@);
        while i > 0
            invariant
                i <= self.entries@.len(),
                self@.contains_key(name@) == port_map(self.entries@.take(i as int)).contains_key(
                    name@,
                ),
                self@.contains_key(name@) ==> self@[name@] == port_map(
                    self.entries@.take(i as int),
                )[name@],
            decreases i,
        {
            assert(self.entries@.take(i as int).drop_last() =~= self.entries@.take(i - 1));
            if same_text(self.entries[i - 1].0.as_str(), name) {
                return Some(self.entries[i - 1].1);
            }
            i = i - 1;
        }
        None
    }

    /// Store the port of a name.
    pub fn insert(&mut self, name: &str, port: u16)
        ensures
            final(self)@ == old(self)@.insert(name@, port),
    {
        proof {
            use_type_invariant(&*self);
        }
        let mut entries: Vec<(String, u16)> = Vec::new();
        std::mem::swap(&mut entries, &mut self.entries);
        let ghost before = entries@;
        let mut i: usize = 0;
        while i < entries.len() && !same_text(entries[i].0.as_str(), name)
            invariant
                i <= entries@.len(),
                forall|j: int| 0 <= j < i ==> #[trigger] entries@[j].0@ != name@,
            decreases entries@.len() - i,
        {
            i = i + 1;
        }
        let entry = (name.to_owned(), port);
        if i < entries.len() {
            proof {
                lemma_port_map_update(before, i as int, entry);
            }
            entries.set(i, entry);
        } else {
            assert(before.push(entry).drop_last() =~= before);
            entries.push(entry);
        }
        self.entries = entries;
    }
}

// ---- the store as a file ----

/// What `serde_json` reads from bytes as a JSON object: for each key its value
/// where that is a whole number from 0 to `u64::MAX`. `None` where the bytes
/// are no JSON object.
pub uninterp spec fn json_object(bytes: Seq<u8>) -> Option<Map<Seq<char>, Option<u64>>>;

/// The bytes that `serde_json` writes for a store.
pub uninterp spec fn store_json(ports: Map<Seq<char>, u16>) -> Seq<u8>;

/// What a list of entries of a JSON object holds.
pub open spec fn object_of(entries: Seq<(String, Option<u64>)>) -> Map<Seq<char>, Option<u64>>
    decreases entries.len(),
{
    if entries.len() == 0 {
        Map::empty()
    } else {
        object_of(entries.drop_last()).insert(entries.last().0@, entries.last().1)
    }
}

/// A store as an object of numbers.
pub open spec fn as_object(ports: Map<Seq<char>, u16>) -> Map<Seq<char>, Option<u64>> {
    Map::new(|k: Seq<char>| ports.contains_key(k), |k: Seq<char>| Some(ports[k] as u64))
}

/// `serde_json::from_slice` into a `serde_json::Map`, with
/// `serde_json::Value::as_u64` on each value. The contract names what was read,
/// which depends on the bytes alone, and says that no key is handed out twice.
#[verifier::external_body]
fn parse_object(bytes: &[u8]) -> (entries: Option<Vec<(String, Option<u64>)>>)
    ensures
        match entries {
            Some(list) => json_object(bytes@) == Some(object_of(list@)) && distinct_keys(list@),
            None => json_object(bytes@) is None,
        },
{
    match serde_json::from_slice::<serde_json::Map<String, serde_json::Value>>(bytes) {
        Ok(map) => Some(map.into_iter().map(|(k, v)| (k, v.as_u64())).collect()),
        Err(_) => None,
    }
}

/// `serde_json::to_vec_pretty` on a `BTreeMap` of the entries, none of them for
/// the same name. The contract names the bytes, which depend on the map alone,
/// and says that reading them back, with a line feed after them, gives the same
/// names and numbers.
#[verifier::external_body]
fn write_object(entries: &[(String, u16)]) -> (bytes: Vec<u8>)
    requires
        distinct_names(entries@),
    ensures
        bytes@ == store_json(port_map(entries@)),
        json_object(bytes@.push(10)) == Some(as_object(port_map(entries@))),
{
    let map: std::collections::BTreeMap<&String, u16> =
        entries.iter().map(|(k, p)| (k, *p)).collect();
    serde_json::to_vec_pretty(&map).expect("a map of numbers can be written")
}

/// The entries of an object that are ports.
pub open spec fn valid_ports(object: Map<Seq<char>, Option<u64>>) -> Map<Seq<char>, u16> {
    Map::new(
        |k: Seq<char>|
            object.contains_key(k) && (object[k] matches Some(p) && 1 <= p && p <= 65535),
        |k: Seq<char>| object[k]->0 as u16,
    )
}

/// What a store file says: nothing where it is missing or no JSON object.
pub open spec fn stored(file: Option<Seq<u8>>) -> Map<Seq<char>, u16> {
    match file {
        None => Map::empty(),
        Some(bytes) => match json_object(bytes) {
            None => Map::empty(),
            Some(object) => valid_ports(object),
        },
    }
}

/// Whether no key occurs twice.
pub open spec fn distinct_keys(entries: Seq<(String, Option<u64>)>) -> bool {
    forall|i: int, j: int|
        0 <= i < j < entries.len() ==> #[trigger] entries[i].0@ != #[trigger] entries[j].0@
}

proof fn lemma_object_keys(entries: Seq<(String, Option<u64>)>, key: Seq<char>)
    requires
        forall|i: int| 0 <= i < entries.len() ==> #[trigger] entries[i].0@ != key,
    ensures
        !object_of(entries).contains_key(key),
    decreases entries.len(),
{
    if entries.len() > 0 {
        assert(entries[entries.len() - 1].0@ != key);
        assert forall|i: int| 0 <= i < entries.drop_last().len() implies #[trigger] entries.drop_last()[i].0@
            != key by {
            assert(entries[i].0@ != key);
        }
        lemma_object_keys(entries.drop_last(), key);
    }
}

/// Pick the ports among the entries of an object: whole numbers from 1 to
/// 65535. What is no port is dropped.
pub fn keep_ports(entries: &Vec<(String, Option<u64>)>) -> (store: PortStore)
    requires
        distinct_keys(entries@),
    ensures
        store@ == valid_ports(object_of(entries@)),
{
    let mut store = PortStore::new();
    let mut i: usize = 0;
    assert(entries@.take(0) =~= Seq::<(String, Option<u64>)>::empty());
    assert(store@ =~= valid_ports(object_of(entries@.take(0))));
    while i < entries.len()
        invariant
            i <= entries@.len(),
            distinct_keys(entries@),
            store@ == valid_ports(object_of(entries@.take(i as int))),
        decreases entries@.len() - i,
    {
        let ghost before = entries@.take(i as int);
        let ghost now = entries@.take(i + 1);
        let ghost key = entries@[i as int].0@;
        proof {
            assert(now.drop_last() =~= before);
            assert(now.last() == entries@[i as int]);
            assert forall|j: int| 0 <= j < before.len() implies #[trigger] before[j].0@ != key by {
                assert(entries@[j].0@ != entries@[i as int].0@);
            }
            lemma_object_keys(before, key);
        }
        if let Some(p) = entries[i].1 {
            if 1 <= p && p <= 65535 {
                store.insert(entries[i].0.as_str(), p as u16);
            }
        }
        assert(store@ =~= valid_ports(object_of(now)));
        i = i + 1;
    }
    assert(entries@.take(entries@.len() as int) =~= entries@);
    store
}

/// Read the bytes of a store file, where there is one. What cannot be read is
/// as good as missing.
pub fn read_store(file: Option<&Vec<u8>>) -> (store: PortStore)
    ensures
        store@ == stored(match file {
            Some(bytes) => Some(bytes@),
            None => None,
        }),
{
    match file {
        None => PortStore::new(),
        Some(bytes) => match parse_object(bytes) {
            None => PortStore::new(),
            Some(entries) => keep_ports(&entries),
        },
    }
}

/// The bytes of a store file.
pub open spec fn store_bytes(ports: Map<Seq<char>, u16>) -> Seq<u8> {
    store_json(ports).push(10)
}

/// Whether no port in a store is 0.
pub open spec fn real_ports(ports: Map<Seq<char>, u16>) -> bool {
    forall|k: Seq<char>| #[trigger] ports.contains_key(k) ==> ports[k] >= 1
}

/// The file to write for a store. Reading it gives the store again, where no
/// port in it is 0.
pub fn write_store(store: &PortStore) -> (bytes: Vec<u8>)
    ensures
        bytes@ == store_bytes(store@),
        real_ports(store@) ==> stored(Some(bytes@)) == store@,
{
    proof {
        use_type_invariant(store);
    }
    let mut bytes = write_object(&store.entries);
    bytes.push(10);
    proof {
        let object = as_object(store@);
        if real_ports(store@) {
            assert(valid_ports(object) =~= store@);
        }
    }
    bytes
}

// ---- allocating ----

/// The first `n` names' share of the names that have no port yet, in order.
pub open spec fn missing(names: Seq<Seq<char>>, ports: Map<Seq<char>, u16>, n: int) -> Seq<
    Seq<char>,
>
    decreases n,
{
    if n <= 0 {
        Seq::empty()
    } else if ports.contains_key(names[n - 1]) {
        missing(names, ports, n - 1)
    } else {
        missing(names, ports, n - 1).push(names[n - 1])
    }
}

/// A store with the first `n` of some names bound to new ports.
pub open spec fn allocated(
    ports: Map<Seq<char>, u16>,
    names: Seq<Seq<char>>,
    new: Seq<u16>,
    n: int,
) -> Map<Seq<char>, u16>
    decreases n,
{
    if n <= 0 {
        ports
    } else {
        allocated(ports, names, new, n - 1).insert(names[n - 1], new[n - 1])
    }
}

/// The variables for the first `n` names: their ports as decimal numbers.
pub open spec fn port_vars(names: Seq<Seq<char>>, ports: Map<Seq<char>, u16>, n: int) -> Map<
    Seq<char>,
    Seq<char>,
>
    decreases n,
{
    if n <= 0 {
        Map::empty()
    } else {
        port_vars(names, ports, n - 1).insert(names[n - 1], decimal(ports[names[n - 1]] as nat))
    }
}

/// The names that have no port yet, in order: each needs one.
pub fn missing_names(names: &[String], store: &PortStore) -> (list: Vec<String>)
    ensures
        texts(list@) == missing(texts(names@), store@, names@.len() as int),
{
    let ghost all = texts(names@);
    let mut list: Vec<String> = Vec::new();
    let mut i: usize = 0;
    assert(texts(list@) =~= Seq::empty());
    while i < names.len()
        invariant
            i <= names@.len(),
            all == texts(names@),
            texts(list@) == missing(all, store@, i as int),
        decreases names@.len() - i,
    {
        assert(all[i as int] == names@[i as int]@);
        if store.get(names[i].as_str()).is_none() {
            let ghost before = texts(list@);
            let name = names[i].clone();
            list.push(name);
            assert(texts(list@) =~= before.push(name@));
        }
        i = i + 1;
    }
    list
}

/// What the names under `dynamicPorts` come to.
pub struct PortResolution {
    /// The variables for the child processes.
    pub ports: Env,
    /// The store file to write, where a port was allocated.
    pub file: Option<Vec<u8>>,
}

proof fn lemma_missing_bound(
    names: Seq<Seq<char>>,
    ports: Map<Seq<char>, u16>,
    new: Seq<u16>,
    i: int,
)
    requires
        0 <= i < names.len(),
        new.len() == missing(names, ports, names.len() as int).len(),
    ensures
        allocated(
            ports,
            missing(names, ports, names.len() as int),
            new,
            new.len() as int,
        ).contains_key(names[i]),
{
    let list = missing(names, ports, names.len() as int);
    lemma_missing_holds(names, ports, names.len() as int, i);
    lemma_allocated_keys(ports, list, new, new.len() as int);
    if !ports.contains_key(names[i]) {
        let j = choose|j: int| 0 <= j < list.len() && list[j] == names[i];
        assert(allocated(ports, list, new, new.len() as int).contains_key(list[j]));
    }
}

proof fn lemma_missing_holds(
    names: Seq<Seq<char>>,
    ports: Map<Seq<char>, u16>,
    n: int,
    i: int,
)
    requires
        0 <= i < n <= names.len(),
    ensures
        ports.contains_key(names[i]) || missing(names, ports, n).contains(names[i]),
    decreases n,
{
    if !ports.contains_key(names[i]) {
        let before = missing(names, ports, n - 1);
        let list = missing(names, ports, n);
        if i == n - 1 {
            assert(list[list.len() - 1] == names[i]);
        } else {
            lemma_missing_holds(names, ports, n - 1, i);
            let j = choose|j: int| 0 <= j < before.len() && before[j] == names[i];
            assert(list[j] == names[i]);
        }
    }
}

proof fn lemma_allocated_keys(
    ports: Map<Seq<char>, u16>,
    names: Seq<Seq<char>>,
    new: Seq<u16>,
    n: int,
)
    requires
        0 <= n <= names.len(),
        n <= new.len(),
    ensures
        forall|k: Seq<char>|
            ports.contains_key(k) ==> #[trigger] allocated(ports, names, new, n).contains_key(k),
        forall|j: int|
            0 <= j < n ==> allocated(ports, names, new, n).contains_key(#[trigger] names[j]),
    decreases n,
{
    if n > 0 {
        lemma_allocated_keys(ports, names, new, n - 1);
        let before = allocated(ports, names, new, n - 1);
        assert forall|k: Seq<char>| ports.contains_key(k) implies #[trigger] allocated(
            ports,
            names,
            new,
            n,
        ).contains_key(k) by {
            assert(before.contains_key(k));
        }
    }
}

/// Bind each name to its port: the stored one, or one of the ports that were
/// allocated for the names that had none. An empty list binds nothing.
pub fn resolve_dynamic_ports(names: &[String], store: PortStore, new: &[u16]) -> (res: Result<
    PortResolution,
    String,
>)
    requires
        new@.len() == missing(texts(names@), store@, names@.len() as int).len(),
    ensures
        match res {
            Err(text) => names_problem(texts(names@), names@.len() as int) == Some(text@),
            Ok(resolution) => {
                let all = texts(names@);
                let n = names@.len() as int;
                let list = missing(all, store@, n);
                let now = allocated(store@, list, new@, list.len() as int);
                &&& names_problem(all, n) is None
                &&& resolution.ports@ == port_vars(all, now, n)
                &&& match resolution.file {
                    Some(bytes) => list.len() > 0 && bytes@ == store_bytes(now) && (real_ports(now)
                        ==> stored(Some(bytes@)) == now),
                    None => list.len() == 0,
                }
            },
        },
{
    if let Err(text) = validate_names(names) {
        return Err(text);
    }
    let ghost all = texts(names@);
    let ghost n = names@.len() as int;
    let ghost before = store@;
    let list = missing_names(names, &store);
    let ghost need = texts(list@);
    let mut store = store;
    let mut i: usize = 0;
    while i < list.len()
        invariant
            i <= list@.len(),
            list@.len() == new@.len(),
            need == texts(list@),
            store@ == allocated(before, need, new@, i as int),
        decreases list@.len() - i,
    {
        assert(need[i as int] == list@[i as int]@);
        store.insert(list[i].as_str(), new[i]);
        i = i + 1;
    }
    let ghost now = store@;
    let mut ports = Env::new();
    let mut i: usize = 0;
    while i < names.len()
        invariant
            i <= names@.len(),
            n == names@.len(),
            all == texts(names@),
            need == missing(all, before, n),
            new@.len() == need.len(),
            now == allocated(before, need, new@, new@.len() as int),
            store@ == now,
            ports@ == port_vars(all, now, i as int),
        decreases names@.len() - i,
    {
        proof {
            lemma_missing_bound(all, before, new@, i as int);
            assert(all[i as int] == names@[i as int]@);
        }
        match store.get(names[i].as_str()) {
            Some(port) => {
                ports.insert(names[i].as_str(), decimal_text(port as u128).as_str());
            },
            None => {},
        }
        i = i + 1;
    }
    let file = if list.len() > 0 {
        Some(write_store(&store))
    } else {
        None
    };
    Ok(PortResolution { ports, file })
}

// ---- what stays the same ----

proof fn lemma_allocated_keeps(
    ports: Map<Seq<char>, u16>,
    names: Seq<Seq<char>>,
    new: Seq<u16>,
    n: int,
    key: Seq<char>,
)
    requires
        0 <= n <= names.len(),
        ports.contains_key(key),
        !names.contains(key),
    ensures
        allocated(ports, names, new, n).contains_key(key),
        allocated(ports, names, new, n)[key] == ports[key],
    decreases n,
{
    if n > 0 {
        assert(names[n - 1] != key);
        lemma_allocated_keeps(ports, names, new, n - 1, key);
    }
}

proof fn lemma_missing_lacks(names: Seq<Seq<char>>, ports: Map<Seq<char>, u16>, n: int)
    requires
        0 <= n <= names.len(),
    ensures
        forall|j: int|
            0 <= j < missing(names, ports, n).len() ==> !ports.contains_key(
                #[trigger] missing(names, ports, n)[j],
            ),
    decreases n,
{
    if n > 0 {
        lemma_missing_lacks(names, ports, n - 1);
        let before = missing(names, ports, n - 1);
        assert forall|j: int| 0 <= j < missing(names, ports, n).len() implies !ports.contains_key(
            #[trigger] missing(names, ports, n)[j],
        ) by {
            if j < before.len() {
                assert(missing(names, ports, n)[j] == before[j]);
            }
        }
    }
}

/// A stored port is used as it is, whether or not anything else uses it, and
/// what other configurations stored survives: allocating changes no entry.
pub proof fn law_stored_ports_are_kept(
    names: Seq<Seq<char>>,
    ports: Map<Seq<char>, u16>,
    new: Seq<u16>,
    key: Seq<char>,
)
    requires
        new.len() == missing(names, ports, names.len() as int).len(),
        ports.contains_key(key),
    ensures
        allocated(
            ports,
            missing(names, ports, names.len() as int),
            new,
            new.len() as int,
        ).contains_key(key),
        allocated(ports, missing(names, ports, names.len() as int), new, new.len() as int)[key]
            == ports[key],
{
    let list = missing(names, ports, names.len() as int);
    lemma_missing_lacks(names, ports, names.len() as int);
    if list.contains(key) {
        let j = choose|j: int| 0 <= j < list.len() && list[j] == key;
        assert(!ports.contains_key(list[j]));
    }
    lemma_allocated_keeps(ports, list, new, new.len() as int, key);
}

proof fn lemma_nothing_missing(names: Seq<Seq<char>>, ports: Map<Seq<char>, u16>, n: int)
    requires
        0 <= n <= names.len(),
        forall|i: int| 0 <= i < names.len() ==> ports.contains_key(#[trigger] names[i]),
    ensures
        missing(names, ports, n) =~= Seq::<Seq<char>>::empty(),
    decreases n,
{
    if n > 0 {
        lemma_nothing_missing(names, ports, n - 1);
        assert(ports.contains_key(names[n - 1]));
    }
}

/// Once the store was written, the same names need no new port and come to the
/// same variables.
pub proof fn law_second_resolve_is_stable(
    names: Seq<Seq<char>>,
    ports: Map<Seq<char>, u16>,
    new: Seq<u16>,
)
    requires
        new.len() == missing(names, ports, names.len() as int).len(),
    ensures
        ({
            let n = names.len() as int;
            let now = allocated(ports, missing(names, ports, n), new, new.len() as int);
            missing(names, now, n) == Seq::<Seq<char>>::empty() && port_vars(
                names,
                allocated(now, missing(names, now, n), Seq::empty(), 0),
                n,
            ) == port_vars(names, now, n)
        }),
{
    let n = names.len() as int;
    let now = allocated(ports, missing(names, ports, n), new, new.len() as int);
    assert forall|i: int| 0 <= i < names.len() implies now.contains_key(#[trigger] names[i]) by {
        lemma_missing_bound(names, ports, new, i);
    }
    lemma_nothing_missing(names, now, n);
}

/// Every name that was asked for becomes a variable, holding the port that the
/// store has for it.
pub proof fn law_every_name_gets_its_port(
    names: Seq<Seq<char>>,
    ports: Map<Seq<char>, u16>,
    n: int,
    i: int,
)
    requires
        0 <= i < n <= names.len(),
    ensures
        port_vars(names, ports, n).contains_key(names[i]),
        port_vars(names, ports, n)[names[i]] == decimal(ports[names[i]] as nat),
    decreases n,
{
    if i < n - 1 {
        law_every_name_gets_its_port(names, ports, n - 1, i);
    }
}

proof fn lemma_port_vars_names(names: Seq<Seq<char>>, ports: Map<Seq<char>, u16>, n: int)
    requires
        0 <= n <= names.len(),
    ensures
        forall|k: Seq<char>| #[trigger]
            port_vars(names, ports, n).contains_key(k) ==> names.take(n).contains(k),
    decreases n,
{
    if n > 0 {
        lemma_port_vars_names(names, ports, n - 1);
        assert forall|k: Seq<char>| #[trigger]
            port_vars(names, ports, n).contains_key(k) implies names.take(n).contains(k) by {
            if k == names[n - 1] {
                assert(names.take(n)[n - 1] == k);
            } else {
                assert(port_vars(names, ports, n - 1).contains_key(k));
                let j = choose|j: int| 0 <= j < n - 1 && #[trigger] names.take(n - 1)[j] == k;
                assert(names.take(n)[j] == k);
            }
        }
    }
}

proof fn lemma_allocated_real(
    ports: Map<Seq<char>, u16>,
    names: Seq<Seq<char>>,
    new: Seq<u16>,
    n: int,
)
    requires
        0 <= n <= names.len(),
        n <= new.len(),
        real_ports(ports),
        forall|i: int| 0 <= i < new.len() ==> #[trigger] new[i] >= 1,
    ensures
        real_ports(allocated(ports, names, new, n)),
    decreases n,
{
    if n > 0 {
        lemma_allocated_real(ports, names, new, n - 1);
        assert(new[n - 1] >= 1);
    }
}

proof fn lemma_allocated_new(
    ports: Map<Seq<char>, u16>,
    names: Seq<Seq<char>>,
    new: Seq<u16>,
    n: int,
    i: int,
)
    requires
        0 <= i < n <= names.len(),
        n <= new.len(),
        forall|a: int, b: int| 0 <= a < b < names.len() ==> #[trigger] names[a] != #[trigger] names[b],
    ensures
        allocated(ports, names, new, n).contains_key(names[i]),
        allocated(ports, names, new, n)[names[i]] == new[i],
    decreases n,
{
    if i < n - 1 {
        assert(names[i] != names[n - 1]);
        lemma_allocated_new(ports, names, new, n - 1, i);
    }
}

proof fn lemma_missing_distinct(names: Seq<Seq<char>>, ports: Map<Seq<char>, u16>, n: int)
    requires
        0 <= n <= names.len(),
        forall|a: int, b: int| 0 <= a < b < names.len() ==> #[trigger] names[a] != #[trigger] names[b],
    ensures
        forall|j: int|
            0 <= j < missing(names, ports, n).len() ==> names.take(n).contains(
                #[trigger] missing(names, ports, n)[j],
            ),
        forall|a: int, b: int|
            0 <= a < b < missing(names, ports, n).len() ==> #[trigger] missing(names, ports, n)[a]
                != #[trigger] missing(names, ports, n)[b],
    decreases n,
{
    if n > 0 {
        lemma_missing_distinct(names, ports, n - 1);
        let before = missing(names, ports, n - 1);
        let list = missing(names, ports, n);
        assert forall|j: int| 0 <= j < list.len() implies names.take(n).contains(
            #[trigger] list[j],
        ) by {
            if j < before.len() {
                assert(list[j] == before[j]);
                let k = choose|k: int| 0 <= k < n - 1 && #[trigger] names.take(n - 1)[k] == before[j];
                assert(names.take(n)[k] == list[j]);
            } else {
                assert(names.take(n)[n - 1] == list[j]);
            }
        }
        assert forall|a: int, b: int| 0 <= a < b < list.len() implies #[trigger] list[a]
            != #[trigger] list[b] by {
            assert(list[a] == before[a]);
            let k = choose|k: int| 0 <= k < n - 1 && #[trigger] names.take(n - 1)[k] == before[a];
            assert(names[k] == list[a]);
            if b < before.len() {
                assert(list[b] == before[b]);
            }
        }
    }
}

/// What was found in a file, and what is in it after ports were allocated: the
/// old file where none had to be.
pub open spec fn file_after(file: Option<Seq<u8>>, written: Option<Seq<u8>>) -> Option<Seq<u8>> {
    match written {
        Some(bytes) => Some(bytes),
        None => file,
    }
}

/// Ports are stable across runs. Where a first run finds a file, is given new
/// ports, none of them 0, and leaves a file as `resolve_dynamic_ports` says, a
/// second run on what was left needs no port and comes to the same variables:
/// one for each name, each a port from 1 on. Ports that were stored stay, new
/// ones differ as far as those that were given do, entries of others survive,
/// and without names nothing is written.
pub proof fn law_ports_are_stable_across_runs(
    names: Seq<Seq<char>>,
    file: Option<Seq<u8>>,
    new: Seq<u16>,
    written: Option<Seq<u8>>,
)
    requires
        names_problem(names, names.len() as int) is None,
        new.len() == missing(names, stored(file), names.len() as int).len(),
        forall|i: int| 0 <= i < new.len() ==> #[trigger] new[i] >= 1,
        ({
            let list = missing(names, stored(file), names.len() as int);
            let now = allocated(stored(file), list, new, list.len() as int);
            match written {
                Some(bytes) => list.len() > 0 && (real_ports(now) ==> stored(Some(bytes)) == now),
                None => list.len() == 0,
            }
        }),
    ensures
        ({
            let n = names.len() as int;
            let first = stored(file);
            let list = missing(names, first, n);
            let now = allocated(first, list, new, list.len() as int);
            let second = stored(file_after(file, written));
            let vars = port_vars(names, now, n);
            &&& second == now
            &&& missing(names, second, n) == Seq::<Seq<char>>::empty()
            &&& port_vars(names, allocated(second, Seq::empty(), Seq::empty(), 0), n) == vars
            &&& vars.dom() == names.to_set()
            &&& forall|i: int|
                0 <= i < n ==> vars[#[trigger] names[i]] == decimal(now[names[i]] as nat)
                    && now[names[i]] >= 1
            &&& forall|k: Seq<char>| #[trigger]
                first.contains_key(k) ==> now.contains_key(k) && now[k] == first[k]
            &&& forall|i: int, j: int|
                0 <= i < j < list.len() && new[i] != new[j] ==> now[#[trigger] list[i]]
                    != now[#[trigger] list[j]]
            &&& n == 0 ==> written is None && vars == Map::<Seq<char>, Seq<char>>::empty()
        }),
{
    let n = names.len() as int;
    let first = stored(file);
    let list = missing(names, first, n);
    let now = allocated(first, list, new, list.len() as int);
    let vars = port_vars(names, now, n);
    law_valid_names_are_distinct(names, n);
    lemma_allocated_real(first, list, new, list.len() as int);
    law_second_resolve_is_stable(names, first, new);
    lemma_missing_distinct(names, first, n);
    assert(names.take(n) =~= names);
    assert forall|i: int| 0 <= i < n implies vars[#[trigger] names[i]] == decimal(
        now[names[i]] as nat,
    ) && now[names[i]] >= 1 && vars.contains_key(names[i]) by {
        law_every_name_gets_its_port(names, now, n, i);
        lemma_missing_bound(names, first, new, i);
    }
    assert forall|k: Seq<char>| #[trigger] first.contains_key(k) implies now.contains_key(k)
        && now[k] == first[k] by {
        law_stored_ports_are_kept(names, first, new, k);
    }
    assert forall|i: int, j: int| 0 <= i < j < list.len() && new[i] != new[j] implies now[
        #[trigger] list[i]] != now[#[trigger] list[j]] by {
        lemma_allocated_new(first, list, new, list.len() as int, i);
        lemma_allocated_new(first, list, new, list.len() as int, j);
    }
    lemma_port_vars_names(names, now, n);
    assert(vars.dom() =~= names.to_set()) by {
        assert forall|k: Seq<char>| vars.dom().contains(k) <==> names.to_set().contains(k) by {
            if vars.contains_key(k) {
                assert(names.take(n).contains(k));
            }
            if names.to_set().contains(k) {
                let i = choose|i: int| 0 <= i < names.len() && names[i] == k;
                assert(vars.contains_key(names[i]));
            }
        }
    }
}

// ---- what names and stores have to be ----

/// Names are accepted exactly where each can be a variable and none is listed
/// twice. Else the first that is wrong is named.
pub proof fn law_wrong_names_are_named(names: Seq<Seq<char>>, n: int)
    requires
        0 <= n < names.len(),
        forall|i: int| 0 <= i < n ==> strict_ident(#[trigger] names[i]),
        forall|i: int, j: int| 0 <= i < j < n ==> #[trigger] names[i] != #[trigger] names[j],
    ensures
        ({
            let twice = exists|i: int| 0 <= i < n && #[trigger] names[i] == names[n];
            &&& strict_ident(names[n]) && !twice ==> names_problem(names, n + 1) is None
            &&& !strict_ident(names[n]) ==> names_problem(names, names.len() as int) == Some(
                bad_name_text(n, names[n]),
            )
            &&& strict_ident(names[n]) && twice ==> names_problem(names, names.len() as int)
                == Some(duplicate_name_text(names[n]))
        }),
    decreases n,
{
    if n > 0 {
        law_wrong_names_are_named(names, n - 1);
    }
    assert(names_problem(names, n) is None) by {
        if n > 0 {
            assert forall|i: int| 0 <= i < n - 1 implies #[trigger] names[i] != names[n - 1] by {}
        }
    }
    let twice = exists|i: int| 0 <= i < n && #[trigger] names[i] == names[n];
    assert(twice <==> names.take(n).contains(names[n])) by {
        if twice {
            let i = choose|i: int| 0 <= i < n && #[trigger] names[i] == names[n];
            assert(names.take(n)[i] == names[n]);
        }
        if names.take(n).contains(names[n]) {
            let i = names.take(n).index_of(names[n]);
            assert(names[i] == names[n]);
        }
    }
    if !strict_ident(names[n]) || twice {
        lemma_names_problem_sticks(names, n + 1, names.len() as int);
    }
}

/// The same for all names.
pub proof fn law_right_names_are_accepted(names: Seq<Seq<char>>)
    requires
        forall|i: int| 0 <= i < names.len() ==> strict_ident(#[trigger] names[i]),
        forall|i: int, j: int|
            0 <= i < j < names.len() ==> #[trigger] names[i] != #[trigger] names[j],
    ensures
        names_problem(names, names.len() as int) is None,
{
    if names.len() > 0 {
        law_wrong_names_are_named(names, names.len() - 1);
    }
}

/// Of a store file, the entries that are whole numbers from 1 to 65535 count, and
/// no others; a file that is missing or no JSON object counts as empty.
pub proof fn law_stores_hold_ports(bytes: Seq<u8>, name: Seq<char>)
    ensures
        stored(None) == Map::<Seq<char>, u16>::empty(),
        json_object(bytes) is None ==> stored(Some(bytes)) == Map::<Seq<char>, u16>::empty(),
        json_object(bytes) matches Some(object) ==> (stored(Some(bytes)).contains_key(name)
            <==> object.contains_key(name) && object[name] is Some && 1 <= object[name]->0
            <= 65535),
        stored(Some(bytes)).contains_key(name) ==> stored(Some(bytes))[name] == (json_object(
            bytes,
        )->0[name])->0,
{
}

/// A name needs a port exactly where it has none, and the names that need one
/// come in order.
pub proof fn law_names_without_a_port_need_one(
    names: Seq<Seq<char>>,
    ports: Map<Seq<char>, u16>,
    n: int,
)
    requires
        0 <= n < names.len(),
    ensures
        missing(names, ports, 0) == Seq::<Seq<char>>::empty(),
        ports.contains_key(names[n]) ==> missing(names, ports, n + 1) == missing(names, ports, n),
        !ports.contains_key(names[n]) ==> missing(names, ports, n + 1) == missing(
            names,
            ports,
            n,
        ).push(names[n]),
{
}

/// The new ports go to the names that need them, in order, and nothing else
/// changes.
pub proof fn law_new_ports_go_to_those_in_need(
    names: Seq<Seq<char>>,
    ports: Map<Seq<char>, u16>,
    new: Seq<u16>,
    i: int,
    other: Seq<char>,
)
    requires
        names_problem(names, names.len() as int) is None,
        new.len() == missing(names, ports, names.len() as int).len(),
    ensures
        ({
            let list = missing(names, ports, names.len() as int);
            let now = allocated(ports, list, new, list.len() as int);
            &&& 0 <= i < list.len() ==> now.contains_key(list[i]) && now[list[i]] == new[i]
            &&& !list.contains(other) ==> (now.contains_key(other) <==> ports.contains_key(other))
            &&& !list.contains(other) && ports.contains_key(other) ==> now[other] == ports[other]
        }),
{
    let n = names.len() as int;
    let list = missing(names, ports, n);
    law_valid_names_are_distinct(names, n);
    lemma_missing_distinct(names, ports, n);
    if 0 <= i < list.len() {
        lemma_allocated_new(ports, list, new, list.len() as int, i);
    }
    if !list.contains(other) {
        lemma_allocated_others(ports, list, new, list.len() as int, other);
    }
}

proof fn lemma_allocated_others(
    ports: Map<Seq<char>, u16>,
    names: Seq<Seq<char>>,
    new: Seq<u16>,
    n: int,
    other: Seq<char>,
)
    requires
        0 <= n <= names.len(),
        !names.contains(other),
    ensures
        allocated(ports, names, new, n).contains_key(other) <==> ports.contains_key(other),
        ports.contains_key(other) ==> allocated(ports, names, new, n)[other] == ports[other],
    decreases n,
{
    if n > 0 {
        assert(names[n - 1] != other);
        lemma_allocated_others(ports, names, new, n - 1, other);
    }
}

/// A store file is its object with a line feed behind it.
pub proof fn law_store_files_end_with_a_feed(ports: Map<Seq<char>, u16>)
    ensures
        store_bytes(ports).len() > 0,
        store_bytes(ports).last() == 10,
        store_bytes(ports).drop_last() == store_json(ports),
{
    assert(store_bytes(ports).drop_last() =~= store_json(ports));
}

} // verus!
