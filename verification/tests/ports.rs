use rumor::ports::{
    keep_ports, missing_names, read_store, resolve_dynamic_ports, validate_names, write_store,
    PortStore,
};

fn names(list: &[&str]) -> Vec<String> {
    list.iter().map(|s| s.to_string()).collect()
}

fn text<'a>(env: &'a rumor::env::Env, name: &str) -> Option<&'a str> {
    env.get(name).map(|v| v.as_str())
}

#[test]
fn allocates_distinct_ports_and_persists() {
    let vars = names(&["A_PORT", "B_PORT"]);
    let resolved = resolve_dynamic_ports(&vars, PortStore::new(), &[40001, 40002]).unwrap();
    let a: u16 = text(&resolved.ports, "A_PORT").unwrap().parse().unwrap();
    let b: u16 = text(&resolved.ports, "B_PORT").unwrap().parse().unwrap();
    assert_ne!(a, 0);
    assert_ne!(b, 0);
    assert_ne!(a, b);

    let store = read_store(resolved.file.as_ref());
    assert_eq!(store.get("A_PORT"), Some(a));
    assert_eq!(store.get("B_PORT"), Some(b));
}

#[test]
fn second_resolve_reuses_stored_ports() {
    let vars = names(&["A_PORT", "B_PORT"]);
    let first = resolve_dynamic_ports(&vars, PortStore::new(), &[40001, 40002]).unwrap();
    let store = read_store(first.file.as_ref());
    assert!(missing_names(&vars, &store).is_empty());
    let second = resolve_dynamic_ports(&vars, store, &[]).unwrap();
    assert_eq!(first.ports.sorted(), second.ports.sorted());
    assert!(second.file.is_none());
}

#[test]
fn stored_port_is_reused_verbatim_without_liveness_check() {
    let mut seeded = PortStore::new();
    seeded.insert("A_PORT", 5);
    let file = write_store(&seeded);
    let resolved =
        resolve_dynamic_ports(&names(&["A_PORT"]), read_store(Some(&file)), &[]).unwrap();
    assert_eq!(text(&resolved.ports, "A_PORT"), Some("5"));
}

#[test]
fn unrelated_store_keys_survive_new_allocations() {
    let mut seeded = PortStore::new();
    seeded.insert("OTHER_CONFIGS_PORT", 4242);
    let file = write_store(&seeded);
    let resolved =
        resolve_dynamic_ports(&names(&["A_PORT"]), read_store(Some(&file)), &[40001]).unwrap();
    let store = read_store(resolved.file.as_ref());
    assert_eq!(store.get("OTHER_CONFIGS_PORT"), Some(4242));
    assert!(store.get("A_PORT").is_some());
}

#[test]
fn empty_list_does_no_io() {
    let resolved = resolve_dynamic_ports(&[], PortStore::new(), &[]).unwrap();
    assert_eq!(resolved.ports.len(), 0);
    assert!(resolved.file.is_none());
}

#[test]
fn corrupt_store_is_discarded_and_reallocated() {
    let store = read_store(Some(&b"not json".to_vec()));
    let vars = names(&["A_PORT"]);
    assert_eq!(missing_names(&vars, &store), vars);
    let resolved = resolve_dynamic_ports(&vars, store, &[40001]).unwrap();
    let port: u16 = text(&resolved.ports, "A_PORT").unwrap().parse().unwrap();
    assert_ne!(port, 0);
    // The store was rewritten with valid JSON.
    assert_eq!(read_store(resolved.file.as_ref()).get("A_PORT"), Some(port));
}

#[test]
fn invalid_entries_are_dropped_but_valid_siblings_kept() {
    let file =
        br#"{"GOOD": 4242, "TOO_BIG": 99999, "ZERO": 0, "STRINGY": "8080"}"#.to_vec();
    let store = read_store(Some(&file));
    assert_eq!(store.get("GOOD"), Some(4242));
    assert!(store.get("TOO_BIG").is_none());
    assert!(store.get("ZERO").is_none());
    assert!(store.get("STRINGY").is_none());
}

#[test]
fn only_an_object_is_a_store() {
    for file in ["[1]", "null", "7", ""] {
        assert_eq!(read_store(Some(&file.as_bytes().to_vec())).get("A"), None);
    }
    assert_eq!(read_store(None).get("A"), None);
}

#[test]
fn the_store_file_is_pretty_and_sorted() {
    let mut store = PortStore::new();
    store.insert("B", 2);
    store.insert("A", 1);
    store.insert("B", 3);
    assert_eq!(write_store(&store), b"{\n  \"A\": 1,\n  \"B\": 3\n}\n");
}

#[test]
fn entries_that_are_ports_are_kept() {
    let entries = vec![
        ("A".to_string(), Some(65535u64)),
        ("B".to_string(), Some(65536)),
        ("C".to_string(), None),
    ];
    let store = keep_ports(&entries);
    assert_eq!(store.get("A"), Some(65535));
    assert_eq!(store.get("B"), None);
    assert_eq!(store.get("C"), None);
}

#[test]
fn rejects_invalid_var_name() {
    let err = resolve_dynamic_ports(&names(&["1BAD"]), PortStore::new(), &[1])
        .err()
        .unwrap()
        .to_string();
    assert!(err.contains("dynamicPorts[0]"), "got: {err}");
    assert!(err.contains("1BAD"), "got: {err}");
}

#[test]
fn rejects_duplicate_var_name() {
    let err = resolve_dynamic_ports(&names(&["A_PORT", "A_PORT"]), PortStore::new(), &[1, 1])
        .err()
        .unwrap()
        .to_string();
    assert!(err.contains("duplicate entry: A_PORT"), "got: {err}");
    assert!(validate_names(&names(&["A_PORT", "B_PORT"])).is_ok());
}

#[test]
fn a_port_is_kept_from_run_to_run() {
    let first =
        resolve_dynamic_ports(&names(&["B_PORT"]), read_store(None), &[40002]).unwrap();
    // Another run asks for one more; the first keeps its number.
    let store = read_store(first.file.as_ref());
    let vars = names(&["A_PORT", "B_PORT"]);
    assert_eq!(missing_names(&vars, &store), names(&["A_PORT"]));
    let second = resolve_dynamic_ports(&vars, store, &[40001]).unwrap();
    assert_eq!(text(&second.ports, "B_PORT"), Some("40002"));
    let third = resolve_dynamic_ports(&vars, read_store(second.file.as_ref()), &[]).unwrap();
    assert_eq!(third.ports.sorted(), second.ports.sorted());
}

#[test]
fn a_name_has_one_port() {
    let mut store = PortStore::new();
    store.insert("A_PORT", 1);
    store.insert("B_PORT", 2);
    store.insert("A_PORT", 3);
    assert_eq!(store.get("A_PORT"), Some(3));
    assert_eq!(store.get("B_PORT"), Some(2));
    let back = read_store(Some(&write_store(&store)));
    assert_eq!(back.get("A_PORT"), Some(3));
    assert_eq!(back.get("B_PORT"), Some(2));
}
