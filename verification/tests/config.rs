use rumor::config::{
    filter_by_tags, BackoffStrategy, Config, LoadFacts, LoadedConfig, PathFact, ProcessConfig,
    ProcessFacts, RawCondition, RawConfig, RawDependency, RawProcess, ReadinessCondition,
    RetryConfig,
};
use rumor::config_error::ConfigError;
use rumor::env::{build_env, Env, EnvSources, FileVars};
use rumor::ports::{read_store, resolve_dynamic_ports, PortStore};

const DIR: &str = "/work";

fn text(s: &str) -> String {
    s.to_string()
}

fn proc(name: &str) -> RawProcess {
    RawProcess {
        name: text(name),
        command: text("echo"),
        args: vec![],
        cwd: text(DIR),
        env_files: vec![],
        env: Env::new(),
        depends_on: vec![],
        long_lived: true,
        tags: vec![],
        retry: None,
    }
}

fn on(name: &str, until: RawCondition) -> RawDependency {
    RawDependency { name: text(name), until }
}

fn vars(pairs: &[(&str, &str)]) -> Vec<(String, String)> {
    pairs.iter().map(|(k, v)| (text(k), text(v))).collect()
}

fn env(pairs: &[(&str, &str)]) -> Env {
    let mut env = Env::new();
    for (k, v) in pairs {
        env.insert(k, v);
    }
    env
}

fn no_sources() -> EnvSources {
    EnvSources {
        orchestrator: vec![],
        global_files: vec![],
        dotenv: None,
        env_files: vec![],
    }
}

fn found(p: &RawProcess) -> ProcessFacts {
    ProcessFacts {
        cwd: PathFact::Directory(text(DIR)),
        env_files: p
            .env_files
            .iter()
            .map(|f| PathFact::File(format!("{DIR}/{f}")))
            .collect(),
        sources: no_sources(),
    }
}

fn raw(processes: Vec<RawProcess>) -> RawConfig {
    RawConfig { env_files: vec![], dynamic_ports: vec![], processes }
}

fn facts(config: &RawConfig) -> LoadFacts {
    LoadFacts {
        config_dir: text(DIR),
        env_files: config
            .env_files
            .iter()
            .map(|f| PathFact::File(format!("{DIR}/{f}")))
            .collect(),
        dynamic_ports: Ok(Env::new()),
        processes: config.processes.iter().map(found).collect(),
    }
}

fn load(config: &RawConfig) -> Result<LoadedConfig, ConfigError> {
    Config::load(config, &facts(config))
}

fn refusal(config: &RawConfig) -> String {
    load(config).err().expect("should be refused").message()
}

fn get<'a>(env: &'a Env, name: &str) -> Option<&'a str> {
    env.get(name).map(|v| v.as_str())
}

fn port_of(loaded: &LoadedConfig, proc_idx: usize, dep_idx: usize) -> u16 {
    match &loaded.config.processes[proc_idx].depends_on[dep_idx].until {
        ReadinessCondition::Port(p) => *p,
        _ => panic!("expected Port"),
    }
}

#[test]
fn loads_fullstack_example() {
    let local = |name: &str, strategy, max_delay_ms| RawProcess {
        env_files: vec![text(".env.local")],
        retry: Some(RetryConfig { max_retries: 5, strategy, delay_ms: 1000, max_delay_ms }),
        ..proc(name)
    };
    let db = local("db", BackoffStrategy::Exponential, Some(30000));
    let redis = local("redis", BackoffStrategy::Fixed, None);
    let api = RawProcess {
        depends_on: vec![
            on("db", RawCondition::Port(5432)),
            on("redis", RawCondition::Port(6379)),
        ],
        ..local("api", BackoffStrategy::Linear, Some(10000))
    };
    let frontend = RawProcess {
        env: env(&[("LOG_LEVEL", "warn")]),
        depends_on: vec![on("api", RawCondition::Log(text("listening on")))],
        ..local("frontend", BackoffStrategy::Exponential, None)
    };
    let config = RawConfig {
        env_files: vec![text(".env")],
        dynamic_ports: vec![],
        processes: vec![db, redis, api, frontend],
    };
    let loaded = load(&config).ok().expect("should load");
    let names: Vec<&str> = loaded.config.processes.iter().map(|p| p.name.as_str()).collect();
    assert_eq!(names, ["db", "redis", "api", "frontend"]);
    let api = &loaded.config.processes[2];
    let api_deps: Vec<&str> = api.depends_on.iter().map(|d| d.name.as_str()).collect();
    assert_eq!(api_deps, ["db", "redis"]);
    let frontend = &loaded.config.processes[3];
    let fe_deps: Vec<&str> = frontend.depends_on.iter().map(|d| d.name.as_str()).collect();
    assert_eq!(fe_deps, ["api"]);
    for proc in &loaded.config.processes {
        assert_eq!(proc.global_env_files, vec![text("/work/.env")]);
        assert_eq!(proc.env_files, vec![text("/work/.env.local")]);
    }
    assert_eq!(get(&frontend.env, "LOG_LEVEL"), Some("warn"));
    let db_retry = loaded.config.processes[0].retry.expect("db has retry");
    assert_eq!(db_retry.strategy, BackoffStrategy::Exponential);
    assert_eq!(db_retry.max_retries, 5);
    assert_eq!(db_retry.max_delay_ms, Some(30000));
    let redis_retry = loaded.config.processes[1].retry.expect("redis has retry");
    assert_eq!(redis_retry.strategy, BackoffStrategy::Fixed);
    assert_eq!(redis_retry.max_delay_ms, None);
    assert_eq!(loaded.config_dir, DIR);
}

#[test]
fn an_empty_config_is_refused() {
    assert_eq!(refusal(&raw(vec![])), "config has no processes");
}

#[test]
fn config_env_rejects_duplicate_names() {
    let err = refusal(&raw(vec![proc("a"), proc("a")]));
    assert!(err.contains("duplicate"), "got: {err}");
}

#[test]
fn blank_names_and_commands_are_refused() {
    assert_eq!(refusal(&raw(vec![proc("  ")])), "process name cannot be empty");
    let config = raw(vec![RawProcess { command: text(" "), ..proc("a") }]);
    assert_eq!(refusal(&config), "process a: command cannot be empty");
}

#[test]
fn config_env_rejects_missing_cwd() {
    let config = raw(vec![RawProcess { cwd: text("nope"), ..proc("a") }]);
    let mut seen = facts(&config);
    seen.processes[0].cwd = PathFact::Missing(text("No such file or directory"));
    let err = Config::load(&config, &seen).err().expect("should be refused");
    assert_eq!(
        err.message(),
        "process a: cwd does not exist or is not accessible: /work/nope"
    );
    assert_eq!(err.cause().map(|c| c.as_str()), Some("No such file or directory"));
    seen.processes[0].cwd = PathFact::File(text("/work/nope"));
    let err = Config::load(&config, &seen).err().expect("should be refused");
    assert_eq!(err.message(), "process a: cwd is not a directory: /work/nope");
}

#[test]
fn config_env_dotenv_is_loaded_from_cwd() {
    let sources = EnvSources {
        orchestrator: vars(&[("PATH", "/bin")]),
        dotenv: Some(FileVars::Loaded(vars(&[("FROM_DOTENV", "42"), ("BOTH", "dotenv")]))),
        ..no_sources()
    };
    let merged = build_env(&sources, &env(&[("BOTH", "explicit")]), &Env::new()).unwrap();
    assert_eq!(get(&merged, "FROM_DOTENV"), Some("42"));
    assert_eq!(get(&merged, "BOTH"), Some("explicit"));
    assert_eq!(get(&merged, "PATH"), Some("/bin"));
}

#[test]
fn config_env_no_dotenv_is_fine() {
    let merged = build_env(&no_sources(), &Env::new(), &Env::new()).unwrap();
    assert!(merged.get("FROM_DOTENV").is_none());
}

#[test]
fn config_env_env_files_load_in_order_and_override_dotenv() {
    let sources = EnvSources {
        dotenv: Some(FileVars::Loaded(vars(&[("L", "dotenv"), ("A", "dotenv")]))),
        env_files: vec![
            FileVars::Loaded(vars(&[("A", "first"), ("B", "first")])),
            FileVars::Loaded(vars(&[("B", "second"), ("C", "second")])),
        ],
        ..no_sources()
    };
    let merged = build_env(&sources, &Env::new(), &Env::new()).unwrap();
    assert_eq!(get(&merged, "L"), Some("dotenv"));
    assert_eq!(get(&merged, "A"), Some("first"));
    assert_eq!(get(&merged, "B"), Some("second"));
    assert_eq!(get(&merged, "C"), Some("second"));
}

#[test]
fn config_env_json_env_beats_env_files() {
    let sources = EnvSources {
        env_files: vec![FileVars::Loaded(vars(&[("K", "from-file")]))],
        ..no_sources()
    };
    let merged = build_env(&sources, &env(&[("K", "from-json")]), &Env::new()).unwrap();
    assert_eq!(get(&merged, "K"), Some("from-json"));
}

#[test]
fn a_file_that_cannot_be_read_is_an_error() {
    let sources = EnvSources {
        global_files: vec![FileVars::Loaded(vec![]), FileVars::Failed(text("first"))],
        env_files: vec![FileVars::Failed(text("second"))],
        ..no_sources()
    };
    let err = build_env(&sources, &Env::new(), &Env::new()).err().unwrap();
    assert_eq!(err, "first");

    let config = raw(vec![proc("a")]);
    let mut seen = facts(&config);
    seen.processes[0].sources = sources;
    let err = Config::load(&config, &seen).err().expect("should be refused");
    assert_eq!(err.message(), "process a: building env for template substitution");
    assert_eq!(err.cause().map(|c| c.as_str()), Some("first"));
}

#[test]
fn config_env_config_resolves_relative_env_files_against_config_dir() {
    let config = raw(vec![RawProcess { env_files: vec![text("shared.env")], ..proc("a") }]);
    let loaded = load(&config).ok().expect("config should load");
    assert_eq!(loaded.config.processes[0].env_files, vec![text("/work/shared.env")]);
}

#[test]
fn config_env_config_rejects_unknown_dep_name() {
    let config = raw(vec![RawProcess {
        depends_on: vec![on("ghost", RawCondition::Exit(0))],
        ..proc("a")
    }]);
    let err = refusal(&config);
    assert!(err.contains("unknown process 'ghost'"), "got: {err}");
}

#[test]
fn config_env_config_rejects_self_dependency() {
    let config = raw(vec![RawProcess {
        depends_on: vec![on("a", RawCondition::Exit(0))],
        ..proc("a")
    }]);
    let err = refusal(&config);
    assert!(err.contains("cannot depend on itself"), "got: {err}");
}

#[test]
fn config_env_config_rejects_cycles() {
    let needs = |name: &str, other: &str| RawProcess {
        depends_on: vec![on(other, RawCondition::Exit(0))],
        ..proc(name)
    };
    let err = refusal(&raw(vec![needs("a", "b"), needs("b", "c"), needs("c", "a")]));
    assert!(err.contains("cycle"), "got: {err}");
    assert_eq!(err, "dependsOn cycle detected: a -> b -> c -> a");
}

#[test]
fn config_env_config_rejects_bad_log_regex() {
    let config = raw(vec![
        proc("a"),
        RawProcess {
            depends_on: vec![on("a", RawCondition::Log(text("[invalid")))],
            ..proc("b")
        },
    ]);
    let err = refusal(&config);
    assert!(err.contains("valid regex") || err.contains("not a valid regex"), "got: {err}");
    assert!(load(&config).err().unwrap().cause().is_some());
}

#[test]
fn config_env_config_accepts_valid_dep_graph() {
    let config = raw(vec![
        proc("db"),
        RawProcess {
            depends_on: vec![on("db", RawCondition::Port(5432))],
            ..proc("migrate")
        },
        RawProcess {
            depends_on: vec![
                on("db", RawCondition::Port(5432)),
                on("migrate", RawCondition::Exit(0)),
            ],
            ..proc("api")
        },
    ]);
    assert!(load(&config).is_ok(), "valid graph should load");
}

#[test]
fn config_env_config_rejects_missing_env_file() {
    let config = raw(vec![RawProcess { env_files: vec![text("nope.env")], ..proc("a") }]);
    let mut seen = facts(&config);
    seen.processes[0].env_files[0] = PathFact::Missing(text("gone"));
    let err = Config::load(&config, &seen).err().expect("should be refused");
    assert_eq!(err.message(), "process a: envFiles entry not found: /work/nope.env");
    seen.processes[0].env_files[0] = PathFact::Directory(text("/work/nope.env"));
    let err = Config::load(&config, &seen).err().expect("should be refused");
    assert_eq!(err.message(), "process a: envFiles entry is not a file: /work/nope.env");
}

#[test]
fn global_env_files_are_lowest_config_precedence() {
    let globals = || vec![FileVars::Loaded(vars(&[("K", "global"), ("GLOBAL_ONLY", "yes")]))];
    // global < dotenv: dotenv wins.
    let sources = EnvSources {
        global_files: globals(),
        dotenv: Some(FileVars::Loaded(vars(&[("K", "dotenv")]))),
        ..no_sources()
    };
    let m = build_env(&sources, &Env::new(), &Env::new()).unwrap();
    assert_eq!(get(&m, "K"), Some("dotenv"));
    assert_eq!(get(&m, "GLOBAL_ONLY"), Some("yes"));

    // global < per-process envFiles.
    let sources = EnvSources {
        global_files: globals(),
        env_files: vec![FileVars::Loaded(vars(&[("K", "procfile")]))],
        ..no_sources()
    };
    let m = build_env(&sources, &Env::new(), &Env::new()).unwrap();
    assert_eq!(get(&m, "K"), Some("procfile"));

    // global < json env block.
    let sources = EnvSources { global_files: globals(), ..no_sources() };
    let m = build_env(&sources, &env(&[("K", "json")]), &Env::new()).unwrap();
    assert_eq!(get(&m, "K"), Some("json"));
}

#[test]
fn global_env_files_load_in_order() {
    let sources = EnvSources {
        global_files: vec![
            FileVars::Loaded(vars(&[("A", "one"), ("B", "one")])),
            FileVars::Loaded(vars(&[("B", "two")])),
        ],
        ..no_sources()
    };
    let m = build_env(&sources, &Env::new(), &Env::new()).unwrap();
    assert_eq!(get(&m, "A"), Some("one"));
    assert_eq!(get(&m, "B"), Some("two"));
}

#[test]
fn root_env_files_apply_to_every_process() {
    let config = RawConfig {
        env_files: vec![text(".env.shared")],
        dynamic_ports: vec![],
        processes: vec![proc("a"), proc("b")],
    };
    let loaded = load(&config).ok().expect("config should load");
    for proc in &loaded.config.processes {
        assert_eq!(proc.global_env_files, vec![text("/work/.env.shared")]);
    }
}

#[test]
fn config_resolves_relative_root_env_files_against_config_dir() {
    let config = RawConfig {
        env_files: vec![text("root.env")],
        dynamic_ports: vec![],
        processes: vec![proc("a")],
    };
    let loaded = load(&config).ok().expect("config should load");
    assert_eq!(loaded.config.processes[0].global_env_files, vec![text("/work/root.env")]);
}

#[test]
fn config_rejects_missing_root_env_file() {
    let config = RawConfig {
        env_files: vec![text("nope.env")],
        dynamic_ports: vec![],
        processes: vec![proc("a")],
    };
    let mut seen = facts(&config);
    seen.env_files[0] = PathFact::Missing(text("gone"));
    let err = Config::load(&config, &seen).err().expect("should be refused");
    assert!(err.message().contains("root"), "got: {}", err.message());
    assert!(err.message().contains("envFiles"), "got: {}", err.message());
    seen.env_files[0] = PathFact::Other(text("/work/nope.env"));
    let err = Config::load(&config, &seen).err().expect("should be refused");
    assert_eq!(err.message(), "root envFiles entry is not a file: /work/nope.env");
}

#[test]
fn root_env_file_value_resolves_template() {
    let config = RawConfig {
        env_files: vec![text(".env")],
        dynamic_ports: vec![],
        processes: vec![RawProcess { args: vec![text("${API_PORT}")], ..proc("a") }],
    };
    let mut seen = facts(&config);
    seen.processes[0].sources.global_files =
        vec![FileVars::Loaded(vars(&[("API_PORT", "8080")]))];
    let loaded = Config::load(&config, &seen).ok().expect("config should load");
    assert_eq!(loaded.config.processes[0].args, vec![text("8080")]);
}

#[test]
fn config_env_long_lived_false_parses() {
    let config = raw(vec![RawProcess { long_lived: false, ..proc("a") }, proc("b")]);
    let loaded = load(&config).ok().expect("should load");
    assert_eq!(loaded.config.processes[0].long_lived, false);
    assert_eq!(loaded.config.processes[1].long_lived, true);
}

#[test]
fn port_template_resolves_from_env_block() {
    let config = raw(vec![
        proc("db"),
        RawProcess {
            env: env(&[("API_PORT", "5432")]),
            depends_on: vec![on("db", RawCondition::PortTemplate(text("${API_PORT}")))],
            ..proc("api")
        },
    ]);
    let loaded = load(&config).ok().expect("should load");
    assert_eq!(port_of(&loaded, 1, 0), 5432);
}

#[test]
fn port_template_resolves_from_env_file() {
    let config = raw(vec![
        proc("db"),
        RawProcess {
            env_files: vec![text("ports.env")],
            depends_on: vec![on("db", RawCondition::PortTemplate(text("${DB_PORT}")))],
            ..proc("api")
        },
    ]);
    let mut seen = facts(&config);
    seen.processes[1].sources.env_files = vec![FileVars::Loaded(vars(&[("DB_PORT", "6543")]))];
    let loaded = Config::load(&config, &seen).ok().expect("should load");
    assert_eq!(port_of(&loaded, 1, 0), 6543);
}

#[test]
fn port_template_resolves_from_orchestrator_env() {
    let config = raw(vec![
        proc("db"),
        RawProcess {
            depends_on: vec![on(
                "db",
                RawCondition::PortTemplate(text("${RUMOR_TEST_ORCH_PORT_8FB2}")),
            )],
            ..proc("api")
        },
    ]);
    let mut seen = facts(&config);
    seen.processes[1].sources.orchestrator = vars(&[("RUMOR_TEST_ORCH_PORT_8FB2", "7777")]);
    let loaded = Config::load(&config, &seen).ok().expect("should load");
    assert_eq!(port_of(&loaded, 1, 0), 7777);
}

#[test]
fn port_template_unknown_var_substitutes_empty_then_fails_parse() {
    let config = raw(vec![
        proc("db"),
        RawProcess {
            depends_on: vec![on(
                "db",
                RawCondition::PortTemplate(text("${NOPE_THIS_IS_UNSET_1234}")),
            )],
            ..proc("api")
        },
    ]);
    let err = refusal(&config);
    assert!(err.contains("not a valid u16"), "got: {err}");
    assert!(err.contains("until.port"), "got: {err}");
}

#[test]
fn port_template_non_numeric_value_errors() {
    let config = raw(vec![
        proc("db"),
        RawProcess {
            env: env(&[("P", "hello")]),
            depends_on: vec![on("db", RawCondition::PortTemplate(text("${P}")))],
            ..proc("api")
        },
    ]);
    let err = refusal(&config);
    assert!(err.contains("not a valid u16"), "got: {err}");
    assert!(err.contains("\"hello\""), "got: {err}");
}

#[test]
fn port_literal_number_still_works() {
    let config = raw(vec![
        proc("db"),
        RawProcess { depends_on: vec![on("db", RawCondition::Port(5432))], ..proc("api") },
    ]);
    let loaded = load(&config).ok().expect("should load");
    assert_eq!(port_of(&loaded, 1, 0), 5432);
}

#[test]
fn log_template_resolves_then_regex_compiles() {
    let config = raw(vec![
        proc("db"),
        RawProcess {
            env: env(&[("MARKER", "ready")]),
            depends_on: vec![on("db", RawCondition::Log(text("^${MARKER}$")))],
            ..proc("api")
        },
    ]);
    let loaded = load(&config).ok().expect("should load");
    match &loaded.config.processes[1].depends_on[0].until {
        ReadinessCondition::Log(rx) => assert_eq!(rx, "^ready$"),
        _ => panic!("expected Log"),
    }
}

#[test]
fn escaped_dollar_is_literal_in_args() {
    let config = raw(vec![RawProcess { args: vec![text("$${RATE}")], ..proc("a") }]);
    let loaded = load(&config).ok().expect("should load");
    assert_eq!(loaded.config.processes[0].args, vec![text("${RATE}")]);
}

#[test]
fn command_and_args_substituted_from_env_block() {
    let config = raw(vec![RawProcess {
        command: text("${RUNNER}"),
        args: vec![text("--flag=${FLAG}")],
        env: env(&[("RUNNER", "bash"), ("FLAG", "on")]),
        ..proc("a")
    }]);
    let loaded = load(&config).ok().expect("should load");
    assert_eq!(loaded.config.processes[0].command, "bash");
    assert_eq!(loaded.config.processes[0].args, vec![text("--flag=on")]);
}

#[test]
fn exit_template_resolves() {
    let config = |value: &str| {
        raw(vec![
            proc("a"),
            RawProcess {
                env: env(&[("EXP", value)]),
                depends_on: vec![on("a", RawCondition::ExitTemplate(text("${EXP}")))],
                ..proc("b")
            },
        ])
    };
    for (value, code) in [("0", 0), ("-7", -7), ("+3", 3)] {
        let loaded = load(&config(value)).ok().expect("should load");
        match &loaded.config.processes[1].depends_on[0].until {
            ReadinessCondition::Exit(got) => assert_eq!(*got, code),
            _ => panic!("expected Exit"),
        }
    }
    let err = refusal(&config("2147483648"));
    assert!(err.contains("is not a valid i32"), "got: {err}");
}

#[test]
fn unterminated_template_errors() {
    let config = raw(vec![RawProcess { args: vec![text("${BAD")], ..proc("a") }]);
    let err = refusal(&config);
    assert!(err.contains("unterminated"), "got: {err}");
    assert!(err.contains("args[0]"), "got: {err}");
}

#[test]
fn dynamic_port_flows_into_args_deps_and_env_with_highest_precedence() {
    let names = vec![text("API_PORT")];
    let resolution = resolve_dynamic_ports(&names, PortStore::new(), &[40123]).unwrap();
    assert_eq!(read_store(resolution.file.as_ref()).get("API_PORT"), Some(40123));
    let config = RawConfig {
        env_files: vec![],
        dynamic_ports: names,
        processes: vec![
            proc("db"),
            RawProcess {
                args: vec![text("${API_PORT}")],
                env: env(&[("API_PORT", "1111")]),
                depends_on: vec![on("db", RawCondition::PortTemplate(text("${API_PORT}")))],
                ..proc("api")
            },
        ],
    };
    let mut seen = facts(&config);
    seen.dynamic_ports = Ok(resolution.ports);
    seen.processes[1].sources.dotenv = Some(FileVars::Loaded(vars(&[("API_PORT", "9999")])));
    let loaded = Config::load(&config, &seen).ok().expect("should load");
    let api = &loaded.config.processes[1];
    assert_eq!(api.args, vec![text("40123")]);
    assert_eq!(port_of(&loaded, 1, 0), 40123);
    assert_eq!(get(&loaded.dynamic_ports, "API_PORT"), Some("40123"));
    let merged = build_env(&seen.processes[1].sources, &api.env, &api.dynamic_ports).unwrap();
    assert_eq!(get(&merged, "API_PORT"), Some("40123"));
}

#[test]
fn config_rejects_bad_dynamic_port_name() {
    let config = RawConfig {
        env_files: vec![],
        dynamic_ports: vec![text("1BAD")],
        processes: vec![proc("a")],
    };
    let mut seen = facts(&config);
    seen.dynamic_ports =
        resolve_dynamic_ports(&config.dynamic_ports, PortStore::new(), &[1]).map(|r| r.ports);
    let err = Config::load(&config, &seen).err().expect("should be refused").message();
    assert!(err.contains("dynamicPorts"), "got: {err}");
    assert!(err.contains("1BAD"), "got: {err}");
}

#[test]
fn config_rejects_duplicate_dynamic_port() {
    let config = RawConfig {
        env_files: vec![],
        dynamic_ports: vec![text("API_PORT"), text("API_PORT")],
        processes: vec![proc("a")],
    };
    let mut seen = facts(&config);
    seen.dynamic_ports = resolve_dynamic_ports(&config.dynamic_ports, PortStore::new(), &[1, 1])
        .map(|r| r.ports);
    let err = Config::load(&config, &seen).err().expect("should be refused").message();
    assert!(err.contains("duplicate entry: API_PORT"), "got: {err}");
}

// --- retry config ----------------------------------------------------------

fn load_one_process(retry: Option<RetryConfig>) -> Result<Config, String> {
    load(&raw(vec![RawProcess { retry, ..proc("a") }]))
        .map(|l| l.config)
        .map_err(|e| e.message())
}

fn retry(max_retries: u32, delay_ms: u64, max_delay_ms: Option<u64>) -> RetryConfig {
    RetryConfig { max_retries, strategy: BackoffStrategy::Exponential, delay_ms, max_delay_ms }
}

#[test]
fn retry_absent_is_none() {
    let config = load_one_process(None).ok().expect("should load");
    assert!(config.processes[0].retry.is_none());
}

#[test]
fn retry_all_fields_parse() {
    let config = load_one_process(Some(retry(5, 500, Some(30000)))).ok().expect("should load");
    let got = config.processes[0].retry.expect("retry set");
    assert_eq!(got.max_retries, 5);
    assert_eq!(got.strategy, BackoffStrategy::Exponential);
    assert_eq!(got.delay_ms, 500);
    assert_eq!(got.max_delay_ms, Some(30000));
}

#[test]
fn retry_zero_max_retries_rejected() {
    let err = load_one_process(Some(retry(0, 100, None))).err().unwrap();
    assert!(err.contains("maxRetries must be >= 1"), "got: {err}");
}

#[test]
fn retry_zero_delay_rejected() {
    let err = load_one_process(Some(retry(3, 0, None))).err().unwrap();
    assert!(err.contains("delayMs must be >= 1"), "got: {err}");
}

#[test]
fn retry_max_delay_below_delay_rejected() {
    let err = load_one_process(Some(retry(3, 1000, Some(500)))).err().unwrap();
    assert!(err.contains("must be >= delayMs"), "got: {err}");
    assert!(load_one_process(Some(retry(3, 1000, Some(1000)))).is_ok());
}

// --- tags ------------------------------------------------------------------

fn tagged(name: &str, tags: &[&str], deps: &[&str]) -> RawProcess {
    RawProcess {
        tags: tags.iter().map(|t| text(t)).collect(),
        depends_on: deps.iter().map(|d| on(d, RawCondition::Exit(0))).collect(),
        ..proc(name)
    }
}

fn stack() -> Vec<ProcessConfig> {
    let config = raw(vec![
        tagged("db", &[], &[]),
        tagged("cache", &["infra"], &[]),
        tagged("api", &["backend", "  "], &["db"]),
        tagged("web", &["frontend"], &["api"]),
    ]);
    load(&config).ok().expect("should load").config.processes
}

fn names(list: &[ProcessConfig]) -> Vec<&str> {
    list.iter().map(|p| p.name.as_str()).collect()
}

#[test]
fn tags_select_processes_and_what_they_wait_for() {
    let all = stack();
    assert_eq!(all[2].tags, vec![text("backend")], "blank tags are dropped");
    let picked = filter_by_tags(&all, &[text("backend")]).ok().unwrap();
    assert_eq!(names(&picked), ["db", "api"]);
    let picked = filter_by_tags(&all, &[text("frontend"), text("infra")]).ok().unwrap();
    assert_eq!(names(&picked), ["db", "cache", "api", "web"]);
}

#[test]
fn tags_that_no_process_carries_are_refused() {
    let err = filter_by_tags(&stack(), &[text("x"), text("y")]).err().unwrap();
    assert_eq!(err.message(), "no process carries any of the tags: x, y");
}
