use fast_mcp_ssh::config::{
    clone_host, config_dir, default_audit_path, default_config_path, default_connect_timeout,
    default_idle, default_keepalive, default_max_capture, default_max_channels,
    default_max_connections, default_output, default_port, default_true, default_truncate,
    duration_fits, parse_duration, with_expansion, AuthMethod, Config, Defaults, EnvVar, Host,
    Hosts, HumanDuration, OutputFmt, ShellEnv,
};
use fast_mcp_ssh::errors::{DetailValue, SshError, TransportFault};
use fast_mcp_ssh::ssh_config::SshConfig;

#[test]
fn parse_duration_units() {
    assert_eq!(parse_duration("30s").unwrap(), HumanDuration::from_secs(30));
    assert_eq!(parse_duration("15m").unwrap(), HumanDuration::from_secs(900));
    assert_eq!(parse_duration("2h").unwrap(), HumanDuration::from_secs(7200));
    assert_eq!(parse_duration("500ms").unwrap(), HumanDuration::from_millis(500));
    assert!(parse_duration("xyz").is_err());
}

fn host(addr: &str, user: &str) -> Host {
    Host {
        addr: addr.into(),
        user: user.into(),
        port: default_port(),
        auth: AuthMethod::Key,
        key: None,
        keys: None,
        guards: None,
        known_host_fingerprint: None,
        proxy_jump: None,
    }
}

fn config(hosts: Vec<(&str, Host)>) -> Config {
    let mut all = Hosts::new();
    for (name, h) in hosts {
        all = all.insert(name.into(), h);
    }
    Config {
        defaults: Defaults::with_audit_path("/tmp/audit.log".into()),
        hosts: all,
    }
}

/// The hosts of a document, with the defaults for what it leaves out.
fn from_document(raw: &str) -> Config {
    let doc: toml::Table = raw.parse().unwrap();
    let text = |t: &toml::Table, k: &str| t.get(k).and_then(|v| v.as_str()).map(str::to_string);
    let mut c = config(vec![]);
    if let Some(d) = doc.get("defaults").and_then(|v| v.as_table()) {
        c.defaults.default_host = text(d, "default_host");
        if let Some(o) = text(d, "output") {
            c.defaults.output = match o.as_str() {
                "json" => OutputFmt::Json,
                "text" => OutputFmt::Text,
                _ => OutputFmt::Toon,
            };
        }
        if let Some(t) = text(d, "session_idle_timeout") {
            c.defaults.session_idle_timeout = parse_duration(&t).unwrap();
        }
    }
    for (name, v) in doc["host"].as_table().unwrap() {
        let t = v.as_table().unwrap();
        let mut h = host(&text(t, "addr").unwrap(), &text(t, "user").unwrap());
        if let Some(p) = t.get("port").and_then(|v| v.as_integer()) {
            h.port = p as u16;
        }
        h.auth = match text(t, "auth").as_deref() {
            Some("agent") => AuthMethod::Agent,
            Some("password") => AuthMethod::Password,
            _ => AuthMethod::Key,
        };
        h.keys = t.get("keys").and_then(|v| v.as_array()).map(|a| {
            a.iter()
                .filter_map(|k| k.as_str().map(str::to_string))
                .collect()
        });
        c.hosts = c.hosts.insert(name.clone(), h);
    }
    c
}

#[test]
fn parse_minimal_toml() {
    let raw = r#"
        [host.test]
        addr = "1.2.3.4"
        user = "root"
    "#;
    let c = from_document(raw);
    assert_eq!(c.hosts.len(), 1);
    let h = c.hosts.get("test").unwrap();
    assert_eq!(h.port, 22);
    assert_eq!(h.user, "root");
    assert!(matches!(h.auth, AuthMethod::Key));
}

#[test]
fn validate_rejects_unknown_default_host() {
    let raw = r#"
        [defaults]
        default_host = "nope"

        [host.real]
        addr = "1.2.3.4"
        user = "root"
    "#;
    let c = from_document(raw);
    let err = c.validate().unwrap_err();
    assert!(err.message().contains("default_host"), "got: {}", err.message());
}

#[test]
fn validate_rejects_auth_key_without_key() {
    let raw = r#"
        [host.k]
        addr = "1.2.3.4"
        user = "root"
        auth = "key"
    "#;
    let c = from_document(raw);
    let err = c.validate().unwrap_err();
    assert!(err.message().contains("auth"), "got: {}", err.message());
}

#[test]
fn validate_accepts_multi_keys() {
    let raw = r#"
        [host.k]
        addr = "1.2.3.4"
        user = "root"
        auth = "key"
        keys = ["~/a", "~/b"]
    "#;
    let c = from_document(raw);
    c.validate().expect("ok");
    let h = c.hosts.get("k").unwrap();
    assert_eq!(h.all_keys().len(), 2);
}

#[test]
fn parse_full_toml() {
    let raw = r#"
        [defaults]
        output = "json"
        session_idle_timeout = "5m"

        [host.box1]
        addr = "10.0.0.1"
        user = "ops"
        port = 2222
        auth = "agent"
    "#;
    let c = from_document(raw);
    assert_eq!(c.defaults.output, OutputFmt::Json);
    assert_eq!(c.defaults.session_idle_timeout, HumanDuration::from_secs(300));
    let h = c.hosts.get("box1").unwrap();
    assert_eq!(h.port, 2222);
    assert!(matches!(h.auth, AuthMethod::Agent));
}

#[test]
fn durations_without_a_known_unit_are_refused() {
    for s in ["", "ms", "-5s", "1.5s", "5y"] {
        assert!(parse_duration(s).is_err(), "{s:?}");
    }
    assert_eq!(parse_duration(" 5 ").unwrap(), HumanDuration::from_secs(5));
    assert_eq!(parse_duration("2 days").unwrap(), HumanDuration::from_secs(172_800));
    assert!(duration_fits("2h"));
    assert!(!duration_fits("18446744073709551615h"));
    assert_eq!(HumanDuration::from_millis(1500).as_millis(), 1500);
}

#[test]
fn a_host_needs_an_address_and_a_user() {
    let mut h = host(" ", "root");
    h.auth = AuthMethod::Agent;
    assert!(matches!(
        config(vec![("a", h)]).validate(),
        Err(SshError::Config(m)) if m == "host 'a': addr is empty"
    ));
    let mut h = host("1.2.3.4", "");
    h.auth = AuthMethod::Agent;
    assert!(matches!(
        config(vec![("a", h)]).validate(),
        Err(SshError::Config(m)) if m == "host 'a': user is empty"
    ));
}

#[test]
fn a_host_is_found_by_its_name() {
    let c = config(vec![("b", host("2", "u")), ("a", host("1", "u"))]);
    assert_eq!(c.host("a").unwrap().addr, "1");
    assert!(matches!(c.host("z"), Err(SshError::UnknownHost(n)) if n == "z"));
    assert_eq!(c.host_names(), vec!["a", "b"]);
    assert_eq!(c.hosts.name_at(0), "b");
    assert_eq!(c.hosts.host_at(0).addr, "2");
    assert!(c.hosts.contains("a"));
}

#[test]
fn a_key_is_listed_once() {
    let mut h = host("1", "u");
    h.key = Some("~/a".into());
    h.keys = Some(vec!["~/b".into(), "~/a".into(), "~/b".into()]);
    assert_eq!(h.all_keys(), vec!["~/a", "~/b"]);
    assert_eq!(clone_host(&h).keys, h.keys);
}

#[test]
fn keys_are_told_apart_by_their_components() {
    let mut h = host("1", "u");
    let mut keys = |key: &str, more: &[&str], windows: bool| {
        h.key = Some(key.into());
        h.keys = Some(more.iter().map(|k| k.to_string()).collect());
        h.all_keys_on(windows)
    };
    assert_eq!(keys("/k/a", &["/k//a", "/k/./a", "/k/a/", "//k/a"], false), vec!["/k/a"]);
    assert_eq!(keys("/k/a", &["k/a", "/k/../a"], false), vec!["/k/a", "k/a", "/k/../a"]);
    assert_eq!(keys("./a", &["a", "./a/."], false), vec!["./a", "a"]);
    assert_eq!(keys("/k/a", &["/K/a", "\\k\\a"], false), vec!["/k/a", "/K/a", "\\k\\a"]);
    assert_eq!(keys("C:\\k\\a", &["c:/k/a", "C:\\k\\\\a"], true), vec!["C:\\k\\a"]);
    assert_eq!(keys("C:\\k\\a", &["C:k\\a", "D:\\k\\a", "C:\\K\\a"], true).len(), 4);
    assert_eq!(keys("\\\\s\\d\\a", &["//s/d/a", "//s/e/a"], true).len(), 2);
    assert_eq!(keys("C:\\k\\a", &["c:/k/a"], false).len(), 2);
    h.key = Some("/k/a".into());
    h.keys = Some(vec!["/k//a".into()]);
    assert_eq!(h.all_keys(), vec!["/k/a"]);
}

#[test]
fn host_names_are_sorted_and_distinct() {
    let c = config(vec![("b", host("2", "u")), ("c", host("3", "u")), ("a", host("1", "u"))]);
    assert_eq!(c.host_names(), vec!["a", "b", "c"]);
    let c = config(vec![("b", host("2", "u")), ("a", host("1", "u")), ("b", host("3", "u"))]);
    assert_eq!(c.host_names(), vec!["a", "b"]);
}

#[test]
fn the_defaults_are_what_they_were() {
    let d = Defaults::with_audit_path("/tmp/audit.log".into());
    assert!(d.import_ssh_config == default_true());
    assert_eq!(d.output, default_output());
    assert_eq!(d.session_idle_timeout, default_idle());
    assert_eq!(d.keepalive, default_keepalive());
    assert_eq!(d.connect_timeout, default_connect_timeout());
    assert_eq!(d.truncate_bytes, default_truncate());
    assert_eq!(d.max_capture_bytes, default_max_capture());
    assert_eq!(d.max_channels_per_host, default_max_channels());
    assert_eq!(d.max_connections_per_host, default_max_connections());
    assert_eq!(d.confirm_ttl.as_millis(), 0);
    assert_eq!(default_idle(), HumanDuration::from_secs(900));
    assert_eq!(default_max_channels(), 8);
}

#[test]
fn the_config_directory_can_be_named() {
    assert_eq!(config_dir(Some("/etc/x"), Some("/home/a")), "/etc/x");
    assert_eq!(config_dir(None, Some("/home/a")), "/home/a/.fast-mcp-ssh");
    assert_eq!(
        default_config_path(None, Some("/home/a")),
        "/home/a/.fast-mcp-ssh/hosts.toml"
    );
    assert_eq!(
        default_audit_path(None, Some("/home/a")),
        "/home/a/.fast-mcp-ssh/audit.log"
    );
}

fn shell_env(home: Option<&str>, windows: bool) -> ShellEnv {
    let var = |name: &str, value: &str| EnvVar {
        name: name.into(),
        value: value.into(),
    };
    ShellEnv {
        home: home.map(str::to_string),
        vars: vec![var("KEYS", "/keys"), var("KEYS", "/other"), var("T", "~")],
        windows,
    }
}

/// The key path `key` once it was expanded.
fn expanded(key: &str, env: &ShellEnv) -> String {
    let mut h = host("1", "u");
    h.key = Some(key.into());
    let c = config(vec![("a", h)]).expand_paths(env);
    c.hosts.get("a").unwrap().key.clone().unwrap()
}

#[test]
fn a_home_directory_and_variables_are_expanded() {
    let env = shell_env(Some("/home/a"), false);
    assert_eq!(expanded("~/.ssh/id", &env), "/home/a/.ssh/id");
    assert_eq!(expanded("~", &env), "/home/a");
    assert_eq!(expanded("~bob/id", &env), "~bob/id");
    assert_eq!(expanded("$KEYS/id", &env), "/keys/id");
    assert_eq!(expanded("~/${KEYS}/id", &env), "/home/a//keys/id");
    assert_eq!(expanded("${NONE:-x}/id", &env), "x/id");
    // A `~` out of a variable names no home directory.
    assert_eq!(expanded("$T/id", &env), "~/id");
    // What cannot be expanded stays, the `~` with it.
    assert_eq!(expanded("~/$NONE/id", &env), "~/$NONE/id");
    assert_eq!(expanded("~/id", &shell_env(None, false)), "~/id");
}

#[test]
fn every_path_of_a_config_is_expanded() {
    let mut h = host("$KEYS", "~");
    h.keys = Some(vec!["~/a".into(), "/b".into(), "$KEYS/c".into()]);
    let mut c = config(vec![("x", h), ("y", host("2", "u"))]);
    c.defaults.audit_log_path = "~/audit.log".into();
    let c = c.expand_paths(&shell_env(Some("/home/a"), false));
    assert_eq!(c.defaults.audit_log_path, "/home/a/audit.log");
    let x = c.hosts.get("x").unwrap();
    assert_eq!(x.all_keys(), vec!["/home/a/a", "/b", "/keys/c"]);
    assert_eq!((x.addr.as_str(), x.user.as_str()), ("$KEYS", "~"));
    assert!(c.hosts.get("y").unwrap().key.is_none());
}

#[test]
fn a_variable_is_found_by_its_name() {
    let env = shell_env(None, false);
    assert_eq!(env.lookup("KEYS"), Ok(Some("/keys".into())));
    assert_eq!(env.lookup("keys"), Err(()));
    assert_eq!(env.lookup(""), Err(()));
    assert_eq!(shell_env(None, true).lookup("keys"), Ok(Some("/keys".into())));
}

#[test]
fn paths_without_variables_stay_as_they_are() {
    let mut h = host("1", "u");
    h.key = Some("/keys/id".into());
    let c = config(vec![("a", h)]).expand_paths(&shell_env(Some("/home/a"), false));
    assert_eq!(c.hosts.get("a").unwrap().key.as_deref(), Some("/keys/id"));
    assert_eq!(with_expansion("$X/a".into(), Some("/x/a".into())), "/x/a");
    assert_eq!(with_expansion("$X/a".into(), None), "$X/a");
}

#[test]
fn imported_hosts_do_not_replace_declared_ones() {
    let c = config(vec![("web", host("1.2.3.4", "root"))]);
    let ssh = SshConfig::parse_str(
        "Host web db\n  HostName 9.9.9.9\n  User u\n  Port 2022\n  IdentityFile ~/.ssh/k\n",
    );
    let c = c.merge_ssh_config(&ssh);
    assert_eq!(c.hosts.get("web").unwrap().addr, "1.2.3.4");
    let db = c.hosts.get("db").unwrap();
    assert_eq!((db.addr.as_str(), db.user.as_str(), db.port), ("9.9.9.9", "u", 2022));
    assert_eq!(db.all_keys(), vec!["~/.ssh/k"]);
}

#[test]
fn every_error_is_reported_under_its_kind() {
    let cases: Vec<(SshError, i32, &str, &str)> = vec![
        (SshError::UnknownHost("h".into()), -32602, "unknown_host", "check_input"),
        (SshError::Config("c".into()), -32602, "config", "check_input"),
        (SshError::PasswordRequired("h".into()), -32602, "password_required", "check_input"),
        (
            SshError::BlockedByGuard { name: "n".into(), pattern: "p".into() },
            -32001,
            "guard_blocked",
            "edit_config",
        ),
        (SshError::ConfirmationDenied, -32002, "confirmation_denied", "ask_user"),
        (SshError::Timeout(5), -32003, "timeout", "retry_later"),
        (
            SshError::FingerprintMismatch {
                host: "h".into(),
                expected: "a".into(),
                actual: "b".into(),
            },
            -32004,
            "fingerprint_mismatch",
            "unrecoverable",
        ),
        (
            SshError::AuthFailed { user: "u".into(), host: "h".into() },
            -32005,
            "auth_failed",
            "ask_user",
        ),
        (SshError::ChannelLimit { limit: 8, waited_ms: 9 }, -32603, "channel_limit", "retry_later"),
        (SshError::Io("x".into()), -32603, "internal", "retry_later"),
        (SshError::Sftp("x".into()), -32603, "internal", "retry_later"),
        (SshError::Regex("x".into()), -32603, "internal", "check_input"),
        (SshError::Toml("x".into()), -32603, "internal", "check_input"),
        (SshError::Other("x".into()), -32603, "internal", "retry_later"),
        (
            SshError::Russh { fault: TransportFault::Disconnected, message: "gone".into() },
            -32603,
            "disconnected",
            "retry_later",
        ),
    ];
    for (e, code, kind, recovery) in cases {
        let message = e.message();
        let m = e.into_mcp();
        assert_eq!(m.kind, kind, "{message}");
        assert_eq!(m.code, code, "{message}");
        assert_eq!(m.recovery, recovery, "{message}");
    }
}

#[test]
fn an_error_carries_its_details() {
    let m = SshError::BlockedByGuard {
        name: "rm-rf-root".into(),
        pattern: "rm".into(),
    }
    .into_mcp();
    assert_eq!(m.message, "blocked by guard 'rm-rf-root': rm");
    assert!(m
        .details
        .iter()
        .any(|d| matches!(&d.value, DetailValue::Text(t) if t == "rm-rf-root")));
}
