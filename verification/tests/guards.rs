use fast_mcp_ssh::config::{
    default_confirm_patterns, default_deny_patterns, AuthMethod, Config, Defaults, Guards, Host,
    Hosts, NamedPattern,
};
use fast_mcp_ssh::errors::SshError;
use fast_mcp_ssh::guards::command::{looks_writeful, parse_segments};
use fast_mcp_ssh::guards::pattern::{CompiledPattern, PatternBank};
use fast_mcp_ssh::guards::{CompiledGuards, GuardCache, GuardCheck};
use fast_mcp_ssh::paths::{
    expand_tilde, is_absolute, is_covered_by, join_local, join_path, lexical_normalize,
    names_filesystem, normalize_local, resolve_local_path, slashed, split_last_name, LocalEnv,
    RealDir,
};

fn env() -> LocalEnv {
    LocalEnv {
        home: Some("/home/alice".into()),
        cwd: Some("/work".into()),
        windows: false,
        real_dirs: vec![],
    }
}


#[test]
fn deny_rm_rf_root() {
    let g = CompiledGuards::compile(&Guards::default(), &env()).unwrap();
    assert!(matches!(g.check("rm -rf /"), GuardCheck::Deny { .. }));
    assert!(matches!(g.check("rm -rf /usr"), GuardCheck::Deny { .. }));
    assert!(matches!(g.check("rm -rf ./tmp"), GuardCheck::Allow));
}

#[test]
fn deny_rm_rf_root_bypass_attempts() {
    let g = CompiledGuards::compile(&Guards::default(), &env()).unwrap();
    for cmd in [
        "rm -rf '/'",
        "rm -rf \"/\"",
        "rm -rf //",
        "rm -rf /*",
        "rm -rf -- /",
        "RM -rf /",
        "rm --recursive --force /",
        "rm -fr /",
        "rm -Rf /",
    ] {
        assert!(
            matches!(g.check(cmd), GuardCheck::Deny { .. }),
            "should deny: {cmd:?}"
        );
    }
    for cmd in [
        "rm ./tmp",
        "rm -rf ~/tmp",
        "rm foo/bar",
        "ls /",
        // Deeper absolute paths are legitimate day-to-day deletes; the
        // guard only covers root itself and first-level root dirs.
        "rm -f /tmp/t.log",
        "rm -rf /tmp/bench-mkdir",
        "rm -rf /home/user/project/target",
    ] {
        assert!(
            !matches!(g.check(cmd), GuardCheck::Deny { .. }),
            "should allow: {cmd:?}"
        );
    }
    // Root dir with trailing slash still denied.
    assert!(matches!(g.check("rm -rf /etc/"), GuardCheck::Deny { .. }));
}

#[test]
fn confirm_shutdown() {
    let g = CompiledGuards::compile(&Guards::default(), &env()).unwrap();
    match g.check("sudo shutdown -h now") {
        GuardCheck::Confirm { pattern_name } => assert_eq!(pattern_name, "shutdown"),
        other => panic!("expected confirm, got {other:?}"),
    }
}

#[test]
fn read_only_blocks_write() {
    let gc = Guards {
        read_only: true,
        ..Default::default()
    };
    let g = CompiledGuards::compile(&gc, &env()).unwrap();
    assert!(matches!(g.check("rm /tmp/foo"), GuardCheck::Deny { .. }));
    assert!(matches!(g.check("ls /tmp"), GuardCheck::Allow));
}

#[test]
fn read_only_no_substring_false_positives() {
    // The previous `lc.contains("rm ")` substring check tripped on quoted echos.
    // Tokenization should accept these on a read_only host.
    let gc = Guards {
        read_only: true,
        ..Default::default()
    };
    let g = CompiledGuards::compile(&gc, &env()).unwrap();
    for cmd in [
        "echo 'rm '",
        "echo \"rm test\"",
        "grep 'mv foo' /var/log/syslog",
        "ls -la 'has > sign'",
        "cat /tmp/firmware.bin",
    ] {
        assert!(
            !matches!(g.check(cmd), GuardCheck::Deny { .. }),
            "should allow: {cmd:?}"
        );
    }
}

#[test]
fn read_only_blocks_no_space_redirects() {
    // `cmd>file` (no spaces) bypassed the old substring check.
    let gc = Guards {
        read_only: true,
        ..Default::default()
    };
    let g = CompiledGuards::compile(&gc, &env()).unwrap();
    for cmd in [
        "echo hi>file",
        "echo hi >file",
        "echo hi> file",
        "tail -f log >> out",
    ] {
        assert!(
            matches!(g.check(cmd), GuardCheck::Deny { .. }),
            "should deny: {cmd:?}"
        );
    }
}

#[test]
fn read_only_pipeline_segments() {
    let gc = Guards {
        read_only: true,
        ..Default::default()
    };
    let g = CompiledGuards::compile(&gc, &env()).unwrap();
    // Read in first segment, write in second — still writes overall.
    assert!(matches!(
        g.check("ls /tmp | tee out"),
        GuardCheck::Deny { .. }
    ));
    // All-read pipeline.
    assert!(!matches!(
        g.check("cat /etc/hostname | head -c 16"),
        GuardCheck::Deny { .. }
    ));
}

#[test]
fn dd_disk_blocked() {
    let g = CompiledGuards::compile(&Guards::default(), &env()).unwrap();
    assert!(matches!(
        g.check("dd if=/dev/zero of=/dev/sda"),
        GuardCheck::Deny { .. }
    ));
}

#[test]
fn forkbomb_blocked() {
    let g = CompiledGuards::compile(&Guards::default(), &env()).unwrap();
    assert!(matches!(g.check(":(){ :|:& };:"), GuardCheck::Deny { .. }));
}

#[test]
fn allow_simple_ls() {
    let g = CompiledGuards::compile(&Guards::default(), &env()).unwrap();
    assert_eq!(g.check("ls -la /etc"), GuardCheck::Allow);
}

#[test]
fn sftp_read_blocks_sensitive_paths() {
    let g = CompiledGuards::compile(&Guards::default(), &env()).unwrap();
    for path in [
        "/etc/shadow",
        "/etc/sudoers",
        "/etc/sudoers.d/01_users",
        "/root/.ssh/id_rsa",
        "/home/alice/.ssh/id_ed25519",
        "/home/alice/.aws/credentials",
        "/home/alice/.kube/config",
        "/home/alice/.docker/config.json",
        "/home/alice/.config/gcloud/credentials.json",
        "/home/alice/.netrc",
        "/home/alice/.pgpass",
        "/etc/ssh/ssh_host_rsa_key",
        "/proc/123/environ",
    ] {
        assert!(g.check_sftp_read(path).is_err(), "should block: {path}");
    }
}

#[test]
fn sftp_read_allows_safe_paths() {
    let g = CompiledGuards::compile(&Guards::default(), &env()).unwrap();
    for path in [
        "/etc/hostname",
        "/var/log/syslog",
        "/home/alice/.ssh/authorized_keys",
        "/home/alice/.ssh/id_rsa.pub",
        "/home/alice/notes.txt",
    ] {
        assert!(g.check_sftp_read(path).is_ok(), "should allow: {path}");
    }
}

#[test]
fn sftp_read_blocks_added_paths() {
    let g = CompiledGuards::compile(&Guards::default(), &env()).unwrap();
    for path in [
        "/proc/1/environ",
        "/etc/sudoers",
        "/home/alice/.config/gcloud/access_tokens.db",
        "/home/alice/.azure/msal_token_cache.json",
        "/home/alice/.git-credentials",
    ] {
        assert!(g.check_sftp_read(path).is_err(), "should block: {path}");
    }
    for path in ["/home/alice/.config/nvim/init.lua", "/proc/cpuinfo"] {
        assert!(g.check_sftp_read(path).is_ok(), "should allow: {path}");
    }
}

#[test]
fn sftp_write_blocks_sensitive_paths() {
    let g = CompiledGuards::compile(&Guards::default(), &env()).unwrap();
    for path in [
        // The two bypasses the old `.ssh/(authorized_keys|known_hosts|id_*)`
        // list left open.
        "/home/alice/.ssh/authorized_keys2",
        "/home/alice/.ssh/rc",
        "/home/alice/.ssh/config",
        "/etc/ld.so.preload",
        "/etc/ld.so.conf.d/local.conf",
        "/var/spool/cron/crontabs/root",
        "/etc/cron.d/backup",
        "/etc/sudoers",
        "/etc/sudoers.d/90-cloud",
        "/lib/systemd/system/ssh.service",
        "/usr/lib/systemd/system/ssh.service",
        "/etc/systemd/system/evil.service",
        "/etc/profile.d/evil.sh",
        "/etc/pam.d/sshd",
        "/root/.ssh/authorized_keys",
    ] {
        assert!(g.check_sftp_write(path).is_err(), "should block: {path}");
    }
}

#[test]
fn sftp_write_allows_safe_paths() {
    let g = CompiledGuards::compile(&Guards::default(), &env()).unwrap();
    for path in [
        "/tmp/deploy.sh",
        "/home/alice/project/src/main.rs",
        "/var/spooled/notes.txt",
        "/opt/app/config.yaml",
        "/home/alice/.ssh_backup_notes",
    ] {
        assert!(g.check_sftp_write(path).is_ok(), "should allow: {path}");
    }
}

/// Guards with no allowlist: what every host gets until the operator
/// writes one down.
fn local_guards() -> CompiledGuards {
    CompiledGuards::compile(&Guards::default(), &env()).expect("default guards compile")
}

#[test]
fn local_write_blocks_startup_and_credential_paths() {
    let g = local_guards();
    for path in [
        "/home/alice/.bashrc",
        "/home/alice/.bash_profile",
        "/home/alice/.profile",
        "/home/alice/.zshrc",
        "/home/alice/.zshenv",
        "/home/alice/.zprofile",
        "/home/alice/.config/fish/config.fish",
        "/home/alice/.ssh/authorized_keys",
        "/home/alice/.ssh/config",
        "/home/alice/.gitconfig",
        "/home/alice/.npmrc",
        "/home/alice/.pypirc",
        "/home/alice/.netrc",
        "/home/alice/.aws/credentials",
        "/home/alice/.config/gcloud/settings.json",
        "/home/alice/.kube/config",
        "/home/alice/.docker/config.json",
        "/var/spool/cron/crontabs/alice",
        "/etc/cron.d/job",
        "C:/Users/alice/AppData/Roaming/Microsoft/Windows/Start Menu/Programs/Startup/x.bat",
    ] {
        assert!(
            g.check_local_write(path).is_err(),
            "should block: {path}"
        );
    }
}

#[test]
fn local_write_allows_ordinary_paths() {
    let g = local_guards();
    for path in [
        "/home/alice/downloads/report.pdf",
        "/tmp/out.log",
        "/home/alice/project/.env.example.txt",
        "C:/Users/alice/Downloads/build.zip",
    ] {
        assert!(
            g.check_local_write(path).is_ok(),
            "should allow: {path}"
        );
    }
}

#[test]
fn local_write_blocks_parent_traversal() {
    // `..` in the argument must not dodge the match. The middle component
    // is deliberately non-existent so the lexical fallback is exercised on
    // every platform.
    let raw = "~/fast-mcp-ssh-no-such-dir/../.bashrc";
    let resolved = resolve_local_path(raw, &env());
    assert!(
        local_guards().check_local_write(&resolved).is_err(),
        "traversal should still hit the guard: {}",
        resolved
    );
}

#[test]
fn local_write_blocks_home_dotrc_catchall() {
    let g = local_guards();
    let home = env().home.unwrap();
    assert!(g.check_local_write(&format!("{home}/.vimrc")).is_err());
    assert!(g.check_local_write(&format!("{home}/.inputrc")).is_err());
    // Same name outside home is nobody's startup file.
    assert!(
        g.check_local_write("/tmp/scratch/.vimrc")
            .is_ok()
    );
    // Not an rc file.
    assert!(g.check_local_write(&format!("{home}/.vimrc.bak")).is_ok());
}

#[test]
fn local_read_blocks_secrets() {
    let g = local_guards();
    for path in [
        "/home/alice/.ssh/id_rsa",
        "/home/alice/.ssh/id_ed25519",
        "/home/alice/keys/server.pem",
        "/home/alice/keys/server.key",
        "/home/alice/.aws/credentials",
        "/home/alice/.config/gcloud/credentials.db",
        "/home/alice/.kube/config",
        "/home/alice/.docker/config.json",
        "/home/alice/.netrc",
        "/home/alice/.npmrc",
        "/home/alice/.pypirc",
        "/home/alice/.mozilla/firefox/p/cookies.sqlite",
        "C:/Users/alice/AppData/Local/Google/Chrome/User Data/Default/Login Data",
        "C:/Users/alice/AppData/Local/Google/Chrome/User Data/Default/Cookies",
        "/home/alice/app/.env",
        "/home/alice/app/.env.production",
    ] {
        assert!(
            g.check_local_read(path).is_err(),
            "should block: {path}"
        );
    }
}

#[test]
fn local_read_allows_ordinary_paths() {
    let g = local_guards();
    for path in [
        "/home/alice/.ssh/id_rsa.pub",
        "/home/alice/.ssh/known_hosts",
        "/home/alice/project/main.rs",
        "/home/alice/project/env.example",
        "/tmp/build.tar.gz",
    ] {
        assert!(
            g.check_local_read(path).is_ok(),
            "should allow: {path}"
        );
    }
}

/// Guards holding one read exception, plus the resolver the call sites
/// run before the guard. Both sides go through `resolve_local_path` so the
/// test says the same thing on Windows, where a rootless `/srv/...` picks
/// up the current drive.
fn read_allow(entry: &str) -> CompiledGuards {
    let gc = Guards {
        local_read_allow: vec![entry.into()],
        ..Default::default()
    };
    CompiledGuards::compile(&gc, &env()).expect("allowlist compiles")
}

#[test]
fn local_read_allow_exempts_the_listed_file_only() {
    let g = read_allow("/srv/deploy/admin.key");
    assert!(
        g.check_local_read(&resolve_local_path("/srv/deploy/admin.key", &env()))
            .is_ok()
    );
    // Sibling secret in the same directory is still blocked.
    assert!(
        g.check_local_read(&resolve_local_path("/srv/deploy/other.key", &env()))
            .is_err()
    );
    // A path that only shares a textual prefix is not "under" the entry.
    assert!(
        g.check_local_read(&resolve_local_path("/srv/deploy/admin.keyring.pem", &env()))
            .is_err()
    );
}

#[test]
fn local_read_allow_covers_a_directory_subtree() {
    let g = read_allow("/srv/deploy/");
    assert!(
        g.check_local_read(&resolve_local_path("/srv/deploy/admin.key", &env()))
            .is_ok()
    );
    assert!(
        g.check_local_read(&resolve_local_path("/srv/deploy/sub/github.key", &env()))
            .is_ok()
    );
    assert!(
        g.check_local_read(&resolve_local_path("/srv/other/admin.key", &env()))
            .is_err()
    );
}

#[test]
fn local_write_allow_is_separate_from_read() {
    // Allowing a read never grants the write side.
    let g = read_allow("/srv/deploy");
    assert!(
        g.check_local_write(&resolve_local_path("/srv/deploy/.bashrc", &env()))
            .is_err()
    );
}

#[test]
fn local_allow_refuses_entries_that_open_everything() {
    for entry in ["/", "~", "  ", "/srv/*.key"] {
        let gc = Guards {
            local_read_allow: vec![entry.into()],
            ..Default::default()
        };
        assert!(
            CompiledGuards::compile(&gc, &env()).is_err(),
            "should refuse entry: {entry:?}"
        );
    }
}

#[test]
fn local_allow_entry_survives_traversal_in_the_call() {
    // The call site resolves before the guard, so `..` cannot walk out of
    // the allowed subtree and back into a protected one.
    let g = read_allow("/srv/deploy");
    let escaped = resolve_local_path("/srv/deploy/../secrets/admin.key", &env());
    assert!(g.check_local_read(&escaped).is_err());
}

#[test]
fn lexical_normalize_drops_traversal() {
    assert_eq!(
        slashed(&lexical_normalize("/a/b/../c/./d")),
        "/a/c/d"
    );
    // Popping past the root stays at the root rather than escaping.
    assert_eq!(slashed(&lexical_normalize("/../../etc")), "/etc");
}

#[test]
fn deny_is_checked_before_confirm() {
    let gc = Guards {
        deny: vec![NamedPattern {
            name: "no-reboot".into(),
            pattern: "reboot".into(),
        }],
        ..Default::default()
    };
    let g = CompiledGuards::compile(&gc, &env()).unwrap();
    assert_eq!(
        g.check("reboot"),
        GuardCheck::Deny {
            pattern_name: "no-reboot".into(),
            pattern: "reboot".into()
        }
    );
}

#[test]
fn a_pattern_that_is_no_regex_is_reported() {
    let gc = Guards {
        deny: vec![NamedPattern {
            name: "bad".into(),
            pattern: "(".into(),
        }],
        ..Default::default()
    };
    assert!(matches!(
        CompiledGuards::compile(&gc, &env()),
        Err(SshError::Config(m)) if m.starts_with("bad regex in guard 'bad': ")
    ));
}

#[test]
fn a_bank_gives_the_first_pattern_that_matches() {
    let bank = PatternBank::new(vec![
        CompiledPattern {
            name: "a".into(),
            pattern: "^x".into(),
        },
        CompiledPattern {
            name: "b".into(),
            pattern: "x".into(),
        },
    ])
    .unwrap();
    assert_eq!(bank.matched("xy").map(|p| p.name.as_str()), Some("a"));
    assert_eq!(bank.matched("yx").map(|p| p.name.as_str()), Some("b"));
    assert!(bank.matched("z").is_none());
}

#[test]
fn the_default_patterns_are_named() {
    assert!(default_deny_patterns().iter().any(|p| p.name == "rm-rf-root"));
    assert!(default_confirm_patterns().iter().any(|p| p.name == "shutdown"));
}

#[test]
fn commands_split_into_segments() {
    let s = parse_segments("ls -la | tee 'a b' && echo \"x;y\" > out");
    let firsts: Vec<Option<&str>> = s.iter().map(|x| x.first.as_deref()).collect();
    assert_eq!(firsts, vec![Some("ls"), Some("tee"), Some("echo")]);
    assert!(s[2].has_redirect);
    assert!(!s[0].has_redirect);
    assert_eq!(s[0].second.as_deref(), Some("-la"));
}

#[test]
fn writes_are_told_from_reads() {
    assert!(looks_writeful("RM x"));
    assert!(looks_writeful("ls; git push"));
    assert!(looks_writeful("pacman -S vim"));
    assert!(looks_writeful("sudo; pacman -Syu"));
    assert!(looks_writeful("PACMAN -R vim"));
    assert!(!looks_writeful("pacman -Ss vim"));
    assert!(looks_writeful("echo hi >> f"));
    assert!(!looks_writeful("cat f | grep x"));
}

fn host(guards: Option<Guards>) -> Host {
    Host {
        addr: "1.2.3.4".into(),
        user: "root".into(),
        port: 22,
        auth: AuthMethod::Agent,
        key: None,
        keys: None,
        guards,
        known_host_fingerprint: None,
        proxy_jump: None,
    }
}

#[test]
fn a_host_has_its_own_guards_or_the_global_ones() {
    let read_only = Guards {
        read_only: true,
        ..Default::default()
    };
    let hosts = Hosts::new()
        .insert("locked".into(), host(Some(read_only)))
        .insert("open".into(), host(None));
    let cfg = Config {
        defaults: Defaults::with_audit_path("/tmp/audit.log".into()),
        hosts,
    };
    let cache = GuardCache::build(&cfg, &env()).unwrap();
    assert!(matches!(
        cache.for_host("locked").check("touch x"),
        GuardCheck::Deny { .. }
    ));
    assert_eq!(cache.for_host("open").check("touch x"), GuardCheck::Allow);
    assert_eq!(cache.for_host("unheard-of").check("touch x"), GuardCheck::Allow);
    assert!(cache.for_host("locked").is_read_only());
}

#[test]
fn local_paths_are_made_absolute() {
    assert_eq!(resolve_local_path("~/a", &env()), "/home/alice/a");
    assert_eq!(resolve_local_path("b/./c", &env()), "/work/b/c");
    assert_eq!(expand_tilde("~user", &Some("/h".into()), false), "~user");
    assert!(is_absolute("/x", false));
    assert!(!is_absolute("C:/x", false));
    assert!(is_absolute("C:/x", true));
    assert_eq!(join_path("/a", "b"), "/a/b");
    assert_eq!(join_path("/a", "/b"), "/b");
}

fn windows() -> LocalEnv {
    LocalEnv {
        home: Some("C:\\Users\\alice".into()),
        cwd: Some("D:\\work".into()),
        windows: true,
        real_dirs: vec![],
    }
}

#[test]
fn a_windows_path_has_a_drive() {
    assert!(!is_absolute("/x", true));
    assert!(!is_absolute("C:x", true));
    assert!(is_absolute("\\\\server\\share", true));
    assert!(!is_absolute("//server", true));
    let e = windows();
    assert_eq!(resolve_local_path("/x/y", &e), "D:/x/y");
    assert_eq!(resolve_local_path("x\\..\\y", &e), "D:/work/y");
    assert_eq!(resolve_local_path("..\\..\\..\\y", &e), "D:/y");
    assert_eq!(resolve_local_path("C:\\a\\..\\..\\b", &e), "C:/b");
    assert_eq!(resolve_local_path("~\\.bashrc", &e), "C:/Users/alice/.bashrc");
    assert_eq!(resolve_local_path("\\\\srv\\data\\a\\..\\..\\b", &e), "//srv/data/b");
    assert_eq!(join_local("C:/a", "/b", true), "C:/b");
    assert_eq!(join_local("C:/a", "D:b", true), "D:b");
    assert_eq!(join_local("C:", "b", true), "C:b");
    assert_eq!(join_local("/a", "b", false), "/a/b");
    assert_eq!(normalize_local("/a/../b", false), "/b");
}

#[test]
fn a_windows_directory_is_followed() {
    let mut e = windows();
    e.real_dirs.push(RealDir {
        dir: "C:/link/".into(),
        target: "\\\\?\\C:\\Users\\alice\\.ssh".into(),
    });
    assert_eq!(e.directory_of("C:\\link\\id").as_deref(), Some("C:/link/"));
    assert_eq!(e.directory_of("C:\\"), None);
    let p = resolve_local_path("C:\\link\\id_rsa", &e);
    assert_eq!(p, "C:/Users/alice/.ssh/id_rsa");
    let g = CompiledGuards::compile(&Guards::default(), &e).unwrap();
    assert!(g.check_local_read(&p).is_err());
}

#[test]
fn an_allowlist_refuses_every_kind_of_root() {
    let with = |entry: &str, env: &LocalEnv| {
        let gc = Guards {
            local_read_allow: vec![entry.into()],
            ..Default::default()
        };
        CompiledGuards::compile(&gc, env)
    };
    for entry in ["C:\\", "c:/", "C:", "C:\\a\\..", "\\", "\\\\srv\\data", "//srv/data/"] {
        assert!(
            matches!(
                with(entry, &windows()),
                Err(SshError::Config(m)) if m.contains("a filesystem root allows everything")
            ),
            "accepted {entry}"
        );
    }
    assert!(with("C:\\deploy", &windows()).is_ok());
    assert!(with("//srv/data/deploy", &windows()).is_ok());
    assert!(with("/", &env()).is_err());
    assert!(with("/srv/..", &env()).is_err());
    // Without drives this is a name like any other.
    assert!(with("/c:", &env()).is_ok());
    assert!(names_filesystem("/", false));
    assert!(!names_filesystem("C:/", false));
}

#[test]
fn a_linked_directory_is_followed() {
    let mut e = env();
    e.real_dirs.push(RealDir {
        dir: "/srv/link/".into(),
        target: "/home/alice/.ssh".into(),
    });
    let g = CompiledGuards::compile(&Guards::default(), &e).unwrap();
    let p = resolve_local_path("/srv/link/id_rsa", &e);
    assert_eq!(p, "/home/alice/.ssh/id_rsa");
    assert!(g.check_local_read(&p).is_err());
}

#[test]
fn an_entry_covers_itself_and_what_is_below_it() {
    assert!(is_covered_by("/srv/a", "/srv/a"));
    assert!(is_covered_by("/srv/a/b", "/srv/a"));
    assert!(!is_covered_by("/srv/ab", "/srv/a"));
}

#[test]
fn the_last_name_of_a_path() {
    assert_eq!(
        split_last_name("/a/b/"),
        Some(("/a/".to_string(), "b".to_string()))
    );
    assert_eq!(split_last_name("/a/.."), None);
    assert_eq!(split_last_name("/"), None);
}
