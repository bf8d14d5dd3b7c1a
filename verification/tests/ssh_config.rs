use fast_mcp_ssh::ssh_config::files::{DirInfo, DirName, FileInfo, KnownFiles, Need};
use fast_mcp_ssh::ssh_config::{glob_match, SshConfig};

#[test]
fn basic_host_block() {
    let c = SshConfig::parse_str("Host web\n  HostName 10.0.0.1\n  User deploy\n  Port 2200\n");
    let r = c.query("web");
    assert_eq!(r.host_name.as_deref(), Some("10.0.0.1"));
    assert_eq!(r.user.as_deref(), Some("deploy"));
    assert_eq!(r.port, Some(2200));
    assert!(r.identity_files.is_empty());
    assert!(r.proxy_jump.is_none());
}

#[test]
fn equals_separator() {
    let c = SshConfig::parse_str("Host=web\nHostName=10.0.0.1\nPort=2222\nUser = bob\n");
    let r = c.query("web");
    assert_eq!(r.host_name.as_deref(), Some("10.0.0.1"));
    assert_eq!(r.port, Some(2222));
    assert_eq!(r.user.as_deref(), Some("bob"));
}

#[test]
fn quoted_value_is_unquoted() {
    let c = SshConfig::parse_str(
        "Host web\n  HostName \"10.0.0.1\"\n  IdentityFile \"/home/a b/id_ed25519\"\n",
    );
    let r = c.query("web");
    assert_eq!(r.host_name.as_deref(), Some("10.0.0.1"));
    assert_eq!(r.identity_files, vec!["/home/a b/id_ed25519".to_string()]);
}

#[test]
fn keywords_are_case_insensitive_values_are_not() {
    let c = SshConfig::parse_str("HOST web\n  hostname Server.EXAMPLE.com\n  UsEr Bob\n");
    let r = c.query("web");
    assert_eq!(r.host_name.as_deref(), Some("Server.EXAMPLE.com"));
    assert_eq!(r.user.as_deref(), Some("Bob"));
}

#[test]
fn comments_and_blank_lines_ignored() {
    let c = SshConfig::parse_str(
        "# leading comment\n\n\
         Host web\n\
         \t# indented comment\n\
         \tHostName 10.0.0.1  # trailing comment\n\
         \n\
         \tUser deploy\n",
    );
    let r = c.query("web");
    assert_eq!(r.host_name.as_deref(), Some("10.0.0.1"));
    assert_eq!(r.user.as_deref(), Some("deploy"));
}

#[test]
fn multiple_patterns_on_one_host_line() {
    let c = SshConfig::parse_str("Host alpha beta gamma\n  User shared\n");
    for a in ["alpha", "beta", "gamma"] {
        assert_eq!(c.query(a).user.as_deref(), Some("shared"), "alias {a}");
    }
    assert!(c.query("delta").user.is_none());
    assert_eq!(c.list_aliases(), vec!["alpha", "beta", "gamma"]);
}

#[test]
fn star_wildcard_pattern() {
    let c = SshConfig::parse_str("Host prod-*\n  User ops\n");
    assert_eq!(c.query("prod-web").user.as_deref(), Some("ops"));
    assert_eq!(c.query("prod-").user.as_deref(), Some("ops"));
    assert!(c.query("staging-web").user.is_none());
}

#[test]
fn question_mark_matches_exactly_one_char() {
    let c = SshConfig::parse_str("Host node?\n  User n\n");
    assert_eq!(c.query("node1").user.as_deref(), Some("n"));
    assert!(c.query("node").user.is_none());
    assert!(c.query("node12").user.is_none());
}

#[test]
fn negated_pattern_disqualifies_block() {
    let c = SshConfig::parse_str("Host *.internal !secret.internal\n  User ops\n");
    assert_eq!(c.query("db.internal").user.as_deref(), Some("ops"));
    assert!(c.query("secret.internal").user.is_none());
}

#[test]
fn first_value_wins_across_two_matching_blocks() {
    let c = SshConfig::parse_str(
        "Host web\n  HostName first.example\n  Port 2200\n\
         Host web\n  HostName second.example\n  Port 2300\n  User late\n",
    );
    let r = c.query("web");
    assert_eq!(r.host_name.as_deref(), Some("first.example"));
    assert_eq!(r.port, Some(2200));
    // A keyword absent from the earlier block still comes from the later one.
    assert_eq!(r.user.as_deref(), Some("late"));
}

#[test]
fn host_star_acts_as_defaults() {
    let c = SshConfig::parse_str(
        "Host web\n  HostName 10.0.0.1\n\
         Host *\n  User fallback\n  Port 2222\n",
    );
    let r = c.query("web");
    assert_eq!(r.host_name.as_deref(), Some("10.0.0.1"));
    assert_eq!(r.user.as_deref(), Some("fallback"));
    assert_eq!(r.port, Some(2222));
    // The defaults block alone still resolves for an unknown alias.
    let other = c.query("whatever");
    assert_eq!(other.user.as_deref(), Some("fallback"));
    assert!(other.host_name.is_none());
}

#[test]
fn identity_files_accumulate_in_order() {
    let c = SshConfig::parse_str(
        "Host web\n  IdentityFile ~/.ssh/id_ed25519\n  IdentityFile ~/.ssh/id_rsa\n\
         Host *\n  IdentityFile ~/.ssh/id_default\n",
    );
    assert_eq!(
        c.query("web").identity_files,
        vec![
            "~/.ssh/id_ed25519".to_string(),
            "~/.ssh/id_rsa".to_string(),
            "~/.ssh/id_default".to_string(),
        ]
    );
}

#[test]
fn match_block_does_not_leak_into_previous_host() {
    let c = SshConfig::parse_str(
        "Host web\n  HostName 10.0.0.1\n\
         Match host bastion\n  User matched\n  Port 9999\n",
    );
    let r = c.query("web");
    assert_eq!(r.host_name.as_deref(), Some("10.0.0.1"));
    assert!(
        r.user.is_none(),
        "Match keywords must not reach the Host block"
    );
    assert!(r.port.is_none());
    // And the Match block itself is never applied to anything.
    assert!(c.query("bastion").user.is_none());
}

#[test]
fn host_after_match_starts_a_fresh_block() {
    let c = SshConfig::parse_str(
        "Match exec true\n  User matched\n\
         Host web\n  HostName 10.0.0.1\n",
    );
    let r = c.query("web");
    assert_eq!(r.host_name.as_deref(), Some("10.0.0.1"));
    assert!(r.user.is_none());
    assert_eq!(c.list_aliases(), vec!["web"]);
}

#[test]
fn list_aliases_skips_wildcards_and_negations_and_dedupes() {
    let c = SshConfig::parse_str(
        "Host web db\n  User a\n\
         Host *\n  User b\n\
         Host node? !nope other\n  User c\n\
         Host web\n  Port 22\n",
    );
    assert_eq!(c.list_aliases(), vec!["web", "db", "other"]);
}

#[test]
fn proxy_jump_is_read() {
    let c = SshConfig::parse_str("Host web\n  ProxyJump bastion\n  HostName 10.0.0.1\n");
    assert_eq!(c.query("web").proxy_jump.as_deref(), Some("bastion"));
}

#[test]
fn keywords_before_first_host_are_global_defaults() {
    let c = SshConfig::parse_str("User global\nHost web\n  HostName 10.0.0.1\n  User local\n");
    // Global block comes first in file order, so first-wins picks it.
    assert_eq!(c.query("web").user.as_deref(), Some("global"));
    assert_eq!(c.query("anything").user.as_deref(), Some("global"));
    assert_eq!(c.list_aliases(), vec!["web"]);
}

#[test]
fn unparseable_and_empty_values_are_skipped() {
    let c = SshConfig::parse_str("Host web\n  Port notanumber\n  HostName\n  User bob\n");
    let r = c.query("web");
    assert_eq!(r.port, None);
    assert_eq!(r.host_name, None);
    assert_eq!(r.user.as_deref(), Some("bob"));
}

#[test]
fn include_is_ignored_by_parse_str() {
    let c = SshConfig::parse_str("Host web\n  Include /nonexistent/*.conf\n  HostName 10.0.0.1\n");
    assert_eq!(c.query("web").host_name.as_deref(), Some("10.0.0.1"));
}

#[test]
fn glob_match_edges() {
    assert!(glob_match("*", "anything"));
    assert!(glob_match("*", ""));
    assert!(glob_match("a*b*c", "abc"));
    assert!(glob_match("a*b*c", "axxbyyc"));
    assert!(!glob_match("a*b*c", "axxbyy"));
    assert!(glob_match("*.example.com", "host.example.com"));
    assert!(!glob_match("*.example.com", "example.com"));
    assert!(glob_match("é?é", "éxé"));
    assert!(!glob_match("abc", "abcd"));
    assert!(!glob_match("abcd", "abc"));
}

#[test]
fn no_match_returns_empty_resolution() {
    let c = SshConfig::parse_str("Host web\n  HostName 10.0.0.1\n");
    let r = c.query("nothing");
    assert!(r.host_name.is_none());
    assert!(r.user.is_none());
    assert!(r.port.is_none());
    assert!(r.identity_files.is_empty());
    assert!(r.proxy_jump.is_none());
}

fn known(files: &[(&str, &str)], dirs: &[(&str, &[&str])]) -> KnownFiles {
    KnownFiles {
        files: files
            .iter()
            .map(|(path, text)| FileInfo {
                path: path.to_string(),
                canon: path.to_string(),
                is_file: true,
                text: Some(text.to_string()),
            })
            .collect(),
        dirs: dirs
            .iter()
            .map(|(path, names)| DirInfo {
                path: path.to_string(),
                entries: names
                    .iter()
                    .map(|n| DirName {
                        name: n.to_string(),
                        is_file: true,
                    })
                    .collect(),
            })
            .collect(),
        home: Some("/home/alice".into()),
        windows: false,
    }
}

fn missing(path: &str) -> FileInfo {
    FileInfo {
        path: path.into(),
        canon: path.into(),
        is_file: false,
        text: None,
    }
}

const TOP: &str = "/home/alice/.ssh/config";

#[test]
fn a_reading_says_what_it_needs() {
    let none = known(&[], &[]);
    match SshConfig::parse_file(TOP, TOP, "Include extra\n", &none) {
        Err(Need::File(p)) => assert_eq!(p, "/home/alice/.ssh/extra"),
        other => panic!("expected a file, got {other:?}"),
    }
    match SshConfig::parse_file(TOP, TOP, "Include conf.d/*.conf\n", &none) {
        Err(Need::Dir(p)) => assert_eq!(p, "/home/alice/.ssh/conf.d/"),
        other => panic!("expected a directory, got {other:?}"),
    }
}

#[test]
fn a_windows_file_includes_what_stands_beside_it() {
    const TOP: &str = "C:\\Users\\alice\\.ssh\\config";
    let windows = |files: &[(&str, &str)], dirs: &[(&str, &[&str])]| {
        let mut k = known(files, dirs);
        k.home = Some("C:\\Users\\alice".into());
        k.windows = true;
        k
    };
    let file = |text: &str| match SshConfig::parse_file(TOP, TOP, text, &windows(&[], &[])) {
        Err(Need::File(p)) => p,
        other => panic!("expected a file, got {other:?}"),
    };
    let dir = |text: &str| match SshConfig::parse_file(TOP, TOP, text, &windows(&[], &[])) {
        Err(Need::Dir(p)) => p,
        other => panic!("expected a directory, got {other:?}"),
    };
    assert_eq!(file("Include extra\n"), "C:/Users/alice/.ssh/extra");
    assert_eq!(file("Include ~\\work\\ssh\n"), "C:/Users/alice/work/ssh");
    assert_eq!(file("Include D:\\ssh\\extra\n"), "D:/ssh/extra");
    assert_eq!(file("Include \\ssh\\extra\n"), "C:/ssh/extra");
    assert_eq!(dir("Include conf.d\\*.conf\n"), "C:/Users/alice/.ssh/conf.d/");
    assert_eq!(dir("Include C:\\*\n"), "C:/");
    let k = windows(
        &[
            ("C:/Users/alice/.ssh/conf.d/a.conf", "Host web\n  Include user\n"),
            ("C:/Users/alice/.ssh/conf.d/user", "User deploy\n"),
            ("C:/Users/alice/.ssh/user", "User other\n"),
        ],
        &[("C:/Users/alice/.ssh/conf.d/", &["a.conf", "b.txt"])],
    );
    let c = SshConfig::parse_file(TOP, TOP, "Include conf.d\\*.conf\n", &k).unwrap();
    assert_eq!(c.query("web").user.as_deref(), Some("deploy"));
}

#[test]
fn included_lines_extend_the_open_block() {
    let mut k = known(&[("/home/alice/.ssh/extra", "User deploy\n")], &[]);
    // A relative token is looked for beside the file and under ~/.ssh/.
    k.files.push(missing("/home/alice/.ssh/other"));
    let c = SshConfig::parse_file(
        TOP,
        TOP,
        "Host web\n  Include extra other\n  HostName 10.0.0.1\n",
        &k,
    )
    .unwrap();
    let r = c.query("web");
    assert_eq!(r.user.as_deref(), Some("deploy"));
    assert_eq!(r.host_name.as_deref(), Some("10.0.0.1"));
}

#[test]
fn globbed_files_come_sorted_and_without_dotfiles() {
    let k = known(
        &[
            ("/etc/ssh/conf.d/10-a.conf", "Host a\n  User first\n"),
            ("/etc/ssh/conf.d/20-b.conf", "Host a\n  User second\n"),
        ],
        &[(
            "/etc/ssh/conf.d/",
            &["20-b.conf", ".hidden.conf", "10-a.conf", "notes.txt"],
        )],
    );
    let c = SshConfig::parse_file(TOP, TOP, "Include /etc/ssh/conf.d/*.conf\n", &k).unwrap();
    assert_eq!(c.query("a").user.as_deref(), Some("first"));
}

#[test]
fn an_include_cycle_ends() {
    let k = known(
        &[
            ("/a", "Include /b\nHost a\n  User one\n"),
            ("/b", "Include /a\nHost b\n  User two\n"),
        ],
        &[],
    );
    let c = SshConfig::parse_file("/a", "/a", "Include /b\nHost a\n  User one\n", &k).unwrap();
    assert_eq!(c.list_aliases(), vec!["b", "a"]);
}

#[test]
fn tilde_in_an_include_is_the_home_directory() {
    let k = known(&[("/home/alice/work/ssh", "Host w\n  Port 2022\n")], &[]);
    let c = SshConfig::parse_file(TOP, TOP, "Include ~/work/ssh\n", &k).unwrap();
    assert_eq!(c.query("w").port, Some(2022));
}

#[test]
fn text_below_overrides_nothing() {
    let a = "Host web\n  User u\n  IdentityFile ~/a";
    let b = "Host *\n  User v\n  Port 2022\n  IdentityFile ~/b\nHost db web";
    let short = SshConfig::parse_str(a);
    let long = SshConfig::parse_str(&format!("{a}\n{b}"));
    let r = long.query("web");
    assert_eq!(r.user, short.query("web").user);
    assert_eq!(r.port, Some(2022));
    assert_eq!(r.identity_files, vec!["~/a", "~/b"]);
    assert_eq!(short.list_aliases(), vec!["web"]);
    assert_eq!(long.list_aliases(), vec!["web", "db"]);
}

#[test]
fn idle_lines_change_nothing() {
    let plain = SshConfig::parse_str("Host web\n  User u\n  Port 22\n");
    for idle in ["", "   ", "# Host x", "  #", "Include ~/x", "INCLUDE=a b", "include", "\r"] {
        let c = SshConfig::parse_str(&format!("{idle}\nHost web\n{idle}\n  User u\n  Port 22\n{idle}"));
        assert_eq!(c.list_aliases(), plain.list_aliases(), "after {idle:?}");
        let (x, y) = (c.query("web"), plain.query("web"));
        assert_eq!((x.user, x.port), (y.user, y.port), "after {idle:?}");
    }
}
