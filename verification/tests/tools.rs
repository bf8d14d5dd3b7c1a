use std::io::Cursor;
use std::sync::Arc;

use fast_mcp_ssh::config::{AuthMethod, Config, Defaults, Guards, Host, Hosts, HumanDuration};
use fast_mcp_ssh::confirm::{
    key_for, Answer, Approvals, Confirm, KeyedReply, Reply, ReplyAction,
};
use fast_mcp_ssh::errors::SshError;
use fast_mcp_ssh::forward::{bind_address, bind_failed};
use fast_mcp_ssh::guards::CompiledGuards;
use fast_mcp_ssh::json::JsonField;
use fast_mcp_ssh::paths::LocalEnv;
use fast_mcp_ssh::session::exec::{ExecEvent, ExecResult, ExecRun};
use fast_mcp_ssh::sftp::{list_dir, stat, Attributes};
use fast_mcp_ssh::tail::{tail, tail_command, tail_deadline};
use fast_mcp_ssh::tools::discovery::{format_hosts, format_ping, ping_record, PingResult};
use fast_mcp_ssh::tools::files::{
    check_write, compare_digests, copy_record, digest_command, follow_secs, format_copy,
    format_download, format_listing, format_mkdir, format_rm, format_stat, format_tail,
    format_upload, format_write, guard_rm, read_digest, rm_prompt, settle_rm, tail_lines, RmGate,
    Verification,
};
use fast_mcp_ssh::tools::gate::{check_local, check_path, clear_command, Clearing};
use fast_mcp_ssh::tools::net::{
    check_port, format_forward, format_forwards, format_unforward, forward_record, Tunnel,
};
use fast_mcp_ssh::tools::ops::{
    active_state_command, camel_to_snake, check_sys_view, facts_from_probe, format_action,
    format_epoch_us, format_failed, format_logs, format_status, format_sys, is_failed,
    journal_lines, journal_row, journal_tail_command, parse_journal_json, parse_ss, split_columns,
    svc_command, svc_unit, sys_command, sys_rows, unit_active_state, validate_unit, HostFacts,
    SvcAction, SvcCall, SvcEnd, SvcGuard, SvcNext, SysView, FACTS_PROBE,
};
use fast_mcp_ssh::tools::run::{
    batch_fanout, batch_preview, batch_record, confirm_batch_prompt, covered_by_pattern,
    exec_record, format_batch, format_exec, format_interrupt, format_no_session, format_sh, guard_batch_command, settle_batch,
    validate_batch, BatchGate, BatchItem, BatchStep, BatchVerdict,
};
use fast_mcp_ssh::tools::session::{
    closes_all, format_disconnect, format_disconnect_all, format_reload, format_shells,
};
use fast_mcp_ssh::tools::visual::{
    backends, capture_command, capture_failed, capture_path, choose_backend, downscale, encoded,
    fit, format_shot, format_shot_without_image, nonce, nonce_from, nonce_of, shot_quality, shot_width,
    Encoded, ShotCall, ShotFile, ShotFormat, ShotNext, ShotReply,
};
use fast_mcp_ssh::tools::{auth_str, clamp_timeout, guard_resolved, shell_quote, validate_cmd};
use image::ImageFormat;

fn env() -> LocalEnv {
    LocalEnv {
        home: Some("/home/alice".into()),
        cwd: None,
        windows: false,
        real_dirs: vec![],
    }
}

fn guards() -> CompiledGuards {
    CompiledGuards::compile(&Guards::default(), &env()).expect("default guards compile")
}

fn strings(v: &[&str]) -> Vec<String> {
    v.iter().map(|s| s.to_string()).collect()
}

// --- quoting and arguments -------------------------------------------------

#[test]
fn paths_go_through_the_shared_quoter() {
    // One quoter, one behaviour.
    assert_eq!(shell_quote("/var/log/syslog"), "'/var/log/syslog'");
    assert_eq!(shell_quote("/tmp/has space.log"), "'/tmp/has space.log'");
    assert_eq!(shell_quote("o'brien.log"), "'o'\\''brien.log'");
}

#[test]
fn quoting_neutralises_metacharacters() {
    assert_eq!(shell_quote("/tmp/a b"), "'/tmp/a b'");
    assert_eq!(shell_quote("/tmp/$(id)"), "'/tmp/$(id)'");
    assert_eq!(shell_quote("/tmp/x;rm -rf /"), "'/tmp/x;rm -rf /'");
    assert_eq!(shell_quote("a b; c"), "'a b; c'");
}

#[test]
fn a_single_quote_is_spliced_not_escaped() {
    // sh has no escape inside single quotes: the run has to be closed,
    // the quote passed literally, and a new run opened.
    assert_eq!(shell_quote("/tmp/it's"), r"'/tmp/it'\''s'");
}

#[test]
fn plain_values_are_still_quoted() {
    // No fast path for "looks safe": one shape means one thing to review.
    assert_eq!(shell_quote("plain"), "'plain'");
    assert_eq!(shell_quote("/var/log/syslog"), "'/var/log/syslog'");
}

#[test]
fn timeouts_are_clamped() {
    assert_eq!(clamp_timeout(None), 60);
    assert_eq!(clamp_timeout(Some(0)), 1);
    assert_eq!(clamp_timeout(Some(30)), 30);
    assert_eq!(clamp_timeout(Some(u64::MAX)), 600);
}

#[test]
fn an_oversize_command_is_refused() {
    assert!(validate_cmd(&"x".repeat(65536)).is_ok());
    assert!(matches!(
        validate_cmd(&"x".repeat(65537)),
        Err(SshError::Config(m)) if m == "cmd too large: 65537 bytes (max 65536)"
    ));
    assert_eq!(auth_str(AuthMethod::Agent), "agent");
}

#[test]
fn a_path_is_guarded_by_what_it_resolves_to() {
    let g = guards();
    assert!(guard_resolved(&g, "/tmp/s", Ok("/tmp/s"), false).is_ok());
    assert!(guard_resolved(&g, "/tmp/s", Ok("/tmp/t"), false).is_ok());
    match guard_resolved(&g, "/tmp/s", Ok("/etc/shadow"), false) {
        Err(SshError::BlockedByGuard { name, pattern }) => {
            assert_eq!(name, "resolved-path");
            assert!(pattern.starts_with("/tmp/s resolves to /etc/shadow: "), "got: {pattern}");
        }
        other => panic!("expected a refusal, got {other:?}"),
    }
    match guard_resolved(&g, "/tmp/s", Err("denied"), true) {
        Err(SshError::BlockedByGuard { name, pattern }) => {
            assert_eq!(name, "unresolvable-path");
            assert_eq!(pattern, "cannot verify what /tmp/s resolves to: denied");
        }
        other => panic!("expected a refusal, got {other:?}"),
    }
}

// --- run -------------------------------------------------------------------

#[test]
fn covered_set_is_every_command_the_pattern_stops() {
    let cmds = strings(&[
        "systemctl stop nginx",
        "ls -la /etc",
        "systemctl stop firewalld",
        "reboot",
    ]);
    let covered = covered_by_pattern(&guards(), &cmds, "systemctl-stop");
    assert_eq!(
        covered,
        vec!["systemctl stop nginx", "systemctl stop firewalld"]
    );
}

#[test]
fn batch_prompt_names_every_command_it_approves() {
    // Approving `stop nginx` must not silently approve `stop firewalld` behind
    // a prompt that never showed it.
    let covered = vec![
        "systemctl stop nginx".to_string(),
        "systemctl stop firewalld".to_string(),
    ];
    let prompt = confirm_batch_prompt("box1", "systemctl-stop", &covered);
    assert!(prompt.contains("systemctl stop nginx"), "got: {prompt}");
    assert!(prompt.contains("systemctl stop firewalld"), "got: {prompt}");
    assert!(prompt.contains("approves all 2"), "got: {prompt}");
}

#[test]
fn single_command_batch_reads_like_the_single_command_prompt() {
    let covered = vec!["reboot".to_string()];
    let prompt = confirm_batch_prompt("box1", "reboot", &covered);
    assert!(prompt.contains("a sensitive command"), "got: {prompt}");
    assert!(!prompt.contains("approves all"), "got: {prompt}");
}

#[test]
fn a_batch_has_a_size() {
    assert!(validate_batch(&strings(&["ls"])).is_ok());
    assert!(matches!(
        validate_batch(&vec![]),
        Err(SshError::Config(m)) if m == "cmds must contain at least one command"
    ));
    assert!(matches!(
        validate_batch(&vec!["ls".to_string(); 65]),
        Err(SshError::Config(m)) if m == "too many commands: 65 (max 64)"
    ));
    assert!(validate_batch(&vec!["x".repeat(70_000)]).is_err());
    assert_eq!(batch_fanout(8), 7);
    assert_eq!(batch_fanout(1), 1);
    assert_eq!(batch_fanout(0), 1);
}

#[test]
fn a_batch_asks_once_for_a_pattern() {
    let ttl = HumanDuration::from_secs(60);
    let cmds = strings(&["ls", "systemctl stop a", "systemctl stop b"]);
    let mut approvals = Approvals::new();
    let mut confirm = Confirm::new(false, vec![]);
    let gate = BatchGate::new(Arc::new(guards()), "web".into(), cmds);
    let BatchStep::Ask(asked) = gate.advance(&mut approvals, &mut confirm, 0, ttl) else {
        panic!("expected a question");
    };
    let prompt = asked.prompt();
    assert!(prompt.contains("2 sensitive commands on 'web'"), "got: {prompt}");
    assert!(prompt.contains("systemctl stop b"), "got: {prompt}");
    assert_eq!(asked.cmd(), "systemctl stop a");
    let gate = asked.answered(true, &mut approvals, 0, ttl).unwrap();
    let BatchStep::Run(cleared) = gate.advance(&mut approvals, &mut confirm, 0, ttl) else {
        panic!("expected the batch to run");
    };
    let ran: Vec<&str> = cleared.iter().map(|c| c.cmd()).collect();
    assert_eq!(ran, vec!["ls", "systemctl stop a", "systemctl stop b"]);
    assert_eq!(cleared[2].host(), "web");
    // Each command was remembered on its own.
    assert!(approvals.remembered("web", "systemctl stop b", 1, ttl));
}

#[test]
fn a_batch_is_refused_whole() {
    let ttl = HumanDuration::from_secs(0);
    let mut approvals = Approvals::new();
    let mut confirm = Confirm::new(false, vec![]);
    let gate = BatchGate::new(Arc::new(guards()), "web".into(), strings(&["ls", "rm -rf /"]));
    assert!(matches!(
        gate.advance(&mut approvals, &mut confirm, 0, ttl),
        BatchStep::Refuse { cmd, error: SshError::BlockedByGuard { .. } } if cmd == "rm -rf /"
    ));
    let gate = BatchGate::new(Arc::new(guards()), "web".into(), strings(&["ls", "reboot"]));
    let BatchStep::Ask(asked) = gate.advance(&mut approvals, &mut confirm, 0, ttl) else {
        panic!("expected a question");
    };
    assert!(matches!(
        asked.answered(false, &mut approvals, 0, ttl),
        Err(SshError::ConfirmationDenied)
    ));
}

#[test]
fn a_batch_waits_for_its_answers() {
    let g = guards();
    let ttl = HumanDuration::from_secs(0);
    let cmds = strings(&["reboot", "ls"]);
    let mut approvals = Approvals::new();
    let mut confirm = Confirm::new(true, vec![]);
    let gate = BatchGate::new(Arc::new(guards()), "web".into(), cmds.clone());
    assert!(matches!(
        gate.advance(&mut approvals, &mut confirm, 0, ttl),
        BatchStep::Defer
    ));
    assert_eq!(confirm.into_questions().len(), 1);
    let mut confirm = Confirm::new(false, vec![]);
    let mut confirmed = strings(&["reboot"]);
    assert!(matches!(
        guard_batch_command(
            &g, &mut approvals, &mut confirm, &mut confirmed, "web", &cmds, 0, 0, ttl
        ),
        BatchVerdict::Clear
    ));
    assert!(matches!(
        settle_batch(
            Answer::Denied, &mut approvals, &mut confirmed, "x", &vec![], "web", 0, ttl
        ),
        BatchVerdict::Refused(SshError::ConfirmationDenied)
    ));
}

// --- what passed the guards -------------------------------------------------

#[test]
fn only_a_cleared_command_comes_out() {
    let g = guards();
    let ttl = HumanDuration::from_secs(60);
    let mut a = Approvals::new();
    let mut c = Confirm::new(false, vec![]);
    match clear_command(&g, &mut a, &mut c, "web", "ls", 0, ttl) {
        Clearing::Cleared(x) => assert_eq!((x.host(), x.cmd()), ("web", "ls")),
        _ => panic!("expected ls to pass"),
    }
    assert!(matches!(
        clear_command(&g, &mut a, &mut c, "web", "rm -rf /", 0, ttl),
        Clearing::Refused(SshError::BlockedByGuard { .. })
    ));
    let Clearing::Ask(asked) = clear_command(&g, &mut a, &mut c, "web", "reboot", 0, ttl) else {
        panic!("expected a question");
    };
    assert!(asked.prompt().contains("\n\nreboot\n\n"), "got: {}", asked.prompt());
    assert!(matches!(
        asked.answered(Answer::Denied, &mut a, 0, ttl),
        Clearing::Refused(SshError::ConfirmationDenied)
    ));
    let Clearing::Ask(asked) = clear_command(&g, &mut a, &mut c, "web", "reboot", 0, ttl) else {
        panic!("expected a question");
    };
    assert!(matches!(
        asked.answered(Answer::Approved, &mut a, 0, ttl),
        Clearing::Cleared(x) if x.cmd() == "reboot"
    ));
    // The approval is remembered, for this command alone.
    assert!(matches!(
        clear_command(&g, &mut a, &mut c, "web", "reboot", 1, ttl),
        Clearing::Cleared(_)
    ));
    assert!(matches!(
        clear_command(&g, &mut a, &mut c, "db", "reboot", 1, ttl),
        Clearing::Ask(_)
    ));
    let mut c = Confirm::new(true, vec![]);
    assert!(matches!(
        clear_command(&g, &mut a, &mut c, "db", "reboot", 1, ttl),
        Clearing::Wait
    ));
    assert_eq!(c.into_questions().len(), 1);
}

#[test]
fn a_link_does_not_launder_a_path() {
    let g = guards();
    assert!(matches!(
        check_path(&g, "/etc/shadow", false),
        Err(SshError::BlockedByGuard { .. })
    ));
    let p = check_path(&g, "/tmp/link", false).unwrap();
    assert_eq!(p.path(), "/tmp/link");
    assert!(matches!(
        p.resolved(&g, Ok("/etc/shadow")),
        Err(SshError::BlockedByGuard { name, .. }) if name == "resolved-path"
    ));
    let p = check_path(&g, "/tmp/link", false).unwrap();
    assert!(matches!(
        p.resolved(&g, Err("no such file")),
        Err(SshError::BlockedByGuard { name, .. }) if name == "unresolvable-path"
    ));
    let p = check_path(&g, "/tmp/link", false).unwrap();
    assert_eq!(p.resolved(&g, Ok("/tmp/file")).unwrap().path(), "/tmp/link");
}

#[test]
fn a_local_path_is_resolved_before_it_is_guarded() {
    let g = guards();
    let p = check_local(&g, "/tmp/a/../b.txt", &env(), false).unwrap();
    assert_eq!(p.path(), "/tmp/b.txt");
    assert!(matches!(
        check_local(&g, "/tmp/../home/alice/.ssh/id_ed25519", &env(), false),
        Err(SshError::BlockedByGuard { name, .. }) if name == "local-read"
    ));
    assert!(matches!(
        check_local(&g, "/home/alice/.bashrc", &env(), true),
        Err(SshError::BlockedByGuard { name, .. }) if name == "local-write"
    ));
}

// --- results ----------------------------------------------------------------

fn result(stdout: &str, stderr: &str, code: u32) -> ExecResult {
    let (run, _) = ExecRun::new(10_000).step(ExecEvent::Data(stdout.as_bytes()));
    let (run, _) = run.step(ExecEvent::ExtendedData {
        ext: 1,
        data: stderr.as_bytes(),
    });
    let (run, _) = run.step(ExecEvent::ExitStatus(code));
    run.finish(7)
}

#[test]
fn a_preview_shows_what_matters() {
    let long = "x".repeat(300);
    assert_eq!(batch_preview(&result("out", " boom\nbang \n", 1), false), "boom bang");
    assert_eq!(batch_preview(&result(&long, "", 1), false), "x".repeat(200));
    assert_eq!(batch_preview(&result(&long, "", 0), true), "x".repeat(40));
    assert_eq!(batch_preview(&result(&long, "", 0), false), "");
    // Characters count, however many bytes they take.
    assert_eq!(batch_preview(&result(&"é".repeat(300), "", 1), false), "é".repeat(200));
    assert_eq!(batch_preview(&result(&"é".repeat(300), "", 0), true), "é".repeat(40));
}

#[test]
fn a_batch_answers_with_a_table() {
    let items = vec![
        BatchItem {
            cmd: "ls".into(),
            outcome: Ok(result("a b", "", 0)),
        },
        BatchItem {
            cmd: "x".into(),
            outcome: Err("gone".into()),
        },
    ];
    assert_eq!(
        format_batch("web", &items, true),
        "host: web\nresults(2):\n  cmd exit ms bytes preview\n  ls 0 7 3 \"a b\"\n  x \"-1\" 0 0 gone\n"
    );
}

#[test]
fn a_run_is_logged_with_its_bytes() {
    let r = result("out", "er", 3);
    let record = exec_record("ls", &r);
    assert_eq!(record.cmd.as_deref(), Some("ls"));
    assert_eq!(record.exit_code, Some(3));
    assert_eq!(record.duration_ms, Some(7));
    assert_eq!(record.bytes_out, Some(5));
    assert_eq!((record.bytes_in, record.blocked, record.error), (None, None, None));
    let item = BatchItem { cmd: "ls".into(), outcome: Ok(r) };
    assert_eq!(batch_record(&item).bytes_out, Some(3));
    let item = BatchItem { cmd: "ls".into(), outcome: Err("gone".into()) };
    let record = batch_record(&item);
    assert_eq!(record.error.as_deref(), Some("gone"));
    assert_eq!((record.exit_code, record.bytes_out), (None, None));
}

#[test]
fn a_command_answers_with_its_output() {
    let out = format_exec(&result("hi\n", "oops", 2), 1000);
    assert!(out.contains("exit_code: 2\n"), "got: {out}");
    assert!(out.contains("stdout: |\n  hi\n"), "got: {out}");
    assert!(out.contains("stderr: |\n  oops\n"), "got: {out}");
}

#[test]
fn a_shell_answers_with_its_output() {
    assert_eq!(
        format_sh("web", Some("build"), 1, "no", 100),
        "host: web\nshell: build\nexit_code: 1\nbytes: 2\nstdout: |\n  no\n\
         hint: non-zero exit. cd preserved across sh calls.\n"
    );
    assert_eq!(
        format_sh("web", None, 0, "ok", 100),
        "host: web\nexit_code: 0\nbytes: 2\nstdout: |\n  ok\n"
    );
}

#[test]
fn an_interrupt_says_what_it_reached() {
    assert_eq!(
        format_no_session("web"),
        "host: web\nstatus: \"no active session\"\n"
    );
    assert_eq!(
        format_interrupt("web", false, 0),
        "host: web\npty_sigint: false\nexec_aborted: 0\nstatus: \"no in-flight commands\"\n"
    );
    assert_eq!(
        format_interrupt("web", true, 2),
        "host: web\npty_sigint: true\nexec_aborted: 2\nstatus: \"interrupt fired\"\n"
    );
}

// --- files -----------------------------------------------------------------

#[test]
fn transfers_report_their_size() {
    assert_eq!(
        format_upload("web", "~/a", "/b", 5, 9),
        "host: web\nlocal: ~/a\nremote: /b\nbytes: 5\nms: 9\n"
    );
    assert_eq!(
        format_write("web", "/b", 5, 9, Some(0o644)),
        "host: web\nremote: /b\nbytes: 5\nms: 9\nmode: 644\n"
    );
    assert_eq!(
        format_write("web", "/b", 5, 9, None),
        "host: web\nremote: /b\nbytes: 5\nms: 9\n"
    );
}

#[test]
fn a_download_returns_text_or_base64() {
    assert_eq!(
        format_download("web", "/f", 3, 1, &Some(b"abc".to_vec()), None, 100),
        "host: web\nremote: /f\nbytes: 3\nms: 1\ncontent: |\n  abc\n"
    );
    assert_eq!(
        format_download("web", "/f", 3, 1, &Some(vec![0, 1, 2]), None, 100),
        "host: web\nremote: /f\nbytes: 3\nms: 1\nencoding: base64\ncontent: |\n  AAEC\n"
    );
    assert_eq!(
        format_download("web", "/f", 4, 1, &Some(vec![0, 1, 2, 255]), None, 100),
        "host: web\nremote: /f\nbytes: 4\nms: 1\nencoding: base64\ncontent: |\n  AAEC/w==\n"
    );
    assert_eq!(
        format_download("web", "/f", 3, 1, &None, Some("/tmp/f"), 100),
        "host: web\nremote: /f\nbytes: 3\nms: 1\nlocal: /tmp/f\n"
    );
    assert_eq!(
        format_download("web", "/f", 3, 1, &None, None, 100),
        "host: web\nremote: /f\nbytes: 3\nms: 1\n\
         content: \"(too large for inline; rerun with local=<path>)\"\n"
    );
}

#[test]
fn a_copy_is_compared_on_both_ends() {
    assert_eq!(
        digest_command("/a b"),
        "sha256sum -- '/a b' 2>/dev/null || shasum -a 256 -- '/a b'"
    );
    let digest = "a".repeat(64);
    assert_eq!(read_digest(0, &format!("{digest}  /a\n")), Ok(digest.clone()));
    assert_eq!(
        read_digest(127, ""),
        Err("sha256sum unavailable (exit 127)".to_string())
    );
    assert_eq!(
        read_digest(0, "short /a"),
        Err("unparseable sha256sum output".to_string())
    );
    let ok = compare_digests("x", Ok(digest.clone()), "y", Ok(digest.clone())).unwrap();
    assert!(matches!(&ok, Verification::Verified(d) if *d == digest));
    let skipped = compare_digests("x", Ok(digest.clone()), "y", Err("no".into())).unwrap();
    assert!(matches!(&skipped, Verification::Skipped(w) if w == "y: no"));
    assert!(matches!(
        compare_digests("x", Ok("1".into()), "y", Ok("2".into())),
        Err(SshError::Other(m)) if m == "sha256 mismatch: x 1, y 2"
    ));
    assert_eq!(
        format_copy("x", "/a", "y", "/b", 4, 2, Some("1.5"), &skipped),
        "from: \"x:/a\"\nto: \"y:/b\"\nbytes: 4\nms: 2\nmbps: 1.5\nverified: false\n\
         verify_skipped: \"y: no\"\n"
    );
    assert_eq!(
        format_copy("x", "/a", "y", "/b", 4, 0, None, &Verification::NotAsked),
        "from: \"x:/a\"\nto: \"y:/b\"\nbytes: 4\nms: 0\n"
    );
    assert_eq!(copy_record("x", "/a", "/b"), "x:/a -> /b");
}

fn listing(n: usize) -> Vec<(String, Attributes)> {
    (0..n)
        .map(|i| {
            (
                format!("f{i:04}"),
                Attributes {
                    size: Some(i as u64),
                    mode: Some(0o100644),
                    mtime: Some(1),
                    uid: None,
                    gid: None,
                },
            )
        })
        .collect()
}

#[test]
fn a_listing_is_paged() {
    let entries = list_dir(&listing(3));
    assert_eq!(
        format_listing("web", "/d", &entries, Some(1), Some(1)),
        "host: web\npath: /d\ntotal: 3\noffset: 1\nreturned: 1\n\
         hint: more entries; re-run with offset=2\n\
         entries(1):\n  name kind size mode mtime\n  f0001 file 1 644 1\n"
    );
    let last = format_listing("web", "/d", &entries, Some(2), None);
    assert!(!last.contains("hint"), "got: {last}");
    let past = format_listing("web", "/d", &entries, Some(9), None);
    assert!(past.contains("offset: 9\nreturned: 0\n"), "got: {past}");
    assert!(past.contains("entries(0): empty\n"), "got: {past}");
}

#[test]
fn a_page_is_capped() {
    let entries = list_dir(&listing(1200));
    let out = format_listing("web", "/d", &entries, None, Some(5000));
    assert!(out.contains("returned: 1000\n"));
    assert!(out.contains("offset=1000\n"));
}

#[test]
fn large_content_goes_through_up() {
    assert!(check_write("hello").is_ok());
    assert!(matches!(
        check_write(&"x".repeat(8 * 1024 * 1024 + 1)),
        Err(SshError::Config(m))
            if m == "content too large: 8388609 bytes (max 8388608 — use `up` for larger files)"
    ));
}

#[test]
fn a_recursive_removal_needs_a_yes() {
    let mut confirm = Confirm::new(false, vec![]);
    assert!(matches!(guard_rm(&mut confirm, "web", "/d", false), RmGate::Go));
    assert!(matches!(
        guard_rm(&mut confirm, "web", "/d", true),
        RmGate::Ask { prompt } if prompt == rm_prompt("web", "/d")
    ));
    assert!(matches!(settle_rm(Answer::Approved), RmGate::Go));
    assert!(matches!(
        settle_rm(Answer::Denied),
        RmGate::Refused(SshError::ConfirmationDenied)
    ));
    // A client that calls again finds its question, then its answer.
    let mut confirm = Confirm::new(true, vec![]);
    assert!(matches!(guard_rm(&mut confirm, "web", "/d", true), RmGate::Wait));
    let asked = confirm.into_questions();
    assert_eq!(asked[0].key, key_for(&["rm", "web", "/d"]));
    let reply = Reply {
        action: ReplyAction::Accept,
        answer: Some("yes".into()),
    };
    let answers = vec![KeyedReply {
        key: asked[0].key.clone(),
        reply: Some(reply),
    }];
    let mut confirm = Confirm::new(true, answers);
    assert!(matches!(guard_rm(&mut confirm, "web", "/d", true), RmGate::Go));
    assert!(matches!(guard_rm(&mut confirm, "web", "/e", true), RmGate::Wait));
    assert_eq!(
        rm_prompt("web", "/d"),
        "fast-mcp-ssh wants to recursively delete '/d' on host 'web'. Reply 'yes' to proceed."
    );
    assert_eq!(format_rm("web", "/d", 3), "host: web\npath: /d\nremoved: 3\n");
    assert_eq!(format_mkdir("web", "/d"), "host: web\npath: /d\nstatus: created\n");
}

#[test]
fn a_stat_shows_the_link_itself() {
    let s = stat(
        &Attributes {
            size: Some(4),
            mode: Some(0o120777),
            mtime: Some(5),
            uid: Some(1),
            gid: Some(2),
        },
        Some("/etc".into()),
        true,
    );
    assert_eq!(
        format_stat("web", "/l", &s),
        "host: web\npath: /l\nkind: link\nsize: 4\nmode: 777\nmtime: 5\nuid: 1\ngid: 2\ntarget: /etc\n"
    );
}

#[test]
fn tail_reads_or_follows() {
    assert_eq!(tail_command("/l", 5, false, 3, 10), "tail -n 5 '/l'");
    assert_eq!(
        tail_command("/l", 5, true, 0, 10),
        "timeout 1 tail -n 5 -F '/l' 2>&1 | head -c 10"
    );
    assert_eq!(tail_deadline(3, true), 8);
    assert_eq!(tail_deadline(3, false), 13);
    assert_eq!(tail_lines(None), 100);
    assert_eq!(follow_secs(None), 5);
    assert_eq!(follow_secs(Some(0)), 1);
    assert_eq!(follow_secs(Some(9999)), 600);
    let c = tail(result("one\ntwo\n", "", 0));
    assert_eq!(
        format_tail("web", "/l", &c, true, 100),
        "host: web\npath: /l\nbytes: 8\nfollow: true\ncontent: |\n  one\n  two\n"
    );
    assert!(format_tail("web", "/l", &c, false, 4).contains("truncated_bytes: 8\n"));
}

// --- ops -------------------------------------------------------------------

#[test]
fn parses_probe_output() {
    let f = HostFacts::parse("os=Linux\nkernel=6.1.0\nhas=rg,jq\nempty=\n\ndistro=debian\n");
    assert_eq!(f.get("os"), Some("Linux"));
    assert_eq!(f.get("distro"), Some("debian"));
    assert_eq!(f.get("empty"), None);
    assert!(f.has("rg"));
    assert!(f.has("jq"));
    assert!(!f.has("r"));
    assert!(!f.has("docker"));
}

#[test]
fn probe_value_may_contain_equals() {
    let f = HostFacts::parse("cmdline=a=b=c\n");
    assert_eq!(f.get("cmdline"), Some("a=b=c"));
}

#[test]
fn splits_columns_keeping_tail() {
    let rows = split_columns("1 2 root 0.5 0.1 100 20 S my command here\n", 9);
    assert_eq!(rows.len(), 1);
    assert_eq!(rows[0].len(), 9);
    assert_eq!(rows[0][8], "my command here");
}

#[test]
fn splits_columns_pads_short_rows() {
    let rows = split_columns("only two\n", 5);
    assert_eq!(rows[0], vec!["only", "two", "-", "-", "-"]);
}

#[test]
fn splits_columns_handles_runs_of_spaces() {
    let rows = split_columns("a    b     c\n", 3);
    assert_eq!(rows[0], vec!["a", "b", "c"]);
}

#[test]
fn parses_ss_listening() {
    let out = "LISTEN 0 128 0.0.0.0:22 0.0.0.0:* users:((\"sshd\",pid=1,fd=3))\n\
               UNCONN 0 0 0.0.0.0:68 0.0.0.0:* users:((\"dhclient\",pid=2,fd=6))\n";
    let rows = parse_ss(out);
    assert_eq!(rows.len(), 2);
    assert_eq!(rows[0][0], "tcp");
    assert_eq!(rows[0][1], "0.0.0.0:22");
    assert!(rows[0][2].contains("sshd"));
    assert_eq!(rows[1][0], "udp");
}

#[test]
fn parses_journal_json_lines() {
    let out = "{\"__REALTIME_TIMESTAMP\":\"1700000000000000\",\"PRIORITY\":\"6\",\"MESSAGE\":\"started\"}\n\
               {\"PRIORITY\":\"3\",\"MESSAGE\":\"boom\"}\n\
               not json\n";
    let rows = parse_journal_json(out);
    assert_eq!(rows.len(), 2);
    assert!(rows[0][0].starts_with("2023-11-14"));
    assert_eq!(rows[0][2], "started");
    assert_eq!(rows[1][0], "-");
    assert_eq!(rows[1][2], "boom");
}

#[test]
fn parses_journal_binary_message() {
    let out = r#"{"PRIORITY":"6","MESSAGE":[104,105]}"#;
    let rows = parse_journal_json(out);
    assert_eq!(rows[0][2], "hi");
}

#[test]
fn rejects_unit_with_metacharacters() {
    assert!(validate_unit("nginx.service").is_ok());
    assert!(validate_unit("getty@tty1.service").is_ok());
    assert!(validate_unit("a; rm -rf /").is_err());
    assert!(validate_unit("$(id)").is_err());
    assert!(validate_unit("").is_err());
}

/// Extract the binary names the probe actually looks for, so a test can
/// assert a gate and the probe agree.
fn probed_binaries() -> Vec<&'static str> {
    FACTS_PROBE
        .lines()
        .find(|l| l.trim_start().starts_with("for c in "))
        .expect("probe has a `for c in` loop")
        .trim()
        .trim_start_matches("for c in ")
        .trim_end_matches("; do")
        .split_whitespace()
        .collect()
}

#[test]
fn every_gated_binary_is_actually_probed() {
    // `sys what=net` gates on `has("ss")`.
    let probed = probed_binaries();
    assert!(probed.contains(&"ss"), "probed: {probed:?}");
}

#[test]
fn probe_reports_a_binary_it_looks_for() {
    let f = HostFacts::parse("has=ss,jq\n");
    assert!(f.has("ss"));
    assert!(!f.has("spectacle"));
}

#[test]
fn camel_to_snake_property_names() {
    assert_eq!(camel_to_snake("ActiveState"), "active_state");
    assert_eq!(camel_to_snake("MainPID"), "main_pid");
    assert_eq!(camel_to_snake("SubState"), "sub_state");
    assert_eq!(camel_to_snake("Result"), "result");
}

#[test]
fn facts_come_by_name_and_the_last_value_counts() {
    let f = facts_from_probe("b=2\na=1\nhas=jq\nb=3\n", 0, "").unwrap();
    assert_eq!(f.get("b"), Some("3"));
    assert_eq!(f.format("web"), "host: web\na: 1\nb: 3\nhas: jq\n");
    assert_eq!(f.clone().get("a"), Some("1"));
    assert!(!f.is_empty());
    assert!(matches!(
        facts_from_probe("\n", 2, " no sh \n"),
        Err(SshError::Other(m)) if m == "host profile probe returned nothing (exit 2): no sh"
    ));
}

#[test]
fn epochs_are_dates() {
    assert_eq!(format_epoch_us(1_700_000_000_999_999), "2023-11-14T22:13:20Z");
    assert_eq!(format_epoch_us(-1), "1970-01-01T00:00:00Z");
    assert_eq!(format_epoch_us(i64::MAX), "9223372036854");
}

#[test]
fn a_journal_entry_has_three_cells() {
    let text = |s: &str| JsonField::Text(s.to_string());
    assert_eq!(
        journal_row(&text("0"), &text("6"), &text("up")),
        Some(strings(&["1970-01-01T00:00:00Z", "6", "up"]))
    );
    assert_eq!(
        journal_row(&JsonField::Other, &JsonField::Absent, &JsonField::Numbers(vec![Some(104), None, Some(256 + 105)])),
        Some(strings(&["-", "-", "hi"]))
    );
    assert_eq!(journal_row(&text("0"), &text("6"), &JsonField::Absent), None);
}

#[test]
fn each_view_has_its_command() {
    assert_eq!(sys_rows(None), 15);
    assert_eq!(sys_rows(Some(0)), 1);
    assert_eq!(sys_rows(Some(9999)), 200);
    assert_eq!(
        sys_command(SysView::Du, 3, Some("/var")),
        "du -x -d 1 -B1 '/var' 2>/dev/null | sort -rn | head -n 3"
    );
    assert_eq!(sys_command(SysView::Who, 3, None), "who -u 2>/dev/null | head -n 3");
    assert!(sys_command(SysView::Ps, 3, None).ends_with("| head -n 3"));
    let bare = HostFacts::parse("has=jq\n");
    assert!(check_sys_view(SysView::Df, "web", &bare).is_ok());
    assert!(matches!(
        check_sys_view(SysView::Net, "web", &bare),
        Err(SshError::Config(m)) if m.starts_with("`ss` is not installed on 'web'")
    ));
    assert!(check_sys_view(SysView::Net, "web", &HostFacts::parse("has=ss\n")).is_ok());
}

#[test]
fn each_view_is_a_table() {
    assert_eq!(
        format_sys(SysView::Du, "web", "12 /var/log\n", ""),
        "host: web\ndu(1):\n  bytes path\n  12 /var/log\n"
    );
    assert_eq!(
        format_sys(SysView::Mem, "web", "MemTotal: 100\n", ""),
        "host: web\nMemTotal: 100\nhint: values in kB\n"
    );
    assert_eq!(
        format_sys(SysView::Load, "web", " 0.1 0.2\n", ""),
        "host: web\nload: |\n  0.1 0.2\n"
    );
    let empty = format_sys(SysView::Who, "web", "", "denied\n");
    assert!(empty.contains("who(0): empty\n"), "got: {empty}");
    assert!(empty.ends_with("stderr: denied\n"), "got: {empty}");
    assert!(format_sys(SysView::Ps, "web", "1 0 root 0 0 1 1 S init\n", "").contains("ps(1):"));
    assert!(format_sys(SysView::Df, "web", "a b 1 2 3 4% /\n", "").contains("df(1):"));
    assert!(format_sys(SysView::Net, "web", "LISTEN 0 1 :22 x y\n", "").contains("listening(1):"));
}

#[test]
fn each_action_has_its_command() {
    assert_eq!(journal_lines(None), 50);
    assert_eq!(journal_lines(Some(9999)), 500);
    assert_eq!(
        svc_command(SvcAction::Restart, "a@b", 5),
        "systemctl restart 'a@b'"
    );
    assert_eq!(
        svc_command(SvcAction::Logs, "a", 5),
        "journalctl -u 'a' -n 5 -o json --no-pager 2>/dev/null"
    );
    assert_eq!(
        svc_command(SvcAction::Status, "a", 5),
        "systemctl show 'a' --property=LoadState,ActiveState,SubState,UnitFileState,MainPID,\
         MemoryCurrent,TasksCurrent,ActiveEnterTimestamp,Result --value 2>/dev/null"
    );
    assert_eq!(
        svc_command(SvcAction::Failed, "", 5),
        "systemctl list-units --state=failed --no-legend --plain 2>/dev/null"
    );
    assert_eq!(
        active_state_command("a"),
        "systemctl show 'a' --property=ActiveState --value 2>/dev/null"
    );
    assert_eq!(
        journal_tail_command("a"),
        "journalctl -u 'a' -n 30 -o cat --no-pager 2>/dev/null"
    );
    assert!(SvcAction::Stop.is_mutating());
    assert!(!SvcAction::Logs.is_mutating());
    assert!(SvcAction::Start.wants_state_before());
    assert!(!SvcAction::Stop.wants_state_before());
    assert_eq!(unit_active_state(" active\n").as_deref(), Some("active"));
    assert_eq!(unit_active_state(" \n"), None);
    assert!(is_failed("failed"));
}

#[test]
fn an_action_needs_a_unit() {
    assert_eq!(svc_unit(None, SvcAction::Failed).unwrap(), "");
    assert_eq!(svc_unit(Some("a"), SvcAction::Stop).unwrap(), "a");
    assert!(svc_unit(Some("a b"), SvcAction::Stop).is_err());
    assert!(matches!(
        svc_unit(None, SvcAction::Stop),
        Err(SshError::Config(m)) if m == "unit is required for every action except 'failed'"
    ));
}

#[test]
fn an_action_asks_for_the_state_that_it_leaves() {
    let g = guards();
    let ttl = HumanDuration::from_secs(0);
    let mut a = Approvals::new();
    let mut c = Confirm::new(false, vec![]);
    let call = SvcCall::new("web".into(), Some("nginx"), SvcAction::Restart, None).unwrap();
    assert_eq!(call.cmd(), "systemctl restart 'nginx'");
    let SvcGuard::Run(run) = call.guarded(&g, &mut a, &mut c, 0, ttl) else {
        panic!("expected a restart to pass");
    };
    assert_eq!(
        run.state_command().unwrap(),
        "systemctl show 'nginx' --property=ActiveState --value 2>/dev/null"
    );
    let SvcNext::State(acted) = run.ran(Some("active\n"), 0, "", "") else {
        panic!("expected a look at the state");
    };
    let SvcEnd::Journal(failed) = acted.state(Some("failed\n")) else {
        panic!("expected a look at the journal");
    };
    assert_eq!(
        failed.journal_command(),
        "journalctl -u 'nginx' -n 30 -o cat --no-pager 2>/dev/null"
    );
    assert_eq!(
        failed.journal(Some("boom\n")),
        "host: web\nunit: nginx\naction: restart\nexit: 0\nactive: failed\nactive_before: active\njournal_tail: |\n  boom\n"
    );
}

#[test]
fn a_unit_that_came_up_needs_no_journal() {
    let g = guards();
    let ttl = HumanDuration::from_secs(0);
    let mut a = Approvals::new();
    let mut c = Confirm::new(false, vec![]);
    let call = SvcCall::new("web".into(), Some("nginx"), SvcAction::Start, None).unwrap();
    let SvcGuard::Run(run) = call.guarded(&g, &mut a, &mut c, 0, ttl) else {
        panic!("expected a start to pass");
    };
    let SvcNext::State(acted) = run.ran(None, 0, "", "") else {
        panic!("expected a look at the state");
    };
    assert!(matches!(
        acted.state(Some("active\n")),
        SvcEnd::Answer(t) if t == "host: web\nunit: nginx\naction: start\nexit: 0\nactive: active\n"
    ));
}

#[test]
fn an_action_that_stops_a_unit_is_asked_about() {
    let g = guards();
    let ttl = HumanDuration::from_secs(0);
    let mut a = Approvals::new();
    let mut c = Confirm::new(false, vec![]);
    let stop = || SvcCall::new("web".into(), Some("nginx"), SvcAction::Stop, None).unwrap();
    let SvcGuard::Ask(asked) = stop().guarded(&g, &mut a, &mut c, 0, ttl) else {
        panic!("expected a question");
    };
    assert_eq!(asked.cmd(), "systemctl stop 'nginx'");
    assert!(asked.prompt().contains("systemctl stop 'nginx'"));
    assert!(matches!(
        asked.answered(Answer::Denied, &mut a, 0, ttl),
        SvcGuard::Refused(SshError::ConfirmationDenied)
    ));
    let SvcGuard::Ask(asked) = stop().guarded(&g, &mut a, &mut c, 0, ttl) else {
        panic!("expected a question");
    };
    let SvcGuard::Run(run) = asked.answered(Answer::Approved, &mut a, 0, ttl) else {
        panic!("expected the approved stop to pass");
    };
    assert!(run.state_command().is_none());
    // What only looks is not asked about, and answers at once.
    let look = SvcCall::new("web".into(), None, SvcAction::Failed, None).unwrap();
    let SvcGuard::Run(run) = look.guarded(&g, &mut a, &mut c, 0, ttl) else {
        panic!("expected a look to pass");
    };
    assert!(matches!(
        run.ran(None, 0, "", ""),
        SvcNext::Answer(t) if t == format_failed("web", "")
    ));
    assert!(SvcCall::new("web".into(), None, SvcAction::Stop, None).is_err());
}

#[test]
fn each_action_has_its_answer() {
    assert_eq!(
        format_status("web", "a", "loaded\nactive\n\n[not set]\n42\n"),
        "host: web\nunit: a\nload_state: loaded\nactive_state: active\nmain_pid: 42\n"
    );
    assert_eq!(format_failed("web", "\n"), "host: web\nfailed: none\n");
    assert!(format_failed("web", "a.service loaded failed failed\n").contains("failed(1):"));
    assert!(format_logs("web", "{\"MESSAGE\":\"x\"}\n").contains("  \"-\" \"-\" x\n"));
    assert_eq!(
        format_action(
            "web", "a", SvcAction::Restart, 0, Some("failed"), Some("active"), Some(" boom\n"), " e\n"
        ),
        "host: web\nunit: a\naction: restart\nexit: 0\nactive: failed\nactive_before: active\n\
         journal_tail: |\n  boom\nstderr: e\n"
    );
    assert_eq!(
        format_action("web", "a", SvcAction::Stop, 5, None, None, None, ""),
        "host: web\nunit: a\naction: stop\nexit: 5\n"
    );
}

// --- visual ----------------------------------------------------------------

fn png(w: u32, h: u32) -> Vec<u8> {
    let img = image::RgbImage::from_fn(w, h, |x, y| {
        image::Rgb([(x % 256) as u8, (y % 256) as u8, 128])
    });
    let mut out = Vec::new();
    image::DynamicImage::ImageRgb8(img)
        .write_to(&mut Cursor::new(&mut out), ImageFormat::Png)
        .unwrap();
    out
}

#[test]
fn downscale_fits_the_width_and_keeps_the_aspect() {
    let e = downscale(&png(1920, 1080), 1024, ShotFormat::Jpeg, 75).unwrap();
    assert_eq!(e.width, 1024);
    assert_eq!(e.height, 576);
    assert!(!e.data.is_empty());
}

#[test]
fn downscale_never_upscales() {
    let e = downscale(&png(320, 200), 1024, ShotFormat::Png, 75).unwrap();
    assert_eq!((e.width, e.height), (320, 200));
}

#[test]
fn lower_jpeg_quality_costs_fewer_bytes() {
    let raw = png(800, 600);
    let low = downscale(&raw, 800, ShotFormat::Jpeg, 10).unwrap();
    let high = downscale(&raw, 800, ShotFormat::Jpeg, 95).unwrap();
    assert!(low.data.len() < high.data.len());
}

#[test]
fn a_capture_that_is_not_an_image_is_an_error() {
    assert!(downscale(b"not an image at all", 1024, ShotFormat::Jpeg, 75).is_err());
}

#[test]
fn nonces_differ() {
    assert_ne!(nonce(1), nonce(1));
}

#[test]
fn the_clock_stands_in_only_where_nothing_was_drawn() {
    assert_eq!(nonce_from(Ok(0x0102), 7), "0201000000000000");
    assert_eq!(nonce_from(Err("no entropy".into()), 7), "0700000000000000");
}

#[test]
fn every_backend_template_has_an_output_slot() {
    for b in backends() {
        let (bin, template) = (b.bin, b.template);
        assert!(template.contains("{}"), "{bin} has no output placeholder");
        assert!(
            template.starts_with(bin),
            "{bin} template runs something else"
        );
    }
}

#[test]
fn every_backend_is_one_the_facts_probe_looks_for() {
    // Backend selection is `facts.has(bin)`. A backend the probe never
    // reports can never be chosen.
    let listed = probed_binaries();
    for b in backends() {
        let bin = b.bin;
        assert!(
            listed.contains(&bin),
            "{bin} is a backend the facts probe never reports (probed: {listed:?})"
        );
    }
}

#[test]
fn an_image_that_is_downscaled_can_be_read_again() {
    let e = downscale(&png(64, 32), 16, ShotFormat::Png, 75).unwrap();
    let img = image::load_from_memory(&e.data).unwrap();
    assert_eq!((img.width(), img.height()), (16, 8));
    let e = downscale(&png(64, 32), 16, ShotFormat::Jpeg, 75).unwrap();
    let img = image::load_from_memory(&e.data).unwrap();
    assert_eq!((img.width(), img.height()), (16, 8));
}

#[test]
fn a_sliver_keeps_a_pixel() {
    assert_eq!(fit(1000, 1, 10), (10, 1));
    assert_eq!(fit(10, 5, 10), (10, 5));
    assert_eq!(shot_width(None), 1024);
    assert_eq!(shot_width(Some(1)), 16);
    assert_eq!(shot_width(Some(99_999)), 3840);
    assert_eq!(shot_quality(None), 75);
    assert_eq!(shot_quality(Some(0)), 1);
    assert_eq!(shot_quality(Some(200)), 100);
    assert!(matches!(
        encoded(1, 1, ShotFormat::Png, Err("no".into())),
        Err(SshError::Other(m)) if m == "cannot encode png: no"
    ));
}

#[test]
fn the_first_backend_that_is_there_is_used() {
    let b = choose_backend("web", &HostFacts::parse("has=scrot,import\n")).unwrap();
    assert_eq!(b.bin, "import");
    assert_eq!(
        capture_command(&b, "/tmp/a b.png", None),
        "DISPLAY=':0' import -window root '/tmp/a b.png'"
    );
    let b = choose_backend("web", &HostFacts::parse("has=grim\n")).unwrap();
    assert_eq!(
        capture_command(&b, "/t", Some(":9")),
        "XDG_RUNTIME_DIR=${XDG_RUNTIME_DIR:-/run/user/$(id -u)} grim -t png '/t'"
    );
    assert!(matches!(
        choose_backend("web", &HostFacts::parse("has=jq\n")),
        Err(SshError::Other(m))
            if m == "no screenshot backend on web: none of grim, gnome-screenshot, spectacle, \
                     import, scrot are installed"
    ));
    assert_eq!(nonce_of(0x0102), "0201000000000000");
    assert_eq!(capture_path("ff"), "/tmp/.fast-mcp-ssh-shot-ff.png");
    assert!(matches!(
        capture_failed("grim", "web", 1, " no display\n"),
        SshError::Other(m) if m == "grim failed on web (exit 1): no display"
    ));
}

fn shot() -> ShotCall {
    let facts = HostFacts::parse("has=scrot\n");
    ShotCall::new("web".into(), &facts, None, 7).expect("scrot is there")
}

#[test]
fn a_capture_that_failed_is_removed() {
    let call = shot();
    assert!(call.cmd().starts_with("DISPLAY=':0' scrot "), "got: {}", call.cmd());
    let ShotNext::Discard(d) = call.ran(1, " no display\n") else {
        panic!("expected the capture to be dropped");
    };
    assert!(d.path().starts_with("/tmp/.fast-mcp-ssh-shot-"), "got: {}", d.path());
    assert!(matches!(
        d.removed(),
        Err(SshError::Other(m)) if m == "scrot failed on web (exit 1): no display"
    ));
}

#[test]
fn a_capture_is_removed_once_it_was_fetched() {
    let ShotNext::Fetch(f) = shot().ran(0, "") else {
        panic!("expected the capture to be fetched");
    };
    let path = f.path().to_string();
    let d = f.fetched(Err(SshError::Other("gone".into())));
    assert_eq!(d.path(), path);
    assert!(matches!(d.removed(), Err(SshError::Other(m)) if m == "gone"));

    let ShotNext::Fetch(f) = shot().ran(0, "") else {
        panic!("expected the capture to be fetched");
    };
    let path = f.path().to_string();
    let file = ShotFile { bytes: 9, duration_ms: 4, raw: Some(png(64, 32)) };
    let taken = f.fetched(Ok(file)).removed().unwrap();
    let record = taken.record();
    assert_eq!(record.cmd, Some(path));
    assert_eq!(
        (record.exit_code, record.duration_ms, record.bytes_out),
        (Some(0), Some(4), Some(9))
    );
    let ShotReply::Image(image) = taken.answer(None) else {
        panic!("expected an image");
    };
    let answer = image.encode(Some(16), ShotFormat::Png, None).unwrap();
    assert_eq!(answer.mime, "image/png");
    assert!(
        answer.text.starts_with("host: web\nbackend: scrot\nbytes: 9\nms: 4\nwidth: 16\nheight: 8\n"),
        "got: {}",
        answer.text
    );
}

#[test]
fn a_capture_on_disk_is_answered_with_its_path() {
    let ShotNext::Fetch(f) = shot().ran(0, "") else {
        panic!("expected the capture to be fetched");
    };
    let file = ShotFile { bytes: 9, duration_ms: 4, raw: None };
    let taken = f.fetched(Ok(file)).removed().unwrap();
    assert!(matches!(
        taken.answer(Some("/tmp/s.png")),
        ShotReply::Text(t) if t == "host: web\nbackend: scrot\nbytes: 9\nms: 4\nlocal: /tmp/s.png\n"
    ));
}

#[test]
fn a_shot_answers_with_an_image_or_a_path() {
    let e = Encoded {
        data: vec![0, 1, 2],
        width: 4,
        height: 2,
    };
    let a = format_shot("web", "grim", 9, 1, ShotFormat::Jpeg, &e);
    assert_eq!(
        a.text,
        "host: web\nbackend: grim\nbytes: 9\nms: 1\nwidth: 4\nheight: 2\nformat: jpeg\nimage_bytes: 3\n"
    );
    assert_eq!((a.image.as_str(), a.mime), ("AAEC", "image/jpeg"));
    assert_eq!(
        format_shot_without_image("web", "grim", 9, 1, Some("/tmp/s.png")),
        "host: web\nbackend: grim\nbytes: 9\nms: 1\nlocal: /tmp/s.png\n"
    );
    assert!(format_shot_without_image("web", "grim", 9, 1, None).contains("64 MB cap"));
}

// --- net, session, discovery -----------------------------------------------

#[test]
fn a_tunnel_is_told() {
    assert_eq!(bind_address(8080), "127.0.0.1:8080");
    assert!(matches!(
        bind_failed(80, "denied"),
        SshError::Other(m) if m == "bind 127.0.0.1:80: denied"
    ));
    assert!(check_port(80, false).is_ok());
    assert!(matches!(
        check_port(80, true),
        Err(SshError::Config(m)) if m == "local port 80 already forwarded; unforward first"
    ));
    assert_eq!(forward_record(1, "db", 2), "127.0.0.1:1 -> db:2");
    let t = Tunnel {
        host: "web".into(),
        bound: "127.0.0.1:1".into(),
        remote_host: "db".into(),
        remote_port: 2,
    };
    assert_eq!(
        format_forward(&t),
        "host: web\nlocal: \"127.0.0.1:1\"\nremote: \"db:2\"\nstatus: listening\n"
    );
    assert_eq!(
        format_forwards(&vec![t]),
        "forwards(1):\n  host local remote\n  web \"127.0.0.1:1\" \"db:2\"\n"
    );
    assert_eq!(format_unforward(1, true), "local_port: 1\nstatus: stopped\n");
    assert_eq!(
        format_unforward(1, false),
        "local_port: 1\nstatus: \"no such forward\"\n"
    );
}

#[test]
fn sessions_are_told() {
    assert_eq!(format_disconnect("web"), "host: web\nstatus: closed\n");
    assert_eq!(
        format_reload(1, 2, &strings(&["a", "b"])),
        "hosts_before: 1\nhosts_after: 2\nsessions_dropped: 2\ndropped: a,b\n"
    );
    assert_eq!(
        format_reload(1, 1, &vec![]),
        "hosts_before: 1\nhosts_after: 1\nsessions_dropped: 0\n"
    );
    assert_eq!(format_disconnect_all(1, &strings(&["a"])), "closed: 1\nhosts: a\n");
    assert!(closes_all("*"));
    assert!(!closes_all("**"));
    assert_eq!(
        format_shells("web", Some(0), &strings(&["x"])),
        "host: web\nclosed: 0\nhint: no shell by that name; `shells` with no argument lists them\n\
         named_count: 1\nnamed_max: 8\nnamed: x\n"
    );
    assert_eq!(
        format_shells("web", None, &vec![]),
        "host: web\nnamed_count: 0\nnamed_max: 8\n"
    );
}

#[test]
fn hosts_are_listed_by_name() {
    let host = |addr: &str| Host {
        addr: addr.into(),
        user: "u".into(),
        port: 22,
        auth: AuthMethod::Password,
        key: None,
        keys: None,
        guards: None,
        known_host_fingerprint: None,
        proxy_jump: None,
    };
    let mut cfg = Config {
        defaults: Defaults::with_audit_path("/tmp/audit.log".into()),
        hosts: Hosts::new(),
    };
    assert_eq!(
        format_hosts(&cfg, &vec![], "/c.toml"),
        "hosts: \"none configured\"\nhint: edit /c.toml to add hosts\n"
    );
    cfg.hosts = Hosts::new()
        .insert("b".into(), host("2"))
        .insert("a".into(), host("1"));
    assert_eq!(
        format_hosts(&cfg, &strings(&["b"]), "/c.toml"),
        "hosts(2):\n  name addr user port auth session\n  a 1 u 22 password idle\n  b 2 u 22 password live\n"
    );
    assert_eq!(
        format_ping(&vec![
            PingResult { host: "a".into(), ms: 3, error: None },
            PingResult { host: "b".into(), ms: 4, error: Some("no route".into()) },
        ]),
        "ping(2):\n  host status ms error\n  a ok 3 \"-\"\n  b fail 4 \"no route\"\n"
    );
}

#[test]
fn a_probe_is_logged_with_its_time() {
    let up = PingResult { host: "web".into(), ms: 5, error: None };
    let r = ping_record(&up);
    assert_eq!((r.duration_ms, r.error, r.cmd), (Some(5), None, None));
    let down = PingResult { host: "web".into(), ms: 6, error: Some("no route".into()) };
    let r = ping_record(&down);
    assert_eq!((r.duration_ms, r.error.as_deref()), (Some(6), Some("no route")));
}
