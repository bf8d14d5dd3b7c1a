use fast_mcp_ssh::config::{
    AuthMethod, Config, Defaults, Host, Hosts, HumanDuration, StrictHostKey,
};
use fast_mcp_ssh::errors::{SshError, TransportFault};
use fast_mcp_ssh::known_hosts::{endpoint_key, KnownHostMatch, KnownHosts};
use fast_mcp_ssh::session::connect::{
    after_pin, check_server_key, handshake_error, key_order, login_error, KeyOutcome, KeyRejection,
    KeyVerdict,
};
use fast_mcp_ssh::session::exec::{should_retry, Capture, ExecAction, ExecEvent, ExecRun};
use fast_mcp_ssh::session::pool::{
    channel_cap, evict_interval_ms, forgets_password, keeps_session, place_exec, proxy_chain,
    prune_against, refill_after_failure, refill_step, refill_with_slot, retries_open,
    should_close_extra, should_evict, spare_channels, Placement, RefillStep,
};
use fast_mcp_ssh::session::pty::{
    append_capped, body_and_code, body_of, drawn, init_marker, init_script, parse_exit_code,
    payload, random_nonce, random_token, sentinel, token_of, PtyDrain, PtyEvent, PtyInit, PtyOpts,
    PtyStep,
};

#[test]
fn capture_counts_past_the_cap_and_keeps_the_end() {
    let mut c = Capture::new(10, 4);
    c.push(b"0123456789abc");
    c.push(&[b'x'; 100_000]);
    c.push(b"END");
    assert!(c.capped());
    let (head, tail, total) = c.finish();
    assert_eq!(head, "0123456789");
    assert_eq!(total, 13 + 100_000 + 3);
    // The window is bounded by `max`, so here it holds the last 10 bytes.
    assert_eq!(tail, "xxxxxxxEND");
}

#[test]
fn capture_under_the_cap_has_no_tail() {
    let mut c = Capture::new(100, 16);
    c.push(b"hello");
    assert!(!c.capped());
    let (head, tail, total) = c.finish();
    assert_eq!((head.as_str(), tail.as_str(), total), ("hello", "", 5));
}

#[test]
fn capture_tail_drops_a_split_utf8_sequence() {
    let mut c = Capture::new(3, 4);
    c.push(b"abc");
    // 'é' is C3 A9; the 3-byte window over "xéyz" starts on A9.
    c.push("xéyz".as_bytes());
    let (_, tail, _) = c.finish();
    assert_eq!(tail, "yz");
}

#[test]
fn bytes_that_are_no_text_are_replaced() {
    let mut c = Capture::new(10, 4);
    c.push(&[b'a', 0xff, b'b']);
    assert_eq!(c.finish().0, "a\u{fffd}b");
}

#[test]
fn a_command_ends_once_its_channel_is_closed() {
    let run = ExecRun::new(100);
    let (run, a) = run.step(ExecEvent::Data(b"out"));
    assert_eq!(a, ExecAction::Wait);
    let (run, a) = run.step(ExecEvent::ExtendedData { ext: 1, data: b"err" });
    assert_eq!(a, ExecAction::Wait);
    let (run, a) = run.step(ExecEvent::ExitStatus(3));
    assert_eq!(a, ExecAction::Wait);
    let (run, a) = run.step(ExecEvent::Eof);
    assert_eq!(a, ExecAction::WaitForClose);
    let (run, a) = run.step(ExecEvent::Close);
    assert_eq!(a, ExecAction::Stop);
    let r = run.finish(12);
    assert_eq!((r.stdout.as_str(), r.stderr.as_str()), ("out", "err"));
    assert_eq!((r.exit_code, r.duration_ms), (3, 12));
    assert!(!r.timed_out && !r.interrupted && !r.connection_lost && !r.capture_capped);
}

#[test]
fn a_command_without_a_status_says_why() {
    let (run, a) = ExecRun::new(10).step(ExecEvent::TimerFired);
    assert_eq!(a, ExecAction::CloseAndStop);
    let r = run.finish(0);
    assert_eq!((r.exit_code, r.timed_out), (124, true));
    let (run, _) = ExecRun::new(10).step(ExecEvent::Cancelled);
    let r = run.finish(0);
    assert_eq!((r.exit_code, r.interrupted), (130, true));
    let (run, _) = ExecRun::new(10).step(ExecEvent::Close);
    let (run, a) = run.step(ExecEvent::Ended);
    assert_eq!(a, ExecAction::Stop);
    let r = run.finish(0);
    assert_eq!((r.exit_code, r.connection_lost), (-1, true));
    // A parked channel that turned out to be dead is worth a second try.
    assert!(should_retry(true, &Ok(r)));
    assert!(!should_retry(false, &Err(SshError::Timeout(1))));
}

/// The output and the exit code, where the sentinel stands at `pos`.
fn slice_like_run(raw: &[u8], token: &str, pos: usize) -> (String, i32) {
    body_and_code(raw, token, pos)
}

#[test]
fn parses_sentinel() {
    let raw = b"hello world\nsecond line\n__DONE_abc__:0\n";
    let pos = raw.len() - "\n__DONE_abc__:0\n".len();
    let (out, code) = slice_like_run(raw, "__DONE_abc__", pos);
    assert_eq!(out, "hello world\nsecond line");
    assert_eq!(code, 0);
}

#[test]
fn parses_nonzero_exit() {
    let raw = b"boom\n__DONE_x__:42\n";
    let pos = raw.len() - "\n__DONE_x__:42\n".len();
    let (out, code) = slice_like_run(raw, "__DONE_x__", pos);
    assert_eq!(out, "boom");
    assert_eq!(code, 42);
}

#[test]
fn handles_crlf_pty_output() {
    let raw = b"ok\r\n__DONE_x__:0\r\n";
    let pos = raw.len() - "\n__DONE_x__:0\r\n".len();
    let (out, code) = slice_like_run(raw, "__DONE_x__", pos);
    assert_eq!(code, 0);
    assert!(out.contains("ok"));
}

#[test]
fn exit_code_garbage_is_minus_one() {
    assert_eq!(parse_exit_code(b"abc\n"), -1);
    assert_eq!(parse_exit_code(b""), -1);
    assert_eq!(parse_exit_code(b"7\r\n"), 7);
}

#[test]
fn random_token_is_unique() {
    let a = random_token("x").expect("system RNG");
    let b = random_token("x").expect("system RNG");
    assert_ne!(a, b);
    assert!(a.starts_with("x"));
}

#[test]
fn a_draw_is_the_number_or_an_error() {
    assert_eq!(drawn(Ok(7)).unwrap(), 7);
    assert!(matches!(
        drawn(Err("no entropy".into())),
        Err(SshError::Other(m)) if m == "system RNG unavailable: no entropy"
    ));
}

#[test]
fn random_nonce_differs_per_call() {
    let a = random_nonce().expect("system RNG");
    let b = random_nonce().expect("system RNG");
    assert_ne!(a, b);
}

#[test]
fn append_capped_drops_overflow() {
    let mut buf = Vec::new();
    append_capped(&mut buf, b"hello", 10);
    append_capped(&mut buf, b"world!!!", 10);
    assert_eq!(buf, b"helloworld");
}

#[test]
fn a_token_is_a_prefix_and_sixteen_hex_digits() {
    assert_eq!(token_of("rdy", 0xab), "rdy00000000000000ab");
    assert_eq!(
        sentinel("rdy1", 7, "ff"),
        "__DONE_rdy1_7_ff__"
    );
    assert_eq!(
        payload("ls", "__T__"),
        "ls\nprintf '\\n%s:%s\\n' __T__ \"$?\"\n"
    );
}

#[test]
fn the_marker_does_not_stand_in_the_script() {
    let script = init_script("rdy00ff");
    assert!(!script.contains(&init_marker("rdy00ff")));
    assert!(script.ends_with("printf '__%s__\\n' rdy00ff\n"));
}

#[test]
fn a_shell_is_ready_once_the_marker_arrived_whole() {
    let init = PtyInit::new("__rdy1__", 100);
    let (init, ready) = init.step(b"motd\n__rd");
    assert!(!ready);
    let (_, ready) = init.step(b"y1__\n");
    assert!(ready);
}

#[test]
fn output_is_complete_where_the_status_line_is() {
    let drain = PtyDrain::new("__DONE_a__", 1000);
    let (drain, step) = drain.step(PtyEvent::Data(b"hello\n\n__DONE_a__:"));
    assert_eq!(step, PtyStep::More);
    let (drain, step) = drain.step(PtyEvent::Data(b"5\n"));
    assert_eq!(step, PtyStep::Done(6));
    assert_eq!(drain.finish(6), ("hello".to_string(), 5));
    let (drain, step) = PtyDrain::new("__DONE_a__", 1000).step(PtyEvent::Closed);
    assert_eq!(step, PtyStep::Closed);
    let (_, step) = drain.step(PtyEvent::Elapsed);
    assert_eq!(step, PtyStep::TimedOut);
}

#[test]
fn an_earlier_token_ends_no_later_command() {
    let first = sentinel("rdy1", 0, "aa");
    let second = sentinel("rdy1", 1, "aa");
    assert_ne!(first, second);
    let answer = format!("\n{first}:0\n\n{second}:3\n");
    let (drain, step) = PtyDrain::new(&second, 1000).step(PtyEvent::Data(answer.as_bytes()));
    let end = answer.find(&format!("\n{second}")).unwrap();
    assert_eq!(step, PtyStep::Done(end));
    assert_eq!(drain.finish(end), (format!("\n{first}:0"), 3));
}

#[test]
fn bracketed_paste_marks_are_no_output() {
    assert_eq!(body_of(b"\x1b[?2004lhi\x1b[?2004h\r\n"), "hi");
}

#[test]
fn a_pty_has_a_default_size() {
    let o = PtyOpts::default();
    assert_eq!((o.cols, o.rows), (200, 50));
}

fn host(addr: &str) -> Host {
    Host {
        addr: addr.into(),
        user: "root".into(),
        port: 22,
        auth: AuthMethod::Key,
        key: None,
        keys: None,
        guards: None,
        known_host_fingerprint: None,
        proxy_jump: None,
    }
}

fn config(hosts: Vec<(&str, Host)>) -> Config {
    let mut all = Hosts::new();
    for (name, h) in hosts {
        all = all.insert(name.into(), h);
    }
    Config {
        defaults: Defaults::with_audit_path("/tmp/audit.log".into()),
        hosts: all,
    }
}

#[test]
fn a_configured_fingerprint_decides() {
    let configured = Some("SHA256:a".to_string());
    assert!(matches!(
        check_server_key(&configured, StrictHostKey::Off, None, "SHA256:a"),
        KeyVerdict::Accept
    ));
    assert!(matches!(
        check_server_key(&configured, StrictHostKey::Off, Some(KnownHostMatch::Known), "SHA256:b"),
        KeyVerdict::Reject(KeyRejection::Mismatch { expected, actual })
            if expected == "SHA256:a" && actual == "SHA256:b"
    ));
}

#[test]
fn an_unknown_key_is_pinned_once_or_refused() {
    assert!(matches!(
        check_server_key(&None, StrictHostKey::Tofu, Some(KnownHostMatch::Unknown), "k"),
        KeyVerdict::Pin
    ));
    assert!(matches!(
        check_server_key(&None, StrictHostKey::Strict, Some(KnownHostMatch::Unknown), "k"),
        KeyVerdict::Reject(KeyRejection::Unknown { actual }) if actual == "k"
    ));
    assert!(matches!(
        check_server_key(&None, StrictHostKey::Tofu, None, "k"),
        KeyVerdict::Reject(KeyRejection::Store(_))
    ));
    assert!(matches!(after_pin(None), KeyVerdict::Accept));
    assert!(matches!(
        after_pin(Some("disk full")),
        KeyVerdict::Reject(KeyRejection::Store(_))
    ));
}

#[test]
fn a_changed_key_is_reported_as_such() {
    let raw = SshError::Russh {
        fault: TransportFault::Other,
        message: "unknown key".into(),
    };
    let e = handshake_error(
        "web",
        Some(KeyRejection::Mismatch {
            expected: "a".into(),
            actual: "b".into(),
        }),
        raw,
    );
    assert!(matches!(
        e,
        SshError::FingerprintMismatch { host, expected, actual }
            if host == "web" && expected == "a" && actual == "b"
    ));
}

#[test]
fn the_key_that_worked_is_tried_first() {
    let mut h = host("1.2.3.4");
    h.key = Some("~/a".into());
    h.keys = Some(vec!["~/b".into(), "~/a".into()]);
    assert_eq!(key_order(&h, None, false).unwrap(), vec!["~/a", "~/b"]);
    assert_eq!(key_order(&h, Some("~/b"), false).unwrap(), vec!["~/b", "~/a"]);
    assert!(matches!(
        key_order(&host("1.2.3.4"), None, false),
        Err(SshError::Config(m)) if m == "auth=key but no key path for 1.2.3.4"
    ));
}

#[test]
fn a_login_that_failed_says_why() {
    assert!(matches!(
        login_error(Some(KeyOutcome::Refused), &host("1.2.3.4")),
        SshError::AuthFailed { user, .. } if user == "root"
    ));
    let e = login_error(
        Some(KeyOutcome::Unreadable {
            path: "~/k".into(),
            why: "no such file".into(),
        }),
        &host("1.2.3.4"),
    );
    assert!(e.message().contains("~/k"), "got: {}", e.message());
}

#[test]
fn pins_are_looked_up_by_host_and_endpoint() {
    let k = KnownHosts::new().add("web", "1.2.3.4", 22, "SHA256:a");
    assert_eq!(endpoint_key("1.2.3.4", 22), "1.2.3.4:22");
    assert!(matches!(
        k.check("web", "1.2.3.4", 22, "SHA256:a"),
        KnownHostMatch::Known
    ));
    assert!(matches!(
        k.check("web", "1.2.3.4", 22, "SHA256:b"),
        KnownHostMatch::Mismatch { expected } if expected == "SHA256:a"
    ));
    assert!(matches!(
        k.check("db", "5.6.7.8", 22, "SHA256:b"),
        KnownHostMatch::Unknown
    ));
    assert!(k.len() >= 1);
    let k = KnownHosts::new().pin("x".into(), "1".into()).pin("x".into(), "2".into());
    assert_eq!(k.len(), 1);
    assert_eq!(k.pin_at(0), (&"x".to_string(), &"2".to_string()));
    assert_eq!(k.unpin("x").len(), 0);
}

#[test]
fn a_reload_drops_what_changed() {
    let old = config(vec![("a", host("1.1.1.1")), ("b", host("2.2.2.2")), ("c", host("3.3.3.3"))]);
    let new = config(vec![("a", host("1.1.1.1")), ("b", host("9.9.9.9"))]);
    let active: Vec<String> = ["a", "b", "c"].iter().map(|s| s.to_string()).collect();
    assert_eq!(prune_against(&active, &old, &new, false), vec!["b", "c"]);
    assert!(keeps_session(Some(&host("x")), Some(&host("x")), false));
    assert!(!keeps_session(Some(&host("x")), None, false));
}

#[test]
fn a_key_written_in_another_way_is_the_same_key() {
    let with = |keys: &[&str]| {
        let mut h = host("1.2.3.4");
        h.keys = Some(keys.iter().map(|k| k.to_string()).collect());
        h
    };
    let h = with(&["/k/a", "/k/b"]);
    assert_eq!(
        key_order(&h, Some("/k//b/"), false).unwrap(),
        vec!["/k/b", "/k/a"]
    );
    assert_eq!(
        key_order(&h, Some("/k/../k/b"), false).unwrap(),
        vec!["/k/a", "/k/b"]
    );
    assert!(keeps_session(
        Some(&h),
        Some(&with(&["/k/./a", "//k/b"])),
        false
    ));
    assert!(!keeps_session(
        Some(&h),
        Some(&with(&["/k/b", "/k/a"])),
        false
    ));
    let w = with(&["C:\\k\\a", "C:\\k\\b"]);
    assert_eq!(
        key_order(&w, Some("c:/k/b"), true).unwrap(),
        vec!["C:\\k\\b", "C:\\k\\a"]
    );
    assert!(keeps_session(
        Some(&w),
        Some(&with(&["c:/k/a", "c:/k/b"])),
        true
    ));
    assert!(!keeps_session(
        Some(&w),
        Some(&with(&["c:/k/a", "c:/k/b"])),
        false
    ));
}

#[test]
fn a_session_leaves_a_channel_for_work() {
    assert_eq!(channel_cap(0), 1);
    assert_eq!(channel_cap(8), 8);
    assert_eq!(spare_channels(8), 2);
    assert_eq!(spare_channels(2), 1);
    assert_eq!(spare_channels(1), 0);
}

#[test]
fn idle_sessions_are_evicted() {
    let t = HumanDuration::from_secs(10);
    assert!(!should_evict(0, 10_000, t));
    assert!(should_evict(0, 10_001, t));
    // A clock that went back evicts nothing.
    assert!(!should_evict(20_000, 0, t));
    assert_eq!(evict_interval_ms(t), 5000);
    assert_eq!(evict_interval_ms(HumanDuration::from_secs(60)), 30_000);
    assert_eq!(evict_interval_ms(HumanDuration::from_secs(900)), 60_000);
}

#[test]
fn a_burst_opens_a_second_connection() {
    assert_eq!(place_exec(&vec![3], 2), Placement::Take(0));
    assert_eq!(place_exec(&vec![0], 2), Placement::OpenAnother);
    assert_eq!(place_exec(&vec![0, 1], 2), Placement::Take(1));
    assert_eq!(place_exec(&vec![0, 0], 2), Placement::Queue);
    assert_eq!(place_exec(&vec![0], 1), Placement::Queue);
    assert!(!should_close_extra(0, 120_000));
    assert!(should_close_extra(0, 120_001));
    assert!(!should_close_extra(5, 0));
}

#[test]
fn a_refused_channel_is_tried_again_once() {
    assert!(retries_open(true, 1));
    assert!(!retries_open(true, 2));
    assert!(!retries_open(false, 1));
}

#[test]
fn spares_are_opened_up_to_the_target() {
    assert_eq!(refill_step(true, 0, 2), RefillStep::Stop);
    assert_eq!(refill_step(false, 2, 2), RefillStep::WaitForUse);
    assert_eq!(refill_step(false, 1, 2), RefillStep::TakeSlot);
    assert_eq!(refill_with_slot(false, 1, 2), RefillStep::Open);
    assert_eq!(refill_with_slot(false, 2, 2), RefillStep::LookAgain);
    assert_eq!(refill_after_failure(true), RefillStep::Stop);
    assert_eq!(refill_after_failure(false), RefillStep::Retry);
}

#[test]
fn a_refused_password_is_forgotten() {
    assert!(forgets_password(&SshError::AuthFailed {
        user: "u".into(),
        host: "h".into()
    }));
    assert!(!forgets_password(&SshError::Timeout(1)));
}

#[test]
fn a_jump_host_is_reached_through_its_own() {
    let mut a = host("1.1.1.1");
    a.proxy_jump = Some("b".into());
    let mut b = host("2.2.2.2");
    b.proxy_jump = Some("c".into());
    let cfg = config(vec![("a", a), ("b", b), ("c", host("3.3.3.3"))]);
    let chain = proxy_chain(&cfg, "a").unwrap();
    assert_eq!(chain, vec!["a", "b", "c"]);
    let mut l = host("1.1.1.1");
    l.proxy_jump = Some("l".into());
    assert!(matches!(
        proxy_chain(&config(vec![("l", l)]), "l"),
        Err(SshError::Config(_))
    ));
    let mut u = host("1.1.1.1");
    u.proxy_jump = Some("nowhere".into());
    assert!(matches!(
        proxy_chain(&config(vec![("u", u)]), "u"),
        Err(SshError::UnknownHost(h)) if h == "nowhere"
    ));
}
