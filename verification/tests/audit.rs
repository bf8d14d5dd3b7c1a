use fast_mcp_ssh::audit::{
    audit_line, scrub_credentials, serialize_batch, writer_step, AuditRecord, AuditRotation,
    RotateStep, WriterAction, WriterEvent,
};

fn scrub(s: &str) -> String {
    scrub_credentials(s).expect("the pattern compiles")
}

#[test]
fn scrubs_mysql_password_attached() {
    let s = scrub("mysql -uroot -phunter2 -e 'select 1'");
    assert!(!s.contains("hunter2"), "got: {s}");
}

#[test]
fn scrubs_bearer_token() {
    let s = scrub("curl -H 'Authorization: Bearer eyJhbGc.xxx.yyy' https://api/");
    assert!(!s.contains("eyJhbGc"), "got: {s}");
}

#[test]
fn scrubs_aws_env() {
    let s = scrub("AWS_SECRET_ACCESS_KEY=abcd1234 aws s3 ls");
    assert!(!s.contains("abcd1234"), "got: {s}");
}

#[test]
fn scrubs_long_flags() {
    let s = scrub("foo --password=hunter2 --token bar123");
    assert!(!s.contains("hunter2"), "got: {s}");
    assert!(!s.contains("bar123"), "got: {s}");
}

#[test]
fn passes_through_clean_commands() {
    let s = scrub("ls -la /etc");
    assert_eq!(s, "ls -la /etc");
}

#[test]
fn rotation_is_due_at_its_size() {
    let r = AuditRotation::default();
    assert_eq!((r.max_bytes, r.keep_files), (16 * 1024 * 1024, 5));
    assert!(r.is_due(16 * 1024 * 1024 + 1));
    assert!(!r.is_due(16 * 1024 * 1024));
    let never = AuditRotation {
        max_bytes: 0,
        keep_files: 5,
    };
    assert!(!never.is_due(u64::MAX));
}

#[test]
fn rotation_moves_the_oldest_first() {
    let r = AuditRotation {
        max_bytes: 1,
        keep_files: 2,
    };
    let steps: Vec<String> = r
        .plan("/l")
        .into_iter()
        .map(|s| match s {
            RotateStep::Rename { from, to } => format!("{from}>{to}"),
            RotateStep::Remove { path } => format!("rm {path}"),
        })
        .collect();
    assert_eq!(steps, vec!["/l.1>/l.2", "/l>/l.1"]);
    let discard = AuditRotation {
        max_bytes: 1,
        keep_files: 0,
    };
    assert!(matches!(&discard.plan("/l")[..], [RotateStep::Remove { path }] if path == "/l"));
}

#[test]
fn an_entry_is_one_json_line() {
    let mut record = AuditRecord::cmd("echo \"hi\"\nmysql -psecret9");
    record.exit_code = Some(-1);
    record.bytes_out = Some(7);
    let line = audit_line(1_700_000_000_000_000_000, "web", "exec", &record).unwrap();
    assert!(line.ends_with("}\n"));
    assert_eq!(line.matches('\n').count(), 1);
    let v: serde_json::Value = serde_json::from_str(&line).unwrap();
    assert_eq!(v["ts"], "2023-11-14T22:13:20Z");
    assert_eq!(v["host"], "web");
    assert_eq!(v["tool"], "exec");
    assert_eq!(v["exit_code"], -1);
    assert_eq!(v["bytes_out"], 7);
    assert!(v["bytes_in"].is_null());
    assert!(v["blocked"].is_null());
    assert!(!line.contains("secret9"));
}

#[test]
fn a_refusal_says_why() {
    let line = audit_line(0, "web", "up", &AuditRecord::blocked("/etc/shadow", "no")).unwrap();
    let v: serde_json::Value = serde_json::from_str(&line).unwrap();
    assert_eq!(v["ts"], "1970-01-01T00:00:00Z");
    assert_eq!(v["cmd"], "/etc/shadow");
    assert_eq!(v["blocked"], "no");
    let line = audit_line(0, "web", "exec", &AuditRecord::failed("ls", "gone")).unwrap();
    let v: serde_json::Value = serde_json::from_str(&line).unwrap();
    assert_eq!(v["error"], "gone");
}

#[test]
fn a_clock_out_of_range_leaves_the_stamp_empty() {
    let line = audit_line(i128::MAX, "h", "t", &AuditRecord::cmd("x")).unwrap();
    assert!(line.starts_with("{\"ts\":\"\","));
}

#[test]
fn a_batch_is_its_lines() {
    assert_eq!(serialize_batch(&vec!["a\n".into(), "b\n".into()]), "a\nb\n");
    assert_eq!(serialize_batch(&vec![]), "");
}

#[test]
fn the_writer_drains_before_it_stops() {
    assert_eq!(writer_step(WriterEvent::Shutdown), WriterAction::DrainAndStop);
    assert_eq!(writer_step(WriterEvent::StillRunning), WriterAction::GoOn);
    assert_eq!(writer_step(WriterEvent::Received(3)), WriterAction::WriteBatch);
    assert_eq!(writer_step(WriterEvent::Received(0)), WriterAction::Stop);
}
