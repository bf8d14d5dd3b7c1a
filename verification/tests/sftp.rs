use fast_mcp_ssh::errors::SshError;
use fast_mcp_ssh::sftp::{
    copy_is_striped, copy_mode, copy_stripes, download_plan, download_stripes, has_target,
    join_remote, kind_of, list_dir, looks_binary, mkdir_paths, mkdir_stops, partial_path,
    remove_plan, resolve_path, split_parent, stat, timed_out, Attributes, DirEntry, DownloadPlan,
    InlineRead, RemoveAction, RemovePlan, RemoveWalk, Stripe, StripeRun, TRANSFER_CHUNK,
};

const MIB: u64 = 1024 * 1024;

fn pair(a: &str, b: &str) -> (String, String) {
    (a.to_string(), b.to_string())
}

#[test]
fn detects_binary() {
    assert!(looks_binary(&[0, 1, 2, 3]));
    assert!(looks_binary(&[0xff, 0xfe, 0xfd]));
    assert!(!looks_binary(b"hello world\n"));
    assert!(!looks_binary(b""));
}

#[test]
fn one_control_character_in_twenty_is_still_text() {
    let mut v = vec![b'a'; 19];
    v.push(1);
    assert!(!looks_binary(&v));
    v.pop();
    v.pop();
    v.push(1);
    assert!(looks_binary(&v));
    // Line breaks and tabs do not count.
    assert!(!looks_binary(b"\t\r\n\t\r\n"));
}

#[test]
fn remote_paths_split_into_parent_and_leaf() {
    assert_eq!(split_parent("/tmp/d/"), pair("/tmp", "d"));
    assert_eq!(split_parent("/tmp"), pair("/", "tmp"));
    assert_eq!(split_parent("d"), pair(".", "d"));
    assert_eq!(split_parent("//"), pair("/", ""));
    assert_eq!(split_parent("a/b/c"), pair("a/b", "c"));
}

#[test]
fn remote_paths_join() {
    assert_eq!(join_remote("/tmp", "a"), "/tmp/a");
    assert_eq!(join_remote("/", "a"), "/a");
    assert_eq!(join_remote("/tmp", ""), "/tmp");
}

#[test]
fn a_path_that_does_not_exist_resolves_through_its_parent() {
    assert_eq!(resolve_path("/tmp/l", Some("/etc/shadow"), None).as_deref(), Some("/etc/shadow"));
    assert_eq!(
        resolve_path("/tmp/new", None, Some("/private/tmp")).as_deref(),
        Some("/private/tmp/new")
    );
    assert_eq!(resolve_path("/tmp/new", None, None), None);
}

#[test]
fn a_transfer_goes_through_a_partial_file() {
    assert_eq!(partial_path("/srv/app.tar"), "/srv/app.tar.partial");
}

#[test]
fn a_slow_request_is_reported_with_its_limit() {
    assert!(matches!(
        timed_out("readdir", 30),
        SshError::Other(m) if m == "sftp readdir timed out after 30s"
    ));
}

fn check_partition(stripes: &[Stripe], size: u64) {
    let mut at = 0;
    for s in stripes {
        assert_eq!(s.offset, at);
        assert!(s.len > 0);
        at += s.len;
    }
    assert_eq!(at, size);
}

#[test]
fn download_stripes_cover_the_file() {
    for size in [4 * MIB, 4 * MIB + 1, 9 * MIB, 24 * MIB, 100 * MIB + 7] {
        check_partition(&download_stripes(size), size);
    }
    assert_eq!(download_stripes(4 * MIB).len(), 1);
    assert_eq!(download_stripes(9 * MIB).len(), 3);
    // Never more than six handles.
    assert_eq!(download_stripes(1000 * MIB).len(), 6);
}

#[test]
fn copy_stripes_cover_the_file() {
    for size in [MIB, MIB + 1, 3 * MIB, 50 * MIB + 3] {
        check_partition(&copy_stripes(size), size);
    }
    assert_eq!(copy_stripes(50 * MIB).len(), 4);
    assert_eq!(
        copy_stripes(2 * MIB),
        vec![
            Stripe { offset: 0, len: MIB },
            Stripe { offset: MIB, len: MIB }
        ]
    );
}

#[test]
fn a_stripe_that_ends_early_is_an_error() {
    let run = StripeRun::new(Stripe { offset: 100, len: 10 });
    assert_eq!(run.want(), 10);
    let run = run.advance(4, "download").unwrap();
    assert_eq!(run.want(), 6);
    match run.advance(0, "download") {
        Err(SshError::Other(m)) => assert_eq!(m, "sftp download: short read at offset 104"),
        other => panic!("expected a short read, got {other:?}"),
    }
}

#[test]
fn a_stripe_is_read_in_chunks_until_it_is_done() {
    let run = StripeRun::new(Stripe {
        offset: 0,
        len: TRANSFER_CHUNK as u64 + 1,
    });
    assert_eq!(run.want(), TRANSFER_CHUNK);
    let run = run.advance(TRANSFER_CHUNK, "copy").unwrap();
    assert_eq!(run.want(), 1);
    let run = run.advance(1, "copy").unwrap();
    assert_eq!(run.want(), 0);
}

#[test]
fn a_download_is_planned_by_its_size() {
    assert_eq!(download_plan(true, Some(4 * MIB), 10), DownloadPlan::Striped(4 * MIB));
    assert_eq!(download_plan(true, Some(4 * MIB - 1), 10), DownloadPlan::Stream);
    assert_eq!(download_plan(true, None, 10), DownloadPlan::Stream);
    assert_eq!(download_plan(false, Some(11), 10), DownloadPlan::TooLarge(11));
    assert_eq!(download_plan(false, Some(10), 10), DownloadPlan::Inline);
    assert_eq!(download_plan(false, None, 10), DownloadPlan::Inline);
}

#[test]
fn an_inline_read_is_bounded_whatever_the_server_says() {
    let r = InlineRead::new(4);
    assert_eq!(r.want(), 5);
    let r = r.push(b"abc");
    assert_eq!(r.want(), 2);
    let (n, content) = r.push(b"de").finish();
    assert_eq!((n, content), (5, None));
    let (n, content) = InlineRead::new(4).push(b"abcd").finish();
    assert_eq!((n, content), (4, Some(b"abcd".to_vec())));
}

#[test]
fn a_copy_keeps_the_mode_of_its_source() {
    assert_eq!(copy_mode(None, Some(0o755)), 0o755);
    assert_eq!(copy_mode(Some(0o600), Some(0o755)), 0o600);
    assert_eq!(copy_mode(None, None), 0o644);
    assert!(copy_is_striped(Some(MIB)));
    assert!(!copy_is_striped(Some(MIB - 1)));
    assert!(!copy_is_striped(None));
}

#[test]
fn parents_are_created_from_the_outermost() {
    assert_eq!(mkdir_paths("/a//b/c/", true), vec!["/a", "/a/b", "/a/b/c"]);
    assert_eq!(mkdir_paths("a/b", true), vec!["a", "a/b"]);
    assert_eq!(mkdir_paths("/a/b", false), vec!["/a/b"]);
    assert!(mkdir_paths("/", true).is_empty());
}

#[test]
fn a_directory_that_is_there_stops_only_plain_mkdir() {
    assert!(!mkdir_stops(true, true));
    assert!(mkdir_stops(true, false));
    assert!(mkdir_stops(false, true));
}

#[test]
fn kinds_are_read_off_the_mode() {
    assert_eq!(kind_of(Some(0o040755)), "dir");
    assert_eq!(kind_of(Some(0o120777)), "link");
    assert_eq!(kind_of(Some(0o100644)), "file");
    assert_eq!(kind_of(Some(0o020666)), "other");
    assert_eq!(kind_of(None), "other");
}

#[test]
fn a_link_is_never_removed_recursively() {
    match remove_plan("/tmp/x", Some(0o120777), true) {
        Err(SshError::Other(m)) => assert_eq!(
            m,
            "/tmp/x is a symlink; refusing recursive delete because it would delete the link \
             target's tree, not the link. Re-run with recursive=false to remove the symlink itself."
        ),
        other => panic!("expected a refusal, got {other:?}"),
    }
    assert_eq!(remove_plan("/tmp/x", Some(0o120777), false).unwrap(), RemovePlan::Entry);
}

#[test]
fn a_directory_needs_the_recursive_flag() {
    match remove_plan("/tmp/d", Some(0o040755), false) {
        Err(SshError::Other(m)) => assert_eq!(m, "/tmp/d is a directory; pass recursive=true"),
        other => panic!("expected a refusal, got {other:?}"),
    }
    assert_eq!(remove_plan("/tmp/d", Some(0o040755), true).unwrap(), RemovePlan::Tree);
    assert_eq!(remove_plan("/tmp/f", Some(0o100644), true).unwrap(), RemovePlan::Entry);
}

fn entry(name: &str, mode: u32) -> DirEntry {
    DirEntry {
        name: name.into(),
        mode: Some(mode),
    }
}

#[test]
fn a_tree_is_removed_from_its_leaves() {
    let mut walk = RemoveWalk::new("/t");
    let mut gone: Vec<String> = Vec::new();
    loop {
        match walk.next() {
            RemoveAction::Done => break,
            RemoveAction::RemoveDir(d) => {
                gone.push(d);
                walk.count();
            }
            RemoveAction::List(d) => {
                let entries = match d.as_str() {
                    "/t" => vec![
                        entry(".", 0o040755),
                        entry("..", 0o040755),
                        entry("sub", 0o040755),
                        entry("link", 0o120777),
                        entry("f", 0o100644),
                    ],
                    "/t/sub" => vec![entry("g", 0o100644)],
                    other => panic!("walked into {other}"),
                };
                for f in walk.listed(&d, &entries) {
                    gone.push(f);
                    walk.count();
                }
            }
        }
    }
    assert_eq!(gone, vec!["/t/link", "/t/f", "/t/sub/g", "/t/sub", "/t"]);
    assert_eq!(walk.removed(), 5);
}

fn attributes(mode: u32, size: u64) -> Attributes {
    Attributes {
        size: Some(size),
        mode: Some(mode),
        mtime: Some(7),
        uid: None,
        gid: Some(1000),
    }
}

#[test]
fn a_listing_comes_by_name() {
    let entries = vec![
        ("b".to_string(), attributes(0o100644, 3)),
        ("a".to_string(), attributes(0o040755, 0)),
        ("c".to_string(), attributes(0o120777, 9)),
    ];
    let listed = list_dir(&entries);
    let names: Vec<&str> = listed.iter().map(|e| e.name.as_str()).collect();
    assert_eq!(names, vec!["a", "b", "c"]);
    assert_eq!(listed[0].kind, "dir");
    assert_eq!(listed[1].size, 3);
    assert_eq!(listed[2].mtime, 7);
}

#[test]
fn only_a_link_has_a_target() {
    let link = attributes(0o120777, 1);
    assert!(has_target(&link));
    let s = stat(&link, Some("/etc".into()), true);
    assert_eq!((s.kind, s.target.as_deref()), ("link", Some("/etc")));
    // A link that dangles is no failure: its text reads, but nothing is there.
    let s = stat(&link, Some("gone".into()), false);
    assert_eq!((s.kind, s.target), ("link", None));
    assert_eq!(stat(&link, None, true).target, None);
    let file = attributes(0o100644, 1);
    assert!(!has_target(&file));
    let s = stat(&file, Some("/etc".into()), true);
    assert_eq!((s.kind, s.target, s.uid, s.gid), ("file", None, 0, 1000));
}
