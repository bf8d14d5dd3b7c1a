use std::borrow::Cow;

use fast_mcp_ssh::output::toon::escape_scalar;
use fast_mcp_ssh::output::{head_tail, truncate_with_hint, Toon};

#[test]
fn fields() {
    let mut t = Toon::new();
    t.field("name", "alice").field("age", 30u32);
    assert_eq!(t.into_string(), "name: alice\nage: 30\n");
}

#[test]
fn quoting() {
    let mut t = Toon::new();
    t.field("greeting", "hello world");
    assert_eq!(t.into_string(), "greeting: \"hello world\"\n");
}

#[test]
fn empty_table() {
    let mut t = Toon::new();
    let rows: Vec<Vec<String>> = vec![];
    t.table_strs("hosts", &["name"], &rows);
    assert_eq!(t.into_string(), "hosts(0): empty\n");
}

#[test]
fn block_indents_each_line() {
    let mut t = Toon::new();
    t.block("stdout", "line1\nline2\nline3");
    let out = t.into_string();
    assert!(out.starts_with("stdout: |\n"));
    assert!(out.contains("  line1\n"));
    assert!(out.contains("  line2\n"));
    assert!(out.contains("  line3\n"));
}

#[test]
fn block_handles_empty() {
    let mut t = Toon::new();
    t.block("stdout", "");
    assert_eq!(t.into_string(), "stdout: |\n");
}

#[test]
fn table_with_rows() {
    let mut t = Toon::new();
    t.table_strs(
        "hosts",
        &["name", "addr", "port"],
        &[
            vec!["a".into(), "1.1.1.1".into(), "22".into()],
            vec!["b".into(), "2.2.2.2".into(), "2222".into()],
        ],
    );
    let out = t.into_string();
    assert!(out.contains("hosts(2):"));
    assert!(out.contains("name addr port"));
    assert!(out.contains("a 1.1.1.1 22"));
}

#[test]
fn each_kind_of_value_is_written() {
    let mut t = Toon::new();
    t.field("a", String::from("x"))
        .field("b", 7u64)
        .field("c", -7i32)
        .field("d", -70i64)
        .field("e", 8usize)
        .field("f", true)
        .field("g", false);
    assert_eq!(t.into_string(), "a: x\nb: 7\nc: -7\nd: -70\ne: 8\nf: true\ng: false\n");
}

#[test]
fn scalars_that_would_be_misread_are_quoted() {
    let mut t = Toon::new();
    t.field("a", "")
        .field("b", "-x")
        .field("c", "true")
        .field("d", "a:b")
        .field("e", "say \"hi\"\\\n\r\t")
        .field("f", "plain");
    assert_eq!(
        t.into_string(),
        "a: \"\"\nb: \"-x\"\nc: \"true\"\nd: \"a:b\"\ne: \"say \\\"hi\\\"\\\\\\n\\r\\t\"\nf: plain\n"
    );
}

#[test]
fn a_cell_with_a_space_stays_one_cell() {
    let mut t = Toon::new();
    t.table_strs("t", &["x", "y"], &[vec!["a b".into(), "c".into()]]);
    assert_eq!(t.into_string(), "t(1):\n  x y\n  \"a b\" c\n");
}

#[test]
fn a_hint_is_a_line() {
    let mut t = Toon::new();
    t.hint("narrow it");
    assert_eq!(t.into_string(), "hint: narrow it\n");
}

#[test]
fn no_truncate_under_limit() {
    let (out, n) = truncate_with_hint("short", 100);
    assert_eq!(out, "short");
    assert_eq!(n, None);
    assert!(matches!(out, Cow::Borrowed(_)));
}

#[test]
fn truncates_long_keeping_both_ends() {
    let s = format!("{}{}", "a".repeat(500), "z".repeat(500));
    let (out, n) = truncate_with_hint(&s, 50);
    assert!(out.starts_with(&"a".repeat(25)));
    assert!(out.ends_with(&"z".repeat(25)));
    assert!(out.contains("950 of 1000 bytes cut"));
    assert_eq!(n, Some(1000));
}

#[test]
fn gap_between_head_and_tail_is_counted() {
    // 100 bytes kept at the start, 20 at the end, 880 never captured.
    let head = "h".repeat(100);
    let tail = "t".repeat(20);
    let (out, n) = head_tail(&head, &tail, 1000, 60);
    assert!(out.starts_with(&"h".repeat(30)));
    assert!(out.ends_with(&"t".repeat(20)));
    // Nothing from the end of `head` may follow the marker: those bytes
    // sit before the gap in the real stream.
    let after = out.split("narrow]\n").nth(1).unwrap();
    assert_eq!(after, "t".repeat(20));
    assert!(out.contains("950 of 1000 bytes cut"));
    assert_eq!(n, Some(1000));
}

#[test]
fn contiguous_head_and_tail_that_fit_are_joined() {
    let (out, n) = head_tail("abc", "def", 6, 100);
    assert_eq!(out, "abcdef");
    assert_eq!(n, None);
}

#[test]
fn small_capture_with_a_gap_still_reports_the_gap() {
    let (out, n) = head_tail("abc", "xyz", 1000, 100);
    assert!(out.starts_with("abc"));
    assert!(out.ends_with("xyz"));
    assert!(out.contains("994 of 1000 bytes cut"));
    assert_eq!(n, Some(1000));
}

#[test]
fn cuts_on_char_boundaries() {
    let s = "é".repeat(100);
    let (out, _) = truncate_with_hint(&s, 21);
    let marker = out.find("\n[").unwrap();
    assert!(out[..marker].chars().all(|c| c == 'é'));
}

#[test]
fn the_cut_is_marked_exactly() {
    let (out, n) = truncate_with_hint("0123456789", 4);
    assert_eq!(
        out,
        "01\n[6 of 10 bytes cut here; rerun through grep or tail to narrow]\n89"
    );
    assert_eq!(n, Some(10));
}

#[test]
fn a_scalar_is_appended_to_what_is_there() {
    let scalar = |s: &str| {
        let mut buf = String::from("k: ");
        escape_scalar(s, &mut buf);
        buf
    };
    assert_eq!(scalar("plain"), "k: plain");
    assert_eq!(scalar("a\tb\nc"), "k: \"a\\tb\\nc\"");
    assert_eq!(scalar("true"), "k: \"true\"");
}
