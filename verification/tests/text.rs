use fast_mcp_ssh::text::{
    contains_part, ends_with, holds, in_order, join, lines, parse_i32, parse_i64, parse_unsigned,
    push_decimal, push_decimal_wide, push_hex16, push_octal, push_signed, sort_strings, space,
    split, starts_with, strip_prefixes, strip_suffixes, to_lower, trim, words,
};

fn strings(v: &[&str]) -> Vec<String> {
    v.iter().map(|s| s.to_string()).collect()
}

#[test]
fn spaces_are_the_white_space_of_unicode() {
    for u in 0..=0x10ffffu32 {
        if let Some(c) = char::from_u32(u) {
            assert_eq!(space(c), c.is_whitespace(), "{u:x}");
        }
    }
}

#[test]
fn lines_and_words_are_those_of_std() {
    for s in ["", "a", "a\n", "a\r\nb\r", "\n\n", " a  b\t\u{a0}c ", "x\u{85}y"] {
        let expected: Vec<&str> = s.lines().collect();
        assert_eq!(lines(s), expected, "{s:?}");
        let expected: Vec<&str> = s.split_whitespace().collect();
        assert_eq!(words(s), expected, "{s:?}");
        assert_eq!(trim(s), s.trim(), "{s:?}");
        let expected: Vec<&str> = s.split('b').collect();
        assert_eq!(split(s, 'b'), expected, "{s:?}");
    }
}

#[test]
fn numbers_are_read_as_std_reads_them() {
    for s in ["0", "+7", "-7", "007", "", "-", "+", "1a", "2147483648", "-2147483648", "99999999999999999999"] {
        assert_eq!(parse_i32(s), s.parse::<i32>().ok(), "{s:?}");
        assert_eq!(parse_i64(s), s.parse::<i64>().ok(), "{s:?}");
        assert_eq!(parse_unsigned(s, u64::MAX), s.parse::<u64>().ok(), "{s:?}");
        assert_eq!(parse_unsigned(s, 65535), s.parse::<u16>().ok().map(u64::from), "{s:?}");
    }
    assert_eq!(parse_i64("-9223372036854775808"), Some(i64::MIN));
    assert_eq!(parse_i64("9223372036854775808"), None);
}

#[test]
fn numbers_are_written_as_std_writes_them() {
    for n in [0u64, 7, 10, 511, 512, u64::MAX] {
        let mut s = String::new();
        push_decimal(&mut s, n);
        assert_eq!(s, n.to_string());
        let mut s = String::new();
        push_hex16(&mut s, n);
        assert_eq!(s, format!("{n:016x}"));
        let mut s = String::new();
        push_decimal_wide(&mut s, n as u128 * 3);
        assert_eq!(s, (n as u128 * 3).to_string());
        let mut s = String::new();
        push_octal(&mut s, n as u32);
        assert_eq!(s, format!("{:o}", n as u32));
    }
    for n in [0i64, -1, 42, i64::MIN, i64::MAX] {
        let mut s = String::new();
        push_signed(&mut s, n);
        assert_eq!(s, n.to_string());
    }
}

#[test]
fn texts_are_compared_as_std_compares_them() {
    let all = ["", "a", "ab", "b", "é", "z", "Z"];
    for a in all {
        for b in all {
            assert_eq!(in_order(a, b), a <= b, "{a:?} {b:?}");
            assert_eq!(starts_with(a, b), a.starts_with(b), "{a:?} {b:?}");
            assert_eq!(ends_with(a, b), a.ends_with(b), "{a:?} {b:?}");
            assert_eq!(contains_part(a, b), a.contains(b), "{a:?} {b:?}");
        }
    }
    let mut expected = strings(&all);
    expected.sort();
    assert_eq!(sort_strings(strings(&["z", "b", "", "ab", "Z", "a", "é"])), expected);
    assert_eq!(to_lower("AbÉ"), "AbÉ".to_ascii_lowercase());
    assert!(holds(&strings(&["a", "b"]), "b"));
    assert_eq!(join(&strings(&["a", "b", "c"]), ','), "a,b,c");
}

#[test]
fn affixes_are_stripped_as_often_as_they_stand() {
    assert_eq!(strip_prefixes("ababc".into(), "ab"), "ababc".trim_start_matches("ab"));
    assert_eq!(strip_suffixes("a))))".into(), "))"), "a))))".trim_end_matches("))"));
    assert_eq!(strip_suffixes("a)))".into(), "))"), "a)");
}
