use mirror_cache::decimal::{format_i64, format_u64, parse_i64, parse_u64};
use mirror_cache::util::{pypi_index_rewrite, replace_all, split_dirs};

#[test]
fn decimal_formatting() {
    assert_eq!(format_u64(0), "0");
    assert_eq!(format_u64(1234567890), "1234567890");
    assert_eq!(format_u64(u64::MAX), "18446744073709551615");
    assert_eq!(format_i64(-42), "-42");
    assert_eq!(format_i64(0), "0");
    assert_eq!(format_i64(i64::MIN), "-9223372036854775808");
    assert_eq!(format_i64(i64::MAX), "9223372036854775807");
}

#[test]
fn decimal_parsing_follows_str_parse() {
    for s in ["0", "+42", "-1", "", "+", "-", "12a", "007", "18446744073709551615", "18446744073709551616", "-0", " 1"] {
        assert_eq!(parse_u64(s), s.parse::<u64>().ok(), "u64 {:?}", s);
    }
    for s in ["0", "+42", "-1", "", "+", "-", "-+1", "9223372036854775807", "9223372036854775808", "-9223372036854775808", "-9223372036854775809", "1 "] {
        assert_eq!(parse_i64(s), s.parse::<i64>().ok(), "i64 {:?}", s);
    }
}

#[test]
fn split_dirs_at_last_slash() {
    assert_eq!(split_dirs("a/b/c"), ("a/b", "c"));
    assert_eq!(split_dirs("abc"), ("", "abc"));
    assert_eq!(split_dirs("a/"), ("a", ""));
    assert_eq!(split_dirs("/x"), ("", "x"));
    assert_eq!(split_dirs("二号/去听经"), ("二号", "去听经"));
}

#[test]
fn replace_all_like_str_replace() {
    for (s, from, to) in [("aaa", "aa", "b"), ("abcabc", "bc", "XYZ"), ("", "a", "b"), ("ab", "abc", "z"), ("http://a/http://b", "http://", "http/")] {
        assert_eq!(replace_all(s, from, to), s.replace(from, to));
    }
}

#[test]
fn pypi_index_links_are_rewritten() {
    let page = "<a href=\"https://files.pythonhosted.org/packages/ab/cd/hello.whl\">hello</a>";
    assert_eq!(
        pypi_index_rewrite(page, "http://localhost:9001"),
        "<a href=\"http://localhost:9001/pypi/packages/ab/cd/hello.whl\">hello</a>"
    );
}

use mirror_cache::size::parse_size;

#[test]
fn sizes_with_units() {
    assert_eq!(parse_size("1000"), Some(1000));
    assert_eq!(parse_size("42 KB"), Some(42_000));
    assert_eq!(parse_size("2.33 MB"), Some(2_330_000));
    assert_eq!(parse_size("666 GiB"), Some(666 * 1024 * 1024 * 1024));
    assert_eq!(parse_size("1.5kib"), Some(1536));
    assert_eq!(parse_size("0"), Some(0));
    assert_eq!(parse_size("7B"), Some(7));
    assert_eq!(parse_size("1.9999 B"), Some(1));
    assert_eq!(parse_size("16 PiB"), Some(16 * (1u64 << 50)));
}

#[test]
fn sizes_rejected() {
    assert_eq!(parse_size(""), None);
    assert_eq!(parse_size("MB"), None);
    assert_eq!(parse_size(".5 MB"), None);
    assert_eq!(parse_size("12 XB"), None);
    assert_eq!(parse_size(" 12"), None);
    assert_eq!(parse_size("18446744073709551616"), None);
    assert_eq!(parse_size("20000 PB"), None);
    assert_eq!(parse_size("18446744073709551615"), Some(u64::MAX));
}
