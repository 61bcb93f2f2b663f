use std::path::Path;

use bdmount::number::{hex, parse_i32, parse_u32, to_decimal};
use bdmount::order::{rank_paths, rank_texts, Rank};
use bdmount::path::{
    join, path_ends_with, path_eq, path_file_name, path_starts_with, with_extension,
    with_file_name,
};
use bdmount::text::{
    eq_ignore_ascii_case, find, join_strings, lines, split_words, trim, Separator,
};

fn chars(s: &str) -> Vec<char> {
    s.chars().collect()
}

fn strings(v: Vec<Vec<char>>) -> Vec<String> {
    v.into_iter().map(|t| t.into_iter().collect()).collect()
}

#[test]
fn numerals_are_read_as_the_standard_library_reads_them() {
    for s in [
        "0", "7", "+7", "-7", "", "+", "-", "++7", "4294967295", "4294967296", "2147483647",
        "2147483648", "-2147483648", "-2147483649", "007", " 7", "7x", "99999999999999999999",
    ] {
        assert_eq!(parse_u32(&chars(s)), s.parse::<u32>().ok(), "{s}");
        assert_eq!(parse_i32(&chars(s)), s.parse::<i32>().ok(), "{s}");
    }
}

#[test]
fn numbers_are_written_as_the_standard_library_writes_them() {
    for n in [0u64, 9, 10, 12345, u64::MAX] {
        let s: String = to_decimal(n).into_iter().collect();
        assert_eq!(s, n.to_string());
    }
    assert_eq!(hex(&[0x00, 0x9a, 0xff]), "009aff");
    assert_eq!(hex(&[]), "");
}

#[test]
fn paths_are_those_of_the_standard_library() {
    let all = [
        "/", "", ".", "..", "/dev", "/dev/", "/dev//rdisk6", "/dev/./rdisk6", "/dev/r", "./a", "a",
        "a/b", "a/./b", "a/..", "/a/b/c", "c", "b/c", "/.", "//", "a/.hidden", "a/x.tar.gz",
    ];
    for a in all {
        let pa = Path::new(a);
        assert_eq!(
            path_file_name(a).as_deref(),
            pa.file_name().and_then(|s| s.to_str()),
            "file name of {a}"
        );
        for b in all {
            let pb = Path::new(b);
            assert_eq!(path_eq(a, b), pa == pb, "{a} == {b}");
            assert_eq!(path_starts_with(a, b), pa.starts_with(pb), "{a} starts with {b}");
            assert_eq!(path_ends_with(a, b), pa.ends_with(pb), "{a} ends with {b}");
            assert_eq!(join(a, b), pa.join(pb).to_str().unwrap(), "{a} join {b}");
            assert!(path_eq(&with_file_name(a, "z"), pa.with_file_name("z").to_str().unwrap()));
            let rank = match rank_paths(a, b) {
                Rank::Before => std::cmp::Ordering::Less,
                Rank::Same => std::cmp::Ordering::Equal,
                Rank::After => std::cmp::Ordering::Greater,
            };
            assert_eq!(rank, pa.cmp(pb), "{a} against {b}");
        }
        let with = pa.with_extension("e");
        assert!(path_eq(&with_extension(a, "e"), with.to_str().unwrap()), "extension of {a}");
    }
}

#[test]
fn texts_are_ordered_as_their_bytes_are() {
    let all = ["", "a", "ab", "b", "B", "\u{e9}", "\u{ffff}", "\u{10000}", "a\u{0}"];
    for a in all {
        for b in all {
            let rank = match rank_texts(&chars(a), &chars(b)) {
                Rank::Before => std::cmp::Ordering::Less,
                Rank::Same => std::cmp::Ordering::Equal,
                Rank::After => std::cmp::Ordering::Greater,
            };
            assert_eq!(rank, a.cmp(b));
        }
    }
}

#[test]
fn texts_are_split_as_the_standard_library_splits_them() {
    for s in ["", "a", "a\nb", "a\r\nb\r\n", "\n", "\r\n\n", "a\rb", "x\n\r"] {
        let want: Vec<String> = s.lines().map(|l| l.to_string()).collect();
        assert_eq!(strings(lines(&chars(s))), want, "{s:?}");
    }
    for s in ["", "  a  b ", "\u{3000}a\u{a0}b\u{85}c\u{2003}d\u{200b}e", "\t\n"] {
        let want: Vec<String> = s.split_whitespace().map(|l| l.to_string()).collect();
        assert_eq!(strings(split_words(&chars(s), Separator::Space)), want, "{s:?}");
        let t: String = trim(&chars(s)).iter().collect();
        assert_eq!(t, s.trim());
    }
}

#[test]
fn texts_are_searched_and_joined() {
    assert_eq!(find(&chars("abcabc"), &chars("ca")), Some(2));
    assert_eq!(find(&chars("abc"), &chars("")), Some(0));
    assert_eq!(find(&chars("abc"), &chars("abcd")), None);
    assert!(eq_ignore_ascii_case(&chars("AaZ"), &chars("aAz")));
    assert!(!eq_ignore_ascii_case(&chars("\u{c9}"), &chars("\u{e9}")));
    assert_eq!(join_strings(&["a".into(), "b".into(), "c".into()], ", "), "a, b, c");
    assert_eq!(join_strings(&[], ", "), "");
}
