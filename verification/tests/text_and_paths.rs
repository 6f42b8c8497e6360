use defragger::path::FsPath;
use defragger::sort::{sort_by_keys, PairKey};
use defragger::text::{
    parse_u32, parse_u64, push_decimal, push_hexadecimal, push_two_digits, push_wide_decimal,
    split_char, split_lines, split_once, split_once_text, split_words, starts_with, strip_prefix,
    strip_suffix, trim,
};

fn path(text: &str) -> FsPath {
    FsPath::from_text(text)
}

fn shown(path: Option<FsPath>) -> Option<String> {
    path.map(|p| p.display())
}

#[test]
fn numbers_are_written_in_digits() {
    let mut text = String::from("n=");
    push_decimal(&mut text, 1_234_567_890);
    assert_eq!(text, "n=1234567890");
    let mut text = String::new();
    push_decimal(&mut text, 0);
    push_hexadecimal(&mut text, 0xdead_beef);
    push_two_digits(&mut text, 7);
    assert_eq!(text, "0deadbeef07");
    let mut text = String::new();
    push_wide_decimal(&mut text, u128::MAX);
    assert_eq!(text, u128::MAX.to_string());
}

#[test]
fn numbers_are_read_as_the_standard_library_does() {
    for text in ["0", "17", "+17", "18446744073709551615", "18446744073709551616", "", "+", "-1",
        "1x", " 1", "٣"]
    {
        assert_eq!(parse_u64(text), text.parse::<u64>().ok());
        assert_eq!(parse_u32(text), text.parse::<u32>().ok());
    }
}

#[test]
fn text_is_split_as_the_standard_library_does() {
    for text in ["", " ", "a", " a  b\tc\u{2003}d\n", "a=b=c", "=", "x\r\ny\n\nz"] {
        assert_eq!(split_words(text), text.split_whitespace().collect::<Vec<_>>());
        assert_eq!(split_lines(text), text.lines().collect::<Vec<_>>());
        assert_eq!(split_char(text, '='), text.split('=').collect::<Vec<_>>());
        assert_eq!(trim(text), text.trim());
        assert_eq!(
            split_once(text, '='),
            text.split_once('=').map(|(l, r)| (l.to_owned(), r.to_owned()))
        );
        assert_eq!(
            split_once_text(text, " b"),
            text.split_once(" b").map(|(l, r)| (l.to_owned(), r.to_owned()))
        );
        assert_eq!(strip_prefix(text, "a"), text.strip_prefix("a").map(str::to_owned));
        assert_eq!(strip_suffix(text, "z"), text.strip_suffix("z").map(str::to_owned));
        assert_eq!(starts_with(text, "a"), text.starts_with("a"));
    }
}

#[test]
fn paths_are_equal_by_their_components() {
    for (left, right) in [
        ("/a/b", "/a//b"),
        ("/a/b", "/a/./b/"),
        ("/a/b", "a/b"),
        ("./a", "a"),
        ("a/..", "a"),
        ("/", "//"),
        ("", "."),
    ] {
        let expected = std::path::Path::new(left) == std::path::Path::new(right);
        assert_eq!(path(left).same(&path(right)), expected, "{left} {right}");
    }
}

#[test]
fn paths_are_taken_apart_as_the_standard_library_does() {
    for text in ["/a/b", "/a", "/", "a", "", "a/..", "/a/b/", "/a/./b/.", "./a", "..", "a//b"] {
        let p = std::path::Path::new(text);
        assert_eq!(
            shown(path(text).parent()),
            p.parent().map(|q| q.display().to_string()),
            "{text}"
        );
        assert_eq!(
            path(text).file_name().map(|n| String::from_utf8(n).unwrap()),
            p.file_name().map(|n| n.to_str().unwrap().to_owned()),
            "{text}"
        );
        for base in ["/", "/a", "a", "", ".."] {
            let b = std::path::Path::new(base);
            assert_eq!(
                shown(path(text).strip_prefix(&path(base))),
                p.strip_prefix(b).ok().map(|q| q.display().to_string()),
                "{text} {base}"
            );
            assert_eq!(
                path(base).join(&path(text)).display(),
                b.join(p).display().to_string(),
                "{base} {text}"
            );
            assert_eq!(path(text).at_most(&path(base)), p <= b, "{text} {base}");
        }
    }
}

#[test]
fn paths_that_are_no_text_are_shown_with_replacements() {
    let odd = FsPath { bytes: vec![b'/', 0xff, b'x'] };
    assert_eq!(odd.display(), "/\u{fffd}x");
    assert_eq!(path("/tmp/ä").display(), "/tmp/ä");
}

#[test]
fn sorting_is_stable() {
    let keys = vec![
        PairKey { first: 2, second: 0 },
        PairKey { first: 1, second: 5 },
        PairKey { first: 2, second: 0 },
        PairKey { first: 0, second: 9 },
    ];
    let sorted = sort_by_keys(&keys, vec!["a", "b", "c", "d"]);
    assert_eq!(sorted, vec!["d", "b", "a", "c"]);
}
