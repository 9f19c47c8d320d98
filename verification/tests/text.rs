use pur::repo::comparse_version;
use pur::text::{
    base, char_is_digit, char_is_whitespace, dir_of, ends_with, extract_digits, file_name,
    trim_slashes,
    join, lines, parse_number, same, split, starts_with, strip_whitespace, NumberError,
};

fn texts(items: &[&str]) -> Vec<String> {
    items.iter().map(|s| s.to_string()).collect()
}

#[test]
fn join_puts_one_slash_between() {
    assert_eq!(join("/var/db", "installed"), "/var/db/installed");
    assert_eq!(join("/var/db/", "installed"), "/var/db/installed");
    assert_eq!(join("/var/db", "/usr"), "/usr");
    assert_eq!(join("", "usr"), "usr");
    assert_eq!(join("/", "usr/bin/pfetch"), "/usr/bin/pfetch");
    assert_eq!(join("a", ""), "a/");
}

#[test]
fn join_agrees_with_the_standard_paths() {
    for (base, child) in [("/var/db", "x"), ("/var/db/", "x"), ("/a", "/b"), ("", "b"), ("rel", "b/c")] {
        let expected = std::path::PathBuf::from(base).join(child);
        assert_eq!(join(base, child), expected.to_string_lossy());
    }
}

#[test]
fn split_keeps_empty_parts() {
    assert_eq!(split("a//b", '/'), texts(&["a", "", "b"]));
    assert_eq!(split("", '/'), texts(&[""]));
    assert_eq!(split("/", '/'), texts(&["", ""]));
    assert_eq!(split("/usr/repo/pur:/x", ':'), texts(&["/usr/repo/pur", "/x"]));
}

#[test]
fn split_agrees_with_the_standard_split() {
    for text in ["", "a", "a:b", ":a::b:", "::"] {
        let expected: Vec<String> = text.split(':').map(String::from).collect();
        assert_eq!(split(text, ':'), expected);
    }
}

#[test]
fn strip_whitespace_removes_all_of_it() {
    assert_eq!(strip_whitespace(" 1.0\n"), "1.0");
    assert_eq!(strip_whitespace("1 . 2\t"), "1.2");
    assert_eq!(strip_whitespace("\u{a0}1\u{2003}2\u{3000}"), "12");
    assert_eq!(strip_whitespace(" \n\t"), "");
    assert_eq!(strip_whitespace("\u{200b}"), "\u{200b}");
}

#[test]
fn whitespace_is_what_the_standard_library_calls_so() {
    let mut n: u32 = 0;
    while n < 0x3100 {
        if let Some(c) = char::from_u32(n) {
            assert_eq!(char_is_whitespace(c), c.is_whitespace(), "U+{:04X}", n);
            assert_eq!(char_is_digit(c), c.is_digit(10), "U+{:04X}", n);
        }
        n += 1;
    }
}

#[test]
fn lines_drops_empty_lines_and_carriage_returns() {
    assert_eq!(lines("a\nb\n"), texts(&["a", "b"]));
    assert_eq!(lines("a\r\n\r\n\nb"), texts(&["a", "b"]));
    assert_eq!(lines(""), Vec::<String>::new());
    assert_eq!(lines("\n\n"), Vec::<String>::new());
    assert_eq!(lines("one two\n"), texts(&["one two"]));
    assert_eq!(lines("a\r"), texts(&["a"]));
    assert_eq!(lines("a\rb\r\n"), texts(&["a\rb"]));
}

#[test]
fn digits_are_kept_in_order() {
    assert_eq!(extract_digits("1.2.3"), "123");
    assert_eq!(extract_digits("v10-rc2"), "102");
    assert_eq!(extract_digits("none"), "");
}

#[test]
fn parse_number_reads_the_digits_as_one_number() {
    assert_eq!(parse_number("1.2"), Ok(12));
    assert_eq!(parse_number("007"), Ok(7));
    assert_eq!(parse_number("2147483647"), Ok(2147483647));
    assert_eq!(parse_number("2.147.483.647"), Ok(2147483647));
}

#[test]
fn parse_number_without_digits_is_empty() {
    assert_eq!(parse_number(""), Err(NumberError::Empty));
    assert_eq!(parse_number("abc"), Err(NumberError::Empty));
}

#[test]
fn parse_number_over_i32_is_too_large() {
    assert_eq!(parse_number("2147483648"), Err(NumberError::TooLarge));
    assert_eq!(parse_number("99999999999999999999999999"), Err(NumberError::TooLarge));
}

#[test]
fn comparse_version_subtracts_the_digit_numbers() {
    assert_eq!(comparse_version("2", "1"), Ok(1));
    assert_eq!(comparse_version("2", "3"), Ok(-1));
    assert_eq!(comparse_version("1.2", "10"), Ok(2));
    assert_eq!(comparse_version("1.9", "2.0"), Ok(-1));
    assert_eq!(comparse_version("1.0", "1.0"), Ok(0));
    assert_eq!(comparse_version("0", "2147483647"), Ok(-2147483647));
}

#[test]
fn comparse_version_gives_the_first_error() {
    assert_eq!(comparse_version("x", "1"), Err(NumberError::Empty));
    assert_eq!(comparse_version("1", ""), Err(NumberError::Empty));
    assert_eq!(comparse_version("99999999999", "1"), Err(NumberError::TooLarge));
    assert_eq!(comparse_version("", "99999999999"), Err(NumberError::Empty));
}

#[test]
fn same_compares_the_characters() {
    assert!(same("alpha", "alpha"));
    assert!(!same("alpha", "alph"));
    assert!(!same("alpha", "alphb"));
    assert!(same("", ""));
}

#[test]
fn prefixes_and_suffixes() {
    assert!(starts_with("alpha", "al"));
    assert!(starts_with("alpha", ""));
    assert!(!starts_with("beta", "al"));
    assert!(!starts_with("a", "al"));
    assert!(ends_with("installed", "installed"));
    assert!(ends_with("not-installed", "installed"));
    assert!(!ends_with("install", "installed"));
}

#[test]
fn concat_appends() {
    assert_eq!(pur::text::concat("/var/db/installed/", "alpha"), "/var/db/installed/alpha");
}

#[test]
fn file_name_is_the_last_component() {
    assert_eq!(file_name("/r/alpha"), "alpha");
    assert_eq!(file_name("alpha"), "alpha");
    assert_eq!(file_name("/r/alpha/"), "");
    assert_eq!(file_name(""), "");
}

#[test]
fn trim_slashes_takes_the_slashes_off_the_end() {
    assert_eq!(trim_slashes("/r/alpha/"), "/r/alpha");
    assert_eq!(trim_slashes("/r/alpha///"), "/r/alpha");
    assert_eq!(trim_slashes("/r/alpha"), "/r/alpha");
    assert_eq!(trim_slashes("///"), "");
    assert_eq!(trim_slashes(""), "");
}

#[test]
fn base_is_the_name_whatever_slashes_follow() {
    assert_eq!(base("/r/alpha"), "alpha");
    assert_eq!(base("/r/alpha/"), "alpha");
    assert_eq!(base("alpha"), "alpha");
    assert_eq!(base("/"), "");
    assert_eq!(base(""), "");
    for path in ["/r/alpha", "/r/alpha/", "/r/a b//", "x"] {
        let expected = std::path::Path::new(path).file_name().unwrap().to_string_lossy().into_owned();
        assert_eq!(base(path), expected);
    }
}

#[test]
fn dir_of_is_the_path_without_its_last_component() {
    assert_eq!(dir_of("/usr/bin/p/tool"), "/usr/bin/p");
    assert_eq!(dir_of("/usr/bin/p/data/logo"), "/usr/bin/p/data");
    assert_eq!(dir_of("/tool"), "/");
    assert_eq!(dir_of("tool"), "");
    assert_eq!(dir_of("a/b"), "a");
    for path in ["/usr/bin/p/tool", "/tool", "tool", "a/b", "/a/b/c"] {
        let expected = std::path::Path::new(path).parent().unwrap().to_string_lossy().into_owned();
        assert_eq!(dir_of(path), expected);
    }
}
