use rust_parallel::text::{
    char_is_space, chars_of, clone_strings, decimal_of, enclose, eq_ignoring_ascii_case, is_text,
    join, parse_number, same_bytes, split_words, string_of, utf8_bytes,
};

fn strings(items: &[&str]) -> Vec<String> {
    items.iter().map(|item| item.to_string()).collect()
}

fn chars(text: &str) -> Vec<char> {
    text.chars().collect()
}

#[test]
fn chars_and_strings_convert_both_ways() {
    assert_eq!(chars_of("héllo"), vec!['h', 'é', 'l', 'l', 'o']);
    assert_eq!(string_of(&vec!['h', 'é', 'l', 'l', 'o']), "héllo");
    assert_eq!(string_of(&Vec::new()), "");
    assert!(chars_of("").is_empty());
}

#[test]
fn white_space_is_what_unicode_says() {
    for code in 0..=0x10FFFFu32 {
        if let Some(c) = char::from_u32(code) {
            assert_eq!(char_is_space(c), c.is_whitespace(), "U+{:04X}", code);
        }
    }
}

#[test]
fn split_words_cuts_at_runs_of_white_space() {
    assert_eq!(split_words("echo  a\tb\n"), strings(&["echo", "a", "b"]));
    assert_eq!(split_words("  lead and trail  "), strings(&["lead", "and", "trail"]));
    assert_eq!(split_words("one"), strings(&["one"]));
    assert_eq!(split_words("a\u{3000}b\u{a0}c"), strings(&["a", "b", "c"]));
    assert!(split_words("").is_empty());
    assert!(split_words(" \t\r\n").is_empty());
}

#[test]
fn split_words_agrees_with_the_standard_library() {
    for text in ["--client h 1 echo {} ::: a b", " x  y ", "ééé\u{2003}ü", "a", "", "  "] {
        let expected: Vec<String> = text.split_whitespace().map(String::from).collect();
        assert_eq!(split_words(text), expected);
    }
}

#[test]
fn join_and_enclose_differ_at_the_ends() {
    assert_eq!(join(&strings(&["a", "b", "c"]), ", "), "a, b, c");
    assert_eq!(join(&strings(&["a"]), ", "), "a");
    assert_eq!(join(&strings(&[]), ", "), "");
    assert_eq!(join(&strings(&["", ""]), "-"), "-");
    assert_eq!(enclose(&strings(&["a", "b"]), "<", ">"), "<a><b>");
    assert_eq!(enclose(&strings(&[]), "<", ">"), "");
}

#[test]
fn decimal_of_writes_numbers_without_leading_zeros() {
    assert_eq!(decimal_of(0), "0");
    assert_eq!(decimal_of(7), "7");
    assert_eq!(decimal_of(10), "10");
    assert_eq!(decimal_of(2021), "2021");
    assert_eq!(decimal_of(usize::MAX), usize::MAX.to_string());
}

#[test]
fn parse_number_reads_what_the_standard_library_reads() {
    let max = usize::MAX.to_string();
    let beyond = format!("{}0", max);
    let cases = [
        "0", "7", "42", "007", "+5", "+", "", "-1", "1 ", " 1", "1_000", "12a", "++1", "٣",
        max.as_str(), beyond.as_str(), "99999999999999999999999999999",
    ];
    for text in cases {
        assert_eq!(parse_number(&chars(text)), text.parse::<usize>().ok(), "{:?}", text);
    }
    assert_eq!(parse_number(&chars("42")), Some(42));
    assert_eq!(parse_number(&chars(&max)), Some(usize::MAX));
    assert_eq!(parse_number(&chars(&beyond)), None);
}

#[test]
fn ascii_case_is_ignored_only_for_ascii_letters() {
    assert!(eq_ignoring_ascii_case("--client", "--CLIENT"));
    assert!(eq_ignoring_ascii_case("--Client", "--cLIENT"));
    assert!(eq_ignoring_ascii_case("", ""));
    assert!(!eq_ignoring_ascii_case("--client", "--clients"));
    assert!(!eq_ignoring_ascii_case("--client", "-client-"));
    assert!(!eq_ignoring_ascii_case("é", "É"));
    assert!(!eq_ignoring_ascii_case("@", "`"));
    assert!(!eq_ignoring_ascii_case("[", "{"));
}

#[test]
fn bytes_are_compared_one_by_one() {
    assert!(same_bytes(b"abc", b"abc"));
    assert!(same_bytes(b"", b""));
    assert!(!same_bytes(b"abc", b"abd"));
    assert!(!same_bytes(b"abc", b"ab"));
    assert!(is_text(&"né".as_bytes().to_vec(), "né"));
    assert!(!is_text(&b"ne".to_vec(), "né"));
}

#[test]
fn utf8_bytes_encode_the_text() {
    assert_eq!(utf8_bytes("né\u{1F600}"), "né\u{1F600}".as_bytes());
    assert!(utf8_bytes("").is_empty());
}

#[test]
fn clone_strings_copies_every_item() {
    let items = strings(&["a", "", "b c"]);
    assert_eq!(clone_strings(&items), items);
    assert!(clone_strings(&Vec::new()).is_empty());
}
