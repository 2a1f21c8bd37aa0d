use wheelhoss::text::{
    contains_string, find, has_first_char, has_suffix, insert_sorted, length, less, matches_at,
    same, split, substring,
};

#[test]
fn split_keeps_empty_pieces() {
    assert_eq!(split("a,b,,c", ','), vec!["a", "b", "", "c"]);
    assert_eq!(split("", ','), vec![""]);
    assert_eq!(split(",", ','), vec!["", ""]);
    assert_eq!(split("abc", ','), vec!["abc"]);
    assert_eq!(split("a\u{e9},\u{1F600}b", ','), vec!["a\u{e9}", "\u{1F600}b"]);
}

#[test]
fn less_is_the_lexicographic_order() {
    assert!(less("a", "b"));
    assert!(!less("b", "a"));
    assert!(!less("a", "a"));
    assert!(less("", "a"));
    assert!(!less("a", ""));
    assert!(!less("", ""));
    assert!(less("ab", "abc"));
    assert!(less("Z", "a"));
    assert!(less("abd", "abe"));
    assert!(less("z", "\u{e9}"));
    assert_eq!(less("\u{ffff}", "\u{10000}"), "\u{ffff}" < "\u{10000}");
}

#[test]
fn find_gives_the_leftmost_position() {
    assert_eq!(find("abcabc", "bc"), Some(1));
    assert_eq!(find("abc", "abc"), Some(0));
    assert_eq!(find("abc", ""), Some(0));
    assert_eq!(find("", ""), Some(0));
    assert_eq!(find("abc", "abcd"), None);
    assert_eq!(find("abc", "x"), None);
    assert_eq!(find("\u{e9}\u{e9}x", "x"), Some(2));
}

#[test]
fn matches_at_checks_one_position() {
    assert!(matches_at("hello", "ll", 2));
    assert!(!matches_at("hello", "ll", 3));
    assert!(!matches_at("hello", "lo", 4));
    assert!(matches_at("hello", "", 5));
    assert!(!matches_at("hello", "", 6));
}

#[test]
fn suffix_and_first_char() {
    assert!(has_suffix("mod.pyc", ".pyc"));
    assert!(!has_suffix("pyc", ".pyc"));
    assert!(!has_suffix("mod.pyc ", ".pyc"));
    assert!(has_suffix("x", ""));
    assert!(has_first_char("#x", '#'));
    assert!(!has_first_char(" #x", '#'));
    assert!(!has_first_char("", '#'));
}

#[test]
fn same_compares_contents() {
    assert!(same("abc", "abc"));
    assert!(!same("abc", "abd"));
    assert!(!same("abc", "ab"));
    assert!(same("", ""));
}

#[test]
fn insert_sorted_keeps_order_and_skips_repeats() {
    let mut v: Vec<String> = Vec::new();
    assert!(insert_sorted(&mut v, "m".to_string()));
    assert!(insert_sorted(&mut v, "a".to_string()));
    assert!(insert_sorted(&mut v, "z".to_string()));
    assert!(!insert_sorted(&mut v, "m".to_string()));
    assert!(insert_sorted(&mut v, "n".to_string()));
    assert_eq!(v, vec!["a", "m", "n", "z"]);
}

#[test]
fn contains_string_finds_an_equal_item() {
    let v = vec!["a".to_string(), "bc".to_string()];
    assert!(contains_string(&v, "bc"));
    assert!(!contains_string(&v, "b"));
    assert!(!contains_string(&Vec::new(), ""));
}

#[test]
fn length_counts_characters() {
    assert_eq!(length(""), 0);
    assert_eq!(length("abc"), 3);
    assert_eq!(length("a\u{e9}\u{1F600}"), 3);
}

#[test]
fn substring_goes_by_characters() {
    assert_eq!(substring("hello", 1, 3), "el");
    assert_eq!(substring("hello", 5, 5), "");
    assert_eq!(substring("a\u{e9}\u{1F600}b", 1, 3), "\u{e9}\u{1F600}");
}

#[test]
fn search_in_text_that_is_not_ascii() {
    assert_eq!(find("\u{e9}t\u{e9}.cpython-3", ".cpython-"), Some(3));
    assert!(has_suffix("\u{e9}t\u{e9}.pyc", ".pyc"));
    assert!(matches_at("x\u{1F600}y", "\u{1F600}y", 1));
    assert!(has_first_char("\u{e9}a", '\u{e9}'));
    assert!(less("\u{e9}", "\u{e9}a"));
}

#[test]
fn insert_sorted_appends_what_comes_last() {
    let mut v: Vec<String> = vec!["a".to_string(), "b".to_string()];
    assert!(insert_sorted(&mut v, "c".to_string()));
    assert!(!insert_sorted(&mut v, "c".to_string()));
    assert!(insert_sorted(&mut v, "".to_string()));
    assert_eq!(v, vec!["", "a", "b", "c"]);
}
