use gitkeep::text::{
    contains_char, eq_ignore_ascii_case, find_char, join_strings, push_decimal, split_once_char, str_le,
    trim_end_string,
};
use gitkeep::utils::plural;

#[test]
fn plural_picks_the_word() {
    assert_eq!(plural(1, "repo", "repos"), "1 repo");
    assert_eq!(plural(0, "repo", "repos"), "0 repos");
    assert_eq!(plural(42, "fork", "forks"), "42 forks");
}

#[test]
fn decimal_rendering() {
    let mut s = String::from("n=");
    push_decimal(&mut s, 0);
    push_decimal(&mut s, 1907);
    assert_eq!(s, "n=01907");
    let mut t = String::new();
    push_decimal(&mut t, u64::MAX);
    assert_eq!(t, u64::MAX.to_string());
}

#[test]
fn ascii_case_matching() {
    assert!(eq_ignore_ascii_case("Rust-Lang", "rust-lang"));
    assert!(!eq_ignore_ascii_case("rust", "rusty"));
    assert!(!eq_ignore_ascii_case("é", "É"));
}

#[test]
fn splitting_on_the_first_separator() {
    assert_eq!(split_once_char("a/b/c", '/'), Some(("a", "b/c")));
    assert_eq!(split_once_char("abc", '/'), None);
    assert_eq!(split_once_char("/x", '/'), Some(("", "x")));
    assert_eq!(find_char("héllo/x", '/'), Some(5));
    assert!(contains_char("a/b", '/'));
    assert!(!contains_char("ab", '/'));
}

#[test]
fn string_order_matches_std() {
    let words = ["", "a", "B", "b", "ab", "aa", "é", "z"];
    for x in words {
        for y in words {
            assert_eq!(str_le(x, y), x <= y, "{x} {y}");
        }
    }
}

#[test]
fn joining_and_trimming() {
    let parts = vec!["a".to_string(), "b".to_string(), "c".to_string()];
    assert_eq!(join_strings(&parts, ", "), "a, b, c");
    assert_eq!(join_strings(&vec![], ", "), "");
    assert_eq!(trim_end_string("x \n\t\u{3000}"), "x");
    assert_eq!(trim_end_string(" x"), " x");
}
