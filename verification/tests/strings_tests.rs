use aether_vm::strings::{
    strings_contains, strings_ends_with, strings_join, strings_lower, strings_replace,
    strings_split, strings_starts_with, strings_trim, strings_upper,
};

fn owned(v: &[&str]) -> Vec<String> {
    v.iter().map(|s| s.to_string()).collect()
}

#[test]
fn split_on_a_separator() {
    assert_eq!(strings_split("a,b,,c", ","), owned(&["a", "b", "", "c"]));
    assert_eq!(strings_split("a--b---c", "--"), owned(&["a", "b", "-c"]));
    assert_eq!(strings_split("", ","), owned(&[""]));
    assert_eq!(strings_split("abc", "abc"), owned(&["", ""]));
}

#[test]
fn split_on_the_empty_separator_gives_characters() {
    assert_eq!(strings_split("héllo", ""), owned(&["h", "é", "l", "l", "o"]));
    assert!(strings_split("", "").is_empty());
}

#[test]
fn join_and_replace() {
    assert_eq!(strings_join(&owned(&["a", "b", "c"]), ", "), "a, b, c");
    assert_eq!(strings_join(&owned(&[]), ", "), "");
    assert_eq!(strings_join(&owned(&["x"]), "-"), "x");
    assert_eq!(strings_replace("aaa", "aa", "b"), "ba");
    assert_eq!(strings_replace("abc", "", "-"), "-a-b-c-");
    assert_eq!(strings_replace("hello world", "o", "0"), "hell0 w0rld");
    assert_eq!(strings_replace("abc", "x", "y"), "abc");
}

#[test]
fn search_trim_and_case() {
    assert!(strings_contains("haystack", "st"));
    assert!(strings_contains("haystack", ""));
    assert!(!strings_contains("hay", "hays"));
    assert!(strings_starts_with("prefix", "pre"));
    assert!(!strings_starts_with("pre", "prefix"));
    assert!(strings_ends_with("suffix", "fix"));
    assert!(!strings_ends_with("suffix", "suf"));
    assert_eq!(strings_trim("  a b \n"), "a b");
    assert_eq!(strings_upper("Straße"), "STRASSE");
    assert_eq!(strings_lower("ÀB"), "àb");
}

#[test]
fn joining_a_split_gives_the_text_back() {
    for (s, sep) in [("a,b,,c", ","), ("", "-"), ("--x--", "--"), ("abc", "z")] {
        assert_eq!(strings_join(&strings_split(s, sep), sep), s);
        assert_eq!(strings_replace(s, sep, sep), s);
    }
}
