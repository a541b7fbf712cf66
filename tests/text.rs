use nam_installer::order::str_lt;
use nam_installer::text::{chars_of, contains_str, ends_with, starts_with, string_of};

#[test]
fn lexicographic_order() {
    assert!(str_lt("Left", "Right"));
    assert!(str_lt("Sign", "Signs"));
    assert!(!str_lt("Signs", "Sign"));
    assert!(!str_lt("same", "same"));
    assert!(str_lt("", "a"));
    assert!(str_lt("B", "a"));
}

#[test]
fn prefix_suffix_substring() {
    assert!(starts_with("installation/A", "installation/"));
    assert!(!starts_with("install", "installation/"));
    assert!(ends_with("C:/Game/Plugins", "Plugins"));
    assert!(!ends_with("C:/Game/Data", "Plugins"));
    assert!(!ends_with("C:/Game/Plugins/", "Plugins"));
    assert!(contains_str("a/Roads~/b", "Roads~"));
    assert!(!contains_str("a/Roads/b", "Roads~"));
    assert!(contains_str("abc", ""));
}

#[test]
fn chars_round_trip() {
    let cs = chars_of("Ünïcode ~ name");
    assert_eq!(cs.len(), 14);
    assert_eq!(string_of(&cs), "Ünïcode ~ name");
}
