use ssm_fs::pairs::keep_last;
use ssm_fs::text::{
    ascii_uppercased, chars_of, last_position, replaced, starts_with, string_of, string_of_range,
    stripped_prefix, text_after_last, text_before_last, to_ascii_upper, trimmed_end,
};

fn chars(s: &str) -> Vec<char> {
    s.chars().collect()
}

fn pair(name: &str, value: &str) -> (String, String) {
    (name.to_string(), value.to_string())
}

#[test]
fn text_and_characters_convert_both_ways() {
    assert_eq!(chars_of("aé世"), vec!['a', 'é', '世']);
    assert_eq!(chars_of(""), Vec::<char>::new());
    assert_eq!(string_of(&chars("aé世")), "aé世");
    assert_eq!(string_of_range(&chars("hello"), 1, 3), "el");
    assert_eq!(string_of_range(&chars("hello"), 2, 2), "");
}

#[test]
fn one_ascii_letter_is_raised() {
    assert_eq!(to_ascii_upper('a'), 'A');
    assert_eq!(to_ascii_upper('z'), 'Z');
    assert_eq!(to_ascii_upper('A'), 'A');
    assert_eq!(to_ascii_upper('`'), '`');
    assert_eq!(to_ascii_upper('{'), '{');
    assert_eq!(to_ascii_upper('é'), 'é');
}

#[test]
fn ascii_upper_case_agrees_with_the_standard_one() {
    for text in ["", "abc", "aBc-1_z", "straße", "{`az"] {
        assert_eq!(ascii_uppercased(text), text.to_ascii_uppercase());
    }
}

#[test]
fn every_occurrence_is_replaced() {
    assert_eq!(replaced("/a/b//c", '/', '_'), "_a_b__c");
    assert_eq!(replaced("abc", '/', '_'), "abc");
    assert_eq!(replaced("", '/', '_'), "");
}

#[test]
fn a_trailing_run_is_trimmed() {
    assert_eq!(trimmed_end("/p///", '/'), "/p");
    assert_eq!(trimmed_end("/p", '/'), "/p");
    assert_eq!(trimmed_end("///", '/'), "");
    assert_eq!(trimmed_end("", '/'), "");
    assert_eq!(trimmed_end("/a/b/", '/'), "/a/b");
}

#[test]
fn the_last_occurrence_is_found() {
    assert_eq!(last_position(&chars("a/b/c"), '/'), Some(3));
    assert_eq!(last_position(&chars("/"), '/'), Some(0));
    assert_eq!(last_position(&chars("abc"), '/'), None);
    assert_eq!(last_position(&chars(""), '/'), None);
}

#[test]
fn a_text_is_cut_at_its_last_separator() {
    assert_eq!(text_after_last("a/b/c", '/'), "c");
    assert_eq!(text_before_last("a/b/c", '/'), "a/b");
    assert_eq!(text_after_last("abc", '/'), "abc");
    assert_eq!(text_before_last("abc", '/'), "abc");
    assert_eq!(text_after_last("a/", '/'), "");
    assert_eq!(text_before_last("/a", '/'), "");
}

#[test]
fn a_prefix_is_recognised() {
    assert!(starts_with(&chars("/p/a"), &chars("/p")));
    assert!(starts_with(&chars("/p"), &chars("/p")));
    assert!(starts_with(&chars("/p"), &chars("")));
    assert!(!starts_with(&chars("/p"), &chars("/p/")));
    assert!(!starts_with(&chars("/q/a"), &chars("/p")));
}

#[test]
fn one_leading_prefix_is_stripped() {
    assert_eq!(stripped_prefix("/p/a", "/p"), "/a");
    assert_eq!(stripped_prefix("/p/p/a", "/p"), "/p/a");
    assert_eq!(stripped_prefix("/q/a", "/p"), "/q/a");
    assert_eq!(stripped_prefix("/p", "/p"), "");
    assert_eq!(stripped_prefix("abc", ""), "abc");
}

#[test]
fn the_last_value_of_each_key_is_kept() {
    let pairs = vec![pair("a", "1"), pair("b", "2"), pair("a", "3"), pair("c", "4"), pair("b", "5")];
    assert_eq!(keep_last(&pairs), vec![pair("a", "3"), pair("c", "4"), pair("b", "5")]);
    assert_eq!(keep_last(&Vec::new()), Vec::new());
    assert_eq!(keep_last(&vec![pair("a", "1")]), vec![pair("a", "1")]);
}
