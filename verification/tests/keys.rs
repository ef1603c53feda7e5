use ssm_fs::key::{chunk_key_string, split_key};
use ssm_fs::number::{decimal_chars, parse_chars};

fn chars(s: &str) -> Vec<char> {
    s.chars().collect()
}

#[test]
fn chunk_keys_carry_the_index_in_decimal() {
    assert_eq!(chunk_key_string("k", 0), "k.part0");
    assert_eq!(chunk_key_string("/p/a/b.txt", 12), "/p/a/b.txt.part12");
    assert_eq!(chunk_key_string("", 7), ".part7");
    assert_eq!(chunk_key_string("k", usize::MAX), format!("k.part{}", usize::MAX));
}

#[test]
fn split_reads_back_what_chunk_key_wrote() {
    for index in [0usize, 1, 9, 10, 99, 100, 4096, usize::MAX] {
        let key = chunk_key_string("some/base", index);
        assert_eq!(split_key(&key), ("some/base".to_string(), index));
    }
}

#[test]
fn a_key_without_marker_is_its_own_base() {
    assert_eq!(split_key("plain"), ("plain".to_string(), 0));
    assert_eq!(split_key(""), ("".to_string(), 0));
    assert_eq!(split_key("a.par7"), ("a.par7".to_string(), 0));
    assert_eq!(split_key("apart7"), ("apart7".to_string(), 0));
}

#[test]
fn a_key_that_is_only_marker_and_index_has_an_empty_base() {
    assert_eq!(split_key(".part3"), ("".to_string(), 3));
}

#[test]
fn split_falls_back_on_a_suffix_that_is_no_index() {
    assert_eq!(split_key("x.partY"), ("x.partY".to_string(), 0));
    assert_eq!(split_key("x.part"), ("x.part".to_string(), 0));
    assert_eq!(split_key("x.part+"), ("x.part+".to_string(), 0));
    assert_eq!(split_key("x.part1a"), ("x.part1a".to_string(), 0));
    assert_eq!(split_key("x.part١"), ("x.part١".to_string(), 0));
    assert_eq!(split_key("x.part1.part"), ("x.part1.part".to_string(), 0));
}

#[test]
fn split_uses_the_last_marker() {
    assert_eq!(split_key("x.part1.part22"), ("x.part1".to_string(), 22));
    assert_eq!(split_key("é.part5"), ("é".to_string(), 5));
}

#[test]
fn the_largest_index_is_read_and_the_next_is_not() {
    let max = format!("x.part{}", usize::MAX);
    assert_eq!(split_key(&max), ("x".to_string(), usize::MAX));
    let over = format!("x.part{}", usize::MAX as u128 + 1);
    assert_eq!(split_key(&over), (over.clone(), 0));
}

#[test]
fn decimal_text_has_no_leading_zero() {
    assert_eq!(decimal_chars(0), chars("0"));
    assert_eq!(decimal_chars(7), chars("7"));
    assert_eq!(decimal_chars(10), chars("10"));
    assert_eq!(decimal_chars(4096), chars("4096"));
    assert_eq!(decimal_chars(usize::MAX), chars(&usize::MAX.to_string()));
}

#[test]
fn parse_reads_an_index_from_a_position() {
    assert_eq!(parse_chars(&chars("ab12"), 2), Some(12));
    assert_eq!(parse_chars(&chars("ab12"), 1), None);
    assert_eq!(parse_chars(&chars("ab12"), 4), None);
    assert_eq!(parse_chars(&chars("+0"), 0), Some(0));
    assert_eq!(parse_chars(&chars("++1"), 0), None);
    assert_eq!(parse_chars(&chars("-1"), 0), None);
    assert_eq!(parse_chars(&chars("000"), 0), Some(0));
}

#[test]
fn parse_agrees_with_the_standard_parser() {
    for text in ["", "+", "-", "0", "+7", "-7", "007", "12a", " 1", "1 ", "99999999999999999999999", "18446744073709551615", "18446744073709551616", "４"] {
        assert_eq!(parse_chars(&chars(text), 0), text.parse::<usize>().ok(), "{text:?}");
    }
}
