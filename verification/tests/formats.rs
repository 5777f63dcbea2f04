use clapboard::format::{format_of_key, storage_key};
use clapboard::text::{chars_of, string_of};

#[test]
fn separator_becomes_a_dot() {
    assert_eq!(storage_key("text/plain"), "text.plain");
    assert_eq!(storage_key("image/png"), "image.png");
    assert_eq!(storage_key("UTF8_STRING"), "UTF8_STRING");
    assert_eq!(storage_key(""), "");
}

#[test]
fn every_separator_is_replaced() {
    assert_eq!(storage_key("../../etc/passwd"), "......etc.passwd");
    assert!(!storage_key("a/b/c").contains('/'));
}

#[test]
fn first_dot_becomes_the_separator_again() {
    assert_eq!(format_of_key("text.plain"), "text/plain");
    assert_eq!(format_of_key("application.vnd.oasis.opendocument.text"), "application/vnd.oasis.opendocument.text");
    assert_eq!(format_of_key("TEXT"), "TEXT");
    assert_eq!(format_of_key(""), "");
}

#[test]
fn common_tags_round_trip() {
    for tag in ["text/plain", "text/html", "image/png", "image/svg+xml", "STRING", "text/plain;charset=utf-8", "application/x-kde.cut"] {
        assert_eq!(format_of_key(&storage_key(tag)), tag);
    }
}

#[test]
fn a_dot_before_the_separator_does_not_round_trip() {
    assert_eq!(format_of_key(&storage_key("a.b/c")), "a/b.c");
    assert_eq!(format_of_key(&storage_key("a.b")), "a/b");
}

#[test]
fn characters_and_strings_convert_both_ways() {
    assert_eq!(chars_of("héllo"), vec!['h', 'é', 'l', 'l', 'o']);
    assert_eq!(string_of(&vec!['a', 'ß', 'c']), "aßc");
    assert_eq!(string_of(&chars_of("")), "");
}
