use clapboard::index::{Source, SummaryIndex};
use clapboard::repository::Repository;
use clapboard::summary::{
    build, chooser_input, label_for, entry_text, selection_of, text_format, Favorite, TEXT_TAGS,
};

fn favorite(label: &str, value: &str) -> Favorite {
    Favorite { label: label.to_string(), value: value.to_string() }
}

#[test]
fn index_keeps_the_order_of_offers() {
    let mut index = SummaryIndex::new();
    assert_eq!(index.len(), 0);
    assert!(index.offer("b".to_string(), Source::Entry(2)));
    assert!(index.offer("a".to_string(), Source::Entry(1)));
    assert!(index.offer("c".to_string(), Source::Favorite(0)));
    assert_eq!(index.len(), 3);
    assert_eq!(index.labels(), vec!["b", "a", "c"]);
    assert_eq!(index.pair_at(0), Some(("b".to_string(), Source::Entry(2))));
    assert_eq!(index.pair_at(2), Some(("c".to_string(), Source::Favorite(0))));
    assert_eq!(index.pair_at(3), None);
}

#[test]
fn index_refuses_to_replace_a_label() {
    let mut index = SummaryIndex::new();
    assert!(index.offer("x".to_string(), Source::Entry(2)));
    assert!(!index.offer("x".to_string(), Source::Entry(1)));
    assert!(!index.offer("x".to_string(), Source::Favorite(0)));
    assert_eq!(index.len(), 1);
    assert!(index.contains("x"));
    assert!(!index.contains("y"));
    assert_eq!(index.source_of("x"), Some(Source::Entry(2)));
    assert_eq!(index.source_of("y"), None);
}

#[test]
fn text_formats_are_tried_in_order() {
    assert_eq!(TEXT_TAGS, 5);
    assert_eq!(text_format(0), "UTF8_STRING");
    assert_eq!(text_format(1), "TEXT");
    assert_eq!(text_format(2), "text/plain");
    assert_eq!(text_format(3), "text/html");
    assert_eq!(text_format(4), "STRING");
}

#[test]
fn first_text_found_is_taken() {
    let mut repo = Repository::new();
    repo.put(1, "text/html", b"<p>html</p>".to_vec());
    repo.put(1, "text/plain", b"plain".to_vec());
    repo.put(1, "image/png", vec![1, 2, 3]);
    assert_eq!(entry_text(&repo, 1), Some("plain".to_string()));
    repo.put(1, "UTF8_STRING", "utf8 ✓".as_bytes().to_vec());
    assert_eq!(entry_text(&repo, 1), Some("utf8 ✓".to_string()));
    assert_eq!(entry_text(&repo, 2), None);
}

#[test]
fn bytes_that_are_no_text_are_passed_over() {
    let mut repo = Repository::new();
    repo.put(1, "UTF8_STRING", vec![0xff, 0xfe, 0x00]);
    repo.put(1, "STRING", b"fallback".to_vec());
    assert_eq!(entry_text(&repo, 1), Some("fallback".to_string()));
    let mut only_bad = Repository::new();
    only_bad.put(3, "TEXT", vec![0xc0]);
    assert_eq!(entry_text(&only_bad, 3), None);
    assert_eq!(label_for(&only_bad, 3, 50), "3");
}

#[test]
fn entry_without_text_is_labelled_by_its_identifier() {
    let mut repo = Repository::new();
    repo.put(1700000000123, "image/png", vec![1, 2, 3]);
    assert_eq!(label_for(&repo, 1700000000123, 50), "1700000000123");
    let index = build(&repo, &Vec::new(), 50);
    assert_eq!(index.labels(), vec!["1700000000123"]);
    assert_eq!(index.source_of("1700000000123"), Some(Source::Entry(1700000000123)));
}

#[test]
fn captured_text_of_two_hundred_characters_gives_fifty() {
    let mut repo = Repository::new();
    repo.put(1, "text/plain", "y".repeat(200).into_bytes());
    let label = label_for(&repo, 1, 50);
    assert_eq!(label.chars().count(), 50);
    let mut lines = Repository::new();
    lines.put(2, "text/plain", b"a\nb".to_vec());
    assert_eq!(label_for(&lines, 2, 50), "a b");
}

#[test]
fn listing_has_entries_newest_first_then_favorites() {
    let mut repo = Repository::new();
    repo.put(1, "text/plain", b"first".to_vec());
    repo.put(3, "text/plain", b"  third\n".to_vec());
    repo.put(2, "image/png", vec![0]);
    let favorites = vec![favorite("todo", "buy milk"), favorite("mail", "me@example.org")];
    let index = build(&repo, &favorites, 50);
    assert_eq!(index.labels(), vec!["third", "2", "first", "todo", "mail"]);
    assert_eq!(index.source_of("third"), Some(Source::Entry(3)));
    assert_eq!(index.source_of("2"), Some(Source::Entry(2)));
    assert_eq!(index.source_of("todo"), Some(Source::Favorite(0)));
    assert_eq!(index.source_of("mail"), Some(Source::Favorite(1)));
    assert_eq!(chooser_input(&index), "third\n2\nfirst\ntodo\nmail");
}

#[test]
fn newer_entry_wins_a_label() {
    let mut repo = Repository::new();
    repo.put(1, "text/plain", b"hello".to_vec());
    repo.put(2, "text/plain", b"hello\n".to_vec());
    repo.put(3, "text/plain", b"other".to_vec());
    let index = build(&repo, &Vec::new(), 50);
    assert_eq!(index.labels(), vec!["other", "hello"]);
    assert_eq!(index.source_of("hello"), Some(Source::Entry(2)));
    assert_eq!(repo.len(), 3);
}

#[test]
fn entry_wins_a_label_over_a_favorite() {
    let mut repo = Repository::new();
    repo.put(1, "text/plain", b"todo".to_vec());
    let favorites = vec![favorite("todo", "buy milk"), favorite("todo", "again"), favorite("x", "y")];
    let index = build(&repo, &favorites, 50);
    assert_eq!(index.labels(), vec!["todo", "x"]);
    assert_eq!(index.source_of("todo"), Some(Source::Entry(1)));
    assert_eq!(index.source_of("x"), Some(Source::Favorite(2)));
}

#[test]
fn first_of_two_favorites_with_one_label_is_listed() {
    let favorites = vec![favorite("a", "1"), favorite("a", "2")];
    let index = build(&Repository::new(), &favorites, 50);
    assert_eq!(index.labels(), vec!["a"]);
    assert_eq!(index.source_of("a"), Some(Source::Favorite(0)));
}

#[test]
fn chooser_input_of_nothing_is_empty() {
    let index = build(&Repository::new(), &Vec::new(), 50);
    assert_eq!(chooser_input(&index), "");
    let mut one = SummaryIndex::new();
    one.offer("only".to_string(), Source::Entry(1));
    assert_eq!(chooser_input(&one), "only");
}

#[test]
fn line_terminator_is_taken_off_the_selection() {
    assert_eq!(selection_of("hello\n"), "hello");
    assert_eq!(selection_of("hello\r\n"), "hello");
    assert_eq!(selection_of("hello"), "hello");
    assert_eq!(selection_of("hello\n\n"), "hello\n");
    assert_eq!(selection_of("\n"), "");
    assert_eq!(selection_of(""), "");
}
