use clapboard::ident::{entry_ids, parse_id, render_id};

#[test]
fn decimal_names_are_parsed() {
    assert_eq!(parse_id("0"), Some(0));
    assert_eq!(parse_id("7"), Some(7));
    assert_eq!(parse_id("1700000000123"), Some(1700000000123));
    assert_eq!(parse_id("18446744073709551615"), Some(u64::MAX));
}

#[test]
fn other_names_are_refused() {
    assert_eq!(parse_id(""), None);
    assert_eq!(parse_id(".hidden"), None);
    assert_eq!(parse_id(".123"), None);
    assert_eq!(parse_id("12a"), None);
    assert_eq!(parse_id("+12"), None);
    assert_eq!(parse_id("-12"), None);
    assert_eq!(parse_id(" 12"), None);
    assert_eq!(parse_id("012"), None);
    assert_eq!(parse_id("00"), None);
    assert_eq!(parse_id("١٢"), None);
}

#[test]
fn names_beyond_sixty_four_bits_are_refused() {
    assert_eq!(parse_id("18446744073709551616"), None);
    assert_eq!(parse_id("99999999999999999999"), None);
    assert_eq!(parse_id("184467440737095516150"), None);
}

#[test]
fn identifiers_are_rendered_in_decimal() {
    assert_eq!(render_id(0), "0");
    assert_eq!(render_id(9), "9");
    assert_eq!(render_id(10), "10");
    assert_eq!(render_id(1700000000123), "1700000000123");
    assert_eq!(render_id(u64::MAX), "18446744073709551615");
}

#[test]
fn rendering_then_parsing_gives_the_identifier() {
    for id in [0u64, 1, 9, 10, 99, 100, 12345, 1 << 40, u64::MAX - 1, u64::MAX] {
        assert_eq!(parse_id(&render_id(id)), Some(id));
        assert_eq!(render_id(id), id.to_string());
    }
}

#[test]
fn names_of_a_storage_root_are_filtered() {
    let names: Vec<String> = ["3", ".lock", "1", "notes", "2", "02"].iter().map(|s| s.to_string()).collect();
    assert_eq!(entry_ids(&names), vec![3, 1, 2]);
    assert_eq!(entry_ids(&Vec::new()), Vec::<u64>::new());
}
