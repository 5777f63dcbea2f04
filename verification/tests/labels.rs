use clapboard::label::{derive_label, is_whitespace, trim_text, DEFAULT_LABEL_CHARS};

#[test]
fn long_text_is_cut_to_fifty_characters() {
    let text = "x".repeat(200);
    let label = derive_label(&text, DEFAULT_LABEL_CHARS);
    assert_eq!(label.chars().count(), 50);
    assert_eq!(label, "x".repeat(50));
}

#[test]
fn newline_becomes_a_space() {
    assert_eq!(derive_label("a\nb", 50), "a b");
}

#[test]
fn nul_characters_are_left_out() {
    assert_eq!(derive_label("a\0b\0", 50), "ab");
}

#[test]
fn surrounding_white_space_is_removed() {
    assert_eq!(derive_label("  \t hello world \n\n", 50), "hello world");
    assert_eq!(derive_label("\u{3000}x\u{a0}", 50), "x");
    assert_eq!(derive_label("   ", 50), "");
    assert_eq!(derive_label("", 50), "");
}

#[test]
fn inner_newlines_stay_as_spaces_after_trimming() {
    assert_eq!(derive_label("\nline one\nline two\n", 50), "line one line two");
}

#[test]
fn cut_counts_characters_not_bytes() {
    let text = "é".repeat(60);
    assert_eq!(derive_label(&text, 50), "é".repeat(50));
    assert_eq!(derive_label("abcdef", 3), "abc");
    assert_eq!(derive_label("abcdef", 0), "");
}

#[test]
fn white_space_agrees_with_the_standard_library() {
    let mut n: u32 = 0;
    while n <= 0x3100 {
        if let Some(c) = char::from_u32(n) {
            assert_eq!(is_whitespace(c), c.is_whitespace());
        }
        n += 1;
    }
}

#[test]
fn label_agrees_with_the_standard_trim() {
    let text = " \u{2003}some\ttext\r\n";
    let expected: String = text.trim().replace('\n', " ").replace('\0', "").chars().take(50).collect();
    assert_eq!(derive_label(text, 50), expected);
}

#[test]
fn trimming_keeps_what_is_inside() {
    assert_eq!(trim_text("  a  b\n"), "a  b");
    assert_eq!(trim_text("a\nb"), "a\nb");
    assert_eq!(trim_text(" \t\r\n"), "");
    assert_eq!(trim_text(""), "");
    assert_eq!(trim_text("\u{2028}x y\u{205f}"), "x y");
}
