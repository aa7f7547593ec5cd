use reminderski::clipboard::{can_be_copied, read_text, Snapshot, UNICODE_TEXT};

/// The bytes a `CF_UNICODETEXT` block holds for the text: its UTF-16, little-endian, and a
/// terminating zero.
fn text_block(text: &str) -> Vec<u8> {
    let mut units: Vec<u16> = text.encode_utf16().collect();
    units.push(0);
    units.iter().flat_map(|unit| unit.to_le_bytes()).collect()
}

#[test]
fn reads_back_multiline_unicode_text() {
    let text = "Zażółć gęślą jaźń\r\nsecond line\r\n🎉 non-BMP";
    let snapshot = Snapshot { formats: vec![(UNICODE_TEXT, text_block(text))] };
    assert_eq!(read_text(&snapshot.formats[0].1), text);
}

#[test]
fn the_text_ends_at_the_first_zero_unit() {
    let mut block = text_block("kept");
    block.extend(text_block("dropped"));
    assert_eq!(read_text(&block), "kept");
    assert_eq!(read_text(&[]), "");
    assert_eq!(read_text(&[0x41]), "");
    assert_eq!(read_text(&[0x41, 0x00, 0x42]), "A");
}

#[test]
fn a_lone_surrogate_becomes_the_replacement_character() {
    assert_eq!(read_text(&[0x00, 0xD8, 0x41, 0x00, 0x00, 0x00]), "\u{FFFD}A");
}

#[test]
fn gdi_and_owner_drawn_formats_are_not_copied() {
    for format in [2u32, 3, 9, 14, 0x80, 0x82, 0x83, 0x8E] {
        assert!(!can_be_copied(format));
    }
    for format in [1u32, 7, UNICODE_TEXT, 15, 0x81, 0xC000] {
        assert!(can_be_copied(format));
    }
}

#[test]
fn a_surrogate_pair_is_one_character_and_an_unpaired_one_is_replaced() {
    // U+1F389 is the pair D83C DF89.
    assert_eq!(read_text(&[0x3C, 0xD8, 0x89, 0xDF, 0x00, 0x00]), "\u{1F389}");
    // A low surrogate on its own, and a high one followed by something else.
    assert_eq!(read_text(&[0x89, 0xDF, 0x42, 0x00, 0x3C, 0xD8, 0x43, 0x00]), "\u{FFFD}B\u{FFFD}C");
    // A high surrogate at the very end.
    assert_eq!(read_text(&[0x41, 0x00, 0x3C, 0xD8]), "A\u{FFFD}");
}
