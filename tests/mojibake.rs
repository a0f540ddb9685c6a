use chat_media_explorer::mojibake::fix_mojibake;

#[test]
fn test_fix_polish_chars() {
    // "\u{0142}" read one byte per character
    let mojibake = "\u{00C5}\u{0082}";
    assert_eq!(fix_mojibake(mojibake), "\u{0142}");
    // the same text read once more as Windows-1252 is not the repair
    assert_ne!(fix_mojibake(mojibake), "\u{00C5}\u{201A}");
}

#[test]
fn test_fix_emoji() {
    // U+1F606, UTF-8: F0 9F 98 86
    let mojibake = "\u{00F0}\u{009F}\u{0098}\u{0086}";
    assert_eq!(fix_mojibake(mojibake), "\u{1F606}");
    assert_ne!(fix_mojibake(mojibake), "\u{00F0}\u{0178}\u{02DC}\u{2020}");
}

#[test]
fn test_plain_ascii_unchanged() {
    assert_eq!(fix_mojibake("hello world"), "hello world");
}

#[test]
fn test_mixed_polish_text() {
    // a Polish name read one byte per character
    let mojibake = "Rafa\u{00C5}\u{0082} Brzezi\u{00C5}\u{0084}ski";
    assert_eq!(fix_mojibake(mojibake), "Rafa\u{0142} Brzezi\u{0144}ski");
    assert_ne!(fix_mojibake(mojibake), "Rafa\u{00C5}\u{201A} Brzezi\u{00C5}\u{201E}ski");
}

#[test]
fn repair_is_stable_on_second_application() {
    let once = fix_mojibake("Rafa\u{00C5}\u{0082}");
    assert_eq!(once, "Rafa\u{0142}");
    assert_eq!(fix_mojibake(&once), "Rafa\u{0142}");
}

#[test]
fn repair_leaves_invalid_byte_sequences() {
    // 0xE9 alone is not valid UTF-8
    assert_eq!(fix_mojibake("caf\u{00E9}"), "caf\u{00E9}");
}

#[test]
fn repair_leaves_wide_characters() {
    assert_eq!(fix_mojibake("\u{0142}\u{00C5}\u{0082}"), "\u{0142}\u{00C5}\u{0082}");
}

#[test]
fn repair_of_empty_text() {
    assert_eq!(fix_mojibake(""), "");
}
