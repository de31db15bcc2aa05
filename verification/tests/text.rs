use amanuense::text;

fn owned(parts: &[&str]) -> Vec<String> {
    parts.iter().map(|p| p.to_string()).collect()
}

#[test]
fn white_space_is_that_of_unicode() {
    for v in 0..=0x10_ffffu32 {
        if let Some(c) = char::from_u32(v) {
            assert_eq!(text::white_space(c), c.is_whitespace(), "U+{:04X}", v);
        }
    }
}

#[test]
fn characters_go_there_and_back() {
    let v = text::to_chars("olá, 🎙");
    assert_eq!(v, vec!['o', 'l', 'á', ',', ' ', '🎙']);
    assert_eq!(text::from_chars(&v, 0, 6), "olá, 🎙");
    assert_eq!(text::from_chars(&v, 1, 3), "lá");
    assert_eq!(text::from_chars(&v, 4, 4), "");
}

#[test]
fn trimming_takes_white_space_at_both_ends() {
    for s in ["", " ", "a", " a ", "\t\na b\u{3000}", "\u{a0}x\u{2028}", "a\u{200b}"] {
        assert_eq!(text::trim(s), s.trim());
    }
}

#[test]
fn joining_puts_the_separator_between() {
    assert_eq!(text::join(&owned(&[]), " "), "");
    assert_eq!(text::join(&owned(&["a"]), " "), "a");
    assert_eq!(text::join(&owned(&["a", "", "b"]), ", "), "a, , b");
    assert_eq!(text::concat_range(&owned(&["a", "b", "c", "d"]), 1, 3), "bc");
    assert_eq!(text::concat_range(&owned(&["a", "b"]), 2, 2), "");
}

#[test]
fn fields_lie_between_white_space() {
    for s in ["", "  ", "a", " a  b\tc\n", "olá\u{2003}mundo "] {
        let expected: Vec<String> = s.split_whitespace().map(|w| w.to_string()).collect();
        assert_eq!(text::split_white_space(s), expected);
    }
}

#[test]
fn prefixes_are_found() {
    assert!(text::starts_with("USB Mic", "USB"));
    assert!(text::starts_with("USB Mic", ""));
    assert!(!text::starts_with("USB", "USB Mic"));
    assert!(!text::starts_with("usb", "USB"));
    assert!(text::same_text("ção", "ção"));
    assert!(!text::same_text("ção", "cao"));
}

#[test]
fn numerals_are_those_of_format() {
    for n in [0u64, 7, 8, 9, 10, 99, 100, 255, 4096, u32::MAX as u64, u64::MAX] {
        assert_eq!(text::to_numeral(n, 10), format!("{}", n));
        assert_eq!(text::to_numeral(n, 16), format!("{:x}", n));
        assert_eq!(text::to_padded_numeral(n, 10, 3), format!("{:03}", n));
        assert_eq!(text::to_padded_numeral(n, 16, 8), format!("{:08x}", n));
    }
}

#[test]
fn byte_positions_are_those_of_utf8() {
    assert_eq!(text::find("ação e reação", "ação"), Some(0));
    assert_eq!(text::find("reação", "ação"), "reação".find("ação"));
    assert_eq!(text::find("abc", ""), Some(0));
    assert_eq!(text::find("abc", "abcd"), None);
    assert_eq!(text::find("abcabd", "abd"), Some(3));
    assert_eq!(text::text_from_byte("ação", 3), "ão");
    assert_eq!(text::text_from_byte("ação", 6), "");
}

#[test]
fn beginnings_are_counted_in_bytes() {
    assert_eq!(text::text_up_to_byte("ação", 3), "aç");
    assert_eq!(text::text_up_to_byte("ação", 2), "a");
    assert_eq!(text::text_up_to_byte("ação", 0), "");
    assert_eq!(text::text_up_to_byte("ação", 99), "ação");
    for c in ['a', 'é', '—', '🎙'] {
        assert_eq!(text::width(c), c.len_utf8());
    }
}
