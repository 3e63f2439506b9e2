use inbox_storage::order::{chars_le, insert_sorted};
use inbox_storage::text::{
    char_is_whitespace, chars_of, line_is_blank, slice_of, split_lines, string_of, trimmed_end,
    trimmed_start,
};

const SAMPLES: [&str; 14] = [
    "",
    " ",
    "a",
    "  a  ",
    "\t\n a\u{a0}b \u{3000}\r\n",
    "\u{2028}\u{2029}",
    "\u{200b} x \u{200b}",
    "\u{85}x\u{1680}",
    "é \u{205f}",
    "\u{feff}",
    "---",
    " - - ",
    "\r",
    "日本語 \u{202f}",
];

#[test]
fn char_is_whitespace_agrees_with_std() {
    for code in 0..=0x10FFFFu32 {
        if let Some(c) = char::from_u32(code) {
            assert_eq!(char_is_whitespace(c), c.is_whitespace(), "at {:#x}", code);
        }
    }
}

#[test]
fn chars_and_strings_convert_both_ways() {
    for text in SAMPLES {
        let chars = chars_of(text);
        assert_eq!(chars, text.chars().collect::<Vec<char>>());
        assert_eq!(string_of(&chars), text);
    }
}

#[test]
fn trimming_agrees_with_std() {
    for text in SAMPLES {
        let chars = chars_of(text);
        assert_eq!(trimmed_end(&chars), text.trim_end().chars().count(), "{:?}", text);
        assert_eq!(
            trimmed_start(&chars),
            chars.len() - text.trim_start().chars().count(),
            "{:?}",
            text
        );
        assert_eq!(line_is_blank(&chars), text.trim().is_empty(), "{:?}", text);
    }
}

#[test]
fn slice_of_copies_a_range() {
    let chars = chars_of("héllo");
    assert_eq!(string_of(&slice_of(&chars, 1, 4)), "éll");
    assert_eq!(string_of(&slice_of(&chars, 2, 2)), "");
    assert_eq!(string_of(&slice_of(&chars, 0, 5)), "héllo");
}

#[test]
fn split_lines_agrees_with_std() {
    for text in [
        "", "a", "a\n", "a\nb", "a\r\nb\r\n", "\n", "\n\n", "\r\n", "\r", "a\r", "a\r\r\n", "a\rb\n",
        "\na", "a\n\n\nb\n", "x\u{2028}y\n", "é\n日本\n",
    ] {
        let lines: Vec<String> = split_lines(&chars_of(text)).iter().map(string_of).collect();
        let expected: Vec<String> = text.lines().map(|line| line.to_string()).collect();
        assert_eq!(lines, expected, "{:?}", text);
    }
}

#[test]
fn chars_le_agrees_with_string_order() {
    let words = ["", "a", "ab", "b", "B", "a.", "é", "e", "\u{ffff}", "\u{10000}", "日", "z"];
    for a in words {
        for b in words {
            assert_eq!(chars_le(&chars_of(a), &chars_of(b)), a <= b, "{:?} {:?}", a, b);
        }
    }
}

#[test]
fn insert_sorted_keeps_order_and_duplicates() {
    let mut names: Vec<Vec<char>> = Vec::new();
    for name in ["m", "a", "z", "m", "b", ""] {
        insert_sorted(&mut names, chars_of(name));
    }
    let got: Vec<String> = names.iter().map(string_of).collect();
    assert_eq!(got, vec!["", "a", "b", "m", "m", "z"]);
}
