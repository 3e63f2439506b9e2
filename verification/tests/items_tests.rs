use inbox_storage::items::{append_item, count_split_items, join_items, split_items};

fn strings(items: &[&str]) -> Vec<String> {
    items.iter().map(|item| item.to_string()).collect()
}

#[test]
fn split_items_parts_at_divider_lines() {
    assert_eq!(split_items("a\n\n---\n\nb\n"), strings(&["a", "b"]));
    assert_eq!(split_items("a\n---\nb"), strings(&["a", "b"]));
}

#[test]
fn split_items_of_empty_or_blank_text_is_empty() {
    assert!(split_items("").is_empty());
    assert!(split_items("\n \n\t\n").is_empty());
    assert!(split_items("---").is_empty());
    assert!(split_items("\n---\n\n---\n").is_empty());
}

#[test]
fn split_items_drops_empty_blocks() {
    assert_eq!(split_items("---\na\n---\n---\n\n---\nb\n---\n"), strings(&["a", "b"]));
}

#[test]
fn split_items_skips_leading_blank_lines_and_trims_the_end() {
    assert_eq!(split_items("\n \n  a  \nb \t\n\n\n---\n"), strings(&["  a  \nb"]));
}

#[test]
fn split_items_keeps_blank_lines_inside_an_item() {
    assert_eq!(split_items("a\n\n \nb\n"), strings(&["a\n\n \nb"]));
}

#[test]
fn split_items_divider_may_stand_in_whitespace() {
    assert_eq!(split_items("a\n \t---  \nb"), strings(&["a", "b"]));
    assert_eq!(split_items("a\n----\nb"), strings(&["a\n----\nb"]));
    assert_eq!(split_items("a\n- --\nb"), strings(&["a\n- --\nb"]));
    assert_eq!(split_items("a\n--\nb"), strings(&["a\n--\nb"]));
    assert_eq!(split_items("a\nx---\nb"), strings(&["a\nx---\nb"]));
}

#[test]
fn split_items_reads_carriage_return_line_endings() {
    assert_eq!(split_items("a\r\nb\r\n\r\n---\r\n\r\nc\r\n"), strings(&["a\nb", "c"]));
}

#[test]
fn join_items_puts_separator_between_items() {
    assert_eq!(join_items(&strings(&["a", "b"])), "a\n\n---\n\nb\n");
    assert_eq!(join_items(&strings(&["a"])), "a\n");
    assert_eq!(join_items(&strings(&["a\nb", "c", "d"])), "a\nb\n\n---\n\nc\n\n---\n\nd\n");
}

#[test]
fn join_items_of_nothing_is_empty() {
    assert_eq!(join_items(&Vec::new()), "");
    assert_eq!(join_items(&strings(&[""])), "");
}

#[test]
fn append_item_to_empty_text_has_no_divider() {
    let text = append_item("", "x");
    assert!(text.contains("x"));
    assert!(!text.contains("---"));
    assert_eq!(text, "x\n");
}

#[test]
fn append_item_twice_has_one_divider() {
    let text = append_item(&append_item("", "a"), "b");
    assert_eq!(text.matches("---").count(), 1);
    assert!(text.contains("a"));
    assert!(text.contains("b"));
    assert_eq!(text, "a\n\n---\n\nb\n");
}

#[test]
fn append_item_ignores_blank_item() {
    assert_eq!(append_item("a \n\n", ""), "a \n\n");
    assert_eq!(append_item("a \n\n", " \n\t"), "a \n\n");
    assert_eq!(append_item("", "\u{3000}"), "");
}

#[test]
fn append_item_trims_both_texts() {
    assert_eq!(append_item("\n  a \n\n", "  b \n"), "a\n\n---\n\n  b\n");
    assert_eq!(append_item(" \n", "b"), "b\n");
}

#[test]
fn count_split_items_is_length_of_split_items() {
    for text in ["", "a", "a\n---\nb", "---\n---", "a\n\n---\n\nb\n\n---\n\nc\n", " \n---\n x"] {
        assert_eq!(count_split_items(text), split_items(text).len());
    }
    assert_eq!(count_split_items("a\n\n---\n\nb\n\n---\n\nc\n"), 3);
    assert_eq!(count_split_items("- one\n- two\n\n## Archived\n- old\n"), 1);
}

#[test]
fn split_items_of_joined_items_gives_them_back() {
    for items in [
        strings(&[]),
        strings(&["a"]),
        strings(&["a", "b"]),
        strings(&["  a\n\n b", "c\rd", "- --", "\u{e9}t\u{e9}"]),
    ] {
        assert_eq!(split_items(&join_items(&items)), items);
    }
}

#[test]
fn split_items_is_stable_after_one_pass() {
    for text in ["a\r\n---\r\n b \r\n", "\n\n--- \n x\n\ny \n", "a\n---\n\n---\nb"] {
        let once = split_items(text);
        assert_eq!(split_items(&join_items(&once)), once);
    }
}
