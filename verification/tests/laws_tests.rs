use inbox_storage::archive::{
    archive_line_matching, count_items, restore_line_matching, split_archived,
};
use inbox_storage::items::{join_items, split_items};
use inbox_storage::journal::journal_filename;
use inbox_storage::ledger::date_of_filename;

fn owned(lines: &[&str]) -> Vec<String> {
    lines.iter().map(|line| line.to_string()).collect()
}

#[test]
fn archived_line_is_read_back_as_last_archived_line() {
    let text = "a\n\nb\n## Archived\nc\n";
    let moved = archive_line_matching(text, 2, "b").unwrap();
    let (active, archived) = split_archived(&moved);
    assert_eq!(active, owned(&["a", "", ""]));
    assert_eq!(archived, owned(&["c", "b"]));
    assert_eq!(count_items(&moved) + 1, count_items(text));
}

#[test]
fn archiving_the_only_line_leaves_no_gap() {
    let moved = archive_line_matching("a\n", 0, "a").unwrap();
    let (active, archived) = split_archived(&moved);
    assert!(active.is_empty());
    assert_eq!(archived, owned(&["a"]));
    assert_eq!(count_items(&moved), 0);
}

#[test]
fn restored_line_is_read_back_as_last_active_line() {
    let text = "a\n\n## Archived\nb\nc\n";
    let moved = restore_line_matching(text, 0, "b").unwrap();
    let (active, archived) = split_archived(&moved);
    assert_eq!(active, owned(&["a", "", "b", ""]));
    assert_eq!(archived, owned(&["c"]));
    assert_eq!(count_items(&moved), count_items(text) + 1);
}

#[test]
fn restoring_the_only_archived_line_drops_the_heading() {
    let moved = restore_line_matching("## Archived\nb\n", 0, "b").unwrap();
    assert_eq!(moved, "b\n");
    let (active, archived) = split_archived(&moved);
    assert_eq!(active, owned(&["b"]));
    assert!(archived.is_empty());
}

#[test]
fn items_of_a_text_are_never_blank() {
    for text in ["", " \n---\n\t", "a \n---\n\n b\n\n", "---\r\n---", "x\n\n\n"] {
        for item in split_items(text) {
            assert!(!item.is_empty());
            assert_eq!(item.trim_end(), item);
        }
    }
}

#[test]
fn joined_items_that_are_no_items_do_not_come_back() {
    for items in [owned(&["a "]), owned(&["a\n---\nb"]), owned(&["\na"]), owned(&["a\r\nb"])] {
        assert_ne!(split_items(&join_items(&items)), items);
    }
}

#[test]
fn carriage_return_before_line_ending_breaks_stability() {
    let once = split_items("a\r\r\nb");
    assert_eq!(once, owned(&["a\r\nb"]));
    assert_eq!(split_items(&join_items(&once)), owned(&["a\nb"]));
}

#[test]
fn date_of_journal_filename_is_the_date() {
    for date in ["2025-12-31", "", "x.md", "日"] {
        assert_eq!(date_of_filename(&journal_filename(date)), date);
    }
}
