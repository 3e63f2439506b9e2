use inbox_storage::archive::{
    archive_line, archive_line_matching, count_items, restore_line_matching, split_archived,
    ArchiveError,
};

fn owned(lines: &[&str]) -> Vec<String> {
    lines.iter().map(|line| line.to_string()).collect()
}

#[test]
fn archive_moves_line_under_archived() {
    let input = "- one\n- two\n\n## Archived\n- old\n";
    let output = archive_line(input, 0);
    assert!(output.contains("- two"));
    assert!(output.contains("## Archived"));
    assert!(output.contains("- one"));
}

#[test]
fn count_items_ignores_archived_section() {
    let text = "- one\n- two\n\n## Archived\n- old\n";
    assert_eq!(count_items(text), 2);
}

#[test]
fn archive_line_gives_exact_text() {
    let input = "- one\n- two\n\n## Archived\n- old\n";
    assert_eq!(archive_line(input, 0), "- two\n\n\n## Archived\n- old\n- one\n");
    assert_eq!(archive_line(input, 1), "- one\n\n\n## Archived\n- old\n- two\n");
}

#[test]
fn archive_line_puts_moved_line_behind_heading() {
    let output = archive_line("- one\n- two\n\n## Archived\n- old\n", 0);
    let heading = output.find("## Archived").unwrap();
    let moved = output.find("- one").unwrap();
    assert!(moved > heading);
    assert!(output.find("- two").unwrap() < heading);
}

#[test]
fn archive_line_counts_only_nonblank_lines() {
    assert_eq!(archive_line("a\n\n \t\nb\nc\n", 1), "a\n\n \t\nc\n\n## Archived\nb\n");
}

#[test]
fn archive_line_out_of_range_returns_text_unchanged() {
    assert_eq!(archive_line("a\r\nb", 2), "a\r\nb");
    assert_eq!(archive_line("", 0), "");
    assert_eq!(archive_line("\n\n", 0), "\n\n");
    assert_eq!(archive_line("a\n## Archived\nb\n", 1), "a\n## Archived\nb\n");
}

#[test]
fn archive_line_of_last_active_line_starts_with_heading() {
    assert_eq!(archive_line("a\n", 0), "## Archived\na\n");
}

#[test]
fn archive_line_normalizes_line_endings() {
    assert_eq!(archive_line("a\r\nb", 0), "b\n\n## Archived\na\n");
}

#[test]
fn split_archived_parts_at_first_heading() {
    let (active, archived) = split_archived("- one\n- two\n\n## Archived\n- old\n");
    assert_eq!(active, owned(&["- one", "- two", ""]));
    assert_eq!(archived, owned(&["- old"]));
}

#[test]
fn split_archived_without_heading_has_no_archived_lines() {
    let (active, archived) = split_archived("a\n\nb");
    assert_eq!(active, owned(&["a", "", "b"]));
    assert!(archived.is_empty());
}

#[test]
fn split_archived_of_empty_text_is_empty() {
    let (active, archived) = split_archived("");
    assert!(active.is_empty());
    assert!(archived.is_empty());
}

#[test]
fn split_archived_drops_further_headings() {
    let (active, archived) = split_archived("a\n## Archived\nb\n## Archived\n\nc\n");
    assert_eq!(active, owned(&["a"]));
    assert_eq!(archived, owned(&["b", "", "c"]));
}

#[test]
fn split_archived_heading_may_have_trailing_whitespace_only() {
    let (active, archived) = split_archived("a\n## Archived \t\nb\n");
    assert_eq!(active, owned(&["a"]));
    assert_eq!(archived, owned(&["b"]));
    let (active, archived) = split_archived("a\n ## Archived\nb\n");
    assert_eq!(active, owned(&["a", " ## Archived", "b"]));
    assert!(archived.is_empty());
    let (active, _) = split_archived("## Archived!\n## archived\n");
    assert_eq!(active, owned(&["## Archived!", "## archived"]));
}

#[test]
fn split_archived_reads_lines_as_std_does() {
    for text in ["a\r\nb\n", "a\r", "a\r\r\nb", "\n", "\r\n", "a\n\n", "a\rb\nc", "\u{2028}x\n"] {
        let (active, archived) = split_archived(text);
        let expected: Vec<String> = text.lines().map(|line| line.to_string()).collect();
        assert_eq!(active, expected);
        assert!(archived.is_empty());
    }
}

#[test]
fn count_items_counts_nonblank_active_lines() {
    assert_eq!(count_items(""), 0);
    assert_eq!(count_items("\n \n\t\n"), 0);
    assert_eq!(count_items("a"), 1);
    assert_eq!(count_items("a\n\u{a0}\u{3000}\nb\n"), 2);
    assert_eq!(count_items("## Archived\na\nb\n"), 0);
    assert_eq!(count_items("\u{200b}\n"), 1);
}

#[test]
fn archive_line_matching_rejects_text_mismatch() {
    let result = archive_line_matching("- one\n", 0, "- nope");
    assert_eq!(result, Err(ArchiveError::TextMismatch));
}

#[test]
fn archive_line_matching_rejects_index_out_of_range() {
    assert_eq!(archive_line_matching("- one\n", 1, "- one"), Err(ArchiveError::LineNotFound));
    assert_eq!(archive_line_matching("", 0, ""), Err(ArchiveError::LineNotFound));
    assert_eq!(
        archive_line_matching("a\n## Archived\nb\n", 1, "b"),
        Err(ArchiveError::LineNotFound)
    );
}

#[test]
fn archive_line_matching_rejects_blank_line() {
    assert_eq!(archive_line_matching("a\n\nb\n", 1, ""), Err(ArchiveError::LineNotFound));
    assert_eq!(archive_line_matching("a\n \nb\n", 1, " "), Err(ArchiveError::LineNotFound));
    assert_eq!(archive_line_matching("a\n \nb\n", 1, ""), Err(ArchiveError::TextMismatch));
}

#[test]
fn archive_line_matching_counts_every_line() {
    assert_eq!(
        archive_line_matching("a\n\nb\n", 2, "b"),
        Ok("a\n\n\n## Archived\nb\n".to_string())
    );
    assert_eq!(
        archive_line_matching("- one\n- two\n\n## Archived\n- old\n", 1, "- two"),
        Ok("- one\n\n\n## Archived\n- old\n- two\n".to_string())
    );
}

#[test]
fn archive_line_matching_compares_exactly() {
    assert_eq!(archive_line_matching("a \n", 0, "a"), Err(ArchiveError::TextMismatch));
    assert_eq!(archive_line_matching("a \n", 0, "a "), Ok("## Archived\na \n".to_string()));
}

#[test]
fn restore_line_matching_moves_line_to_active() {
    let contents = "- one\n\n## Archived\n- done\n";
    let text = restore_line_matching(contents, 0, "- done").unwrap();
    assert!(text.contains("- done"));
    assert!(!text.contains("## Archived\n- done\n"));
    assert_eq!(text, "- one\n\n- done\n");
}

#[test]
fn restore_line_matching_keeps_other_archived_lines() {
    assert_eq!(
        restore_line_matching("a\n## Archived\nb\nc\n", 0, "b"),
        Ok("a\nb\n\n## Archived\nc\n".to_string())
    );
    assert_eq!(
        restore_line_matching("## Archived\nb\nc\n", 1, "c"),
        Ok("c\n\n## Archived\nb\n".to_string())
    );
}

#[test]
fn restore_line_matching_reports_failures() {
    let text = "a\n## Archived\nb\n\n";
    assert_eq!(restore_line_matching(text, 0, "a"), Err(ArchiveError::TextMismatch));
    assert_eq!(restore_line_matching(text, 1, ""), Err(ArchiveError::LineNotFound));
    assert_eq!(restore_line_matching(text, 2, "b"), Err(ArchiveError::LineNotFound));
    assert_eq!(restore_line_matching("a\n", 0, "a"), Err(ArchiveError::LineNotFound));
}
