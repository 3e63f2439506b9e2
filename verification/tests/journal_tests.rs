use inbox_storage::journal::{
    checked_counts_for_root, counts_for_root, get_active_file_for_date, journal_filename,
    known_file_names, list_markdown_files, Counts, StoredFile, TRASH_FILENAME,
};
use inbox_storage::titles::{format_tray_title, format_window_title};

fn names(list: &[&str]) -> Vec<String> {
    list.iter().map(|name| name.to_string()).collect()
}

fn stored(name: &str, text: Option<&str>) -> StoredFile {
    StoredFile { name: name.to_string(), text: text.map(|t| t.to_string()) }
}

#[test]
fn journal_filename_for_today() {
    let date = "2025-12-31";
    assert_eq!(journal_filename(date), "2025-12-31.md");
}

#[test]
fn journal_filename_adds_extension_to_any_text() {
    assert_eq!(journal_filename(""), ".md");
    assert_eq!(journal_filename("a.md"), "a.md.md");
}

#[test]
fn formats_count_in_box() {
    assert_eq!(format_tray_title(7), "");
}

#[test]
fn formats_window_title_with_count() {
    assert_eq!(format_window_title(7), "Inbox — 7");
}

#[test]
fn format_window_title_writes_decimal() {
    assert_eq!(format_window_title(0), "Inbox — 0");
    assert_eq!(format_window_title(10), "Inbox — 10");
    assert_eq!(format_window_title(909), "Inbox — 909");
    assert_eq!(format_window_title(1234567890), "Inbox — 1234567890");
    assert_eq!(format_window_title(usize::MAX), format!("Inbox — {}", usize::MAX));
}

#[test]
fn list_markdown_files_keeps_sorted_daily_files() {
    let entries = names(&[
        "2025-12-31.md",
        "notes.txt",
        TRASH_FILENAME,
        "2025-01-02.md",
        ".md",
        "x.MD",
        "md",
        "a.md.bak",
        "2025-01-10.md",
        "..md",
    ]);
    assert_eq!(
        list_markdown_files(&entries),
        names(&["..md", "2025-01-02.md", "2025-01-10.md", "2025-12-31.md"])
    );
}

#[test]
fn list_markdown_files_excludes_trash_file() {
    assert_eq!(TRASH_FILENAME, "trash.md");
    assert!(list_markdown_files(&names(&["trash.md"])).is_empty());
    assert_eq!(list_markdown_files(&names(&["trash.md", "trash2.md"])), names(&["trash2.md"]));
}

#[test]
fn list_markdown_files_sorts_as_strings_do() {
    let entries = names(&[
        "b.md", "a.md", "ab.md", "a.md", "B.md", "é.md", "z.md", "\u{10000}.md", "\u{ffff}.md",
        "a-.md", "a0.md", "日.md",
    ]);
    let mut expected = entries.clone();
    expected.sort();
    assert_eq!(list_markdown_files(&entries), expected);
}

#[test]
fn counts_of_empty_root() {
    let counts = counts_for_root(&Vec::new(), "2025-12-31.md", "");
    assert_eq!(counts, Counts { current: 0, total: 0, files: 1 });
}

#[test]
fn get_active_file_creates_daily_file() {
    let result = get_active_file_for_date("2025-12-31", String::new(), &Vec::new());
    assert_eq!(result.filename, "2025-12-31.md");
    assert!(result.text.is_empty());
    assert_eq!(result.counts.current, 0);
    assert_eq!(result.counts.total, 0);
    assert_eq!(result.counts.files, 1);
}

#[test]
fn save_active_file_updates_counts() {
    let files = vec![stored("2025-12-31.md", Some("- one\n- two\n"))];
    let counts = counts_for_root(&files, "2025-12-31.md", "- one\n- two\n");
    assert_eq!(counts.current, 2);
    assert_eq!(counts.total, 2);
    assert_eq!(counts.files, 1);
}

#[test]
fn counts_use_active_text_in_place_of_stored_text() {
    let files = vec![
        stored("2025-01-01.md", Some("a\nb\nc\n")),
        stored("2025-01-02.md", Some("stale\n")),
        stored("2025-01-03.md", None),
        stored("2025-01-04.md", Some("x\n\n## Archived\ny\nz\n")),
    ];
    let counts = counts_for_root(&files, "2025-01-02.md", "p\nq\n");
    assert_eq!(counts, Counts { current: 2, total: 6, files: 4 });
    let counts = counts_for_root(&files, "2025-01-05.md", "p\nq\n");
    assert_eq!(counts, Counts { current: 2, total: 7, files: 5 });
    let counts = counts_for_root(&files, "2025-01-03.md", "");
    assert_eq!(counts, Counts { current: 0, total: 5, files: 4 });
}

#[test]
fn checked_counts_agree_with_counts() {
    let files = vec![stored("a.md", Some("1\n2\n")), stored("b.md", Some("3\n"))];
    assert_eq!(
        checked_counts_for_root(&files, "b.md", "x\ny\nz\n"),
        Some(Counts { current: 3, total: 5, files: 2 })
    );
    assert_eq!(
        checked_counts_for_root(&files, "b.md", "x\ny\nz\n"),
        Some(counts_for_root(&files, "b.md", "x\ny\nz\n"))
    );
}

#[test]
fn known_file_names_keep_a_listing_that_holds_the_active_file() {
    assert_eq!(known_file_names(&names(&["b.md", "a.md"]), "a.md"), names(&["b.md", "a.md"]));
}

#[test]
fn known_file_names_add_the_active_file_in_order() {
    assert_eq!(
        known_file_names(&names(&["b.md", "a.md", "d.md"]), "c.md"),
        names(&["a.md", "b.md", "c.md", "d.md"])
    );
    assert_eq!(known_file_names(&Vec::new(), "2025-12-31.md"), names(&["2025-12-31.md"]));
}

#[test]
fn counts_tell_the_number_of_known_file_names() {
    let files = vec![stored("a.md", None), stored("b.md", None)];
    let listed = names(&["a.md", "b.md"]);
    for active in ["a.md", "c.md"] {
        let counts = counts_for_root(&files, active, "");
        assert_eq!(counts.files, known_file_names(&listed, active).len());
    }
}
