use inbox_storage::journal::StoredFile;
use inbox_storage::ledger::{
    date_of_filename, delete_item_at, delete_item_for_date, list_day_counts, today_string,
    trash_entry, update_item_for_date,
};

fn strings(items: &[&str]) -> Vec<String> {
    items.iter().map(|item| item.to_string()).collect()
}

#[test]
fn update_item_replaces_item_in_range() {
    let change = update_item_for_date("2025-12-31", "a\n\n---\n\nb\n\n---\n\nc\n", 1, "B\nB");
    assert_eq!(change.day.date, "2025-12-31");
    assert_eq!(change.day.items, strings(&["a", "B\nB", "c"]));
    assert_eq!(change.day.count, 3);
    assert_eq!(change.text, "a\n\n---\n\nB\nB\n\n---\n\nc\n");
}

#[test]
fn update_item_out_of_range_changes_no_item() {
    let change = update_item_for_date("2025-12-31", "a\n---\nb", 2, "x");
    assert_eq!(change.day.items, strings(&["a", "b"]));
    assert_eq!(change.day.count, 2);
    assert_eq!(change.text, "a\n\n---\n\nb\n");
    let change = update_item_for_date("d", "", 0, "x");
    assert!(change.day.items.is_empty());
    assert_eq!(change.day.count, 0);
    assert_eq!(change.text, "");
}

#[test]
fn delete_item_moves_record_to_trash() {
    let deletion =
        delete_item_at("2025-12-31", "a\n\n---\n\nb\n\n---\n\nc\n", 1, "", "2025-12-31 09:05");
    assert_eq!(deletion.day.date, "2025-12-31");
    assert_eq!(deletion.day.items, strings(&["a", "c"]));
    assert_eq!(deletion.day.count, 2);
    assert_eq!(deletion.text, "a\n\n---\n\nc\n");
    assert_eq!(deletion.trash, Some("[2025-12-31 09:05]\nb\n".to_string()));
}

#[test]
fn delete_item_appends_to_existing_trash() {
    let deletion = delete_item_at("d", "a\n", 0, "[t0]\nold\n", "t1");
    assert!(deletion.day.items.is_empty());
    assert_eq!(deletion.day.count, 0);
    assert_eq!(deletion.text, "");
    assert_eq!(deletion.trash, Some("[t0]\nold\n\n---\n\n[t1]\na\n".to_string()));
}

#[test]
fn delete_item_out_of_range_writes_no_trash() {
    let deletion = delete_item_at("d", "a\n---\nb\n", 2, "kept", "t");
    assert_eq!(deletion.day.items, strings(&["a", "b"]));
    assert_eq!(deletion.day.count, 2);
    assert_eq!(deletion.text, "a\n\n---\n\nb\n");
    assert_eq!(deletion.trash, None);
}

#[test]
fn delete_item_for_date_stamps_with_local_time() {
    let deletion = delete_item_for_date("d", "a\n---\nb\n", 0, "");
    assert_eq!(deletion.day.items, strings(&["b"]));
    assert_eq!(deletion.text, "b\n");
    let trash = deletion.trash.unwrap();
    let stamp = trash.strip_prefix("[").unwrap().strip_suffix("]\na\n").unwrap();
    assert_ne!(stamp, "%Y-%m-%d %H:%M");
    let parts: Vec<&str> = stamp.split(' ').collect();
    assert_eq!(parts.len(), 2);
    assert!(today_string() >= parts[0].to_string());
    assert_eq!(parts[1].len(), 5);
    assert_eq!(&parts[1][2..3], ":");
    let none = delete_item_for_date("d", "a\n", 1, "t");
    assert_eq!(none.trash, None);
    assert_eq!(none.day.items, strings(&["a"]));
}

#[test]
fn today_string_is_a_date() {
    let today = today_string();
    assert_ne!(today, "%Y-%m-%d");
    let parts: Vec<&str> = today.split('-').collect();
    assert_eq!(parts.len(), 3);
    assert!(parts[0].parse::<u32>().unwrap() >= 2024);
    let month = parts[1].parse::<u32>().unwrap();
    let day = parts[2].parse::<u32>().unwrap();
    assert!((1..=12).contains(&month));
    assert!((1..=31).contains(&day));
    assert_eq!(parts[1].len(), 2);
    assert_eq!(parts[2].len(), 2);
}

#[test]
fn trash_entry_puts_time_in_brackets() {
    assert_eq!(trash_entry("2025-12-31 23:59", "a\nb"), "[2025-12-31 23:59]\na\nb");
    assert_eq!(trash_entry("", ""), "[]\n");
}

#[test]
fn date_of_filename_strips_extension() {
    assert_eq!(date_of_filename("2025-12-31.md"), "2025-12-31");
    assert_eq!(date_of_filename(".md"), "");
    assert_eq!(date_of_filename("notes.txt"), "notes.txt");
    assert_eq!(date_of_filename("md"), "md");
    assert_eq!(date_of_filename("a.md.md"), "a.md");
}

#[test]
fn list_day_counts_counts_divided_items() {
    let files = vec![
        StoredFile { name: "2025-01-01.md".to_string(), text: Some("a\n\n---\n\nb\n".to_string()) },
        StoredFile { name: "2025-01-02.md".to_string(), text: None },
        StoredFile { name: "2025-01-03.md".to_string(), text: Some("- one\n- two\n".to_string()) },
        StoredFile { name: "2025-01-04.md".to_string(), text: Some(String::new()) },
    ];
    let days = list_day_counts(&files);
    let got: Vec<(String, usize)> = days.iter().map(|d| (d.date.clone(), d.count)).collect();
    assert_eq!(
        got,
        vec![
            ("2025-01-01".to_string(), 2),
            ("2025-01-02".to_string(), 0),
            ("2025-01-03".to_string(), 1),
            ("2025-01-04".to_string(), 0),
        ]
    );
    assert!(list_day_counts(&Vec::new()).is_empty());
}

fn number_at(text: &[char], at: usize, low: u32, high: u32) -> bool {
    match (text[at].to_digit(10), text[at + 1].to_digit(10)) {
        (Some(tens), Some(ones)) => (low..=high).contains(&(tens * 10 + ones)),
        _ => false,
    }
}

fn writes_year(text: &[char]) -> bool {
    let digits = |part: &[char]| part.iter().all(|c| c.is_ascii_digit());
    (text.len() == 4 && digits(text))
        || (text.len() >= 5 && (text[0] == '+' || text[0] == '-') && digits(&text[1..]))
}

fn writes_day(text: &[char]) -> bool {
    let n = text.len();
    n >= 10
        && writes_year(&text[..n - 6])
        && text[n - 6] == '-'
        && number_at(text, n - 5, 1, 12)
        && text[n - 3] == '-'
        && number_at(text, n - 2, 1, 31)
}

#[test]
fn today_string_writes_year_month_and_day() {
    let today: Vec<char> = today_string().chars().collect();
    assert!(writes_day(&today), "{:?}", today);
}

#[test]
fn delete_item_for_date_writes_day_hour_and_minute() {
    let deletion = delete_item_for_date("d", "a\n", 0, "");
    let trash = deletion.trash.unwrap();
    let stamp: Vec<char> =
        trash.strip_prefix("[").unwrap().strip_suffix("]\na\n").unwrap().chars().collect();
    let n = stamp.len();
    assert!(n >= 16);
    assert!(writes_day(&stamp[..n - 6]), "{:?}", stamp);
    assert_eq!(stamp[n - 6], ' ');
    assert!(number_at(&stamp, n - 5, 0, 23));
    assert_eq!(stamp[n - 3], ':');
    assert!(number_at(&stamp, n - 2, 0, 59));
}
