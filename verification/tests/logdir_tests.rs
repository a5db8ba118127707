use fflogs_manager::BackupOutcome;
use fflogs_manager::ListItem;
use fflogs_manager::LogDir;
use fflogs_manager::ViewOutcome;

fn bytes(s: &str) -> Vec<u8> {
    s.as_bytes().to_vec()
}

#[test]
fn backup_moves_the_file_into_bak() {
    let mut dir = LogDir::new();
    assert!(dir.add_file("test.log", bytes("test content")));

    let outcome = dir.backup_file("test.log");

    assert_eq!(outcome, BackupOutcome::Moved);
    assert!(!dir.contains_file("test.log"));
    assert!(dir.has_dir("bak"));
    assert_eq!(dir.get_bak("test.log"), Some(bytes("test content")));
}

#[test]
fn backup_preserves_content() {
    let mut dir = LogDir::new();
    let content = bytes("test content\nline 2\nline 3");
    assert!(dir.add_file("test.log", content.clone()));

    assert_eq!(dir.backup_file("test.log"), BackupOutcome::Moved);

    assert_eq!(dir.get_bak("test.log"), Some(content));
}

#[test]
fn backup_uses_an_existing_bak_dir() {
    let mut dir = LogDir::new();
    assert!(dir.add_subdir("bak"));
    assert!(dir.add_file("test.log", bytes("test content")));

    assert_eq!(dir.backup_file("test.log"), BackupOutcome::Moved);

    assert!(!dir.contains_file("test.log"));
    assert_eq!(dir.get_bak("test.log"), Some(bytes("test content")));
}

#[test]
fn second_backup_replaces_the_first() {
    let mut dir = LogDir::new();
    assert!(dir.add_file("test.log", bytes("first version")));
    assert_eq!(dir.backup_file("test.log"), BackupOutcome::Moved);
    assert!(dir.add_file("test.log", bytes("second version")));

    assert_eq!(dir.backup_file("test.log"), BackupOutcome::Moved);

    assert!(!dir.contains_file("test.log"));
    assert_eq!(dir.get_bak("test.log"), Some(bytes("second version")));
}

#[test]
fn backup_leaves_other_files_alone() {
    let mut dir = LogDir::new();
    assert!(dir.add_file("a.log", bytes("a")));
    assert!(dir.add_file("b.log", bytes("b")));

    assert_eq!(dir.backup_file("a.log"), BackupOutcome::Moved);

    assert_eq!(dir.get_file("b.log"), Some(bytes("b")));
    assert_eq!(dir.get_bak("b.log"), None);
}

#[test]
fn backup_of_a_missing_file_fails() {
    let mut dir = LogDir::new();
    assert_eq!(dir.backup_file("missing.log"), BackupOutcome::NoSuchFile);
    assert!(!dir.has_dir("bak"));
}

#[test]
fn backup_fails_when_bak_is_a_file() {
    let mut dir = LogDir::new();
    assert!(dir.add_file("bak", bytes("not a directory")));
    assert!(dir.add_file("x.log", bytes("x")));

    assert_eq!(dir.backup_file("x.log"), BackupOutcome::BakObstructed);

    assert!(dir.contains_file("x.log"));
    assert_eq!(dir.get_file("bak"), Some(bytes("not a directory")));
}

#[test]
fn delete_removes_the_file() {
    let mut dir = LogDir::new();
    assert!(dir.add_file("test.log", bytes("test content")));
    assert!(dir.contains_file("test.log"));

    assert!(dir.delete_file("test.log"));

    assert!(!dir.contains_file("test.log"));
}

#[test]
fn delete_of_an_empty_file() {
    let mut dir = LogDir::new();
    assert!(dir.add_file("empty.log", Vec::new()));

    assert!(dir.delete_file("empty.log"));

    assert!(!dir.contains_file("empty.log"));
}

#[test]
fn delete_of_a_missing_file_reports_failure() {
    let mut dir = LogDir::new();
    assert!(!dir.delete_file("nonexistent.log"));
    assert!(!dir.contains_file("nonexistent.log"));
}

#[test]
fn delete_does_not_touch_subdirectories() {
    let mut dir = LogDir::new();
    assert!(dir.add_subdir("subdir"));

    assert!(!dir.delete_file("subdir"));

    assert!(dir.has_dir("subdir"));
}

#[test]
fn listing_names_files_and_skips_directories() {
    let mut dir = LogDir::new();
    assert!(dir.add_file("a.log", bytes("a")));
    assert!(dir.add_subdir("subdir"));
    assert!(dir.add_file("b.log", bytes("b")));

    let items = dir.list_items();

    assert_eq!(
        items,
        vec![
            ListItem::FileLine(String::from("- a.log")),
            ListItem::SkipNotice(String::from("subdir")),
            ListItem::FileLine(String::from("- b.log")),
        ]
    );
}

#[test]
fn listing_counts_match_the_entries() {
    let mut dir = LogDir::new();
    assert!(dir.add_file("a.log", bytes("a")));
    assert!(dir.add_file("b.log", bytes("b")));
    assert!(dir.add_file("c.log", bytes("c")));
    assert!(dir.add_subdir("one"));
    assert!(dir.add_subdir("two"));

    let items = dir.list_items();
    let file_lines = items.iter().filter(|i| matches!(i, ListItem::FileLine(_))).count();
    let skip_notices = items.iter().filter(|i| matches!(i, ListItem::SkipNotice(_))).count();

    assert_eq!(items.len(), 5);
    assert_eq!(file_lines, 3);
    assert_eq!(skip_notices, 2);
}

#[test]
fn view_of_an_empty_directory_finds_no_files() {
    let dir = LogDir::new();
    assert_eq!(dir.view_outcome("1"), ViewOutcome::NoFiles);
}

#[test]
fn view_of_a_directory_of_subdirectories_finds_no_files() {
    let mut dir = LogDir::new();
    assert!(dir.add_subdir("subdir"));
    assert_eq!(dir.view_outcome("1"), ViewOutcome::NoFiles);
}

#[test]
fn view_rejects_bad_selections() {
    let mut dir = LogDir::new();
    assert!(dir.add_file("a.log", bytes("a")));
    assert!(dir.add_file("b.log", bytes("b")));

    assert_eq!(dir.view_outcome("0"), ViewOutcome::OutOfRange);
    assert_eq!(dir.view_outcome("3"), ViewOutcome::OutOfRange);
    assert_eq!(dir.view_outcome("not a number"), ViewOutcome::InvalidInput);
}

#[test]
fn view_shows_the_selected_file() {
    let mut dir = LogDir::new();
    assert!(dir.add_file("a.log", bytes("Log file 1 content")));
    assert!(dir.add_file("b.log", bytes("Log file 2 content")));

    assert_eq!(
        dir.view_outcome("2"),
        ViewOutcome::Show { name: String::from("b.log"), content: bytes("Log file 2 content") }
    );
    assert_eq!(
        dir.view_outcome("2\n"),
        ViewOutcome::Show { name: String::from("b.log"), content: bytes("Log file 2 content") }
    );
}

#[test]
fn view_skips_subdirectories_in_its_numbering() {
    let mut dir = LogDir::new();
    assert!(dir.add_subdir("subdir"));
    assert!(dir.add_file("test.log", bytes("Log file content")));

    assert_eq!(dir.file_count(), 1);
    assert_eq!(
        dir.view_outcome("1"),
        ViewOutcome::Show { name: String::from("test.log"), content: bytes("Log file content") }
    );
}

#[test]
fn file_names_come_in_entry_order() {
    let mut dir = LogDir::new();
    assert!(dir.add_file("a.log", bytes("a")));
    assert!(dir.add_subdir("subdir"));
    assert!(dir.add_file("b.log", bytes("b")));

    assert_eq!(dir.file_names(), vec![String::from("a.log"), String::from("b.log")]);
    assert_eq!(dir.file_count(), 2);
}

#[test]
fn names_with_spaces_and_unicode() {
    let mut dir = LogDir::new();
    assert!(dir.add_file("test file with spaces.log", bytes("Content with spaces")));
    assert!(dir.add_file("測試檔案.log", bytes("Unicode content")));

    assert_eq!(
        dir.list_items(),
        vec![
            ListItem::FileLine(String::from("- test file with spaces.log")),
            ListItem::FileLine(String::from("- 測試檔案.log")),
        ]
    );

    assert_eq!(dir.backup_file("測試檔案.log"), BackupOutcome::Moved);
    assert_eq!(dir.get_bak("測試檔案.log"), Some(bytes("Unicode content")));
    assert_eq!(dir.get_file("test file with spaces.log"), Some(bytes("Content with spaces")));
}

#[test]
fn adding_a_duplicate_name_fails() {
    let mut dir = LogDir::new();
    assert!(dir.add_file("a.log", bytes("first")));
    assert!(!dir.add_file("a.log", bytes("second")));
    assert_eq!(dir.get_file("a.log"), Some(bytes("first")));
    assert!(!dir.add_subdir("a.log"));
}

fn two_file_dir() -> LogDir {
    let mut dir = LogDir::new();
    assert!(dir.add_file("a.log", bytes("alpha")));
    assert!(dir.add_file("b.log", bytes("beta")));
    dir
}

#[test]
fn batch_scenario_list() {
    let dir = two_file_dir();
    assert_eq!(
        dir.list_items(),
        vec![
            ListItem::FileLine(String::from("- a.log")),
            ListItem::FileLine(String::from("- b.log")),
        ]
    );
}

#[test]
fn batch_scenario_backup() {
    let mut dir = two_file_dir();
    assert_eq!(dir.backup_file("a.log"), BackupOutcome::Moved);
    assert_eq!(dir.backup_file("b.log"), BackupOutcome::Moved);
    assert!(!dir.contains_file("a.log"));
    assert!(!dir.contains_file("b.log"));
    assert_eq!(dir.get_bak("a.log"), Some(bytes("alpha")));
    assert_eq!(dir.get_bak("b.log"), Some(bytes("beta")));
}

#[test]
fn batch_scenario_delete() {
    let mut dir = two_file_dir();
    assert!(dir.delete_file("a.log"));
    assert!(dir.delete_file("b.log"));
    assert_eq!(dir.file_count(), 0);
}

#[test]
fn batch_scenario_view() {
    let dir = two_file_dir();
    assert_eq!(
        dir.view_outcome("2"),
        ViewOutcome::Show { name: String::from("b.log"), content: bytes("beta") }
    );
}
