use fflogs_manager::Selection;
use fflogs_manager::contents_header;
use fflogs_manager::invalid_selection_message;
use fflogs_manager::no_files_message;
use fflogs_manager::numbered_line;
use fflogs_manager::numbered_lines;
use fflogs_manager::select_file;
use fflogs_manager::separator_line;
use fflogs_manager::str_eq;
use fflogs_manager::trim_ws;

#[test]
fn selection_accepts_in_range_numbers() {
    assert_eq!(select_file("1", 3), Selection::Chosen { index: 0 });
    assert_eq!(select_file("3", 3), Selection::Chosen { index: 2 });
    assert_eq!(select_file("2\n", 3), Selection::Chosen { index: 1 });
    assert_eq!(select_file("  2  ", 3), Selection::Chosen { index: 1 });
    assert_eq!(select_file("+2", 3), Selection::Chosen { index: 1 });
}

#[test]
fn selection_rejects_zero() {
    assert_eq!(select_file("0", 3), Selection::OutOfRange);
    assert_eq!(select_file("+0", 3), Selection::OutOfRange);
    assert_eq!(select_file(" 0 ", 3), Selection::OutOfRange);
}

#[test]
fn selection_rejects_numbers_past_the_count() {
    assert_eq!(select_file("4", 3), Selection::OutOfRange);
    assert_eq!(select_file("100", 3), Selection::OutOfRange);
}

#[test]
fn selection_rejects_non_numerals() {
    assert_eq!(select_file("abc", 3), Selection::InvalidInput);
    assert_eq!(select_file("", 3), Selection::InvalidInput);
    assert_eq!(select_file("1x", 3), Selection::InvalidInput);
    assert_eq!(select_file("-1", 3), Selection::InvalidInput);
}

#[test]
fn numbered_lines_are_one_based() {
    assert_eq!(numbered_line(1, "a.log"), "1. a.log");
    assert_eq!(numbered_line(12, "b.log"), "12. b.log");
    let names = vec![String::from("a.log"), String::from("b.log")];
    let lines = numbered_lines(&names);
    assert_eq!(lines, vec![String::from("1. a.log"), String::from("2. b.log")]);
}

#[test]
fn separator_is_fifty_equals_signs() {
    let sep = separator_line();
    assert_eq!(sep, "=".repeat(50));
    assert_eq!(sep.len(), 50);
}

#[test]
fn message_lines() {
    assert_eq!(contents_header("a.log"), "\nContents of a.log:");
    assert_eq!(
        invalid_selection_message(7),
        "Invalid selection. Please choose a number between 1 and 7."
    );
    assert_eq!(
        no_files_message("/tmp/logs"),
        "No log files found in directory: /tmp/logs"
    );
}

#[test]
fn trim_removes_ascii_whitespace() {
    assert_eq!(trim_ws("  2 \r\n"), "2");
    assert_eq!(trim_ws("abc"), "abc");
    assert_eq!(trim_ws(" \t "), "");
    assert_eq!(trim_ws(""), "");
}

#[test]
fn str_eq_compares_by_characters() {
    assert!(str_eq("abc", "abc"));
    assert!(!str_eq("abc", "abd"));
    assert!(!str_eq("abc", "ab"));
    assert!(str_eq("", ""));
}
