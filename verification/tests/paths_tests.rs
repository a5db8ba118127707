use fflogs_manager::backup_dest_of;
use fflogs_manager::backup_dir_of;
use fflogs_manager::file_name_of;
use fflogs_manager::list_line;
use fflogs_manager::list_line_for_path;

#[test]
fn file_name_of_plain_paths() {
    assert_eq!(file_name_of("dir/a.log"), Some(String::from("a.log")));
    assert_eq!(file_name_of("/var/logs/combat.txt"), Some(String::from("combat.txt")));
    assert_eq!(file_name_of("a.log"), Some(String::from("a.log")));
}

#[test]
fn file_name_of_backslash_paths() {
    assert_eq!(file_name_of("C:\\logs\\fight.log"), Some(String::from("fight.log")));
}

#[test]
fn file_name_of_missing_component() {
    assert_eq!(file_name_of(""), None);
    assert_eq!(file_name_of("/"), None);
    assert_eq!(file_name_of("dir/"), None);
    assert_eq!(file_name_of("C:\\logs\\"), None);
}

#[test]
fn backup_paths_beside_the_file() {
    assert_eq!(backup_dir_of("dir/a.log"), "dir/bak");
    assert_eq!(backup_dest_of("dir/a.log"), Some(String::from("dir/bak/a.log")));
    assert_eq!(backup_dir_of("/logs/b.log"), "/logs/bak");
    assert_eq!(backup_dest_of("/logs/b.log"), Some(String::from("/logs/bak/b.log")));
}

#[test]
fn backup_paths_without_parent() {
    assert_eq!(backup_dir_of("a.log"), "bak");
    assert_eq!(backup_dest_of("a.log"), Some(String::from("bak/a.log")));
}

#[test]
fn backup_dest_needs_a_file_name() {
    assert_eq!(backup_dest_of("dir/"), None);
    assert_eq!(backup_dest_of(""), None);
}

#[test]
fn list_lines_name_the_file() {
    assert_eq!(list_line("a.log"), "- a.log");
    assert_eq!(list_line_for_path("dir/a.log"), Some(String::from("- a.log")));
    assert_eq!(list_line_for_path("dir/"), None);
}

#[test]
fn list_line_with_special_characters() {
    assert_eq!(list_line("test file with spaces.log"), "- test file with spaces.log");
}
