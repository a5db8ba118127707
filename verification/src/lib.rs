//! A small library for managing a directory of game-combat log files.
//!
//! The executable front end enumerates a directory and applies one of four
//! operations — list, delete, backup, or interactive view — to the files it
//! finds.  Everything those operations decide or compute is here, verified:
//! argument parsing, backup-path computation, decimal formatting and parsing,
//! the view operation's selection logic, and a directory model over which the
//! effect of each operation is stated and proved.  The front end keeps only
//! the filesystem and console calls.

pub mod config;
pub mod decimal;
pub mod list;
pub mod logdir;
pub mod paths;
pub mod text;
pub mod view;

pub use config::Config;
pub use config::Operation;
pub use config::resolve_log_dir;
pub use decimal::parse_usize;
pub use decimal::usize_to_decimal;
pub use list::list_line;
pub use list::list_line_for_path;
pub use logdir::BackupOutcome;
pub use logdir::ListItem;
pub use logdir::LogDir;
pub use logdir::ViewOutcome;
pub use paths::backup_dest_of;
pub use paths::backup_dir_of;
pub use paths::file_name_of;
pub use text::str_eq;
pub use text::trim_ws;
pub use view::Selection;
pub use view::contents_header;
pub use view::invalid_selection_message;
pub use view::no_files_message;
pub use view::numbered_line;
pub use view::numbered_lines;
pub use view::select_file;
pub use view::separator_line;
