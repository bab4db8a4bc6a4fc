//! A catalog of the aliases and functions defined in a tree of shell scripts.
//!
//! The [`parser`] finds the definitions in the text of a file. The catalog
//! ([`database`]) keeps one record per name, behind a repository interface
//! with an implementation in memory. The synchronisation engine ([`sync`])
//! brings a catalog in line with the files that the [`scanner`] found,
//! reading only the files that changed. The [`search`] engine queries a
//! snapshot of the catalog by words or by a regular expression.
//!
//! Every function is verified against a contract over mathematical values:
//! a text is a sequence of characters, a catalog a sequence of records. The
//! laws that tie the functions together are stated and proved as `law_`
//! functions beside them. What is taken on trust is little and is marked as
//! such: two functions of the standard library in [`text`], and the `regex`
//! crate in [`pattern`].
//!
//! Nothing here reads a file, a directory, the environment or the clock:
//! the caller does, and hands in what it found.

pub mod command;
pub mod config;
pub mod database;
pub mod error;
pub mod layout;
pub mod listing;
pub mod parser;
pub mod pattern;
pub mod scanner;
pub mod search;
pub mod security;
pub mod sorting;
pub mod sync;
pub mod text;

pub use command::{Command, CommandType};
pub use listing::{list_commands, FileCommands};
pub use scanner::scan_directory;
