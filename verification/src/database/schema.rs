//! The layout of the persisted catalog, and the statements that read and
//! write it.
//!
//! A store that keeps the catalog in a SQL database runs these statements.
//! Rows come out in the order in which their names first went in: a name
//! that is written again keeps its row, and with it its place and its time
//! of creation.

use vstd::prelude::*;

verus! {

/// The statements that create the table of commands and its indexes.
pub open spec fn schema_text() -> Seq<char> {
    "
-- Create the main table for storing shell commands.
-- The `name` is the PRIMARY KEY to ensure uniqueness.
CREATE TABLE IF NOT EXISTS commands (
    name TEXT PRIMARY KEY NOT NULL,
    cmd_type TEXT NOT NULL,      -- 'alias' or 'function'
    path TEXT NOT NULL,          -- Absolute path to the source file
    code TEXT NOT NULL,          -- The actual command or function body
    file_mtime INTEGER NOT NULL, -- Last modification time of the source file
    created_at INTEGER           -- When the name first entered the catalog, if known
);

-- Create an index on the command type for faster filtering.
CREATE INDEX IF NOT EXISTS idx_type ON commands(cmd_type);

-- Create an index on the file path to efficiently find all commands from a specific file.
CREATE INDEX IF NOT EXISTS idx_path ON commands(path);

-- Create an index on the lowercased command name to ensure fast, case-insensitive searches.
-- This is a key performance optimization for the search functionality.
CREATE INDEX IF NOT EXISTS idx_name_lower ON commands(LOWER(name));
    "@
}

/// The SQL that creates the table of commands, keyed by name, with an index
/// on the kind, one on the path and one on the case-folded name. Every
/// statement is guarded by `IF NOT EXISTS`, so running it twice is harmless.
pub fn get_schema() -> (sql: &'static str)
    ensures
        sql@ == schema_text(),
{
    "
-- Create the main table for storing shell commands.
-- The `name` is the PRIMARY KEY to ensure uniqueness.
CREATE TABLE IF NOT EXISTS commands (
    name TEXT PRIMARY KEY NOT NULL,
    cmd_type TEXT NOT NULL,      -- 'alias' or 'function'
    path TEXT NOT NULL,          -- Absolute path to the source file
    code TEXT NOT NULL,          -- The actual command or function body
    file_mtime INTEGER NOT NULL, -- Last modification time of the source file
    created_at INTEGER           -- When the name first entered the catalog, if known
);

-- Create an index on the command type for faster filtering.
CREATE INDEX IF NOT EXISTS idx_type ON commands(cmd_type);

-- Create an index on the file path to efficiently find all commands from a specific file.
CREATE INDEX IF NOT EXISTS idx_path ON commands(path);

-- Create an index on the lowercased command name to ensure fast, case-insensitive searches.
-- This is a key performance optimization for the search functionality.
CREATE INDEX IF NOT EXISTS idx_name_lower ON commands(LOWER(name));
    "
}

/// The statement that writes one command. Its six parameters are the name,
/// the kind, the path, the code, the modification time and the time of
/// creation. A name that is new gets a row with all six; a name that is
/// there keeps its row and its time of creation, and takes the other four.
pub fn write_statement() -> (sql: &'static str)
    ensures
        sql@ == "INSERT INTO commands (name, cmd_type, path, code, file_mtime, created_at) VALUES (?1, ?2, ?3, ?4, ?5, ?6) ON CONFLICT(name) DO UPDATE SET cmd_type = excluded.cmd_type, path = excluded.path, code = excluded.code, file_mtime = excluded.file_mtime"@,
{
    "INSERT INTO commands (name, cmd_type, path, code, file_mtime, created_at) VALUES (?1, ?2, ?3, ?4, ?5, ?6) ON CONFLICT(name) DO UPDATE SET cmd_type = excluded.cmd_type, path = excluded.path, code = excluded.code, file_mtime = excluded.file_mtime"
}

/// The statement that reads every command, in the order of the catalog.
pub fn read_all_statement() -> (sql: &'static str)
    ensures
        sql@ == "SELECT name, cmd_type, path, code, file_mtime, created_at FROM commands ORDER BY rowid"@,
{
    "SELECT name, cmd_type, path, code, file_mtime, created_at FROM commands ORDER BY rowid"
}

/// The statement that reads the first command whose name is its one
/// parameter, the case of ASCII letters set aside.
pub fn lookup_statement() -> (sql: &'static str)
    ensures
        sql@ == "SELECT name, cmd_type, path, code, file_mtime, created_at FROM commands WHERE LOWER(name) = LOWER(?1) ORDER BY rowid LIMIT 1"@,
{
    "SELECT name, cmd_type, path, code, file_mtime, created_at FROM commands WHERE LOWER(name) = LOWER(?1) ORDER BY rowid LIMIT 1"
}

/// The statement that removes the commands of the path that is its one
/// parameter.
pub fn delete_by_path_statement() -> (sql: &'static str)
    ensures
        sql@ == "DELETE FROM commands WHERE path = ?1"@,
{
    "DELETE FROM commands WHERE path = ?1"
}

/// The statement that removes every command.
pub fn clear_statement() -> (sql: &'static str)
    ensures
        sql@ == "DELETE FROM commands"@,
{
    "DELETE FROM commands"
}

/// The statement that reads the latest modification time stored for the
/// path that is its one parameter, or null where nothing is stored for it.
pub fn latest_mtime_statement() -> (sql: &'static str)
    ensures
        sql@ == "SELECT MAX(file_mtime) FROM commands WHERE path = ?1"@,
{
    "SELECT MAX(file_mtime) FROM commands WHERE path = ?1"
}

} // verus!
