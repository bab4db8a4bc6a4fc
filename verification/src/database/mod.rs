//! The catalog: its records, the repository interface and an in-memory
//! repository.

pub mod model;
pub mod operations;
pub mod schema;

use crate::error::{LscmdError, Result};
use crate::text::byte_len;
use vstd::prelude::*;
use vstd::string::StringExecFns;

verus! {

/// The longest name, in bytes, that a record may carry.
pub const MAX_NAME_LEN: usize = 256;

/// One alias or function of the catalog.
#[derive(Debug, PartialEq)]
pub struct Command {
    /// The name of the alias or function: the key of the catalog.
    pub name: String,
    /// The kind: `alias` or `function`.
    pub cmd_type: String,
    /// The path of the file that defines the command.
    pub path: String,
    /// The text of the definition.
    pub code: String,
    /// The modification time of the source file when it was read.
    pub file_mtime: i64,
    /// When the name first entered the catalog, if known.
    pub created_at: Option<i64>,
}

/// What a [`Command`] holds, as mathematical values.
pub struct Record {
    pub name: Seq<char>,
    pub cmd_type: Seq<char>,
    pub path: Seq<char>,
    pub code: Seq<char>,
    pub file_mtime: i64,
    pub created_at: Option<i64>,
}

impl View for Command {
    type V = Record;

    open spec fn view(&self) -> Record {
        Record {
            name: self.name@,
            cmd_type: self.cmd_type@,
            path: self.path@,
            code: self.code@,
            file_mtime: self.file_mtime,
            created_at: self.created_at,
        }
    }
}

impl Clone for Command {
    fn clone(&self) -> (r: Self)
        ensures
            r == *self,
    {
        Command {
            name: self.name.clone(),
            cmd_type: self.cmd_type.clone(),
            path: self.path.clone(),
            code: self.code.clone(),
            file_mtime: self.file_mtime,
            created_at: self.created_at,
        }
    }
}

/// The records of a sequence of commands.
pub open spec fn records(commands: Seq<Command>) -> Seq<Record> {
    commands.map_values(|c: Command| c@)
}

impl Record {
    /// Whether the name is neither empty nor longer than [`MAX_NAME_LEN`] bytes.
    pub open spec fn name_ok(self) -> bool {
        self.name.len() > 0 && byte_len(self.name) <= MAX_NAME_LEN
    }

    /// Whether the kind is one of the two that the catalog knows.
    pub open spec fn kind_ok(self) -> bool {
        self.cmd_type == "alias"@ || self.cmd_type == "function"@
    }

    /// Whether every field is acceptable.
    pub open spec fn is_valid(self) -> bool {
        self.name_ok() && self.kind_ok() && self.path.len() > 0 && self.code.len() > 0
    }

    /// What is wrong with the first unacceptable field, in the order name,
    /// kind, path, code.
    pub open spec fn complaint(self) -> Seq<char> {
        if !self.name_ok() {
            "Invalid command name length for: "@ + self.name
        } else if !self.kind_ok() {
            "Invalid command type: "@ + self.cmd_type
        } else if self.path.len() == 0 {
            "Command path cannot be empty"@
        } else {
            "Command code cannot be empty"@
        }
    }
}

impl Command {
    /// Checks the fields: the name is not empty and at most
    /// [`MAX_NAME_LEN`] bytes long, the kind is `alias` or `function`, and
    /// neither the path nor the code is empty.
    pub fn validate(&self) -> (r: Result<()>)
        ensures
            r is Ok <==> self@.is_valid(),
            r matches Err(e) ==> e matches LscmdError::Validation(m) && m@ == self@.complaint(),
    {
        if self.name.as_str().is_empty() || self.name.as_str().as_bytes().len() > MAX_NAME_LEN {
            return Err(
                LscmdError::Validation(
                    String::from_str("Invalid command name length for: ").concat(
                        self.name.as_str(),
                    ),
                ),
            );
        }
        let alias = String::from_str("alias");
        let function = String::from_str("function");
        if self.cmd_type != alias && self.cmd_type != function {
            return Err(
                LscmdError::Validation(
                    String::from_str("Invalid command type: ").concat(self.cmd_type.as_str()),
                ),
            );
        }
        if self.path.as_str().is_empty() {
            return Err(LscmdError::Validation(String::from_str("Command path cannot be empty")));
        }
        if self.code.as_str().is_empty() {
            return Err(LscmdError::Validation(String::from_str("Command code cannot be empty")));
        }
        Ok(())
    }
}

} // verus!
