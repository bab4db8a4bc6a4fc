//! The error type shared by every component.

use vstd::prelude::*;
use vstd::string::StringExecFns;

verus! {

/// What can go wrong in the catalog, its synchronisation and its queries.
#[derive(Debug)]
pub enum LscmdError {
    /// The persisted store could not be read or written.
    Database(String),
    /// A source file could not be read.
    Io(String),
    /// A source file held something that could not be made sense of.
    Parse { file: String, line: usize, message: String },
    /// The configuration file could not be understood.
    Config(String),
    /// No base directory could be worked out for data or configuration.
    XdgError(String),
    /// A regular-expression query was not accepted as a pattern.
    SearchPattern(String),
    /// The stored catalog contradicts itself.
    DataIntegrity(String),
    /// A field of a command, a path, a name or a query is malformed.
    Validation(String),
    /// The root directory to scan, named here, does not exist.
    NotFound(String),
    /// The root directory, named here, holds no shell source file.
    Empty(String),
}

pub type Result<T> = std::result::Result<T, LscmdError>;

/// The decimal digits of `n`, most significant first.
pub open spec fn decimal(n: nat) -> Seq<char>
    decreases n,
{
    if n < 10 {
        seq![digit(n)]
    } else {
        decimal(n / 10).push(digit(n % 10))
    }
}

/// The character for a single decimal digit.
pub open spec fn digit(d: nat) -> char
    recommends
        d < 10,
{
    (('0' as u32) + (d as u32)) as char
}

fn digit_char(d: u8) -> (c: char)
    requires
        d < 10,
    ensures
        c == digit(d as nat),
{
    match d {
        0 => '0',
        1 => '1',
        2 => '2',
        3 => '3',
        4 => '4',
        5 => '5',
        6 => '6',
        7 => '7',
        8 => '8',
        _ => '9',
    }
}

/// The decimal digits of `n`.
pub fn decimal_text(n: usize) -> (s: String)
    ensures
        s@ == decimal(n as nat),
    decreases n,
{
    if n < 10 {
        let mut s = String::new();
        s.push(digit_char(n as u8));
        assert(s@ =~= seq![digit(n as nat)]);
        s
    } else {
        let mut s = decimal_text(n / 10);
        s.push(digit_char((n % 10) as u8));
        s
    }
}

impl LscmdError {
    /// The error as a line of text for the user.
    pub open spec fn text(self) -> Seq<char> {
        match self {
            LscmdError::Database(detail) => "Database error: "@ + detail@,
            LscmdError::Io(detail) => "IO error: "@ + detail@,
            LscmdError::Parse { file, line, message } => "Parse error in "@ + file@ + ":"@
                + decimal(line as nat) + " - "@ + message@,
            LscmdError::Config(detail) => "Config error: "@ + detail@,
            LscmdError::XdgError(detail) => "XDG directory error: "@ + detail@,
            LscmdError::SearchPattern(detail) => "Search pattern error: "@ + detail@,
            LscmdError::DataIntegrity(detail) => "Data integrity error: "@ + detail@,
            LscmdError::Validation(detail) => "Validation error: "@ + detail@,
            LscmdError::NotFound(root) => "目錄 '"@ + root@ + "' 不存在。"@,
            LscmdError::Empty(root) => "在 '"@ + root@ + "' 中找不到任何 .sh 檔案。"@,
        }
    }

    /// The error as a line of text for the user.
    pub fn message(&self) -> (s: String)
        ensures
            s@ == self.text(),
    {
        match self {
            LscmdError::Database(detail) => String::from_str("Database error: ").concat(
                detail.as_str(),
            ),
            LscmdError::Io(detail) => String::from_str("IO error: ").concat(detail.as_str()),
            LscmdError::Parse { file, line, message } => {
                let number = decimal_text(*line);
                String::from_str("Parse error in ").concat(file.as_str()).concat(":").concat(
                    number.as_str(),
                ).concat(" - ").concat(message.as_str())
            },
            LscmdError::Config(detail) => String::from_str("Config error: ").concat(
                detail.as_str(),
            ),
            LscmdError::XdgError(detail) => String::from_str("XDG directory error: ").concat(
                detail.as_str(),
            ),
            LscmdError::SearchPattern(detail) => String::from_str("Search pattern error: ").concat(
                detail.as_str(),
            ),
            LscmdError::DataIntegrity(detail) => String::from_str("Data integrity error: ").concat(
                detail.as_str(),
            ),
            LscmdError::Validation(detail) => String::from_str("Validation error: ").concat(
                detail.as_str(),
            ),
            LscmdError::NotFound(root) => String::from_str("目錄 '").concat(root.as_str()).concat(
                "' 不存在。",
            ),
            LscmdError::Empty(root) => String::from_str("在 '").concat(root.as_str()).concat(
                "' 中找不到任何 .sh 檔案。",
            ),
        }
    }
}

} // verus!
