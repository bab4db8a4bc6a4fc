//! Checks on what comes from outside, and the reading of quoted values.

use crate::error::{LscmdError, Result};
use crate::text::{chars_of, find_first, first_in, is_control, lemma_first_in, text_of, CharClass};
use crate::text::{byte_len, char_is_control};
use vstd::prelude::*;
use vstd::string::StringExecFns;

verus! {

/// The longest command name, in bytes, that is accepted.
pub const MAX_COMMAND_NAME_LEN: usize = 256;

/// The longest search query, in bytes, that is accepted.
pub const MAX_SEARCH_QUERY_LEN: usize = 1024;

/// One step of a file path, as the platform splits it.
#[derive(Debug)]
pub enum PathComponent {
    /// A volume or share prefix, with its text.
    Prefix(String),
    /// The root directory.
    RootDir,
    /// The current directory, `.`.
    CurDir,
    /// The parent directory, `..`.
    ParentDir,
    /// A plain file or directory name.
    Normal(String),
}

impl PathComponent {
    /// Why the component makes a path unacceptable, if it does: a step to
    /// the parent directory, or a prefix that holds a backslash.
    pub open spec fn offence(self) -> Option<Seq<char>> {
        match self {
            PathComponent::ParentDir => Some("Path traversal detected: '..' is not allowed"@),
            PathComponent::Prefix(text) => if text@.contains('\\') {
                Some("UNC paths are not supported"@)
            } else {
                None
            },
            _ => None,
        }
    }
}

/// Whether no component of the path is an offence.
pub open spec fn path_is_clean(components: Seq<PathComponent>) -> bool {
    forall|i: int| 0 <= i < components.len() ==> (#[trigger] components[i]).offence() is None
}

/// Whether `text` holds a control character.
pub open spec fn has_control(text: Seq<char>) -> bool {
    exists|i: int| 0 <= i < text.len() && is_control(#[trigger] text[i])
}

/// Checks on paths, names and queries that come from outside.
pub struct InputValidator;

impl InputValidator {
    /// Refuses a path that steps to a parent directory or whose prefix holds
    /// a backslash. The error names the first such component.
    pub fn validate_file_path(components: &Vec<PathComponent>) -> (r: Result<()>)
        ensures
            r is Ok <==> path_is_clean(components@),
            r matches Err(e) ==> exists|i: int|
                0 <= i < components@.len() && path_is_clean(components@.take(i)) && (
                e matches LscmdError::Validation(m) && Some(m@) == (
                #[trigger] components@[i]).offence()),
    {
        let mut i: usize = 0;
        while i < components.len()
            invariant
                i <= components@.len(),
                path_is_clean(components@.take(i as int)),
            decreases components@.len() - i,
        {
            match &components[i] {
                PathComponent::ParentDir => {
                    return Err(
                        LscmdError::Validation(
                            String::from_str("Path traversal detected: '..' is not allowed"),
                        ),
                    );
                },
                PathComponent::Prefix(text) => {
                    let chars = chars_of(text.as_str());
                    let at = find_first(&chars, 0, CharClass::Exactly('\\'));
                    proof {
                        lemma_first_in(chars@, 0, CharClass::Exactly('\\'));
                    }
                    if at < chars.len() {
                        assert(text@[at as int] == '\\');
                        return Err(
                            LscmdError::Validation(
                                String::from_str("UNC paths are not supported"),
                            ),
                        );
                    }
                    assert(!text@.contains('\\'));
                },
                _ => {},
            }
            assert(components@.take(i + 1) == components@.take(i as int).push(components@[i as int]));
            i += 1;
        }
        assert(components@.take(i as int) == components@);
        Ok(())
    }

    /// Refuses a name longer than [`MAX_COMMAND_NAME_LEN`] bytes, and one
    /// that holds a control character.
    pub fn validate_command_name(name: &str) -> (r: Result<()>)
        ensures
            r is Ok <==> byte_len(name@) <= MAX_COMMAND_NAME_LEN && !has_control(name@),
            r matches Err(e) ==> e matches LscmdError::Validation(m) && m@ == (if byte_len(name@)
                > MAX_COMMAND_NAME_LEN {
                "Command name exceeds maximum length of 256"@
            } else {
                "Command name contains invalid control characters"@
            }),
    {
        if name.as_bytes().len() > MAX_COMMAND_NAME_LEN {
            return Err(
                LscmdError::Validation(
                    String::from_str("Command name exceeds maximum length of 256"),
                ),
            );
        }
        let chars = chars_of(name);
        let mut i: usize = 0;
        while i < chars.len()
            invariant
                i <= chars@.len(),
                chars@ == name@,
                byte_len(name@) <= MAX_COMMAND_NAME_LEN,
                forall|j: int| 0 <= j < i ==> !is_control(#[trigger] chars@[j]),
            decreases chars@.len() - i,
        {
            if char_is_control(chars[i]) {
                return Err(
                    LscmdError::Validation(
                        String::from_str("Command name contains invalid control characters"),
                    ),
                );
            }
            i += 1;
        }
        Ok(())
    }

    /// Refuses a query longer than [`MAX_SEARCH_QUERY_LEN`] bytes.
    pub fn validate_search_query(query: &str) -> (r: Result<()>)
        ensures
            r is Ok <==> byte_len(query@) <= MAX_SEARCH_QUERY_LEN,
            r matches Err(e) ==> e matches LscmdError::Validation(m) && m@
                == "Search query exceeds maximum length of 1024"@,
    {
        if query.as_bytes().len() > MAX_SEARCH_QUERY_LEN {
            return Err(
                LscmdError::Validation(
                    String::from_str("Search query exceeds maximum length of 1024"),
                ),
            );
        }
        Ok(())
    }
}

/// What stands between the first quote character of `line`, single or
/// double, and the next occurrence of that same character; nothing where the
/// line has no quote or the quote is not closed.
pub open spec fn quoted_content(line: Seq<char>) -> Option<Seq<char>> {
    let open = first_in(line, 0, CharClass::Quote);
    if open >= line.len() {
        None
    } else {
        let close = first_in(line, open + 1, CharClass::Exactly(line[open]));
        if close >= line.len() {
            None
        } else {
            Some(line.subrange(open + 1, close))
        }
    }
}

/// The quoted value of `line`, from a line already split into characters.
pub fn quoted_span(line: &Vec<char>) -> (r: Option<(usize, usize)>)
    ensures
        match r {
            Some((from, to)) => from <= to <= line@.len() && quoted_content(line@) == Some(
                line@.subrange(from as int, to as int),
            ),
            None => quoted_content(line@) is None,
        },
{
    let open = find_first(line, 0, CharClass::Quote);
    if open >= line.len() {
        return None;
    }
    let close = find_first(line, open + 1, CharClass::Exactly(line[open]));
    if close >= line.len() {
        return None;
    }
    Some((open + 1, close))
}

/// Reads the value of a quoted assignment.
pub struct QuoteParser;

impl Default for QuoteParser {
    fn default() -> (r: Self)
        ensures
            r == QuoteParser,
    {
        QuoteParser
    }
}

impl QuoteParser {
    /// A parser. It holds nothing: every parser reads alike.
    pub fn new() -> (r: Self)
        ensures
            r == QuoteParser,
    {
        QuoteParser
    }

    /// Extracts what the first pair of quotes of `line` encloses. The
    /// opening quote is the first `"` or `'` of the line; the closing one is
    /// the next occurrence of the same character, so the other kind of
    /// quote, inside, is taken literally. Never fails.
    pub fn extract_quoted_content(&self, line: &str) -> (r: Result<Option<String>>)
        ensures
            r matches Ok(found) && match found {
                Some(text) => quoted_content(line@) == Some(text@),
                None => quoted_content(line@) is None,
            },
    {
        let chars = chars_of(line);
        match quoted_span(&chars) {
            Some((from, to)) => Ok(Some(text_of(&chars, from, to))),
            None => Ok(None),
        }
    }
}

} // verus!
