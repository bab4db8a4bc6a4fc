//! Regular expressions, as the `regex` crate compiles and runs them.
//!
//! Nothing in this file is proved: it states what the documentation of the
//! crate promises, over three names that stand for what the crate computes.
//! What a pattern matches takes a book to say, so it is named, not spelled
//! out. What a compiled expression matches is its own affair: it depends on
//! how the expression was built. Of an expression that `Regex::new` built,
//! with the options that the crate starts from, it is a matter of the
//! pattern and the text alone.

use regex::Regex;
use vstd::prelude::*;

verus! {

/// A compiled regular expression, `regex::Regex`. Nothing of what it holds
/// is looked into here.
#[verifier::external_type_specification]
#[verifier::external_body]
pub struct ExRegex(regex::Regex);

/// Why a pattern was not compiled, `regex::Error`. It is only turned into
/// text.
#[verifier::external_type_specification]
#[verifier::external_body]
pub struct ExRegexError(regex::Error);

/// Whether `Regex::new` accepts `pattern`: it is a valid pattern and what it
/// compiles to stays within the crate's default size limit.
pub uninterp spec fn pattern_compiles(pattern: Seq<char>) -> bool;

/// Whether the compiled expression `re` has a match anywhere in `text`.
pub uninterp spec fn regex_matches(re: Regex, text: Seq<char>) -> bool;

/// Whether `pattern`, compiled by `Regex::new`, has a match anywhere in
/// `text`.
pub uninterp spec fn pattern_matches(pattern: Seq<char>, text: Seq<char>) -> bool;

/// `Regex::new` compiles a pattern with the options that the crate starts
/// from. It returns an error for a pattern that is not valid or compiles to
/// more than the size limit, and otherwise an expression that matches what
/// the pattern matches.
pub assume_specification[ Regex::new ](re: &str) -> (r: std::result::Result<Regex, regex::Error>)
    ensures
        r is Ok <==> pattern_compiles(re@),
        r matches Ok(compiled) ==> forall|text: Seq<char>|
            #[trigger] regex_matches(compiled, text) == pattern_matches(re@, text),
;

/// `Regex::is_match` says whether the expression matches anywhere in the
/// haystack.
pub assume_specification[ Regex::is_match ](re: &Regex, haystack: &str) -> (b: bool)
    ensures
        b == regex_matches(*re, haystack@),
;

} // verus!
