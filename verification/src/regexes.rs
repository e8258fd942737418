//! What the library relies on of the `regex` crate.

use regex::{Error, Regex};
use vstd::prelude::*;

verus! {

/// A compiled regular expression.
#[verifier::external_type_specification]
#[verifier::external_body]
pub struct ExRegex(Regex);

/// Why a pattern did not compile.
#[verifier::external_type_specification]
#[verifier::external_body]
pub struct ExError(Error);

/// Whether [`Regex::new`] accepts a pattern: its syntax is right and it stays
/// within the default size limit. The limit counts bytes, so for a pattern
/// close to it the answer may differ between builds for targets of different
/// pointer width; within one build it depends on the pattern alone.
pub uninterp spec fn regex_compiles(pattern: Seq<char>) -> bool;

/// What [`Regex::new`] says of a pattern that it does not accept.
pub uninterp spec fn regex_error(pattern: Seq<char>) -> Error;

/// Whether a pattern matches anywhere in a text: the answer of
/// [`Regex::is_match`].
pub uninterp spec fn regex_finds(pattern: Seq<char>, text: Seq<char>) -> bool;

/// The pattern that a compiled expression stands for, with any flags that
/// were set from outside written into it.
pub uninterp spec fn regex_pattern(regex: Regex) -> Seq<char>;

/// [`Regex::new`] succeeds on the patterns that compile and on no others. What
/// it returns stands for the pattern that it was given, and its error is the
/// one that belongs to that pattern.
pub assume_specification[ Regex::new ](re: &str) -> (r: Result<Regex, Error>)
    ensures
        r is Ok <==> regex_compiles(re@),
        r matches Ok(regex) ==> regex_pattern(regex) == re@,
        r matches Err(e) ==> e == regex_error(re@),
;

/// [`Regex::is_match`] tells whether the expression matches anywhere in the
/// text; the answer depends on the pattern and the text alone.
pub assume_specification[ Regex::is_match ](regex: &Regex, haystack: &str) -> (r: bool)
    ensures
        r == regex_finds(regex_pattern(*regex), haystack@),
;

} // verus!
