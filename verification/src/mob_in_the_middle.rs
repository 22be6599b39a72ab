//! A proxy that sits between chat users and their server and rewrites the
//! payment addresses that pass through it.
//!
//! * [`BoguscoinRewriter`] rewrites messages; [`hack_boguscoin_message`]
//!   rewrites one.
//! * [`semicolon_codec`] frames text that is delimited by semicolons.
//!
//! Addresses are found by a regular expression, which the `fancy_regex`
//! crate compiles and runs.  What it finds is not modelled here: the result
//! of a replacement has a name, [`regex_replaced`], and the contracts say
//! which pattern, text and replacement it is the result for.

pub mod semicolon_codec;

use fancy_regex::Regex;
use vstd::prelude::*;

verus! {

/// `fancy_regex::Regex`, carried through verified code as an opaque value.
#[verifier::external_type_specification]
#[verifier::external_body]
pub struct ExRegex(Regex);

/// `fancy_regex::Error`, carried through verified code as an opaque value.
#[verifier::external_type_specification]
#[verifier::external_body]
pub struct ExRegexError(fancy_regex::Error);

/// Whether `pattern` is a regular expression that `Regex::new` compiles.
pub uninterp spec fn regex_compiles(pattern: Seq<char>) -> bool;

/// The pattern that a compiled expression was made from, as `Regex::as_str`
/// gives it.
pub uninterp spec fn pattern_of(regex: &Regex) -> Seq<char>;

/// What comes of replacing every match of the regular expression `pattern`
/// in `text`, one after the other and without overlap, by `replacement`:
/// the new text, or nothing when the search gives up.
pub uninterp spec fn regex_replaced(
    pattern: Seq<char>,
    text: Seq<char>,
    replacement: Seq<char>,
) -> Option<Seq<char>>;

/// `Regex::new`: the compiled expression, which remembers its pattern, or
/// the reason why the pattern is none.
#[verifier::external_body]
fn compile(pattern: &str) -> (compiled: Result<Regex, fancy_regex::Error>)
    ensures
        compiled is Ok <==> regex_compiles(pattern@),
        compiled matches Ok(regex) ==> pattern_of(&regex) == pattern@,
{
    Regex::new(pattern)
}

/// `Regex::try_replacen` without a limit on the number of replacements, as
/// an owned string: the text with every match replaced, or the reason why
/// the search gave up.
#[verifier::external_body]
fn replace_all(regex: &Regex, text: &str, replacement: &str) -> (replaced: Result<
    String,
    fancy_regex::Error,
>)
    ensures
        replaced matches Ok(new) ==> regex_replaced(pattern_of(regex), text@, replacement@) == Some(
            new@,
        ),
        replaced is Err ==> regex_replaced(pattern_of(regex), text@, replacement@) is None,
{
    match regex.try_replacen(text, 0, replacement) {
        Ok(new) => Ok(new.into_owned()),
        Err(error) => Err(error),
    }
}

/// Why a message could not be rewritten.
#[derive(Debug, Clone, Copy, PartialEq, Eq, Structural)]
pub enum HackError {
    /// The pattern for addresses was not accepted as a regular expression.
    PatternRejected,
    /// The search for addresses gave up.
    SearchFailed,
}

/// What a payment address looks like: a `7` and 25 to 34 letters and
/// digits after it, with a space or an end of the message on either side.
pub open spec fn boguscoin_pattern() -> Seq<char> {
    "(?<= |^)7[a-zA-Z0-9]{25,34}(?= |$)"@
}

/// The address that takes the place of every other.
pub open spec fn target_boguscoin() -> Seq<char> {
    "7YWHMfk9JZe0LM0g1ZauHuiSxhI"@
}

/// What rewriting `message` gives: the message with every payment address
/// replaced by the proxy's own, or the reason why there is none.
pub open spec fn hacked(message: Seq<char>) -> Result<Seq<char>, HackError> {
    if !regex_compiles(boguscoin_pattern()) {
        Err(HackError::PatternRejected)
    } else {
        match regex_replaced(boguscoin_pattern(), message, target_boguscoin()) {
            Some(new) => Ok(new),
            None => Err(HackError::SearchFailed),
        }
    }
}

/// Whether `got` is what rewriting gave.
pub open spec fn is_hacked(got: Result<String, HackError>, wanted: Result<Seq<char>, HackError>) -> bool {
    match wanted {
        Ok(new) => got matches Ok(text) && text@ == new,
        Err(error) => got matches Err(e) && e == error,
    }
}

/// The compiled pattern for payment addresses, for rewriting message after
/// message.
pub struct BoguscoinRewriter {
    regex: Regex,
}

impl BoguscoinRewriter {
    /// The invariant of the rewriter: it holds the pattern for payment
    /// addresses.
    pub closed spec fn wf(&self) -> bool {
        pattern_of(&self.regex) == boguscoin_pattern() && regex_compiles(boguscoin_pattern())
    }

    /// Compiles the pattern for payment addresses.
    pub fn new() -> (made: Result<BoguscoinRewriter, HackError>)
        ensures
            made is Ok <==> regex_compiles(boguscoin_pattern()),
            made matches Ok(rewriter) ==> rewriter.wf(),
            made matches Err(error) ==> error == HackError::PatternRejected,
    {
        match compile("(?<= |^)7[a-zA-Z0-9]{25,34}(?= |$)") {
            Ok(regex) => Ok(BoguscoinRewriter { regex }),
            Err(_) => Err(HackError::PatternRejected),
        }
    }

    /// The message with every payment address replaced by the proxy's own.
    pub fn rewrite(&self, message: &String) -> (got: Result<String, HackError>)
        requires
            self.wf(),
        ensures
            is_hacked(got, hacked(message@)),
    {
        match replace_all(&self.regex, message.as_str(), "7YWHMfk9JZe0LM0g1ZauHuiSxhI") {
            Ok(new) => Ok(new),
            Err(_) => Err(HackError::SearchFailed),
        }
    }
}

/// The message with every payment address replaced by the proxy's own.
pub fn hack_boguscoin_message(message: &String) -> (got: Result<String, HackError>)
    ensures
        is_hacked(got, hacked(message@)),
{
    match BoguscoinRewriter::new() {
        Ok(rewriter) => rewriter.rewrite(message),
        Err(error) => Err(error),
    }
}

} // verus!
