//! Regular expressions over bytes.

use regex::bytes::Regex;
use vstd::prelude::*;

verus! {

/// `regex::bytes::Regex`, a compiled regular expression.
#[verifier::external_type_specification]
#[verifier::external_body]
pub struct ExRegex(Regex);

/// What a `Regex` was compiled from: the text, where `Regex::new` compiled it. Options that a
/// builder was given besides count as flags that stand in front of the text.
pub uninterp spec fn regex_pattern(regex: Regex) -> Seq<char>;

/// Whether the regular expression with this text has a match somewhere in the bytes.
pub uninterp spec fn regex_matches(pattern: Seq<char>, haystack: Seq<u8>) -> bool;

/// Whether a character is a letter or a digit of ASCII.
pub open spec fn is_plain_char(c: char) -> bool {
    'a' <= c <= 'z' || 'A' <= c <= 'Z' || '0' <= c <= '9'
}

/// Whether a text is a short one of letters and digits of ASCII, which stand for themselves.
pub open spec fn is_plain(text: Seq<char>) -> bool {
    text.len() <= 256 && forall|i: int| 0 <= i < text.len() ==> is_plain_char(#[trigger] text[i])
}

/// `Regex::new` compiles a text, and hands out nothing where the text is no regular
/// expression or its program would be too large, for which the limit is ten megabytes. A short
/// text of letters and digits is a regular expression with a small program. Which other texts
/// are refused is left unsaid: the size of a program depends on the machine.
#[verifier::external_body]
pub(crate) fn compile(pattern: &String) -> (regex: Option<Regex>)
    ensures
        regex matches Some(r) ==> regex_pattern(r) == pattern@,
        is_plain(pattern@) ==> regex is Some,
{
    Regex::new(pattern).ok()
}

/// `Regex::is_match` tells whether the regular expression matches somewhere in the bytes.
#[verifier::external_body]
pub(crate) fn is_match(regex: &Regex, haystack: &[u8]) -> (r: bool)
    ensures
        r == regex_matches(regex_pattern(*regex), haystack@),
{
    regex.is_match(haystack)
}

/// The text of a pattern that may be missing.
pub open spec fn pattern_of(regex: Option<Regex>) -> Option<Seq<char>> {
    match regex {
        Some(r) => Some(regex_pattern(r)),
        None => None,
    }
}

/// Whether a pattern is what can come of compiling a text, if there is one: the text or
/// nothing, and not nothing where the text is plain.
pub open spec fn is_attempt(text: Option<Seq<char>>, pattern: Option<Seq<char>>) -> bool {
    &&& pattern is Some ==> pattern == text
    &&& text is Some && is_plain(text->Some_0) ==> pattern == text
}

/// Compiles a text, if there is one.
pub(crate) fn attempt(text: &Option<String>) -> (regex: Option<Regex>)
    ensures
        is_attempt(text.deep_view(), pattern_of(regex)),
{
    match text {
        Some(text) => compile(text),
        None => None,
    }
}

/// Whether a pattern that may be missing allows the bytes: a missing one allows all.
pub open spec fn pattern_allows(pattern: Option<Seq<char>>, haystack: Seq<u8>) -> bool {
    match pattern {
        Some(p) => regex_matches(p, haystack),
        None => true,
    }
}

/// Whether a pattern that may be missing allows the bytes.
pub fn allows(regex: &Option<Regex>, haystack: &[u8]) -> (r: bool)
    ensures
        r == pattern_allows(pattern_of(*regex), haystack@),
{
    match regex {
        Some(regex) => is_match(regex, haystack),
        None => true,
    }
}

} // verus!
