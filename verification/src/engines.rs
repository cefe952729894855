//! The two matching engines the library borrows: regular expressions and
//! wildcard patterns. Each is reached through one function whose contract is
//! taken on trust from the engine's documentation and source.

use vstd::prelude::*;

verus! {

/// What the regular-expression engine makes of a pattern and a text: `None`
/// when the pattern does not compile, otherwise whether the compiled pattern
/// finds a match anywhere in the text.
pub uninterp spec fn regex_search(pattern: Seq<char>, text: Seq<char>) -> Option<bool>;

/// Compiles `pattern` with `regex::Regex::new` and, when that succeeds, asks
/// `regex::Regex::is_match` whether it matches somewhere in `text`.
///
/// Trusted: both calls are functions of the two strings alone (the default
/// configuration is fixed, and no state, clock or environment enters), so
/// the outcome is the value that `regex_search` names for them. Nothing is
/// claimed about which patterns compile or which texts they match. Neither
/// call panics: compilation reports an invalid or oversized pattern as an
/// error, and the search starts at offset zero, which is always inside the
/// text.
#[verifier::external_body]
pub(crate) fn regex_find(pattern: &str, text: &str) -> (outcome: Option<bool>)
    ensures
        outcome == regex_search(pattern@, text@),
{
    match regex::Regex::new(pattern) {
        Ok(compiled) => Some(compiled.is_match(text)),
        Err(_) => None,
    }
}

/// Whether a wildcard pattern covers a whole text: `?` stands for exactly one
/// character, `*` for any run of characters (possibly empty), and every other
/// character for itself. There is no escape character.
pub open spec fn wildcard_matches(pattern: Seq<char>, text: Seq<char>) -> bool
    decreases pattern.len(), text.len(),
{
    if pattern.len() == 0 {
        text.len() == 0
    } else if pattern[0] == '*' {
        wildcard_matches(pattern.drop_first(), text) || (text.len() > 0 && wildcard_matches(
            pattern,
            text.drop_first(),
        ))
    } else {
        text.len() > 0 && (pattern[0] == '?' || pattern[0] == text[0]) && wildcard_matches(
            pattern.drop_first(),
            text.drop_first(),
        )
    }
}

/// Builds a case-sensitive matcher with `wildmatch::WildMatch::new` and asks
/// its `matches` method about `text`.
///
/// Trusted: the crate documents that a pattern matches only the entirety of
/// a text, that `?` matches exactly one occurrence of any character, that
/// `*` matches arbitrarily many occurrences including none, and that no
/// escape character is defined; `wildcard_matches` says the same. Both
/// calls work on characters, not bytes, and neither panics.
#[verifier::external_body]
pub(crate) fn wildcard_test(pattern: &str, text: &str) -> (covered: bool)
    ensures
        covered == wildcard_matches(pattern@, text@),
{
    wildmatch::WildMatch::new(pattern).matches(text)
}

} // verus!
