//! Regular-expression matching, as the `regex` crate does it.
//!
//! Nothing in this module is proved. It says of the crate's matching only
//! that its outcome is a function of the pattern and of the text searched.

use regex::Regex;
use vstd::prelude::*;

verus! {

#[verifier::external_type_specification]
#[verifier::external_body]
pub struct ExRegexError(regex::Error);

/// What compiling `pattern` with `Regex::new` and searching `haystack` with
/// `Regex::captures` gives. `None`: the pattern does not compile.
/// `Some(None)`: it matches nowhere in the haystack. Otherwise the text of
/// each capture group of the leftmost match, group 0 being the whole match,
/// with `None` for a group that took no part in it.
pub uninterp spec fn regex_captures(pattern: Seq<char>, haystack: Seq<char>) -> Option<
    Option<Seq<Option<Seq<char>>>>,
>;

/// The views of the texts of capture groups.
pub open spec fn group_texts(groups: Seq<Option<&str>>) -> Seq<Option<Seq<char>>> {
    groups.map_values(
        |g: Option<&str>|
            match g {
                Some(text) => Some(text@),
                None => None,
            },
    )
}

/// The views of the outcome of a search for captures.
pub open spec fn search_view(found: Result<Option<Vec<Option<&str>>>, regex::Error>) -> Option<
    Option<Seq<Option<Seq<char>>>>,
> {
    match found {
        Ok(Some(groups)) => Some(Some(group_texts(groups@))),
        Ok(None) => Some(None),
        Err(_) => None,
    }
}

/// Compiles `pattern` with `Regex::new`, searches `haystack` with
/// `Regex::captures`, and hands out the text of every group. Trusted, not
/// proved: the outcome depends on the pattern and the haystack alone.
///
/// The pattern is compiled on every call. That keeps the compiled
/// expression, of which nothing can be stated, out of the contract.
#[verifier::external_body]
pub(crate) fn search<'h>(pattern: &str, haystack: &'h str) -> (found: Result<
    Option<Vec<Option<&'h str>>>,
    regex::Error,
>)
    ensures
        search_view(found) == regex_captures(pattern@, haystack@),
{
    let re = Regex::new(pattern)?;
    Ok(re.captures(haystack).map(|c| c.iter().map(|g| g.map(|m| m.as_str())).collect()))
}

} // verus!
