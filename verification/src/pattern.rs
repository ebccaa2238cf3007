//! Searching a line of text for a regular expression.
//!
//! The search itself is the work of the `regex` crate. What it finds is not
//! proved here: it is given a name, and the functions of this module say that
//! they return what that name stands for.

use vstd::prelude::*;

verus! {

/// The pattern is not a regular expression that the `regex` crate accepts.
#[derive(Clone, Copy, Debug, PartialEq, Eq, Structural)]
pub struct BadPattern;

/// Whether `regex::Regex::new` accepts the pattern `pattern`.
pub uninterp spec fn regex_accepts(pattern: Seq<char>) -> bool;

/// What `regex::Regex::captures` finds for the regular expression `pattern` in
/// `text`: nothing, or the text of each capture group of the first match, the
/// whole match being group 0; a group that took no part in the match has no
/// text.
pub uninterp spec fn regex_captures(pattern: Seq<char>, text: Seq<char>) -> Option<
    Seq<Option<Seq<char>>>,
>;

/// What `regex::Regex::find_iter` yields for the regular expression `pattern`
/// in `text`: for each match in turn the byte offsets of its start and end,
/// and the text between them.
pub uninterp spec fn regex_find_all(pattern: Seq<char>, text: Seq<char>) -> Seq<
    (nat, nat, Seq<char>),
>;

/// One match of a regular expression in a text.
pub struct Found {
    /// The byte offset at which the match starts.
    pub start: usize,
    /// The byte offset just behind the match.
    pub end: usize,
    /// The text that matched.
    pub text: String,
}

/// The groups of a match as plain sequences of characters.
pub open spec fn groups_view(groups: Seq<Option<String>>) -> Seq<Option<Seq<char>>> {
    Seq::new(
        groups.len(),
        |i: int|
            match groups[i] {
                Some(s) => Some(s@),
                None => None,
            },
    )
}

/// The outcome of a search for groups as plain sequences of characters.
pub open spec fn captures_view(found: Option<Vec<Option<String>>>) -> Option<
    Seq<Option<Seq<char>>>,
> {
    match found {
        Some(groups) => Some(groups_view(groups@)),
        None => None,
    }
}

/// A list of matches as plain values.
pub open spec fn found_view(found: Seq<Found>) -> Seq<(nat, nat, Seq<char>)> {
    Seq::new(found.len(), |i: int| (found[i].start as nat, found[i].end as nat, found[i].text@))
}

/// Compiles `pattern` with `regex::Regex::new` and searches `text` with
/// `regex::Regex::captures`. The contract claims that compiling fails exactly
/// on the patterns that the crate does not accept, and that the groups handed
/// back are the ones that the crate found, each as its own string.
#[verifier::external_body]
pub(crate) fn captures(pattern: &str, text: &str) -> (r: Result<
    Option<Vec<Option<String>>>,
    BadPattern,
>)
    ensures
        r is Ok <==> regex_accepts(pattern@),
        r matches Ok(found) ==> captures_view(found) == regex_captures(pattern@, text@),
{
    let re = regex::Regex::new(pattern).map_err(|_| BadPattern)?;
    Ok(re.captures(text).map(|c| c.iter().map(|g| g.map(|m| m.as_str().to_string())).collect()))
}

/// Compiles `pattern` with `regex::Regex::new` and asks `regex::Regex::is_match`
/// whether `text` holds a match. The contract claims that compiling fails
/// exactly on the patterns that the crate does not accept, and that there is a
/// match exactly where `regex::Regex::captures` finds one.
#[verifier::external_body]
pub(crate) fn is_match(pattern: &str, text: &str) -> (r: Result<bool, BadPattern>)
    ensures
        r is Ok <==> regex_accepts(pattern@),
        r matches Ok(b) ==> b == (regex_captures(pattern@, text@) is Some),
{
    let re = regex::Regex::new(pattern).map_err(|_| BadPattern)?;
    Ok(re.is_match(text))
}

/// Compiles `pattern` with `regex::Regex::new` and collects what
/// `regex::Regex::find_iter` yields for `text`. The contract claims that
/// compiling fails exactly on the patterns that the crate does not accept, and
/// that the matches handed back are the ones that the crate found, in its
/// order.
#[verifier::external_body]
pub(crate) fn find_all(pattern: &str, text: &str) -> (r: Result<Vec<Found>, BadPattern>)
    ensures
        r is Ok <==> regex_accepts(pattern@),
        r matches Ok(found) ==> found_view(found@) == regex_find_all(pattern@, text@),
{
    let re = regex::Regex::new(pattern).map_err(|_| BadPattern)?;
    Ok(
        re.find_iter(text).map(
            |m| Found { start: m.start(), end: m.end(), text: m.as_str().to_string() },
        ).collect(),
    )
}

/// Whether the `regex` crate accepts `pattern` as a regular expression.
pub fn accepts(pattern: &str) -> (b: bool)
    ensures
        b == regex_accepts(pattern@),
{
    match is_match(pattern, "") {
        Ok(_) => true,
        Err(_) => false,
    }
}


} // verus!
