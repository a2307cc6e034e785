//! Pattern search, done by the `regex` crate.
use crate::text::views;
use vstd::prelude::*;

verus! {

/// The matches of the regular expression `pattern` in `text`, in the order
/// and with the extent that the `regex` crate gives them: one after another
/// from the left, none overlapping another. `None` where the crate does not
/// accept `pattern`.
pub uninterp spec fn regex_matches(
    pattern: Seq<char>,
    case_insensitive: bool,
    text: Seq<char>,
) -> Option<Seq<Seq<char>>>;

/// Builds the expression with `regex::RegexBuilder`, letter case ignored or
/// not as `case_insensitive` says, and collects the text of every match that
/// `Regex::find_iter` yields. The result depends on the three arguments
/// alone.
#[verifier::external_body]
pub(crate) fn find_matches(
    pattern: &str,
    case_insensitive: bool,
    text: &str,
) -> (r: Option<Vec<String>>)
    ensures
        match r {
            Some(found) => regex_matches(pattern@, case_insensitive, text@) == Some(views(found@)),
            None => regex_matches(pattern@, case_insensitive, text@).is_none(),
        },
{
    let re = regex::RegexBuilder::new(pattern).case_insensitive(case_insensitive).build().ok()?;
    Some(re.find_iter(text).map(|m| m.as_str().to_string()).collect())
}

/// The matches of `pattern` in `text`; none where the pattern is not
/// accepted.
pub open spec fn matches_of(
    pattern: Seq<char>,
    case_insensitive: bool,
    text: Seq<char>,
) -> Seq<Seq<char>> {
    match regex_matches(pattern, case_insensitive, text) {
        Some(found) => found,
        None => Seq::empty(),
    }
}

/// Looks for `pattern` in `text` and hands out what was found; nothing where
/// the pattern is not accepted.
pub fn search(pattern: &str, case_insensitive: bool, text: &str) -> (r: Vec<String>)
    ensures
        views(r@) == matches_of(pattern@, case_insensitive, text@),
{
    match find_matches(pattern, case_insensitive, text) {
        Some(found) => found,
        None => {
            let r: Vec<String> = Vec::new();
            assert(views(r@) =~= Seq::empty());
            r
        },
    }
}

} // verus!
