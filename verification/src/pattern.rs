use crate::text;
use vstd::prelude::*;

verus! {

/// The texts of the groups of a match; a group that took no part in it
/// has none.
pub open spec fn groups_view(v: Seq<Option<Vec<char>>>) -> Seq<Option<Seq<char>>> {
    v.map_values(
        |g: Option<Vec<char>>|
            match g {
                Some(t) => Some(t@),
                None => None,
            },
    )
}

pub open spec fn lines_view(r: Option<Vec<Vec<char>>>) -> Option<Seq<Seq<char>>> {
    match r {
        Some(v) => Some(text::views(v@)),
        None => None,
    }
}

pub open spec fn match_view(r: Option<Vec<Option<Vec<char>>>>) -> Option<Seq<Option<Seq<char>>>> {
    match r {
        Some(v) => Some(groups_view(v@)),
        None => None,
    }
}

/// What `regex::Regex::find_iter` yields for the expression `pattern` on
/// `text`: the texts of the matches, one after another. `None` when
/// `pattern` is no regular expression.
pub uninterp spec fn regex_matches(pattern: Seq<char>, text: Seq<char>) -> Option<Seq<Seq<char>>>;

/// Compiles `pattern` with `regex::Regex::new` and walks `text` with
/// `Regex::find_iter`. The result depends on the two texts alone.
#[verifier::external_body]
pub(crate) fn find_all(pattern: &str, text: &Vec<char>) -> (r: Option<Vec<Vec<char>>>)
    ensures
        lines_view(r) == regex_matches(pattern@, text@),
{
    let re = regex::Regex::new(pattern).ok()?;
    let line: String = text.iter().collect();
    Some(re.find_iter(&line).map(|m| m.as_str().chars().collect()).collect())
}

/// What `regex::Regex::captures` gives for the expression `pattern` on
/// `text`: the groups of the first match, the whole match being group 0.
/// `None` when `pattern` is no regular expression or nothing matches.
pub uninterp spec fn regex_captures(pattern: Seq<char>, text: Seq<char>) -> Option<
    Seq<Option<Seq<char>>>,
>;

/// Compiles `pattern` with `regex::Regex::new` and matches `text` with
/// `Regex::captures`. The result depends on the two texts alone.
#[verifier::external_body]
pub(crate) fn captures(pattern: &str, text: &Vec<char>) -> (r: Option<Vec<Option<Vec<char>>>>)
    ensures
        match_view(r) == regex_captures(pattern@, text@),
{
    let re = regex::Regex::new(pattern).ok()?;
    let line: String = text.iter().collect();
    let caps = re.captures(&line)?;
    Some((0..caps.len()).map(|i| caps.get(i).map(|m| m.as_str().chars().collect())).collect())
}

/// What `regex::Regex::captures_iter` yields for the expression `pattern`
/// on `text`, as far as group 1 goes: its text in each match, one match
/// after another. `None` when `pattern` is no regular expression.
pub uninterp spec fn regex_first_groups(pattern: Seq<char>, text: Seq<char>) -> Option<
    Seq<Option<Seq<char>>>,
>;

/// Compiles `pattern` with `regex::Regex::new`, walks `text` with
/// `Regex::captures_iter` and hands out group 1 of each match. The result
/// depends on the two texts alone.
#[verifier::external_body]
pub(crate) fn first_groups(pattern: &str, text: &Vec<char>) -> (r: Option<Vec<Option<Vec<char>>>>)
    ensures
        match_view(r) == regex_first_groups(pattern@, text@),
{
    let re = regex::Regex::new(pattern).ok()?;
    let line: String = text.iter().collect();
    Some(re.captures_iter(&line).map(|c| c.get(1).map(|m| m.as_str().chars().collect())).collect())
}

} // verus!
