//! The one door to the regular-expression engine.

use regex::Regex;
use vstd::prelude::*;

use crate::text::opt_view;

verus! {

/// The text that capture group `group` of `pattern` holds at the first
/// match of `pattern` in `text`, as the `regex` crate finds it: `None` when
/// `pattern` does not compile, when it matches nowhere in `text`, when it
/// has no such group, or when the group took no part in the match. Group 0
/// is the whole match.
pub uninterp spec fn captured(pattern: Seq<char>, text: Seq<char>, group: int) -> Option<Seq<char>>;

/// Compiles `pattern` with `Regex::new`, searches `text` with
/// `Regex::captures` and hands out the text of group `group`
/// (`Captures::get`, `Match::as_str`). Nothing is claimed of the result but
/// that it is the one [`captured`] names: the search depends on `pattern` and
/// `text` alone.
#[verifier::external_body]
pub(crate) fn capture(pattern: &str, text: &str, group: usize) -> (found: Option<String>)
    ensures
        opt_view(found) == captured(pattern@, text@, group as int),
{
    let re = Regex::new(pattern).ok()?;
    let caps = re.captures(text)?;
    let m = caps.get(group)?;
    Some(m.as_str().to_owned())
}

} // verus!
