//! The git branch in the prompt.

use crate::process::ProcessRun;
use crate::text::{chars_of, lossy_text, text_of, trim, trimmed, upto, utf8_lossy, Class};
use vstd::prelude::*;

verus! {

/// How many characters of a branch name the prompt shows.
pub const BRANCH_NAME_MAX: usize = 10;

/// What stands in front of the branch name in the prompt.
pub const BRANCH_PREFIX: &'static str = " branch: ";

/// The arguments of `git` that make it print the current branch.
pub fn branch_query() -> (r: Vec<&'static str>)
    ensures
        r.deep_view() == seq!["rev-parse"@, "--abbrev-ref"@, "HEAD"@],
{
    let r: Vec<&'static str> = vec!["rev-parse", "--abbrev-ref", "HEAD"];
    assert(r.deep_view() =~= seq!["rev-parse"@, "--abbrev-ref"@, "HEAD"@]);
    r
}

/// The branch that a run of `git` printed: what it wrote, without white space
/// around it. There is none where git failed or could not be run.
pub open spec fn branch_of(run: Option<&ProcessRun>) -> Option<Seq<char>> {
    match run {
        Some(out) => {
            let name = trimmed(lossy_text(out.stdout@), Class::White);
            if out.success && name.len() > 0 {
                Some(name)
            } else {
                None
            }
        },
        None => None,
    }
}

/// The current branch, from what [`branch_query`] made git print.
pub fn current_branch(run: Option<&ProcessRun>) -> (r: Option<String>)
    ensures
        r.deep_view() == branch_of(run),
{
    match run {
        Some(out) => {
            if !out.success {
                return None;
            }
            let text = utf8_lossy(&out.stdout);
            let v = chars_of(&text);
            let name = trim(&v, Class::White);
            if name.len() == 0 {
                None
            } else {
                Some(text_of(name))
            }
        },
        None => None,
    }
}

/// A name cut to `max` characters, with dots where something is missing.
pub open spec fn cut_short(name: Seq<char>, max: int) -> Seq<char> {
    if name.len() <= max {
        name
    } else {
        name.take(max) + "..."@
    }
}

/// See [`cut_short`].
pub fn truncate_branch(name: &str, max: usize) -> (r: String)
    ensures
        r@ == cut_short(name@, max as int),
{
    let v = chars_of(name);
    if v.len() <= max {
        name.to_owned()
    } else {
        text_of(upto(&v, max)).concat("...")
    }
}

/// The branch marker of the prompt.
pub open spec fn branch_marker(branch: Option<Seq<char>>) -> Seq<char> {
    match branch {
        Some(b) => BRANCH_PREFIX@ + cut_short(b, BRANCH_NAME_MAX as int),
        None => Seq::empty(),
    }
}

/// See [`branch_marker`].
pub fn branch_indicator(branch: Option<&str>) -> (r: String)
    ensures
        r@ == branch_marker(branch.deep_view()),
{
    match branch {
        Some(b) => BRANCH_PREFIX.to_owned().concat(&truncate_branch(b, BRANCH_NAME_MAX)),
        None => String::new(),
    }
}

} // verus!
