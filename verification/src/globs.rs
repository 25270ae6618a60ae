//! Glob patterns over paths.

use vstd::prelude::*;

use crate::text;

verus! {

/// Whether a glob pattern matches a path, or `None` for a pattern that is not a
/// glob, or too large to compile.
pub uninterp spec fn glob_match(pattern: Seq<char>, path: Seq<char>) -> Option<bool>;

/// Calls `globset::Glob::new`, `GlobSetBuilder::build` with that one glob, and
/// `GlobSet::is_match`: whether the pattern matches the path, or `None` where
/// `Glob::new` refuses the pattern or the set does not build. The result is named
/// `glob_match`.
#[verifier::external_body]
pub(crate) fn glob_is_match(pattern: &str, path: &str) -> (matched: Option<bool>)
    ensures
        matched == glob_match(pattern@, path@),
{
    let glob = globset::Glob::new(pattern).ok()?;
    let set = globset::GlobSetBuilder::new().add(glob).build().ok()?;
    Some(set.is_match(path))
}

/// Whether a pattern is a glob.
pub uninterp spec fn glob_valid(pattern: Seq<char>) -> bool;

/// Calls `globset::Glob::new`: whether it takes the pattern, which is named
/// `glob_valid`.
#[verifier::external_body]
fn is_glob(pattern: &str) -> (valid: bool)
    ensures
        valid == glob_valid(pattern@),
{
    globset::Glob::new(pattern).is_ok()
}

/// Whether a set of patterns matches a path, or `None` where one of them is not a
/// glob, or the set is too large to compile.
pub uninterp spec fn glob_set_match(patterns: Seq<Seq<char>>, path: Seq<char>) -> Option<bool>;

/// Calls `globset::Glob::new` on each pattern, `GlobSetBuilder::add` and
/// `GlobSetBuilder::build`, and `GlobSet::is_match`: whether the set matches the
/// path, or `None` where a pattern is refused or the set does not build. The
/// result is named `glob_set_match`. A set that builds matches where one of its
/// globs does, and does not where none does.
#[verifier::external_body]
fn glob_set_is_match(patterns: &Vec<String>, path: &str) -> (matched: Option<bool>)
    ensures
        matched == glob_set_match(text::views(patterns@), path@),
        matched is Some && (exists|i: int|
            0 <= i < patterns@.len() && glob_match((#[trigger] patterns@[i])@, path@) == Some(true))
            ==> matched == Some(true),
        matched is Some && (forall|i: int|
            0 <= i < patterns@.len() ==> glob_match((#[trigger] patterns@[i])@, path@) == Some(
                false,
            )) ==> matched == Some(false),
{
    let mut builder = globset::GlobSetBuilder::new();
    for pattern in patterns {
        builder.add(globset::Glob::new(pattern).ok()?);
    }
    Some(builder.build().ok()?.is_match(path))
}

/// The patterns that are globs, in order.
pub open spec fn globs_among(patterns: Seq<Seq<char>>) -> Seq<Seq<char>>
    decreases patterns.len(),
{
    if patterns.len() == 0 {
        Seq::empty()
    } else if glob_valid(patterns.last()) {
        globs_among(patterns.drop_last()).push(patterns.last())
    } else {
        globs_among(patterns.drop_last())
    }
}

/// The set of those patterns that are globs matches the path. A set that is too
/// large to compile matches nothing.
pub open spec fn any_glob_matches(patterns: Seq<Seq<char>>, path: Seq<char>) -> bool {
    glob_set_match(globs_among(patterns), path) == Some(true)
}

/// Whether one of the patterns is a glob and matches the path.
pub fn any_match(patterns: &Vec<String>, path: &str) -> (matched: bool)
    ensures
        matched == any_glob_matches(text::views(patterns@), path@),
{
    let ghost all = text::views(patterns@);
    let mut globs: Vec<String> = Vec::new();
    proof {
        assert(text::views(globs@) =~= Seq::empty());
    }
    let mut i: usize = 0;
    while i < patterns.len()
        invariant
            0 <= i <= patterns@.len(),
            all == text::views(patterns@),
            text::views(globs@) == globs_among(all.take(i as int)),
        decreases patterns.len() - i,
    {
        proof {
            assert(all.take(i + 1).drop_last() =~= all.take(i as int));
            assert(all.take(i + 1).last() == patterns@[i as int]@);
        }
        if is_glob(patterns[i].as_str()) {
            let glob: String = patterns[i].clone();
            proof {
                text::lemma_views_push(globs@, glob);
            }
            globs.push(glob);
        }
        i += 1;
    }
    proof {
        assert(all.take(all.len() as int) =~= all);
    }
    match glob_set_is_match(&globs, path) {
        Some(matched) => matched,
        None => false,
    }
}

} // verus!
