//! Sharing the event log through a branch of a git repository. Event files are
//! only ever appended to by the host that they are named after, so that nothing
//! has to be merged.

use vstd::prelude::*;

use crate::paths;
use crate::schema::{StorageSyncConfig, SyncMode};
use crate::text;

verus! {

/// The remote that is used where no location is given.
pub const DEFAULT_LOCATION: &'static str = "origin";

/// The location that the event log is shared at, if it is shared.
pub open spec fn shared_at(sync: StorageSyncConfig) -> Option<Seq<char>> {
    match sync.mode {
        SyncMode::Off => None,
        SyncMode::Git => match sync.location {
            Some(location) => Some(location@),
            None => Some(DEFAULT_LOCATION@),
        },
    }
}

/// The location that the event log is shared at, if it is shared.
pub fn sync_location(sync: &StorageSyncConfig) -> (location: Option<&str>)
    ensures
        match location {
            Some(l) => shared_at(*sync) == Some(l@),
            None => shared_at(*sync) is None,
        },
{
    match sync.mode {
        SyncMode::Off => None,
        SyncMode::Git => match &sync.location {
            Some(location) => Some(location.as_str()),
            None => Some(DEFAULT_LOCATION),
        },
    }
}

/// A location that names a URL or a path rather than a remote.
pub open spec fn is_address(location: Seq<char>) -> bool {
    location.contains('/') || location.contains(':')
}

/// Whether a location names a URL or a path rather than a remote.
pub fn names_address(location: &str) -> (r: bool)
    ensures
        r == is_address(location@),
{
    let chars: Vec<char> = text::chars_of(location);
    let mut i: usize = 0;
    while i < chars.len()
        invariant
            0 <= i <= chars@.len(),
            chars@ == location@,
            forall|j: int|
                0 <= j < i ==> #[trigger] location@[j] != '/' && location@[j] != ':',
        decreases chars.len() - i,
    {
        if chars[i] == '/' || chars[i] == ':' {
            proof {
                assert(location@.contains(location@[i as int]));
            }
            return true;
        }
        i += 1;
    }
    false
}

/// The URL or path that a location stands for, given the URL of the remote of
/// that name where there is one.
pub open spec fn address_of(location: Seq<char>, remote_url: Option<Seq<char>>) -> Seq<char> {
    if is_address(location) {
        location
    } else {
        match remote_url {
            Some(url) => url,
            None => location,
        }
    }
}

/// The URL or path that a location stands for, given the URL of the remote of
/// that name where there is one.
pub fn resolve_location(location: &str, remote_url: Option<String>) -> (address: String)
    ensures
        address@ == address_of(location@, text::optional(remote_url)),
{
    if names_address(location) {
        return location.to_owned();
    }
    match remote_url {
        Some(url) => url,
        None => location.to_owned(),
    }
}

/// What brings the working copy to the shared branch.
#[derive(Debug, Clone, Copy, PartialEq, Eq, Structural)]
pub enum BranchStep {
    /// The branch is checked out already, and stays as it is.
    Keep,
    /// The branch is checked out already, and follows what was fetched.
    Reset,
    /// The branch is checked out from what was fetched.
    Checkout,
    /// The branch begins here.
    Orphan,
}

/// What brings the working copy to the shared branch.
pub open spec fn step_to(
    branch: Seq<char>,
    current: Seq<char>,
    fetched: bool,
    head_known: bool,
) -> BranchStep {
    if current == branch {
        if fetched {
            BranchStep::Reset
        } else {
            BranchStep::Keep
        }
    } else if fetched && head_known {
        BranchStep::Checkout
    } else {
        BranchStep::Orphan
    }
}

/// What brings the working copy to the shared branch, given the branch that is
/// checked out, whether the shared branch was fetched, and whether what was
/// fetched is known to git.
pub fn branch_step(branch: &str, current: &str, fetched: bool, head_known: bool) -> (step:
    BranchStep)
    ensures
        step == step_to(branch@, current@, fetched, head_known),
{
    if text::same(current, branch) {
        if fetched {
            BranchStep::Reset
        } else {
            BranchStep::Keep
        }
    } else if fetched && head_known {
        BranchStep::Checkout
    } else {
        BranchStep::Orphan
    }
}

/// A file that holds events.
pub open spec fn holds_events(path: Seq<char>) -> bool {
    paths::extension_of(path) == Some("jsonl"@)
}

/// Whether a file holds events.
pub fn is_event_file(path: &str) -> (r: bool)
    ensures
        r == holds_events(path@),
{
    match paths::extension(path) {
        Some(extension) => text::same(extension, "jsonl"),
        None => false,
    }
}

/// The files of a directory that hold events, in order.
pub open spec fn events_among(names: Seq<Seq<char>>) -> Seq<Seq<char>>
    decreases names.len(),
{
    if names.len() == 0 {
        Seq::empty()
    } else if holds_events(names.last()) {
        events_among(names.drop_last()).push(names.last())
    } else {
        events_among(names.drop_last())
    }
}

/// The files of a directory that hold events, in order.
pub fn event_files(names: &Vec<String>) -> (found: Vec<String>)
    ensures
        text::views(found@) == events_among(text::views(names@)),
{
    let ghost all = text::views(names@);
    let mut found: Vec<String> = Vec::new();
    proof {
        assert(text::views(found@) =~= Seq::empty());
    }
    let mut i: usize = 0;
    while i < names.len()
        invariant
            0 <= i <= names@.len(),
            all == text::views(names@),
            text::views(found@) == events_among(all.take(i as int)),
        decreases names.len() - i,
    {
        proof {
            assert(all.take(i + 1).drop_last() =~= all.take(i as int));
            assert(all.take(i + 1).last() == names@[i as int]@);
        }
        if is_event_file(names[i].as_str()) {
            let name: String = names[i].clone();
            proof {
                text::lemma_views_push(found@, name);
            }
            found.push(name);
        }
        i += 1;
    }
    proof {
        assert(all.take(all.len() as int) =~= all);
    }
    found
}

/// How many files a pull brings, given the files of the working copy: those that
/// hold events, and none where the shared branch could not be fetched.
pub fn pulled_count(fetched: bool, names: &Vec<String>) -> (n: usize)
    ensures
        n == if fetched {
            events_among(text::views(names@)).len()
        } else {
            0
        },
{
    if !fetched {
        return 0;
    }
    let found: Vec<String> = event_files(names);
    proof {
        assert(text::views(found@).len() == found@.len());
    }
    found.len()
}

/// The working copy of the shared branch.
pub fn sync_repo_dir(history_dir: &str) -> (dir: String)
    ensures
        dir@ == paths::joined_path(history_dir@, "sync-repo"@),
{
    paths::join(history_dir, "sync-repo")
}

/// What is checked out already is never thrown away for want of a fetch.
pub proof fn a_failed_fetch_keeps_the_branch(branch: Seq<char>, head_known: bool)
    ensures
        step_to(branch, branch, false, head_known) == BranchStep::Keep,
{
}

/// Where a history is shared: nowhere where that is switched off, and at `origin`
/// where no place was given.
pub proof fn histories_are_shared_where_they_say(sync: StorageSyncConfig)
    ensures
        sync.mode == SyncMode::Off ==> shared_at(sync) is None,
        sync.mode == SyncMode::Git ==> (sync.location matches Some(l) ==> shared_at(sync) == Some(
            l@,
        )),
        sync.mode == SyncMode::Git && sync.location is None ==> shared_at(sync) == Some("origin"@),
{
}

/// A place with a slash or a colon is an address; another is the name of a remote,
/// and stands for its address where that is known.
pub proof fn names_stand_for_their_address(location: Seq<char>, url: Seq<char>)
    ensures
        location.contains('/') || location.contains(':') ==> address_of(location, Some(url))
            == location,
        !location.contains('/') && !location.contains(':') ==> address_of(location, Some(url))
            == url,
        address_of(location, None) == location,
{
}

/// How a branch is reached: one that is checked out is reset to what was fetched
/// and kept as it is where nothing was; another is checked out where it was fetched
/// and its head is known, and begun anew otherwise.
pub proof fn branches_are_reached_by_what_was_fetched(
    branch: Seq<char>,
    current: Seq<char>,
    fetched: bool,
    head_known: bool,
)
    ensures
        current == branch && fetched ==> step_to(branch, current, fetched, head_known)
            == BranchStep::Reset,
        current != branch && fetched && head_known ==> step_to(
            branch,
            current,
            fetched,
            head_known,
        ) == BranchStep::Checkout,
        current != branch && !(fetched && head_known) ==> step_to(
            branch,
            current,
            fetched,
            head_known,
        ) == BranchStep::Orphan,
{
}

/// The files of events are those whose name ends in `.jsonl`.
pub proof fn event_files_are_told_by_their_extension(names: Seq<Seq<char>>)
    ensures
        events_among(names) == names.filter(
            |n: Seq<char>| paths::extension_of(n) == Some("jsonl"@),
        ),
    decreases names.len(),
{
    reveal(Seq::filter);
    if names.len() > 0 {
        event_files_are_told_by_their_extension(names.drop_last());
    }
}

} // verus!
