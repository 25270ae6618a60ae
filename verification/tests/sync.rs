//! Sharing the event log.

use autoreview::schema::{StorageSyncConfig, SyncMode};
use autoreview::storage::sync::{branch_step, event_files, pulled_count, resolve_location, sync_location, sync_repo_dir, BranchStep};

fn sync_config(mode: SyncMode, location: Option<&str>) -> StorageSyncConfig {
    StorageSyncConfig { mode, location: location.map(str::to_string), branch: "autoreview-history".to_string() }
}

#[test]
fn sync_push_is_a_no_op_when_mode_is_none() {
    assert_eq!(sync_location(&sync_config(SyncMode::Off, None)), None);
}

#[test]
fn sync_pull_is_zero_when_mode_is_none() {
    assert_eq!(sync_location(&sync_config(SyncMode::Off, Some("origin"))), None);
}

#[test]
fn the_location_defaults_to_the_origin_remote() {
    assert_eq!(sync_location(&sync_config(SyncMode::Git, None)), Some("origin"));
    assert_eq!(sync_location(&sync_config(SyncMode::Git, Some("/tmp/remote"))), Some("/tmp/remote"));
}

#[test]
fn addresses_are_passed_through_and_names_are_looked_up() {
    let url = || Some("git@example.com:team/repo.git".to_string());
    assert_eq!(resolve_location("/tmp/remote", url()), "/tmp/remote");
    assert_eq!(resolve_location("host:repo", url()), "host:repo");
    assert_eq!(resolve_location("origin", url()), "git@example.com:team/repo.git");
    assert_eq!(resolve_location("origin", None), "origin");
}

#[test]
fn the_working_copy_follows_the_shared_branch() {
    assert_eq!(branch_step("b", "b", true, true), BranchStep::Reset);
    assert_eq!(branch_step("b", "b", false, true), BranchStep::Keep);
    assert_eq!(branch_step("b", "main", true, true), BranchStep::Checkout);
    assert_eq!(branch_step("b", "main", true, false), BranchStep::Orphan);
    assert_eq!(branch_step("b", "", false, false), BranchStep::Orphan);
}

#[test]
fn only_event_files_are_copied() {
    let names = ["2026-07-14-hostA.jsonl", "notes.txt", ".jsonl", "2026-07-14-hostB.jsonl"].map(str::to_string).to_vec();
    assert_eq!(event_files(&names), vec!["2026-07-14-hostA.jsonl".to_string(), "2026-07-14-hostB.jsonl".to_string()]);
    assert_eq!(sync_repo_dir("/h"), "/h/sync-repo");
}

#[test]
fn a_pull_that_fetched_nothing_brings_nothing() {
    let names = ["a.jsonl", "b.jsonl", "notes.txt"].map(str::to_string).to_vec();
    assert_eq!(pulled_count(true, &names), event_files(&names).len());
    assert_eq!(pulled_count(true, &names), 2);
    assert_eq!(pulled_count(false, &names), 0);
    assert_eq!(pulled_count(true, &vec![]), 0);
}
