//! Mining the commits that fix bugs.

use autoreview::rule_factory::mine::mine_candidates;
use autoreview::rule_factory::mine_from_bugfix_commits::{
    diff_text_to_mined_row, is_bugfix_subject, mine_from_bugfix_commits, Commit, CommitDiffs, FileDiff,
};

fn commit(sha: &str, subject: &str, files: &[(&str, &str)]) -> CommitDiffs {
    CommitDiffs {
        commit: Commit { sha: sha.to_string(), subject: subject.to_string() },
        files: files.iter().map(|(path, diff)| FileDiff { path: path.to_string(), diff: Some(diff.to_string()) }).collect(),
    }
}

#[test]
fn recognizes_bugfix_shaped_subjects() {
    for subject in ["Fix null pointer in handler", "fixed a race condition", "bugfix: off-by-one in loop", "patch the memory leak"] {
        assert!(is_bugfix_subject(subject), "expected {subject:?} to be recognized");
    }
}

#[test]
fn does_not_match_prefix_suffix_or_debug_as_a_substring() {
    for subject in ["Add a prefix option to the logger", "Refactor debug output", "Support custom suffix strings", "Improve traffic throughput"] {
        assert!(!is_bugfix_subject(subject), "expected {subject:?} NOT to be recognized (substring false positive)");
    }
}

#[test]
fn recognizes_a_bugfix_keyword_regardless_of_case() {
    assert!(is_bugfix_subject("FIX: crash on empty input"));
}

#[test]
fn diff_text_to_mined_row_builds_the_expected_shape() {
    let row = diff_text_to_mined_row("abc123", "Fix null check", "main.go", "-if x != nil {\n+if x == nil {\n");
    assert_eq!(row.fingerprint, "bugfix-abc123-main.go");
    assert_eq!(row.run_id, "abc123");
    assert_eq!(row.rule_id_or_aspect, "bugfix-commit");
    assert_eq!(row.title, "Fix null check");
    assert_eq!(row.category, "correctness");
}

#[test]
fn mines_a_real_bugfix_commit_from_a_real_git_repo() {
    let commits = vec![
        commit("c1", "Fix nil pointer dereference in f", &[("main.go", "@@ -2,5 +2,8 @@ package main\n \n func f(x *int) {\n+\tif x == nil {\n+\t\treturn\n+\t}\n \tprintln(*x)\n }\n")]),
        commit("c2", "Add a readme", &[("README.md", "@@ -0,0 +1 @@\n+# hello\n")]),
    ];
    let rows = mine_from_bugfix_commits(&commits);
    assert_eq!(rows.len(), 1, "got: {rows:#?}");
    assert_eq!(rows[0].title, "Fix nil pointer dereference in f");
    assert!(rows[0].message.contains("x == nil"), "got: {}", rows[0].message);
}

#[test]
fn does_not_mine_a_non_bugfix_commit() {
    let commits = vec![commit("c1", "Add helper function f", &[("main.go", "@@ -1 +1,3 @@\n package main\n+\n+func f() {}\n")])];
    let rows = mine_from_bugfix_commits(&commits);
    assert!(rows.is_empty(), "got: {rows:#?}");
}

#[test]
fn a_realistic_chain_of_three_similar_fixes_clusters_into_one_seed() {
    let commits: Vec<CommitDiffs> = ["a", "b", "c"]
        .iter()
        .map(|name| {
            let path = format!("handler_{name}.go");
            let diff = format!("diff --git a/{path} b/{path}\nindex 1111111..2222222 100644\n--- a/{path}\n+++ b/{path}\n@@ -1,5 +1,8 @@\n package main\n \n func handle{name}(v *int) {{\n+\tif v == nil {{\n+\t\treturn\n+\t}}\n \tprintln(*v)\n }}\n");
            commit(&format!("sha-{name}"), &format!("Fix nil pointer dereference in handle{name}"), &[(path.as_str(), diff.as_str())])
        })
        .chain([commit("sha-d", "Add project readme", &[("README.md", "@@ -0,0 +1 @@\n+# example\n")])])
        .collect();
    let rows = mine_from_bugfix_commits(&commits);
    assert_eq!(rows.len(), 3, "got: {rows:#?}");

    let seeds = mine_candidates(rows);
    assert_eq!(seeds.len(), 1, "got: {seeds:#?}");
    assert_eq!(seeds[0].distinct_run_count, 3);
}
