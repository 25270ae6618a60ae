//! What holds of mining, whatever is mined.

use autoreview::clusters::cluster_texts;
use autoreview::report::dedupe::{title_similarity, Similarity};
use autoreview::rule_factory::bench::{
    next_directory, run_bench, sample_entries, start_sampling, BenchCounts, BenchVerdict, DirEntry, Sampling, FP_SAMPLE_CAP,
};
use autoreview::rule_factory::category_heuristics::guess_category;
use autoreview::rule_factory::config_gap_report::{build_report, parse_checkstyle_config, LinterCheckStatus};
use autoreview::rule_factory::existing_rules::{find_similar_existing_rule, ExistingRuleSummary};
use autoreview::rule_factory::mine::{cluster_id_for, mine_candidates};
use autoreview::rule_factory::mine_from_bugfix_commits::{
    mine_from_bugfix_commits, parse_commit_log, Commit, CommitDiffs, FileDiff,
};
use autoreview::rule_factory::mine_from_code::{call_events, mine_call_pair_conventions, SourceFile};
use autoreview::rule_factory::mine_from_comments::{comment_to_mined_row, GhReviewComment};
use autoreview::rule_factory::mine_from_suppressions::mine_from_suppressions;
use autoreview::rule_factory::shadow::{should_demote, should_promote, PromotionInputs};
use autoreview::skill_evolution::mine::proposal_text;
use autoreview::skill_evolution::mine::{mine_negative_guidance, NegativeGuidanceSeed};
use autoreview::storage::{FpFeedbackRow, MinedFindingRow};

fn file(path: &str, content: &str) -> SourceFile {
    SourceFile { path: path.to_string(), content: content.to_string() }
}

fn row(fingerprint: &str, run_id: &str) -> MinedFindingRow {
    MinedFindingRow {
        fingerprint: fingerprint.to_string(),
        category: "correctness".to_string(),
        rule_id_or_aspect: "r".to_string(),
        title: "t".to_string(),
        message: "the same message every time".to_string(),
        run_id: run_id.to_string(),
    }
}

fn commit(sha: &str, subject: &str) -> CommitDiffs {
    CommitDiffs {
        commit: Commit { sha: sha.to_string(), subject: subject.to_string() },
        files: vec![FileDiff { path: "a.go".to_string(), diff: Some("@@ -1 +1 @@\n-a\n+b\n".to_string()) }],
    }
}

#[test]
fn similarity_is_the_share_of_common_windows() {
    assert_eq!(title_similarity("abcd", "bcde"), Similarity { shared: 1, total: 3 });
    assert_eq!(title_similarity("abcabc", "abc"), Similarity { shared: 1, total: 3 });
    assert_eq!(title_similarity("ab", "ab"), Similarity { shared: 0, total: 0 });
    assert!(title_similarity("abcd", "abcd").at_least(100));
    assert!(title_similarity("abcd", "bcde").at_least(33) && !title_similarity("abcd", "bcde").at_least(34));
    assert!(!title_similarity("ab", "ab").at_least(0));
    assert!(title_similarity("abcd", "bcde").less_than(title_similarity("abcd", "abcd")));
}

#[test]
fn clusters_group_texts_around_their_first() {
    let texts = ["missing null check", "sql injection", "missing null checks", "sql injections"].map(str::to_string).to_vec();
    assert_eq!(cluster_texts(&texts), vec![vec![0, 2], vec![1, 3]]);
    assert!(cluster_texts(&vec![]).is_empty());
}

#[test]
fn seeds_quote_five_findings_at_most() {
    let rows = (0..8).map(|i| row(&format!("f{i}"), if i % 2 == 0 { "run-1" } else { "run-2" })).collect();
    let seeds = mine_candidates(rows);
    assert_eq!(seeds.len(), 1);
    assert_eq!(seeds[0].member_fingerprints.len(), 8);
    assert_eq!(seeds[0].distinct_run_count, 2);
    assert_eq!(seeds[0].representative_snippets.len(), 5);
    assert_eq!(seeds[0].cluster_id, cluster_id_for("correctness", "t"));
    assert_eq!(cluster_id_for("correctness", "t"), "52a9633fd5327129");
}

#[test]
fn security_outranks_every_other_category() {
    assert_eq!(guess_category("SQL INJECTION makes the query slow"), "security");
}

#[test]
fn rows_of_one_file_share_its_run() {
    let rows = mine_from_suppressions(&vec![file("a.go", "x := 1 //nolint:errcheck\ny := 2 //nolint:errcheck\n")]);
    assert_eq!(rows.len(), 2);
    assert_eq!(rows[0].run_id, rows[1].run_id);
}

#[test]
fn other_commits_change_nothing() {
    let fixes = vec![commit("aaa", "Fix the race")];
    let all = vec![commit("bbb", "Add a feature"), commit("aaa", "Fix the race"), commit("ccc", "Tidy up")];
    let mined = mine_from_bugfix_commits(&fixes);
    assert_eq!(mined.len(), 1);
    let among_others = mine_from_bugfix_commits(&all);
    assert_eq!(among_others.len(), 1);
    assert_eq!(among_others[0].fingerprint, mined[0].fingerprint);
}

#[test]
fn commit_logs_hold_a_hash_and_a_subject_per_line() {
    let commits = parse_commit_log("abc\u{1f}Fix it\nno separator here\ndef\u{1f}Add\u{1f}more\n");
    let seen: Vec<(&str, &str)> = commits.iter().map(|c| (c.sha.as_str(), c.subject.as_str())).collect();
    assert_eq!(seen, vec![("abc", "Fix it"), ("def", "Add\u{1f}more")]);
}

#[test]
fn long_diffs_are_cut() {
    let mut long = commit("abc", "Fix it");
    long.files[0].diff = Some("é".repeat(4000));
    let rows = mine_from_bugfix_commits(&vec![long]);
    assert_eq!(rows[0].message, "é".repeat(1500));
    assert_eq!(rows[0].title, "Fix it");
}

#[test]
fn short_comments_are_not_mined() {
    let comment = |body: &str| GhReviewComment { id: 1, body: body.to_string(), path: None };
    assert!(comment_to_mined_row(&comment("nice"), 7).is_none());
    assert!(comment_to_mined_row(&comment(&"x".repeat(24)), 7).is_none());
    assert!(comment_to_mined_row(&comment(&"x".repeat(25)), 7).is_some());
}

#[test]
fn calls_near_a_call_are_named_once() {
    let events = call_events(&vec![file("a.go", "a.Lock()\nb.Do()\nb.Do()\na.Unlock()\n")]);
    assert_eq!(events[0].name, "Lock");
    assert_eq!(events[0].near, vec!["Do".to_string(), "Unlock".to_string()]);
}

#[test]
fn conventions_are_complete_and_ranked() {
    let files = vec![
        file("a.go", "x.Open()\nx.Close()\n"),
        file("b.go", "x.Open()\nx.Close()\n"),
        file("c.go", "x.Open()\n"),
        file("d.go", "y.Lock()\ny.Unlock()\n"),
        file("e.go", "y.Lock()\ny.Unlock()\n"),
    ];
    let found = mine_call_pair_conventions(&files, 2, 600_000);
    let pairs: Vec<(&str, &str, usize, usize)> =
        found.iter().map(|c| (c.call_a.as_str(), c.call_b.as_str(), c.co_occurrences, c.occurrences_of_a)).collect();
    assert!(pairs.contains(&("Lock", "Unlock", 2, 2)));
    assert!(pairs.contains(&("Open", "Close", 2, 3)));
    for two in found.windows(2) {
        assert!(!two[1].is_above(&two[0]), "{two:#?}");
    }
    let strict = mine_call_pair_conventions(&files, 2, 700_000);
    assert!(!strict.iter().any(|c| c.call_a == "Open"));
}

#[test]
fn reports_go_by_the_switch() {
    let check = |name: &str, enabled: bool| LinterCheckStatus { name: name.to_string(), enabled };
    let rules = [ExistingRuleSummary { id: "go-unchecked-error".to_string(), category: "correctness".to_string(), message: String::new() }];
    let report = build_report("golangci-lint", ".golangci.yml", &[check("unchecked-error", true), check("misspell", false)], &rules);
    assert!(report.disabled_matches.is_empty());
    assert!(report.uncovered_checks.is_empty());
    let report = build_report("golangci-lint", ".golangci.yml", &[check("unchecked-error", false), check("misspell", true)], &rules);
    assert_eq!(report.disabled_matches.len(), 1);
    assert_eq!(report.disabled_matches[0].autoreview_rule_id, "go-unchecked-error");
    assert_eq!(report.uncovered_checks, vec!["misspell".to_string()]);
}

#[test]
fn checkstyle_modules_are_read_from_xml() {
    let checks = parse_checkstyle_config("<module name=\"Checker\"><module name=\"TreeWalker\"><module name=\"EmptyBlock\"/></module></module>");
    assert_eq!(checks, vec![LinterCheckStatus { name: "EmptyBlock".to_string(), enabled: true }]);
    assert!(parse_checkstyle_config("<module").is_empty());
}

#[test]
fn samples_stop_at_the_cap() {
    let entries = |n: usize| -> Vec<DirEntry> {
        (0..n)
            .map(|i| DirEntry { path: format!("d/{i}.go"), name: format!("{i}.go"), is_dir: false, extension: Some("go".to_string()) })
            .collect()
    };
    let mut walk = Sampling { found: vec![], stack: vec![] };
    sample_entries(&mut walk, &entries(30), "go");
    assert_eq!(walk.found.len(), 30);
    sample_entries(&mut walk, &entries(30), "go");
    assert_eq!(walk.found.len(), FP_SAMPLE_CAP);
    let mut walk = Sampling { found: vec![], stack: vec![] };
    let dirs = [".git", "vendor", "src"].map(|d| DirEntry { path: format!("r/{d}"), name: d.to_string(), is_dir: true, extension: None }).to_vec();
    sample_entries(&mut walk, &dirs, "go");
    assert_eq!(walk.stack, vec!["r/src".to_string()]);
}

#[test]
fn only_rules_that_pass_their_fixtures_become_candidates() {
    let counts = |sampled_files: usize, sampled_matched: usize| BenchCounts {
        positive_total: 2,
        positive_matched: 2,
        negative_total: 1,
        negative_matched: 0,
        sampled_files,
        sampled_matched,
    };
    assert_eq!(run_bench("c", counts(0, 0)).verdict, BenchVerdict::Candidate);
    assert_eq!(run_bench("c", counts(40, 0)).verdict, BenchVerdict::Candidate);
    assert_eq!(run_bench("c", counts(40, 1)).verdict, BenchVerdict::FailedFpSmoke);
    let mut failing = counts(0, 0);
    failing.negative_matched = 1;
    assert_eq!(run_bench("c", failing).verdict, BenchVerdict::SelfTestFailed);
}

#[test]
fn promotion_and_demotion_exclude_each_other() {
    for user_fp_count in 0..6 {
        for agent_agreed in [0, 17, 18, 40] {
            let inputs = PromotionInputs { firings: 20, distinct_runs: 5, agent_agreed, agent_disagreed: 2, user_fp_count, days_since_valid_from: 7 };
            assert!(!(should_promote(&inputs) && should_demote(user_fp_count)));
            assert_eq!(should_promote(&inputs), user_fp_count == 0 && agent_agreed >= 18);
        }
    }
}

#[test]
fn proposals_list_the_reasons() {
    let report = |note: &str| FpFeedbackRow {
        category: "correctness".to_string(),
        rule_id_or_aspect: "correctness".to_string(),
        title: "Missing null check".to_string(),
        message: "Parameter is not null-checked before use".to_string(),
        note: note.to_string(),
    };
    let seeds: Vec<NegativeGuidanceSeed> = mine_negative_guidance(vec![report("caller checks"), report("never null"), report("annotated")]);
    assert_eq!(seeds.len(), 1);
    let body = proposal_text(&seeds[0], None);
    for part in ["caller checks", "never null", "annotated", "(drafting skipped or failed"] {
        assert!(body.contains(part), "{body}");
    }
    assert!(proposal_text(&seeds[0], Some("Do not flag X because Y.")).contains("Do not flag X because Y."));
}

#[test]
fn equal_categories_and_titles_give_equal_ids() {
    let named = |rule: &str, run_ids: [&str; 3]| -> Vec<MinedFindingRow> {
        run_ids.iter().enumerate().map(|(i, run_id)| MinedFindingRow { rule_id_or_aspect: rule.to_string(), ..row(&format!("{rule}{i}"), run_id) }).collect()
    };
    let first = mine_candidates(named("r", ["run-1", "run-2", "run-3"]));
    let second = mine_candidates(named("s", ["run-4", "run-5", "run-6"]));
    assert_eq!((first.len(), second.len()), (1, 1));
    assert_eq!(first[0].cluster_id, second[0].cluster_id);
    assert_eq!(first[0].cluster_id, cluster_id_for("correctness", "t"));
    assert_ne!(cluster_id_for("correctness", "t"), cluster_id_for("correctness", "u"));
}

#[test]
fn sampling_walks_read_the_last_directory_first() {
    let mut walk = start_sampling("r");
    assert_eq!(next_directory(&mut walk), Some("r".to_string()));
    assert_eq!(next_directory(&mut walk), None);
    walk.stack = vec!["a".to_string(), "b".to_string()];
    assert_eq!(next_directory(&mut walk), Some("b".to_string()));
    walk.found = vec![String::new(); FP_SAMPLE_CAP];
    assert_eq!(next_directory(&mut walk), None);
    assert_eq!(walk.stack, vec!["a".to_string()]);
}

#[test]
fn security_stays_first_whatever_is_joined_to_it() {
    let (a, b) = ("Escape the Input", "SLOW naming");
    assert_eq!(guess_category(a), "security");
    assert_eq!(guess_category(b), "performance");
    assert_eq!(guess_category(&format!("{a}{b}")), "security");
    assert_eq!(guess_category(&format!("{b}{a}")), "security");
    for text in [a, b, "nothing", "Naming"] {
        assert_eq!(guess_category(&text.to_ascii_uppercase()), guess_category(text));
    }
}

#[test]
fn no_pair_of_calls_is_mined_twice() {
    let files = vec![
        file("a.go", "x.Open()\nx.Close()\nx.Open()\nx.Close()\n"),
        file("b.go", "x.Open()\nx.Close()\n"),
    ];
    let found = mine_call_pair_conventions(&files, 1, 0);
    let mut pairs: Vec<(String, String)> = found.iter().map(|c| (c.call_a.clone(), c.call_b.clone())).collect();
    assert!(pairs.contains(&("Open".to_string(), "Close".to_string())));
    let count = pairs.len();
    pairs.sort();
    pairs.dedup();
    assert_eq!(pairs.len(), count);
}

#[test]
fn the_most_alike_rule_is_the_duplicate() {
    let mut seeds = mine_candidates(vec![row("f0", "run-1"), row("f1", "run-2"), row("f2", "run-3")]);
    let seed = seeds.remove(0);
    let rule = |id: &str, message: &str| ExistingRuleSummary { id: id.to_string(), category: "correctness".to_string(), message: message.to_string() };
    let rules = [rule("near", "t the same message every"), rule("equal", "t the same message every time"), rule("near", "the same message every time")];
    let found = find_similar_existing_rule(&seed, &rules).unwrap();
    assert_eq!(found.rule_id, "equal");
    for other in &rules {
        assert!(!found.similarity.less_than(title_similarity("t the same message every time", &other.message)));
    }
}
