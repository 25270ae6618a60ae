//! What triage knows of a diff.

use autoreview::triage::signals::{
    added_lines, collect_diff_facts, count_branch_keywords, extension_language, is_test_path, parse_numstat,
};

#[test]
fn numstat_lines_become_files() {
    let files = parse_numstat("3\t1\tsrc/a.go\n-\t-\tlogo.png\nnot a row\n10\t0\tdocs/b\tc.md\n");
    let seen: Vec<(&str, u32, u32)> = files.iter().map(|f| (f.path.as_str(), f.additions, f.deletions)).collect();
    assert_eq!(seen, vec![("src/a.go", 3, 1), ("logo.png", 0, 0), ("docs/b\tc.md", 10, 0)]);
}

#[test]
fn added_lines_leave_out_file_headers() {
    assert_eq!(added_lines("+++ b/a.go\n+if a {\n-if b {\n context\n+}\n"), "+if a {\n+}");
}

#[test]
fn branch_keywords_are_counted() {
    assert_eq!(count_branch_keywords("+if a && b {\n+} else if c || d {"), 5);
    assert_eq!(count_branch_keywords(""), 0);
    assert_eq!(count_branch_keywords("+return"), 0);
}

#[test]
fn test_paths_are_told_by_directory_and_suffix() {
    for path in ["src/test/A.kt", "TESTS/x.py", "pkg/a_test.go", "web/A.TEST.TS", "FooTest.java", "FooTest.kt"] {
        assert!(is_test_path(path), "{path}");
    }
    for path in ["src/main.go", "contest/a.go", "footest.java", "latest.ts"] {
        assert!(!is_test_path(path), "{path}");
    }
}

#[test]
fn languages_are_told_by_extension() {
    assert_eq!(extension_language("a/b.kts"), Some("kotlin"));
    assert_eq!(extension_language("a.tsx"), Some("typescript"));
    assert_eq!(extension_language("a.rs"), Some("rust"));
    assert_eq!(extension_language("Makefile"), None);
}

#[test]
fn facts_gather_what_the_files_and_the_diff_say() {
    let numstat = "5\t1\tsrc/auth/login.go\n2\t0\tgo.mod\n1\t1\t.github/workflows/ci.yml\n4\t0\tsrc/auth/login_test.go\n";
    let globs = vec!["**/auth/**".to_string()];
    let facts = collect_diff_facts("/repo", "main~1", "main", numstat, "+++ b/x\n+for i := range xs {\n", &globs);
    assert_eq!(facts.files.len(), 4);
    assert_eq!(facts.languages.len(), 1);
    assert_eq!((facts.languages[0].language.as_str(), facts.languages[0].files), ("go", 2));
    assert!(facts.sensitive_path_hit);
    assert_eq!(facts.sensitive_paths, vec!["src/auth/login.go".to_string(), "src/auth/login_test.go".to_string()]);
    assert!(facts.dependency_change);
    assert!(facts.ci_or_infra_change);
    assert!(facts.tests_touched);
    assert!(!facts.source_touched_without_tests);
    assert_eq!(facts.added_branch_keywords, 1);
}

#[test]
fn source_without_tests_is_noted() {
    let facts = collect_diff_facts("/repo", "a", "b", "1\t0\tsrc/main.go\n", "", &vec![]);
    assert!(facts.source_touched_without_tests && !facts.tests_touched);
    assert!(!facts.sensitive_path_hit && !facts.dependency_change && !facts.ci_or_infra_change);
    assert_eq!((facts.repo_root.as_str(), facts.base_ref.as_str(), facts.head_ref.as_str()), ("/repo", "a", "b"));
}
