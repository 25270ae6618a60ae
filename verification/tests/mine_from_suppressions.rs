//! Mining the lines that silence a linter.

use autoreview::rule_factory::mine::mine_candidates;
use autoreview::rule_factory::mine_from_code::SourceFile;
use autoreview::rule_factory::mine_from_suppressions::{
    extract_context, mine_from_suppressions, skips_directory, suppression_marker_in_line, suppressions_in_file,
};

#[test]
fn recognizes_common_suppression_markers() {
    for line in ["result, _ := risky() // nolint", "//nolint:errcheck", "@SuppressWarnings(\"unchecked\")", "// eslint-disable-next-line no-unused-vars", "x = f()  # noqa: E501"] {
        assert!(suppression_marker_in_line(line).is_some(), "expected {line:?} to be recognized");
    }
}

#[test]
fn does_not_match_an_ordinary_line() {
    assert!(suppression_marker_in_line("result, err := risky()").is_none());
}

#[test]
fn extract_context_includes_the_explanatory_line_above() {
    let lines = vec!["// safe: caller always checks the pointer first".to_string(), "result, _ := risky() // nolint".to_string()];
    let ctx = extract_context(&lines, 1);
    assert!(ctx.contains("safe: caller always checks"), "got: {ctx}");
    assert!(ctx.contains("nolint"), "got: {ctx}");
}

#[test]
fn suppressions_in_file_builds_the_expected_row_shape() {
    let rows = suppressions_in_file("pkg/handler.go", "package pkg\n\nresult, _ := risky() // nolint\n");
    assert_eq!(rows.len(), 1, "got: {rows:#?}");
    assert_eq!(rows[0].fingerprint, "suppression-pkg/handler.go-3");
    assert_eq!(rows[0].run_id, "pkg/handler.go");
    assert_eq!(rows[0].rule_id_or_aspect, "lint-suppression");
}

#[test]
fn skips_a_file_with_no_suppressions() {
    assert!(suppressions_in_file("pkg/clean.go", "package pkg\n\nfunc f() {}\n").is_empty());
}

#[test]
fn mines_real_suppressions_from_a_real_directory_tree_and_skips_vendor() {
    let tree = [("pkg", "pkg/a.go", "package pkg\n\nresult, _ := risky() // nolint\n"), ("vendor", "vendor/dep/b.go", "package dep\n\nresult, _ := risky() // nolint\n")];
    let files: Vec<SourceFile> = tree
        .iter()
        .filter(|(dir, _, _)| !skips_directory(dir))
        .map(|(_, path, content)| SourceFile { path: path.to_string(), content: content.to_string() })
        .collect();
    let rows = mine_from_suppressions(&files);
    assert_eq!(rows.len(), 1, "got: {rows:#?} — vendor/ must be skipped");
    assert_eq!(rows[0].run_id, "pkg/a.go");
}

#[test]
fn a_suppression_pattern_recurring_across_three_files_clusters_into_one_seed() {
    let files: Vec<SourceFile> = ["a", "b", "c"]
        .iter()
        .map(|name| SourceFile {
            path: format!("{name}.go"),
            content: format!("package pkg\n\n// caller always validates first\nresult, _ := risky{name}() // nolint:errcheck\n"),
        })
        .collect();
    let rows = mine_from_suppressions(&files);
    assert_eq!(rows.len(), 3, "got: {rows:#?}");

    let seeds = mine_candidates(rows);
    assert_eq!(seeds.len(), 1, "got: {seeds:#?}");
    assert_eq!(seeds[0].distinct_run_count, 3);
}
