//! What the linters of a repository leave out.

use autoreview::rule_factory::config_gap_report::{
    build_report, compare_linter_configs_to_rule_catalog, detekt_checks, eslint_checks, golangci_checks,
    parse_checkstyle_config, EslintSeverity, EslintValue, LinterCheckStatus, LinterConfig,
};
use autoreview::rule_factory::existing_rules::ExistingRuleSummary;

fn rule(id: &str) -> ExistingRuleSummary {
    ExistingRuleSummary { id: id.to_string(), category: "correctness".to_string(), message: String::new() }
}

fn names(value: &serde_yaml::Value) -> Vec<String> {
    value.as_sequence().map(|s| s.iter().map(|v| v.as_str().unwrap().to_string()).collect()).unwrap_or_default()
}

fn parse_golangci_config(yaml: &str) -> Vec<LinterCheckStatus> {
    let config: serde_yaml::Value = serde_yaml::from_str(yaml).unwrap();
    golangci_checks(&names(&config["linters"]["enable"]), &names(&config["linters"]["disable"]))
}

fn value_of(value: &serde_json::Value) -> EslintValue {
    match value {
        serde_json::Value::String(s) => EslintValue::Text(s.clone()),
        serde_json::Value::Number(n) => n.as_i64().map(EslintValue::Number).unwrap_or(EslintValue::Other),
        _ => EslintValue::Other,
    }
}

fn parse_eslintrc(contents: &str, is_yaml: bool) -> Vec<LinterCheckStatus> {
    let config: serde_json::Value = if is_yaml { serde_yaml::from_str(contents).unwrap() } else { serde_json::from_str(contents).unwrap() };
    let rules = config["rules"]
        .as_object()
        .unwrap()
        .iter()
        .map(|(name, value)| match value.as_array() {
            Some(items) => (name.clone(), EslintSeverity::WithOptions(items.iter().map(value_of).collect())),
            None => (name.clone(), EslintSeverity::Bare(value_of(value))),
        })
        .collect();
    eslint_checks(&rules)
}

fn parse_detekt_config(yaml: &str) -> Vec<LinterCheckStatus> {
    let config: serde_json::Value = serde_yaml::from_str(yaml).unwrap();
    let rules = config
        .as_object()
        .unwrap()
        .values()
        .flat_map(|set| set.as_object().unwrap().iter())
        .map(|(name, value)| (name.clone(), value["active"].as_bool()))
        .collect();
    detekt_checks(&rules)
}

#[test]
fn parses_a_real_golangci_v2_config() {
    let yaml = "version: \"2\"\nlinters:\n  enable:\n    - unused\n    - gocyclo\n  disable:\n    - errcheck\n";
    let checks = parse_golangci_config(yaml);
    assert!(checks.contains(&LinterCheckStatus { name: "unused".to_string(), enabled: true }));
    assert!(checks.contains(&LinterCheckStatus { name: "errcheck".to_string(), enabled: false }));
}

#[test]
fn parses_eslint_bare_off_and_error_severities() {
    let json = r#"{"rules": {"no-unused-vars": "error", "eqeqeq": "off", "no-console": 0}}"#;
    let checks = parse_eslintrc(json, false);
    assert!(checks.contains(&LinterCheckStatus { name: "no-unused-vars".to_string(), enabled: true }));
    assert!(checks.contains(&LinterCheckStatus { name: "eqeqeq".to_string(), enabled: false }));
    assert!(checks.contains(&LinterCheckStatus { name: "no-console".to_string(), enabled: false }));
}

#[test]
fn parses_eslint_array_with_options_severity() {
    let json = r#"{"rules": {"quotes": ["error", "single"]}}"#;
    let checks = parse_eslintrc(json, false);
    assert_eq!(checks, vec![LinterCheckStatus { name: "quotes".to_string(), enabled: true }]);
}

#[test]
fn parses_eslintrc_yaml_form() {
    let yaml = "rules:\n  no-var: error\n";
    let checks = parse_eslintrc(yaml, true);
    assert_eq!(checks, vec![LinterCheckStatus { name: "no-var".to_string(), enabled: true }]);
}

#[test]
fn parses_checkstyle_modules_and_skips_structural_wrappers() {
    let xml = r#"<?xml version="1.0"?>
<module name="Checker">
    <module name="TreeWalker">
        <module name="UnusedImports"/>
        <module name="EmptyBlock"/>
    </module>
</module>"#;
    let checks = parse_checkstyle_config(xml);
    let names: Vec<&str> = checks.iter().map(|c| c.name.as_str()).collect();
    assert!(names.contains(&"UnusedImports"), "got: {names:?}");
    assert!(names.contains(&"EmptyBlock"), "got: {names:?}");
    assert!(!names.contains(&"Checker"), "got: {names:?}");
    assert!(!names.contains(&"TreeWalker"), "got: {names:?}");
    assert!(checks.iter().all(|c| c.enabled), "every checkstyle module is treated as enabled");
}

#[test]
fn parses_detekt_nested_ruleset_config() {
    let yaml = "style:\n  MagicNumber:\n    active: false\n  ForbiddenComment:\n    active: true\n";
    let checks = parse_detekt_config(yaml);
    assert!(checks.contains(&LinterCheckStatus { name: "MagicNumber".to_string(), enabled: false }));
    assert!(checks.contains(&LinterCheckStatus { name: "ForbiddenComment".to_string(), enabled: true }));
}

#[test]
fn detekt_check_defaults_to_active_when_the_field_is_absent() {
    let yaml = "style:\n  MagicNumber: {}\n";
    let checks = parse_detekt_config(yaml);
    assert_eq!(checks, vec![LinterCheckStatus { name: "MagicNumber".to_string(), enabled: true }]);
}

#[test]
fn build_report_surfaces_a_disabled_check_matching_an_existing_rule() {
    let checks = vec![LinterCheckStatus { name: "weak-random-for-tokens".to_string(), enabled: false }];
    let existing = vec![rule("go-weak-random-for-tokens")];
    let report = build_report("golangci-lint", ".golangci.yml", &checks, &existing);
    assert_eq!(report.disabled_matches.len(), 1, "got: {report:#?}");
    assert_eq!(report.disabled_matches[0].autoreview_rule_id, "go-weak-random-for-tokens");
    assert!(report.uncovered_checks.is_empty());
}

#[test]
fn build_report_surfaces_an_enabled_check_with_no_match_as_uncovered() {
    let checks = vec![LinterCheckStatus { name: "completely-unrelated-xyz".to_string(), enabled: true }];
    let existing = vec![rule("go-weak-random-for-tokens")];
    let report = build_report("golangci-lint", ".golangci.yml", &checks, &existing);
    assert!(report.disabled_matches.is_empty());
    assert_eq!(report.uncovered_checks, vec!["completely-unrelated-xyz".to_string()]);
}

#[test]
fn compare_linter_configs_returns_empty_when_no_config_files_exist() {
    assert!(compare_linter_configs_to_rule_catalog(&vec![], &[]).is_empty());
}

#[test]
fn compare_linter_configs_finds_and_reports_a_real_golangci_config() {
    let checks = parse_golangci_config("version: \"2\"\nlinters:\n  disable:\n    - weak-random-for-tokens\n");
    let configs = vec![LinterConfig { tool: "golangci-lint".to_string(), config_path: ".golangci.yml".to_string(), checks }];
    let existing = vec![rule("go-weak-random-for-tokens")];
    let reports = compare_linter_configs_to_rule_catalog(&configs, &existing);
    assert_eq!(reports.len(), 1, "got: {reports:#?}");
    assert_eq!(reports[0].tool, "golangci-lint");
    assert_eq!(reports[0].disabled_matches.len(), 1);
}

#[test]
fn the_head_of_an_eslint_list_is_the_severity() {
    let enabled = |setting: &str| parse_eslintrc(&format!("{{\"rules\": {{\"r\": {setting}}}}}"), false)[0].enabled;
    assert!(!enabled("[]"));
    assert!(!enabled("[\"off\", {\"max\": 3}]"));
    assert!(!enabled("[0, 2]"));
    assert!(enabled("[2, 0]"));
    assert!(enabled("[\"error\", \"off\"]"));
    assert!(enabled("[[\"off\"]]"));
    assert!(!enabled("0") && !enabled("\"off\"") && enabled("1") && enabled("true") && enabled("0.5"));
}
