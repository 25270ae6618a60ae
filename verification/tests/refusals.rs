//! What is refused, and how that is said.

use autoreview::dataflow::taint::NamePattern;
use autoreview::rule_factory::bench::{benchable, count_matched_files, count_named_files, BenchError};
use autoreview::rule_factory::mine_from_bitbucket_comments::{
    comments_url, merged_prs_url, response_body, wants_more_comments, BbPrPage, PrListing,
};
use autoreview::rule_packs::{resolve_rule_pack, ManifestFile, PackOnDisk, RulePackConfig, RulePackError, RulePackSourceConfig};
use autoreview::schema::{CostClass, SkillManifest, SkillTriggers, Tier};
use autoreview::skills::{compile_skill, find_skill_files, manifest_text, materialize_builtin_skill_to_disk, SkillError, SkillSource};

fn manifest() -> SkillManifest {
    SkillManifest {
        id: "security".into(),
        title: "Security".into(),
        version: "0.1.0".into(),
        categories: vec![],
        languages: vec![],
        triggers: SkillTriggers { globs: vec![], signals: vec![], always: true },
        cost_class: CostClass::Moderate,
        output_contract: "findings-json-v1".into(),
    }
}

fn pack(source: RulePackSourceConfig) -> RulePackConfig {
    RulePackConfig { id: "acme".to_string(), source }
}

fn local() -> RulePackConfig {
    pack(RulePackSourceConfig::Local { path: "packs/acme".to_string() })
}

fn on_disk(is_dir: bool, manifest: ManifestFile) -> PackOnDisk {
    PackOnDisk { is_dir, manifest }
}

#[test]
fn every_skill_error_says_what_is_missing() {
    let missing = find_skill_files("x", false, false).err().unwrap();
    assert!(matches!(&missing, SkillError::NotFound { id } if id == "x"));
    assert_eq!(missing.message(), "skill 'x' not found (checked .autoreview/skills/ and builtins)");

    let bare = manifest_text("x", None).unwrap_err();
    assert!(matches!(&bare, SkillError::NoManifest { id } if id == "x"));
    assert_eq!(bare.message(), "skill 'x' has no skill.yaml");
    assert_eq!(manifest_text("x", Some("id: x".to_string())).ok(), Some("id: x".to_string()));

    let silent = compile_skill("x", manifest(), None, None, Tier::Standard).err().unwrap();
    assert!(matches!(&silent, SkillError::NoInstructions { id } if id == "x"));
    assert_eq!(silent.message(), "skill 'x' has no instructions.md");

    let unknown = materialize_builtin_skill_to_disk("x", &vec![], None).err().unwrap();
    assert!(matches!(&unknown, SkillError::NoBuiltin { id } if id == "x"));
    assert_eq!(unknown.message(), "no builtin skill 'x' to materialize");
}

#[test]
fn a_skill_of_the_repository_shadows_a_built_in_one() {
    assert!(matches!(find_skill_files("x", true, true), Ok(SkillSource::Disk)));
    assert!(matches!(find_skill_files("x", true, false), Ok(SkillSource::Disk)));
    assert!(matches!(find_skill_files("x", false, true), Ok(SkillSource::Embedded)));
}

#[test]
fn every_rule_pack_error_has_its_cause() {
    let git = pack(RulePackSourceConfig::Git { url: "u".to_string(), reference: None, subpath: None });
    let declared = |id: &str| on_disk(true, ManifestFile::Declares(id.to_string()));
    assert!(matches!(resolve_rule_pack("/r", &git, &declared("acme")), Err(RulePackError::GitUnsupported { .. })));
    match resolve_rule_pack("/r", &local(), &on_disk(false, ManifestFile::Declares("acme".to_string()))) {
        Err(RulePackError::NotADirectory { path, resolved }) => {
            assert_eq!((path.as_str(), resolved.as_str()), ("packs/acme", "/r/packs/acme"));
        }
        _ => panic!("the directory is missing"),
    }
    match resolve_rule_pack("/r", &local(), &on_disk(true, ManifestFile::Unreadable("gone".to_string()))) {
        Err(RulePackError::Unreadable { manifest_path, cause }) => {
            assert_eq!((manifest_path.as_str(), cause.as_str()), ("/r/packs/acme/rulepack.yaml", "gone"));
        }
        _ => panic!("the manifest is missing"),
    }
    assert!(matches!(
        resolve_rule_pack("/r", &local(), &on_disk(true, ManifestFile::Unparsable("bad".to_string()))),
        Err(RulePackError::Unparsable { .. })
    ));
    match resolve_rule_pack("/r", &local(), &declared("other")) {
        Err(RulePackError::OtherPack { expected, declared }) => {
            assert_eq!((expected.as_str(), declared.as_str()), ("acme", "other"));
        }
        _ => panic!("the pack is another one"),
    }
    let resolved = resolve_rule_pack("/r", &local(), &declared("acme")).ok().unwrap();
    assert_eq!((resolved.id.as_str(), resolved.local_path.as_str()), ("acme", "/r/packs/acme"));
}

#[test]
fn rules_in_other_languages_are_not_benched() {
    let err = benchable("r/rule.yaml", true, "Python").unwrap_err();
    assert!(matches!(&err, BenchError::UnsupportedLanguage { language } if language == "Python"));
    assert_eq!(err.message(), "unsupported rule language 'Python'");
    let err = benchable("r/rule.yaml", false, "Go").unwrap_err();
    assert!(matches!(&err, BenchError::NoDraftedRule { .. }));
    assert_eq!(err.message(), "no drafted rule found at r/rule.yaml — run `autoreview rules mine` first");
    assert_eq!(benchable("r/rule.yaml", true, "Kotlin").ok(), Some("kt"));
}

#[test]
fn only_a_response_with_status_200_has_a_body() {
    assert_eq!(response_body("u", "{\"a\":\n1}\n200").ok(), Some("{\"a\":\n1}".to_string()));
    let err = response_body("https://x/y", "gone\n404").unwrap_err();
    assert_eq!(err.status, 404);
    assert_eq!(err.message(), "Bitbucket returned HTTP 404 for https://x/y");
    assert_eq!(response_body("u", "").unwrap_err().status, 0);
}

#[test]
fn pull_requests_are_listed_page_by_page() {
    let first = merged_prs_url("acme", "repo", 7);
    assert!(first.contains("acme/repo") && first.contains("MERGED") && first.contains('7'));
    assert!(comments_url("acme", "repo", 42).contains("/42/comments"));
    let mut listing = PrListing::start(first.clone());
    assert_eq!(listing.next_page(3), Some(first.as_str()));
    listing.take_page(BbPrPage { ids: vec![1, 2], next: Some("page2".to_string()) });
    assert_eq!(listing.next_page(3), Some("page2"));
    listing.take_page(BbPrPage { ids: vec![3, 4], next: Some("page3".to_string()) });
    assert_eq!(listing.next_page(3), None);
    assert_eq!(listing.finish(3), vec![1, 2, 3]);
    assert!(wants_more_comments(9) && !wants_more_comments(10));
}

#[test]
fn patterns_match_by_suffix_or_regular_expression() {
    let suffix = NamePattern::suffix("Lock");
    assert!(suffix.matches("mu.Lock") && suffix.matches("Lock"));
    assert!(!suffix.matches("mu.Locker"));
    let regex = NamePattern::regex("^(Query|Exec)$").unwrap();
    assert!(regex.matches("Query") && !regex.matches("db.Query"));
    assert!(NamePattern::regex("(").is_err());
}

#[test]
fn matched_files_are_counted_once() {
    let printed = r#"[{"file": "a.go", "text": "x"}, {"file": "b.go"}, {"file": "a.go"}, {"text": "y"}, {"file": 3}, 4]"#;
    assert_eq!(count_matched_files(printed, "").ok(), Some(2));
    assert_eq!(count_matched_files("[]", "").ok(), Some(0));
    let fields = vec![Some("b.go".to_string()), None, Some("a.go".to_string()), Some("b.go".to_string())];
    assert_eq!(count_named_files(&fields), 2);
    let err = count_matched_files("oops", "no such rule").unwrap_err();
    assert!(matches!(&err, BenchError::UnparsableOutput { .. }));
    assert_eq!(
        err.message(),
        "ast-grep produced unparsable output: expected value at line 1 column 1. stderr: no such rule"
    );
}
