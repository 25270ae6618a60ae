//! Rule packs.

use autoreview::rule_packs::{
    resolve_rule_packs, rule_packs_config_path, ManifestFile, PackOnDisk, RulePackConfig, RulePackSourceConfig,
};

fn local(id: &str, path: &str) -> RulePackConfig {
    RulePackConfig { id: id.to_string(), source: RulePackSourceConfig::Local { path: path.to_string() } }
}

fn declares(id: &str) -> PackOnDisk {
    PackOnDisk { is_dir: true, manifest: ManifestFile::Declares(id.to_string()) }
}

fn absent() -> PackOnDisk {
    PackOnDisk { is_dir: false, manifest: ManifestFile::Unreadable("No such file or directory (os error 2)".to_string()) }
}

#[test]
fn resolves_a_valid_local_pack() {
    let results = resolve_rule_packs("/repo", &vec![local("acme-security", "../shared/acme-security")], &vec![declares("acme-security")]);
    assert_eq!(results.len(), 1);
    let (id, result) = &results[0];
    assert_eq!(id, "acme-security");
    let resolved = result.as_ref().unwrap();
    assert_eq!(resolved.id, "acme-security");
    assert_eq!(resolved.local_path, "/repo/../shared/acme-security");
}

#[test]
fn a_missing_local_directory_fails_that_pack_without_touching_others() {
    let configs = vec![local("missing", "../shared/does-not-exist"), local("good", "../shared/good")];
    let results = resolve_rule_packs("/repo", &configs, &vec![absent(), declares("good")]);
    assert!(results[0].1.is_err());
    assert!(results[1].1.is_ok());
    assert_eq!(
        results[0].1.as_ref().unwrap_err().message(),
        "local source '../shared/does-not-exist' does not resolve to a directory: /repo/../shared/does-not-exist"
    );
}

#[test]
fn a_manifest_id_mismatch_is_a_clear_error() {
    let results = resolve_rule_packs("/repo", &vec![local("acme-security", "../shared/acme-security")], &vec![declares("totally-different-id")]);
    let err = results[0].1.as_ref().unwrap_err();
    assert!(err.message().contains("totally-different-id"), "got: {err:?}");
}

#[test]
fn a_missing_manifest_file_is_a_clear_error() {
    let found = PackOnDisk { is_dir: true, manifest: ManifestFile::Unreadable("gone".to_string()) };
    let results = resolve_rule_packs("/repo", &vec![local("no-manifest", "../shared/no-manifest")], &vec![found]);
    assert_eq!(results[0].1.as_ref().unwrap_err().message(), "failed to read /repo/../shared/no-manifest/rulepack.yaml: gone");
}

#[test]
fn a_git_source_is_not_yet_supported_and_fails_clearly() {
    let config = RulePackConfig { id: "acme-perf".to_string(), source: RulePackSourceConfig::Git { url: "https://example.com/acme/perf-rules".to_string(), reference: None, subpath: None } };
    let results = resolve_rule_packs("/repo", &vec![config], &vec![absent()]);
    assert_eq!(results[0].1.as_ref().unwrap_err().message(), "rule pack 'acme-perf': git sources are not yet supported");
}

#[test]
fn a_manifest_that_is_no_yaml_is_a_clear_error() {
    let found = PackOnDisk { is_dir: true, manifest: ManifestFile::Unparsable("bad".to_string()) };
    let results = resolve_rule_packs("/repo", &vec![local("p", "p")], &vec![found]);
    assert_eq!(results[0].1.as_ref().unwrap_err().message(), "failed to parse /repo/p/rulepack.yaml: bad");
}

#[test]
fn packs_are_registered_under_the_autoreview_directory() {
    assert_eq!(rule_packs_config_path("/repo"), "/repo/.autoreview/rulepacks.yaml");
    assert_eq!(rule_packs_config_path("/repo/"), "/repo/.autoreview/rulepacks.yaml");
}
