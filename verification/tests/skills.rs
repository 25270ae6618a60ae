//! Skills.

use autoreview::schema::{CostClass, SkillManifest, SkillTriggers, Tier};
use autoreview::skills::{
    compile_skill, compile_skill_files, discover_skill_ids, find_skill_files, in_repository, materialize_builtin_skill_to_disk, read_skill_file,
    CompiledSkill, SkillError, SkillFile, SkillSource,
};

fn manifest(id: &str) -> SkillManifest {
    SkillManifest {
        id: id.into(),
        title: format!("{id} review"),
        version: "0.1.0".into(),
        categories: vec![id.into()],
        languages: vec!["*".into()],
        triggers: SkillTriggers { globs: vec![], signals: vec![], always: true },
        cost_class: CostClass::Moderate,
        output_contract: "findings-json-v1".into(),
    }
}

fn compile(id: &str, tier: Tier) -> CompiledSkill {
    let overlay = match tier {
        Tier::Quick => "Quick-tier depth",
        _ => "Deep-tier depth",
    };
    compile_skill(id, manifest(id), Some("instructions".to_string()), Some(overlay.to_string()), tier).unwrap()
}

#[test]
fn discovers_all_three_builtin_skills() {
    let builtin = ["security", "correctness", "design"].map(str::to_string).to_vec();
    let ids = discover_skill_ids(&builtin, &vec![]);
    assert_eq!(ids, vec!["correctness".to_string(), "design".to_string(), "security".to_string()]);
}

#[test]
fn compiles_skill_with_quick_depth_overlay() {
    let compiled = compile("correctness", Tier::Quick);
    assert!(compiled.system_prompt.contains("Quick-tier depth"));
    assert!(compiled.system_prompt.contains("Output contract"));
    assert!(!compiled.system_prompt.contains("Deep-tier depth"));
}

#[test]
fn compiles_skill_with_deep_depth_overlay() {
    let compiled = compile("security", Tier::Deep);
    assert!(compiled.system_prompt.contains("Deep-tier depth"));
    assert!(!compiled.system_prompt.contains("Quick-tier depth"));
}

#[test]
fn standard_tier_has_no_depth_overlay() {
    let compiled = compile("design", Tier::Standard);
    assert!(!compiled.system_prompt.contains("Quick-tier depth"));
    assert!(!compiled.system_prompt.contains("Deep-tier depth"));
}

#[test]
fn unknown_skill_id_errors_clearly() {
    let err = find_skill_files("does-not-exist", false, false).unwrap_err();
    assert!(err.message().contains("does-not-exist"));
    assert_eq!(err.message(), "skill 'does-not-exist' not found (checked .autoreview/skills/ and builtins)");
}

fn files(list: &[(&str, &str)]) -> Vec<SkillFile> {
    list.iter().map(|(name, content)| SkillFile { name: name.to_string(), content: Some(content.as_bytes().to_vec()) }).collect()
}

fn builtin() -> Vec<SkillFile> {
    files(&[("skill.yaml", "id: correctness"), ("instructions.md", "instructions"), ("depth/quick.md", "quickly"), ("depth/deep.md", "deeply")])
}

fn write(disk: &mut Vec<SkillFile>, written: Vec<SkillFile>) {
    for file in written {
        disk.retain(|f| f.name != file.name);
        disk.push(file);
    }
}

#[test]
fn materialize_builtin_skill_to_disk_copies_every_file_and_stays_functionally_identical() {
    let mut disk = Vec::new();
    write(&mut disk, materialize_builtin_skill_to_disk("correctness", &vec![], Some(builtin())).unwrap());
    assert!(disk.iter().any(|f| f.name == "skill.yaml"));
    assert!(disk.iter().any(|f| f.name == "instructions.md"));
    assert!(in_repository(&disk));
    for (tier, depth) in [(Tier::Quick, "quickly"), (Tier::Standard, ""), (Tier::Deep, "deeply")] {
        let before = compile_skill_files("correctness", manifest("correctness"), &vec![], &Some(builtin()), tier).unwrap();
        let copied = compile_skill_files("correctness", manifest("correctness"), &disk, &Some(builtin()), tier).unwrap();
        assert_eq!(copied.system_prompt, before.system_prompt);
        assert!(before.system_prompt.contains(depth));
    }
}

#[test]
fn materialize_builtin_skill_to_disk_is_a_no_op_when_an_override_already_exists() {
    let mut disk = Vec::new();
    write(&mut disk, materialize_builtin_skill_to_disk("correctness", &vec![], Some(builtin())).unwrap());
    write(&mut disk, files(&[("instructions.md", "custom edited instructions")]));
    assert!(materialize_builtin_skill_to_disk("correctness", &disk, Some(builtin())).unwrap().is_empty());
    let contents = read_skill_file(&disk, "instructions.md").unwrap();
    assert_eq!(contents, "custom edited instructions", "a second materialize call must not overwrite an existing override");
    let err = materialize_builtin_skill_to_disk("other", &vec![], None).err().unwrap();
    assert_eq!(err.message(), "no builtin skill 'other' to materialize");
    assert_eq!(find_skill_files("correctness", true, true).unwrap(), SkillSource::Disk);
}

#[test]
fn the_repository_comes_before_what_is_built_in() {
    let disk = files(&[("skill.yaml", "id: x"), ("instructions.md", "from disk")]);
    let built_in = Some(files(&[("skill.yaml", "id: x"), ("instructions.md", "from the binary")]));
    let compiled = |disk: &Vec<SkillFile>, built_in: &Option<Vec<SkillFile>>| compile_skill_files("x", manifest("x"), disk, built_in, Tier::Standard);
    assert!(compiled(&disk, &built_in).unwrap().system_prompt.starts_with("from disk"));
    assert!(compiled(&vec![], &built_in).unwrap().system_prompt.starts_with("from the binary"));
    assert!(compiled(&files(&[("instructions.md", "no manifest")]), &built_in).unwrap().system_prompt.starts_with("from the binary"));
    let err = compiled(&vec![], &None).err().unwrap();
    assert_eq!(err.message(), "skill 'x' not found (checked .autoreview/skills/ and builtins)");
    let empty = compiled(&files(&[("skill.yaml", "id: x")]), &built_in);
    assert!(matches!(empty, Err(SkillError::NoInstructions { id }) if id == "x"));
}

#[test]
fn skill_files_that_are_no_text_are_not_read() {
    let mut list = files(&[("a.md", "é")]);
    list.push(SkillFile { name: "b.md".to_string(), content: Some(vec![0xff]) });
    list.push(SkillFile { name: "d.md".to_string(), content: None });
    assert_eq!(read_skill_file(&list, "a.md"), Some("é".to_string()));
    assert_eq!(read_skill_file(&list, "b.md"), None);
    assert_eq!(read_skill_file(&list, "c.md"), None);
    assert_eq!(read_skill_file(&list, "d.md"), None);
    assert!(in_repository(&vec![SkillFile { name: "skill.yaml".to_string(), content: None }]));
}
