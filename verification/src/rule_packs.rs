//! Rule packs: bundles of rules that a repository registers, and where their
//! files are.

use vstd::prelude::*;

use crate::paths;
use crate::text;

verus! {

/// The file in which a repository registers its packs.
pub const RULEPACKS_FILE_NAME: &'static str = "rulepacks.yaml";

/// The file in which a pack says what it is.
pub const MANIFEST_FILE_NAME: &'static str = "rulepack.yaml";

/// Where the files of a pack come from.
#[derive(Debug, Clone)]
pub enum RulePackSourceConfig {
    Local { path: String },
    Git { url: String, reference: Option<String>, subpath: Option<String> },
}

/// A pack that a repository registers.
#[derive(Debug, Clone)]
pub struct RulePackConfig {
    pub id: String,
    pub source: RulePackSourceConfig,
}

/// A pack whose files were found.
#[derive(Debug, Clone)]
pub struct ResolvedRulePack {
    pub id: String,
    pub local_path: String,
}

/// The path at which a repository registers its packs.
pub open spec fn config_path(repo_root: Seq<char>) -> Seq<char> {
    paths::joined_path(paths::joined_path(repo_root, ".autoreview"@), RULEPACKS_FILE_NAME@)
}

/// The path at which a repository registers its packs.
pub fn rule_packs_config_path(repo_root: &str) -> (path: String)
    ensures
        path@ == config_path(repo_root@),
{
    let dir: String = paths::join(repo_root, ".autoreview");
    paths::join(dir.as_str(), RULEPACKS_FILE_NAME)
}

/// What reading the manifest of a pack gave.
#[derive(Debug, Clone)]
pub enum ManifestFile {
    /// The file could not be read, with what went wrong.
    Unreadable(String),
    /// The file is no manifest, with what is wrong with it.
    Unparsable(String),
    /// The pack that the manifest is of.
    Declares(String),
}

/// What was found at the directory of a pack.
#[derive(Debug, Clone)]
pub struct PackOnDisk {
    pub is_dir: bool,
    pub manifest: ManifestFile,
}

/// Why a pack is not used.
#[derive(Debug, Clone)]
pub enum RulePackError {
    GitUnsupported { id: String },
    NotADirectory { path: String, resolved: String },
    Unreadable { manifest_path: String, cause: String },
    Unparsable { manifest_path: String, cause: String },
    OtherPack { expected: String, declared: String },
}

impl RulePackError {
    /// The error in words.
    pub open spec fn words(self) -> Seq<char> {
        text::glued(
            match self {
                RulePackError::GitUnsupported { id } => seq![
                    "rule pack '"@,
                    id@,
                    "': git sources are not yet supported"@,
                ],
                RulePackError::NotADirectory { path, resolved } => seq![
                    "local source '"@,
                    path@,
                    "' does not resolve to a directory: "@,
                    resolved@,
                ],
                RulePackError::Unreadable { manifest_path, cause } => seq![
                    "failed to read "@,
                    manifest_path@,
                    ": "@,
                    cause@,
                ],
                RulePackError::Unparsable { manifest_path, cause } => seq![
                    "failed to parse "@,
                    manifest_path@,
                    ": "@,
                    cause@,
                ],
                RulePackError::OtherPack { expected, declared } => seq![
                    "registered as '"@,
                    expected@,
                    "' but its rulepack.yaml declares id '"@,
                    declared@,
                    "' — check the path in rulepacks.yaml"@,
                ],
            },
        )
    }

    /// The error in words.
    pub fn message(&self) -> (s: String)
        ensures
            s@ == self.words(),
    {
        match self {
            RulePackError::GitUnsupported { id } => {
                let parts: [&str; 3] = [
                    "rule pack '",
                    id.as_str(),
                    "': git sources are not yet supported",
                ];
                proof {
                    assert(text::views(parts@) =~= seq![
                        "rule pack '"@,
                        id@,
                        "': git sources are not yet supported"@,
                    ]);
                }
                text::glue(&parts)
            },
            RulePackError::NotADirectory { path, resolved } => {
                let parts: [&str; 4] = [
                    "local source '",
                    path.as_str(),
                    "' does not resolve to a directory: ",
                    resolved.as_str(),
                ];
                proof {
                    assert(text::views(parts@) =~= seq![
                        "local source '"@,
                        path@,
                        "' does not resolve to a directory: "@,
                        resolved@,
                    ]);
                }
                text::glue(&parts)
            },
            RulePackError::Unreadable { manifest_path, cause } => {
                let parts: [&str; 4] = [
                    "failed to read ",
                    manifest_path.as_str(),
                    ": ",
                    cause.as_str(),
                ];
                proof {
                    assert(text::views(parts@) =~= seq![
                        "failed to read "@,
                        manifest_path@,
                        ": "@,
                        cause@,
                    ]);
                }
                text::glue(&parts)
            },
            RulePackError::Unparsable { manifest_path, cause } => {
                let parts: [&str; 4] = [
                    "failed to parse ",
                    manifest_path.as_str(),
                    ": ",
                    cause.as_str(),
                ];
                proof {
                    assert(text::views(parts@) =~= seq![
                        "failed to parse "@,
                        manifest_path@,
                        ": "@,
                        cause@,
                    ]);
                }
                text::glue(&parts)
            },
            RulePackError::OtherPack { expected, declared } => {
                let parts: [&str; 5] = [
                    "registered as '",
                    expected.as_str(),
                    "' but its rulepack.yaml declares id '",
                    declared.as_str(),
                    "' — check the path in rulepacks.yaml",
                ];
                proof {
                    assert(text::views(parts@) =~= seq![
                        "registered as '"@,
                        expected@,
                        "' but its rulepack.yaml declares id '"@,
                        declared@,
                        "' — check the path in rulepacks.yaml"@,
                    ]);
                }
                text::glue(&parts)
            },
        }
    }
}

/// The directory of a pack, where it is a local one.
pub open spec fn directory_of(repo_root: Seq<char>, pack: RulePackConfig) -> Option<Seq<char>> {
    match pack.source {
        RulePackSourceConfig::Local { path } => Some(paths::joined_path(repo_root, path@)),
        RulePackSourceConfig::Git { .. } => None,
    }
}

/// The directory of a pack, where it is a local one.
pub fn pack_directory(repo_root: &str, pack: &RulePackConfig) -> (dir: Option<String>)
    ensures
        text::optional(dir) == directory_of(repo_root@, *pack),
{
    match &pack.source {
        RulePackSourceConfig::Local { path } => Some(paths::join(repo_root, path.as_str())),
        RulePackSourceConfig::Git { .. } => None,
    }
}

/// The path of the manifest of a pack in a directory.
pub fn manifest_path(dir: &str) -> (path: String)
    ensures
        path@ == paths::joined_path(dir@, MANIFEST_FILE_NAME@),
{
    paths::join(dir, MANIFEST_FILE_NAME)
}

/// How a pack resolves, given what was found at its directory: it does if it is
/// a local one, its directory is there, and the manifest in it is of the pack.
pub open spec fn resolves(
    repo_root: Seq<char>,
    pack: RulePackConfig,
    found: PackOnDisk,
    result: Result<ResolvedRulePack, RulePackError>,
) -> bool {
    match pack.source {
        RulePackSourceConfig::Git { .. } => result matches Err(
            RulePackError::GitUnsupported { id },
        ) && id@ == pack.id@,
        RulePackSourceConfig::Local { path } => {
            let dir = paths::joined_path(repo_root, path@);
            let manifest = paths::joined_path(dir, MANIFEST_FILE_NAME@);
            if !found.is_dir {
                result matches Err(RulePackError::NotADirectory { path: p, resolved }) && p@
                    == path@ && resolved@ == dir
            } else {
                match found.manifest {
                    ManifestFile::Unreadable(why) => result matches Err(
                        RulePackError::Unreadable { manifest_path, cause },
                    ) && manifest_path@ == manifest && cause@ == why@,
                    ManifestFile::Unparsable(why) => result matches Err(
                        RulePackError::Unparsable { manifest_path, cause },
                    ) && manifest_path@ == manifest && cause@ == why@,
                    ManifestFile::Declares(id) => if id@ == pack.id@ {
                        result matches Ok(r) && r.id@ == pack.id@ && r.local_path@ == dir
                    } else {
                        result matches Err(RulePackError::OtherPack { expected, declared })
                            && expected@ == pack.id@ && declared@ == id@
                    },
                }
            }
        },
    }
}

/// Resolves a pack, given what was found at its directory.
pub fn resolve_rule_pack(repo_root: &str, pack: &RulePackConfig, found: &PackOnDisk) -> (result:
    Result<ResolvedRulePack, RulePackError>)
    ensures
        resolves(repo_root@, *pack, *found, result),
{
    match &pack.source {
        RulePackSourceConfig::Git { .. } => Err(
            RulePackError::GitUnsupported { id: pack.id.clone() },
        ),
        RulePackSourceConfig::Local { path } => {
            let dir: String = paths::join(repo_root, path.as_str());
            if !found.is_dir {
                return Err(
                    RulePackError::NotADirectory { path: path.clone(), resolved: dir },
                );
            }
            let manifest: String = manifest_path(dir.as_str());
            match &found.manifest {
                ManifestFile::Unreadable(why) => Err(
                    RulePackError::Unreadable { manifest_path: manifest, cause: why.clone() },
                ),
                ManifestFile::Unparsable(why) => Err(
                    RulePackError::Unparsable { manifest_path: manifest, cause: why.clone() },
                ),
                ManifestFile::Declares(id) => if text::same(id.as_str(), pack.id.as_str()) {
                    Ok(ResolvedRulePack { id: pack.id.clone(), local_path: dir })
                } else {
                    Err(
                        RulePackError::OtherPack {
                            expected: pack.id.clone(),
                            declared: id.clone(),
                        },
                    )
                },
            }
        },
    }
}

/// Resolves packs, given what was found at their directories. Each resolves or
/// fails on its own.
pub fn resolve_rule_packs(
    repo_root: &str,
    configured: &Vec<RulePackConfig>,
    found: &Vec<PackOnDisk>,
) -> (results: Vec<(String, Result<ResolvedRulePack, RulePackError>)>)
    requires
        found@.len() == configured@.len(),
    ensures
        results@.len() == configured@.len(),
        forall|i: int|
            0 <= i < results@.len() ==> {
                &&& (#[trigger] results@[i]).0@ == configured@[i].id@
                &&& resolves(repo_root@, configured@[i], found@[i], results@[i].1)
            },
{
    let mut results: Vec<(String, Result<ResolvedRulePack, RulePackError>)> = Vec::new();
    let mut i: usize = 0;
    while i < configured.len()
        invariant
            0 <= i <= configured@.len(),
            found@.len() == configured@.len(),
            results@.len() == i,
            forall|j: int|
                0 <= j < i ==> {
                    &&& (#[trigger] results@[j]).0@ == configured@[j].id@
                    &&& resolves(repo_root@, configured@[j], found@[j], results@[j].1)
                },
        decreases configured.len() - i,
    {
        let result: Result<ResolvedRulePack, RulePackError> = resolve_rule_pack(
            repo_root,
            &configured[i],
            &found[i],
        );
        results.push((configured[i].id.clone(), result));
        i += 1;
    }
    results
}

/// A pack that resolves is the one that was registered.
pub proof fn resolved_packs_are_the_registered_ones(
    repo_root: Seq<char>,
    pack: RulePackConfig,
    found: PackOnDisk,
    result: Result<ResolvedRulePack, RulePackError>,
)
    requires
        resolves(repo_root, pack, found, result),
    ensures
        result matches Ok(r) ==> {
            &&& r.id@ == pack.id@
            &&& Some(r.local_path@) == directory_of(repo_root, pack)
            &&& found.is_dir
        },
{
}

/// A pack resolves where it is a local directory whose manifest declares the pack's
/// own name, and nowhere else; what stands in the way is told in this order.
pub proof fn packs_resolve_where_they_declare_themselves(
    root: Seq<char>,
    pack: RulePackConfig,
    found: PackOnDisk,
    result: Result<ResolvedRulePack, RulePackError>,
)
    requires
        resolves(root, pack, found, result),
    ensures
        result is Ok <==> pack.source is Local && found.is_dir && (found.manifest
            matches ManifestFile::Declares(id) && id@ == pack.id@),
        pack.source is Git ==> result matches Err(RulePackError::GitUnsupported { .. }),
        pack.source is Local && !found.is_dir ==> result matches Err(
            RulePackError::NotADirectory { .. },
        ),
        pack.source is Local && found.is_dir && found.manifest is Unreadable ==> result matches Err(
            RulePackError::Unreadable { .. },
        ),
        pack.source is Local && found.is_dir && found.manifest is Unparsable ==> result matches Err(
            RulePackError::Unparsable { .. },
        ),
        pack.source is Local && found.is_dir && (found.manifest matches ManifestFile::Declares(id)
            && id@ != pack.id@) ==> result matches Err(RulePackError::OtherPack { .. }),
{
}

} // verus!
