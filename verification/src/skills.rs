//! Skills: which are known, and the system prompt that one compiles to.

use vstd::prelude::*;

use crate::langsupport;
use crate::schema::{SkillManifest, Tier};
use crate::text;

verus! {

/// What every system prompt ends with.
pub const OUTPUT_CONTRACT: &'static str = r#"
## Output contract

When you are done reviewing, end your final message with exactly one fenced
code block like this, and nothing after it:

```json
{
  "findings": [
    {
      "source": { "kind": "agent", "tool": "coding-agent", "aspect": "<your aspect id>" },
      "category": "<category>",
      "severity": "blocker|high|medium|low|info",
      "confidence": 0.0,
      "title": "<one line, imperative>",
      "message": "<what, why it matters, evidence>",
      "location": {
        "path": "<repo-relative path>",
        "range": { "startLine": 1, "endLine": 1 },
        "snippet": "<the flagged lines, verbatim>",
        "side": "new"
      },
      "suggestion": {
        "description": "<what to change>",
        "patch": "<unified diff, optional>",
        "safety": "safe-autofix|needs-review"
      }
    }
  ]
}
```

If you found nothing, emit `{"findings": []}`. Do not include findings
outside this JSON block — prose explanation belongs before the block, not
inside it. If your output fails to parse, you will be asked to re-emit only
the corrected JSON in a follow-up turn.
"#;

/// A skill that is ready to run.
pub struct CompiledSkill {
    pub manifest: SkillManifest,
    pub system_prompt: String,
}

/// Why a skill cannot be used.
#[derive(Debug, Clone)]
pub enum SkillError {
    NotFound { id: String },
    NoManifest { id: String },
    NoInstructions { id: String },
    NoBuiltin { id: String },
}

impl SkillError {
    /// The error in words.
    pub open spec fn words(self) -> Seq<char> {
        match self {
            SkillError::NotFound { id } => "skill '"@ + id@
                + "' not found (checked .autoreview/skills/ and builtins)"@,
            SkillError::NoManifest { id } => "skill '"@ + id@ + "' has no skill.yaml"@,
            SkillError::NoInstructions { id } => "skill '"@ + id@ + "' has no instructions.md"@,
            SkillError::NoBuiltin { id } => "no builtin skill '"@ + id@ + "' to materialize"@,
        }
    }

    /// The error in words.
    pub fn message(&self) -> (s: String)
        ensures
            s@ == self.words(),
    {
        match self {
            SkillError::NotFound { id } => text::concat3(
                "skill '",
                id.as_str(),
                "' not found (checked .autoreview/skills/ and builtins)",
            ),
            SkillError::NoManifest { id } => text::concat3(
                "skill '",
                id.as_str(),
                "' has no skill.yaml",
            ),
            SkillError::NoInstructions { id } => text::concat3(
                "skill '",
                id.as_str(),
                "' has no instructions.md",
            ),
            SkillError::NoBuiltin { id } => text::concat3(
                "no builtin skill '",
                id.as_str(),
                "' to materialize",
            ),
        }
    }
}

/// Where the files of a skill are read from.
#[derive(Debug, Clone, Copy, PartialEq, Eq, Structural)]
pub enum SkillSource {
    Disk,
    Embedded,
}

/// Where the files of a skill are read from: from the repository if it has the
/// skill, else from those that are built in.
pub open spec fn source_of(in_repository: bool, built_in: bool) -> Option<SkillSource> {
    if in_repository {
        Some(SkillSource::Disk)
    } else if built_in {
        Some(SkillSource::Embedded)
    } else {
        None
    }
}

/// Where the files of a skill are read from.
pub fn find_skill_files(id: &str, in_repository: bool, built_in: bool) -> (source: Result<
    SkillSource,
    SkillError,
>)
    ensures
        match source {
            Ok(s) => source_of(in_repository, built_in) == Some(s),
            Err(SkillError::NotFound { id: i }) => i@ == id@ && source_of(
                in_repository,
                built_in,
            ) is None,
            Err(_) => false,
        },
{
    if in_repository {
        Ok(SkillSource::Disk)
    } else if built_in {
        Ok(SkillSource::Embedded)
    } else {
        Err(SkillError::NotFound { id: id.to_owned() })
    }
}

/// The file that says how deep a review of a tier goes.
pub open spec fn depth_file(tier: Tier) -> Option<Seq<char>> {
    match tier {
        Tier::Quick => Some("depth/quick.md"@),
        Tier::Deep => Some("depth/deep.md"@),
        Tier::Standard => None,
    }
}

/// The file that says how deep a review of a tier goes.
pub fn depth_filename(tier: Tier) -> (name: Option<&'static str>)
    ensures
        match name {
            Some(n) => depth_file(tier) == Some(n@),
            None => depth_file(tier) is None,
        },
{
    match tier {
        Tier::Quick => Some("depth/quick.md"),
        Tier::Deep => Some("depth/deep.md"),
        Tier::Standard => None,
    }
}

/// The skills that are known: those that are built in and those of the
/// repository, each once, in order.
pub fn discover_skill_ids(built_in: &Vec<String>, in_repository: &Vec<String>) -> (ids: Vec<String>)
    ensures
        text::views(ids@) == text::ordered_set(
            text::views(built_in@) + text::views(in_repository@),
        ),
{
    let mut all: Vec<String> = built_in.clone();
    let mut more: Vec<String> = in_repository.clone();
    proof {
        assert(text::views(all@) =~= text::views(built_in@));
        assert(text::views(more@) =~= text::views(in_repository@));
    }
    let ghost first = all@;
    let ghost second = more@;
    all.append(&mut more);
    proof {
        assert(text::views(all@) =~= text::views(first) + text::views(second));
    }
    text::sort_dedup(&all)
}

/// The manifest of a skill that was found, where it has one.
pub fn manifest_text(id: &str, yaml: Option<String>) -> (manifest: Result<String, SkillError>)
    ensures
        match manifest {
            Ok(m) => yaml == Some(m),
            Err(SkillError::NoManifest { id: i }) => i@ == id@ && yaml is None,
            Err(_) => false,
        },
{
    match yaml {
        Some(text) => Ok(text),
        None => Err(SkillError::NoManifest { id: id.to_owned() }),
    }
}

/// The system prompt of a skill for a review of a tier: the instructions, what
/// the depth file of the tier adds if there is one, and the output contract.
pub open spec fn prompt_of(
    instructions: Seq<char>,
    overlay: Option<Seq<char>>,
    tier: Tier,
) -> Seq<char> {
    instructions + (if depth_file(tier) is Some && overlay is Some {
        "\n\n"@ + overlay->Some_0
    } else {
        Seq::empty()
    }) + ("\n\n"@ + OUTPUT_CONTRACT@)
}

/// Compiles a skill for a review of a tier, given its instructions and what the
/// depth file of the tier holds, where there are such files.
pub fn compile_skill(
    id: &str,
    manifest: SkillManifest,
    instructions: Option<String>,
    overlay: Option<String>,
    tier: Tier,
) -> (compiled: Result<CompiledSkill, SkillError>)
    ensures
        match compiled {
            Ok(c) => {
                &&& instructions is Some
                &&& c.manifest == manifest
                &&& c.system_prompt@ == prompt_of(
                    instructions->Some_0@,
                    text::optional(overlay),
                    tier,
                )
            },
            Err(SkillError::NoInstructions { id: i }) => i@ == id@ && instructions is None,
            Err(_) => false,
        },
{
    match instructions {
        None => Err(SkillError::NoInstructions { id: id.to_owned() }),
        Some(instructions) => {
            let added: String = match (depth_filename(tier), overlay) {
                (Some(_), Some(overlay)) => text::concat2("\n\n", overlay.as_str()),
                _ => String::new(),
            };
            let closing: String = text::concat2("\n\n", OUTPUT_CONTRACT);
            let system_prompt: String = text::concat3(
                instructions.as_str(),
                added.as_str(),
                closing.as_str(),
            );
            proof {
                assert(system_prompt@ =~= prompt_of(
                    instructions@,
                    text::optional(overlay),
                    tier,
                ));
            }
            Ok(CompiledSkill { manifest, system_prompt })
        },
    }
}

/// A file of a skill, by its path within the skill, and what it holds, where it
/// could be read.
#[derive(Debug, Clone)]
pub struct SkillFile {
    pub name: String,
    pub content: Option<Vec<u8>>,
}

/// What a `SkillFile` says.
pub struct SkillFileView {
    pub name: Seq<char>,
    pub content: Option<Seq<u8>>,
}

impl View for SkillFile {
    type V = SkillFileView;

    open spec fn view(&self) -> SkillFileView {
        SkillFileView {
            name: self.name@,
            content: match self.content {
                Some(bytes) => Some(bytes@),
                None => None,
            },
        }
    }
}

/// The first file of a name: what it holds, where it could be read.
pub open spec fn content_of(files: Seq<SkillFileView>, name: Seq<char>) -> Option<Option<Seq<u8>>>
    decreases files.len(),
{
    if files.len() == 0 {
        None
    } else {
        match content_of(files.drop_last(), name) {
            Some(content) => Some(content),
            None => if files.last().name == name {
                Some(files.last().content)
            } else {
                None
            },
        }
    }
}

/// What the first file of a name says, if it is a text.
pub open spec fn text_in(files: Seq<SkillFileView>, name: Seq<char>) -> Option<Seq<char>> {
    match content_of(files, name) {
        Some(Some(content)) => if vstd::utf8::valid_utf8(content) {
            Some(vstd::utf8::decode_utf8(content))
        } else {
            None
        },
        _ => None,
    }
}

fn find_file<'a>(files: &'a Vec<SkillFile>, name: &str) -> (found: Option<&'a SkillFile>)
    ensures
        match found {
            Some(file) => content_of(text::views(files@), name@) == Some(file@.content),
            None => content_of(text::views(files@), name@) is None,
        },
{
    let ghost all = text::views(files@);
    let mut found: Option<&'a SkillFile> = None;
    let mut i: usize = 0;
    while i < files.len()
        invariant
            0 <= i <= files@.len(),
            all == text::views(files@),
            match found {
                Some(file) => content_of(all.take(i as int), name@) == Some(file@.content),
                None => content_of(all.take(i as int), name@) is None,
            },
        decreases files.len() - i,
    {
        proof {
            assert(all.take(i + 1).drop_last() =~= all.take(i as int));
            assert(all.take(i + 1).last() == files@[i as int]@);
        }
        if found.is_none() && text::same(files[i].name.as_str(), name) {
            found = Some(&files[i]);
        }
        i += 1;
    }
    proof {
        assert(all.take(all.len() as int) =~= all);
    }
    found
}

/// What the file of a name says, if there is one and it is a text.
pub fn read_skill_file(files: &Vec<SkillFile>, name: &str) -> (read: Option<String>)
    ensures
        text::optional(read) == text_in(text::views(files@), name@),
{
    match find_file(files, name) {
        Some(file) => match &file.content {
            Some(content) => {
                let bytes: Vec<u8> = content.clone();
                proof {
                    assert(bytes@ =~= content@);
                }
                langsupport::string_from_utf8(bytes)
            },
            None => None,
        },
        None => None,
    }
}

/// The repository has the skill: its files there hold a manifest.
pub open spec fn is_in_repository(on_disk: Seq<SkillFileView>) -> bool {
    content_of(on_disk, "skill.yaml"@) is Some
}

/// Whether the repository has the skill, given its files there.
pub fn in_repository(on_disk: &Vec<SkillFile>) -> (r: bool)
    ensures
        r == is_in_repository(text::views(on_disk@)),
{
    find_file(on_disk, "skill.yaml").is_some()
}

/// The files of a skill that count: those of the repository if it has the skill,
/// else those that are built in.
pub open spec fn files_of(on_disk: Seq<SkillFileView>, built_in: Option<Seq<SkillFileView>>) -> Option<
    Seq<SkillFileView>,
> {
    match source_of(is_in_repository(on_disk), built_in is Some) {
        Some(SkillSource::Disk) => Some(on_disk),
        Some(SkillSource::Embedded) => built_in,
        None => None,
    }
}

/// What is built in of a skill, if anything is.
pub open spec fn built_in_views(built_in: Option<Vec<SkillFile>>) -> Option<Seq<SkillFileView>> {
    match built_in {
        Some(files) => Some(text::views(files@)),
        None => None,
    }
}

/// The system prompt of a skill with these files, if it has instructions.
pub open spec fn prompt_from(files: Seq<SkillFileView>, tier: Tier) -> Option<Seq<char>> {
    match text_in(files, "instructions.md"@) {
        Some(instructions) => Some(
            prompt_of(
                instructions,
                match depth_file(tier) {
                    Some(name) => text_in(files, name),
                    None => None,
                },
                tier,
            ),
        ),
        None => None,
    }
}

/// The system prompt of a skill, or `None` where there is no skill or it has no
/// instructions.
pub open spec fn compiled_prompt(
    on_disk: Seq<SkillFileView>,
    built_in: Option<Seq<SkillFileView>>,
    tier: Tier,
) -> Option<Seq<char>> {
    match files_of(on_disk, built_in) {
        Some(files) => prompt_from(files, tier),
        None => None,
    }
}

/// Compiles a skill for a review of a tier from its files in the repository, or
/// from those that are built in where the repository does not have the skill.
pub fn compile_skill_files(
    id: &str,
    manifest: SkillManifest,
    on_disk: &Vec<SkillFile>,
    built_in: &Option<Vec<SkillFile>>,
    tier: Tier,
) -> (compiled: Result<CompiledSkill, SkillError>)
    ensures
        ({
            let files = files_of(text::views(on_disk@), built_in_views(*built_in));
            match compiled {
                Ok(c) => {
                    &&& c.manifest == manifest
                    &&& compiled_prompt(text::views(on_disk@), built_in_views(*built_in), tier)
                        == Some(c.system_prompt@)
                },
                Err(SkillError::NotFound { id: i }) => i@ == id@ && files is None,
                Err(SkillError::NoInstructions { id: i }) => i@ == id@ && files is Some && text_in(
                    files->Some_0,
                    "instructions.md"@,
                ) is None,
                Err(_) => false,
            }
        }),
{
    let files: &Vec<SkillFile> = match (
        find_skill_files(id, in_repository(on_disk), built_in.is_some()),
        built_in,
    ) {
        (Ok(SkillSource::Disk), _) => on_disk,
        (Ok(SkillSource::Embedded), Some(embedded)) => embedded,
        _ => {
            return Err(SkillError::NotFound { id: id.to_owned() });
        },
    };
    let instructions: Option<String> = read_skill_file(files, "instructions.md");
    let overlay: Option<String> = match depth_filename(tier) {
        Some(name) => read_skill_file(files, name),
        None => None,
    };
    compile_skill(id, manifest, instructions, overlay, tier)
}

/// The files that are written to the repository to copy a skill there: all that
/// are built in, and none where the repository has the skill. Without either
/// there is nothing to copy.
pub open spec fn files_to_write(
    on_disk: Seq<SkillFileView>,
    built_in: Option<Seq<SkillFileView>>,
) -> Option<Seq<SkillFileView>> {
    if is_in_repository(on_disk) {
        Some(Seq::empty())
    } else {
        built_in
    }
}

/// Copies a built-in skill to the repository: the files that are to be written
/// there.
pub fn materialize_builtin_skill_to_disk(
    id: &str,
    on_disk: &Vec<SkillFile>,
    built_in: Option<Vec<SkillFile>>,
) -> (written: Result<Vec<SkillFile>, SkillError>)
    ensures
        ({
            let files = files_to_write(text::views(on_disk@), built_in_views(built_in));
            match written {
                Ok(w) => files == Some(text::views(w@)),
                Err(SkillError::NoBuiltin { id: i }) => i@ == id@ && files is None,
                Err(_) => false,
            }
        }),
{
    if in_repository(on_disk) {
        let none: Vec<SkillFile> = Vec::new();
        proof {
            assert(text::views(none@) =~= Seq::empty());
        }
        return Ok(none);
    }
    match built_in {
        Some(files) => Ok(files),
        None => Err(SkillError::NoBuiltin { id: id.to_owned() }),
    }
}

/// The files of a directory after some were written to it: a written file takes
/// the place of one of its name.
pub open spec fn after_writing(on_disk: Seq<SkillFileView>, written: Seq<SkillFileView>) -> Seq<
    SkillFileView,
> {
    written + on_disk
}

proof fn lemma_content_after(
    on_disk: Seq<SkillFileView>,
    written: Seq<SkillFileView>,
    name: Seq<char>,
)
    ensures
        content_of(after_writing(on_disk, written), name) == match content_of(written, name) {
            Some(content) => Some(content),
            None => content_of(on_disk, name),
        },
    decreases on_disk.len(),
{
    let after = after_writing(on_disk, written);
    if on_disk.len() == 0 {
        assert(after =~= written);
    } else {
        lemma_content_after(on_disk.drop_last(), written, name);
        assert(after.drop_last() =~= after_writing(on_disk.drop_last(), written));
        assert(after.last() == on_disk.last());
    }
}

/// The repository holds nothing of a name that is not built in.
pub open spec fn leaves_out(
    on_disk: Seq<SkillFileView>,
    built_in: Seq<SkillFileView>,
    name: Seq<char>,
) -> bool {
    content_of(on_disk, name) is Some ==> content_of(built_in, name) is Some
}

/// A built-in skill that is copied to a repository without it compiles, for every
/// tier, to what it compiled to before. What lies in the skill's directory without
/// a manifest must not add instructions or a depth file that the built-in skill
/// lacks.
pub proof fn a_copied_skill_compiles_alike(
    on_disk: Seq<SkillFileView>,
    built_in: Seq<SkillFileView>,
    tier: Tier,
)
    requires
        !is_in_repository(on_disk),
        leaves_out(on_disk, built_in, "instructions.md"@),
        depth_file(tier) matches Some(name) ==> leaves_out(on_disk, built_in, name),
    ensures
        files_to_write(on_disk, Some(built_in)) matches Some(written) && compiled_prompt(
            after_writing(on_disk, written),
            Some(built_in),
            tier,
        ) == compiled_prompt(on_disk, Some(built_in), tier),
{
    lemma_content_after(on_disk, built_in, "skill.yaml"@);
    lemma_content_after(on_disk, built_in, "instructions.md"@);
    if let Some(name) = depth_file(tier) {
        lemma_content_after(on_disk, built_in, name);
    }
}

/// A skill that was copied is not copied again: what was changed in the
/// repository since stays.
pub proof fn a_copied_skill_is_not_overwritten(
    on_disk: Seq<SkillFileView>,
    built_in: Seq<SkillFileView>,
    changed: Seq<SkillFileView>,
)
    requires
        content_of(built_in, "skill.yaml"@) is Some,
    ensures
        files_to_write(
            after_writing(after_writing(on_disk, built_in), changed),
            Some(built_in),
        ) == Some(Seq::<SkillFileView>::empty()),
{
    lemma_content_after(on_disk, built_in, "skill.yaml"@);
    lemma_content_after(after_writing(on_disk, built_in), changed, "skill.yaml"@);
}

/// A standard review has no depth file: what one would hold never shows.
pub proof fn standard_reviews_have_no_overlay(instructions: Seq<char>, overlay: Option<Seq<char>>)
    ensures
        prompt_of(instructions, overlay, Tier::Standard) == prompt_of(
            instructions,
            None,
            Tier::Standard,
        ),
{
}

/// A skill of the repository shadows a built-in one.
pub proof fn the_repository_comes_first(built_in: bool)
    ensures
        source_of(true, built_in) == Some(SkillSource::Disk),
{
}

/// A prompt begins with the skill's instructions and ends with the contract on its
/// output. An overlay for the depth of a review stands between them, in quick and in
/// deep reviews and in no other.
pub proof fn overlays_are_for_quick_and_deep_reviews(instructions: Seq<char>, overlay: Seq<char>)
    ensures
        prompt_of(instructions, Some(overlay), Tier::Quick) == instructions + "\n\n"@ + overlay
            + "\n\n"@ + OUTPUT_CONTRACT@,
        prompt_of(instructions, Some(overlay), Tier::Deep) == instructions + "\n\n"@ + overlay
            + "\n\n"@ + OUTPUT_CONTRACT@,
        prompt_of(instructions, Some(overlay), Tier::Standard) == instructions + "\n\n"@
            + OUTPUT_CONTRACT@,
        prompt_of(instructions, None, Tier::Deep) == instructions + "\n\n"@ + OUTPUT_CONTRACT@,
        prompt_of(instructions, None, Tier::Quick) == instructions + "\n\n"@ + OUTPUT_CONTRACT@,
        depth_file(Tier::Quick) == Some("depth/quick.md"@),
        depth_file(Tier::Deep) == Some("depth/deep.md"@),
        depth_file(Tier::Standard) is None,
{
    let end = "\n\n"@ + OUTPUT_CONTRACT@;
    assert(instructions + ("\n\n"@ + overlay) + end =~= instructions + "\n\n"@ + overlay
        + "\n\n"@ + OUTPUT_CONTRACT@);
    assert(instructions + Seq::<char>::empty() + end =~= instructions + "\n\n"@
        + OUTPUT_CONTRACT@);
}

/// A skill is built from the repository where its manifest is there, and from what
/// is built in otherwise; where there is neither, there is no such skill.
pub proof fn skills_come_from_the_repository_or_are_built_in(
    on_disk: Seq<SkillFileView>,
    built_in: Option<Seq<SkillFileView>>,
)
    ensures
        ({
            let here = exists|i: int|
                0 <= i < on_disk.len() && (#[trigger] on_disk[i]).name == "skill.yaml"@;
            &&& here ==> files_of(on_disk, built_in) == Some(on_disk) && files_to_write(
                on_disk,
                built_in,
            ) == Some(Seq::<SkillFileView>::empty())
            &&& !here ==> files_of(on_disk, built_in) == built_in && files_to_write(
                on_disk,
                built_in,
            ) == built_in
        }),
{
    the_first_file_of_a_name_is_read(on_disk, "skill.yaml"@);
}

/// A file is read by its name, and the first of that name is.
pub proof fn the_first_file_of_a_name_is_read(files: Seq<SkillFileView>, name: Seq<char>)
    ensures
        content_of(files, name) matches Some(c) ==> exists|i: int|
            0 <= i < files.len() && (#[trigger] files[i]).name == name && files[i].content == c
                && forall|j: int| 0 <= j < i ==> (#[trigger] files[j]).name != name,
        content_of(files, name) is None ==> forall|j: int|
            0 <= j < files.len() ==> (#[trigger] files[j]).name != name,
    decreases files.len(),
{
    if files.len() > 0 {
        let rest = files.drop_last();
        the_first_file_of_a_name_is_read(rest, name);
        if let Some(c) = content_of(rest, name) {
            let i = choose|i: int|
                0 <= i < rest.len() && (#[trigger] rest[i]).name == name && rest[i].content == c
                    && forall|j: int| 0 <= j < i ==> (#[trigger] rest[j]).name != name;
            assert(files[i].name == name && files[i].content == c);
            assert forall|j: int| 0 <= j < i implies (#[trigger] files[j]).name != name by {
                assert(rest[j].name != name);
            }
        } else {
            assert forall|j: int| 0 <= j < files.len() - 1 implies (
            #[trigger] files[j]).name != name by {
                assert(rest[j].name != name);
            }
            assert(files[files.len() - 1] == files.last());
        }
    }
}

/// A skill compiles from its instructions, and from the overlay of its own files
/// that the depth of the review asks for.
pub proof fn skills_compile_from_their_own_files(
    files: Seq<SkillFileView>,
    instructions: Seq<char>,
)
    requires
        text_in(files, "instructions.md"@) == Some(instructions),
    ensures
        prompt_from(files, Tier::Standard) == Some(instructions + "\n\n"@ + OUTPUT_CONTRACT@),
        text_in(files, "depth/deep.md"@) matches Some(o) ==> prompt_from(files, Tier::Deep) == Some(
            instructions + "\n\n"@ + o + "\n\n"@ + OUTPUT_CONTRACT@,
        ),
        text_in(files, "depth/quick.md"@) matches Some(o) ==> prompt_from(files, Tier::Quick)
            == Some(instructions + "\n\n"@ + o + "\n\n"@ + OUTPUT_CONTRACT@),
        text_in(files, "depth/deep.md"@) is None ==> prompt_from(files, Tier::Deep) == Some(
            instructions + "\n\n"@ + OUTPUT_CONTRACT@,
        ),
        text_in(files, "depth/quick.md"@) is None ==> prompt_from(files, Tier::Quick) == Some(
            instructions + "\n\n"@ + OUTPUT_CONTRACT@,
        ),
{
    overlays_are_for_quick_and_deep_reviews(instructions, instructions);
    if let Some(o) = text_in(files, "depth/deep.md"@) {
        overlays_are_for_quick_and_deep_reviews(instructions, o);
    }
    if let Some(o) = text_in(files, "depth/quick.md"@) {
        overlays_are_for_quick_and_deep_reviews(instructions, o);
    }
}

/// What is said of a skill that cannot be used names the skill.
pub proof fn errors_name_their_skill(e: SkillError)
    ensures
        e matches SkillError::NotFound { id } ==> e.words() == "skill '"@ + id@
            + "' not found (checked .autoreview/skills/ and builtins)"@,
        e matches SkillError::NoManifest { id } ==> e.words() == "skill '"@ + id@
            + "' has no skill.yaml"@,
        e matches SkillError::NoInstructions { id } ==> e.words() == "skill '"@ + id@
            + "' has no instructions.md"@,
        e matches SkillError::NoBuiltin { id } ==> e.words() == "no builtin skill '"@ + id@
            + "' to materialize"@,
{
}

} // verus!
