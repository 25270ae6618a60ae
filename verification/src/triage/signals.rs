//! What triage knows of a diff.

use vstd::prelude::*;

use crate::globs;
use crate::paths;
use crate::text;

verus! {

/// One file of a diff.
#[derive(Debug, Clone)]
pub struct FileChange {
    pub path: String,
    pub additions: u32,
    pub deletions: u32,
}

/// What a `FileChange` says.
pub struct FileChangeView {
    pub path: Seq<char>,
    pub additions: u32,
    pub deletions: u32,
}

impl View for FileChange {
    type V = FileChangeView;

    open spec fn view(&self) -> FileChangeView {
        FileChangeView {
            path: self.path@,
            additions: self.additions,
            deletions: self.deletions,
        }
    }
}

/// How many files of a diff are in one language.
#[derive(Debug, Clone)]
pub struct LanguageCount {
    pub language: String,
    pub files: usize,
}

/// What a `LanguageCount` says.
pub struct LanguageCountView {
    pub language: Seq<char>,
    pub files: nat,
}

impl View for LanguageCount {
    type V = LanguageCountView;

    open spec fn view(&self) -> LanguageCountView {
        LanguageCountView { language: self.language@, files: self.files as nat }
    }
}

/// What triage knows of a diff.
#[derive(Debug, Clone)]
pub struct DiffFacts {
    pub repo_root: String,
    pub base_ref: String,
    pub head_ref: String,
    pub files: Vec<FileChange>,
    /// One entry per language, in the order in which the files bring them up.
    pub languages: Vec<LanguageCount>,
    pub sensitive_path_hit: bool,
    pub sensitive_paths: Vec<String>,
    pub dependency_change: bool,
    pub ci_or_infra_change: bool,
    pub tests_touched: bool,
    pub source_touched_without_tests: bool,
    pub added_branch_keywords: u32,
}

/// What a `DiffFacts` says.
pub struct DiffFactsView {
    pub repo_root: Seq<char>,
    pub base_ref: Seq<char>,
    pub head_ref: Seq<char>,
    pub files: Seq<FileChangeView>,
    pub languages: Seq<LanguageCountView>,
    pub sensitive_path_hit: bool,
    pub sensitive_paths: Seq<Seq<char>>,
    pub dependency_change: bool,
    pub ci_or_infra_change: bool,
    pub tests_touched: bool,
    pub source_touched_without_tests: bool,
    pub added_branch_keywords: u32,
}

impl View for DiffFacts {
    type V = DiffFactsView;

    open spec fn view(&self) -> DiffFactsView {
        DiffFactsView {
            repo_root: self.repo_root@,
            base_ref: self.base_ref@,
            head_ref: self.head_ref@,
            files: text::views(self.files@),
            languages: text::views(self.languages@),
            sensitive_path_hit: self.sensitive_path_hit,
            sensitive_paths: text::views(self.sensitive_paths@),
            dependency_change: self.dependency_change,
            ci_or_infra_change: self.ci_or_infra_change,
            tests_touched: self.tests_touched,
            source_touched_without_tests: self.source_touched_without_tests,
            added_branch_keywords: self.added_branch_keywords,
        }
    }
}

/// A file name under which a package manager keeps dependencies.
pub open spec fn dependency_manifest(name: Seq<char>) -> bool {
    ||| name == "package.json"@
    ||| name == "package-lock.json"@
    ||| name == "pnpm-lock.yaml"@
    ||| name == "yarn.lock"@
    ||| name == "go.mod"@
    ||| name == "go.sum"@
    ||| name == "pom.xml"@
    ||| name == "build.gradle"@
    ||| name == "build.gradle.kts"@
    ||| name == "Cargo.toml"@
    ||| name == "Cargo.lock"@
    ||| name == "requirements.txt"@
    ||| name == "pyproject.toml"@
}

fn is_dependency_manifest(name: &str) -> (r: bool)
    ensures
        r == dependency_manifest(name@),
{
    text::same(name, "package.json") || text::same(name, "package-lock.json") || text::same(
        name,
        "pnpm-lock.yaml",
    ) || text::same(name, "yarn.lock") || text::same(name, "go.mod") || text::same(name, "go.sum")
        || text::same(name, "pom.xml") || text::same(name, "build.gradle") || text::same(
        name,
        "build.gradle.kts",
    ) || text::same(name, "Cargo.toml") || text::same(name, "Cargo.lock") || text::same(
        name,
        "requirements.txt",
    ) || text::same(name, "pyproject.toml")
}

/// The file that a path names keeps dependencies.
pub open spec fn names_manifest(path: Seq<char>) -> bool {
    paths::file_name_of(path) is Some && dependency_manifest(paths::file_name_of(path)->Some_0)
}

/// The globs of CI and infrastructure files.
pub open spec fn ci_infra_globs() -> Seq<Seq<char>> {
    seq![".github/workflows/**"@, "**/Dockerfile"@, "**/*.tf"@, ".gitlab-ci.yml"@]
}

fn ci_infra_patterns() -> (patterns: Vec<String>)
    ensures
        text::views(patterns@) == ci_infra_globs(),
{
    let mut patterns: Vec<String> = Vec::new();
    patterns.push(".github/workflows/**".to_owned());
    patterns.push("**/Dockerfile".to_owned());
    patterns.push("**/*.tf".to_owned());
    patterns.push(".gitlab-ci.yml".to_owned());
    proof {
        assert(text::views(patterns@) =~= ci_infra_globs());
    }
    patterns
}

/// A path is that of a test, given the path in lower case too.
pub open spec fn test_path(path: Seq<char>, lower: Seq<char>) -> bool {
    ||| text::has(lower, "/test/"@)
    ||| text::has(lower, "/tests/"@)
    ||| text::begins(lower, "test/"@)
    ||| text::begins(lower, "tests/"@)
    ||| text::ends(lower, "_test.go"@)
    ||| text::ends(lower, "_test.py"@)
    ||| text::ends(lower, ".test.ts"@)
    ||| text::ends(lower, ".test.js"@)
    ||| text::ends(path, "Test.java"@)
    ||| text::ends(path, "Test.kt"@)
}

/// Whether a path is that of a test, given the path in lower case too.
pub fn is_test_path_lowered(path: &str, lower: &str) -> (r: bool)
    ensures
        r == test_path(path@, lower@),
{
    text::contains(lower, "/test/") || text::contains(lower, "/tests/") || text::starts_with(
        lower,
        "test/",
    ) || text::starts_with(lower, "tests/") || text::ends_with(lower, "_test.go")
        || text::ends_with(lower, "_test.py") || text::ends_with(lower, ".test.ts")
        || text::ends_with(lower, ".test.js") || text::ends_with(path, "Test.java")
        || text::ends_with(path, "Test.kt")
}

/// Whether a path is that of a test.
pub fn is_test_path(path: &str) -> (r: bool)
    ensures
        r == test_path(path@, text::lowercase(path@)),
{
    let lower: String = text::to_lower(path);
    is_test_path_lowered(path, lower.as_str())
}

/// The language that the extension of a path stands for.
pub open spec fn language_by_extension(path: Seq<char>) -> Option<Seq<char>> {
    match paths::extension_of(path) {
        Some(ext) => if ext == "java"@ {
            Some("java"@)
        } else if ext == "kt"@ || ext == "kts"@ {
            Some("kotlin"@)
        } else if ext == "go"@ {
            Some("go"@)
        } else if ext == "rs"@ {
            Some("rust"@)
        } else if ext == "ts"@ || ext == "tsx"@ {
            Some("typescript"@)
        } else if ext == "js"@ || ext == "jsx"@ {
            Some("javascript"@)
        } else if ext == "py"@ {
            Some("python"@)
        } else {
            None
        },
        None => None,
    }
}

/// The language that the extension of a path stands for.
pub fn extension_language(path: &str) -> (language: Option<&'static str>)
    ensures
        match language {
            Some(l) => language_by_extension(path@) == Some(l@),
            None => language_by_extension(path@) is None,
        },
{
    match paths::extension(path) {
        Some(ext) => if text::same(ext, "java") {
            Some("java")
        } else if text::same(ext, "kt") || text::same(ext, "kts") {
            Some("kotlin")
        } else if text::same(ext, "go") {
            Some("go")
        } else if text::same(ext, "rs") {
            Some("rust")
        } else if text::same(ext, "ts") || text::same(ext, "tsx") {
            Some("typescript")
        } else if text::same(ext, "js") || text::same(ext, "jsx") {
            Some("javascript")
        } else if text::same(ext, "py") {
            Some("python")
        } else {
            None
        },
        None => None,
    }
}

/// The position of the entry for a language, or the number of entries without
/// one.
pub open spec fn language_at(counts: Seq<LanguageCountView>, language: Seq<char>) -> int
    decreases counts.len(),
{
    if counts.len() == 0 || counts[0].language == language {
        0
    } else {
        1 + language_at(counts.drop_first(), language)
    }
}

/// The counts with one more file in a language.
pub open spec fn count_one(counts: Seq<LanguageCountView>, language: Seq<char>) -> Seq<
    LanguageCountView,
> {
    let i = language_at(counts, language);
    if 0 <= i < counts.len() {
        counts.update(i, (LanguageCountView { language, files: counts[i].files + 1 }))
    } else {
        counts.push(LanguageCountView { language, files: 1 })
    }
}

/// The languages of the files, with how many files are in each.
pub open spec fn languages_of(files: Seq<FileChangeView>) -> Seq<LanguageCountView>
    decreases files.len(),
{
    if files.len() == 0 {
        Seq::empty()
    } else {
        match language_by_extension(files.last().path) {
            Some(language) => count_one(languages_of(files.drop_last()), language),
            None => languages_of(files.drop_last()),
        }
    }
}

proof fn lemma_language_at(counts: Seq<LanguageCountView>, language: Seq<char>, i: int)
    requires
        0 <= i <= counts.len(),
        forall|j: int| 0 <= j < i ==> (#[trigger] counts[j]).language != language,
        i < counts.len() ==> counts[i].language == language,
    ensures
        language_at(counts, language) == i,
    decreases counts.len(),
{
    if counts.len() > 0 && counts[0].language != language {
        let rest = counts.drop_first();
        assert forall|j: int| 0 <= j < i - 1 implies (#[trigger] rest[j]).language != language by {
            assert(rest[j] == counts[j + 1]);
        }
        lemma_language_at(rest, language, i - 1);
    }
}

fn count_language(counts: &mut Vec<LanguageCount>, language: &str)
    requires
        forall|j: int| 0 <= j < old(counts)@.len() ==> (#[trigger] old(counts)@[j]).files < usize::MAX,
    ensures
        text::views(final(counts)@) == count_one(text::views(old(counts)@), language@),
        forall|j: int|
            0 <= j < final(counts)@.len() ==> {
                ||| (#[trigger] final(counts)@[j]).files == 1
                ||| j < old(counts)@.len() && final(counts)@[j].files <= old(counts)@[j].files + 1
            },
{
    let ghost before = text::views(counts@);
    let mut i: usize = 0;
    while i < counts.len() && !text::same(counts[i].language.as_str(), language)
        invariant
            0 <= i <= counts@.len(),
            before == text::views(counts@),
            forall|j: int| 0 <= j < i ==> (#[trigger] before[j]).language != language@,
        decreases counts.len() - i,
    {
        i += 1;
    }
    proof {
        lemma_language_at(before, language@, i as int);
    }
    if i < counts.len() {
        let files: usize = counts[i].files + 1;
        counts.set(i, LanguageCount { language: language.to_owned(), files });
        proof {
            assert(text::views(counts@) =~= before.update(
                i as int,
                (LanguageCountView { language: language@, files: before[i as int].files + 1 }),
            ));
        }
    } else {
        let entry = LanguageCount { language: language.to_owned(), files: 1 };
        proof {
            text::lemma_views_push(counts@, entry);
        }
        counts.push(entry);
    }
}

fn count_languages(files: &Vec<FileChange>) -> (counts: Vec<LanguageCount>)
    ensures
        text::views(counts@) == languages_of(text::views(files@)),
{
    let ghost all = text::views(files@);
    let mut counts: Vec<LanguageCount> = Vec::new();
    proof {
        assert(text::views(counts@) =~= Seq::empty());
    }
    let mut i: usize = 0;
    while i < files.len()
        invariant
            0 <= i <= files@.len(),
            all == text::views(files@),
            text::views(counts@) == languages_of(all.take(i as int)),
            forall|j: int| 0 <= j < counts@.len() ==> (#[trigger] counts@[j]).files <= i,
        decreases files.len() - i,
    {
        proof {
            assert(all.take(i + 1).drop_last() =~= all.take(i as int));
            assert(all.take(i + 1).last() == files@[i as int]@);
        }
        match extension_language(files[i].path.as_str()) {
            Some(language) => {
                count_language(&mut counts, language);
            },
            None => {},
        }
        i += 1;
    }
    proof {
        assert(all.take(all.len() as int) =~= all);
    }
    counts
}

/// The number that a column of `git diff --numstat` gives: none for `-`, and
/// none for what is not a number.
pub open spec fn numstat_count(column: Seq<char>) -> u32 {
    match text::parsed_unsigned(column, u32::MAX as nat) {
        Some(n) => n as u32,
        None => 0,
    }
}

/// The file of a line of `git diff --numstat`: additions, deletions and path
/// behind tabs.
pub open spec fn numstat_row(line: Seq<char>) -> Option<FileChangeView> {
    match text::split_first(line, '\t') {
        Some((added, rest)) => match text::split_first(rest, '\t') {
            Some((deleted, path)) => Some(
                FileChangeView {
                    path,
                    additions: numstat_count(added),
                    deletions: numstat_count(deleted),
                },
            ),
            None => None,
        },
        None => None,
    }
}

/// The files of the lines that have three columns.
pub open spec fn numstat_rows(lines: Seq<Seq<char>>) -> Seq<FileChangeView>
    decreases lines.len(),
{
    if lines.len() == 0 {
        Seq::empty()
    } else {
        match numstat_row(lines.last()) {
            Some(row) => numstat_rows(lines.drop_last()).push(row),
            None => numstat_rows(lines.drop_last()),
        }
    }
}

fn parse_count(column: &str) -> (n: u32)
    ensures
        n == numstat_count(column@),
{
    match text::parse_unsigned(column, u32::MAX as u64) {
        Some(n) => n as u32,
        None => 0,
    }
}

/// The files that `git diff --numstat` printed.
pub fn parse_numstat(stdout: &str) -> (files: Vec<FileChange>)
    ensures
        text::views(files@) == numstat_rows(text::lines_of(stdout@)),
{
    let lines: Vec<String> = text::lines(stdout);
    let ghost all = text::views(lines@);
    let mut files: Vec<FileChange> = Vec::new();
    proof {
        assert(text::views(files@) =~= Seq::empty());
    }
    let mut i: usize = 0;
    while i < lines.len()
        invariant
            0 <= i <= lines@.len(),
            all == text::views(lines@),
            text::views(files@) == numstat_rows(all.take(i as int)),
        decreases lines.len() - i,
    {
        proof {
            assert(all.take(i + 1).drop_last() =~= all.take(i as int));
            assert(all.take(i + 1).last() == lines@[i as int]@);
        }
        if let Some((added, rest)) = text::split_once(lines[i].as_str(), '\t') {
            if let Some((deleted, path)) = text::split_once(rest, '\t') {
                let row = FileChange {
                    path: path.to_owned(),
                    additions: parse_count(added),
                    deletions: parse_count(deleted),
                };
                proof {
                    text::lemma_views_push(files@, row);
                }
                files.push(row);
            }
        }
        i += 1;
    }
    proof {
        assert(all.take(all.len() as int) =~= all);
    }
    files
}

/// A line of a diff that adds text.
pub open spec fn adds_text(line: Seq<char>) -> bool {
    text::begins(line, "+"@) && !text::begins(line, "+++"@)
}

/// The lines of a diff that add text.
pub open spec fn adding_lines(lines: Seq<Seq<char>>) -> Seq<Seq<char>>
    decreases lines.len(),
{
    if lines.len() == 0 {
        Seq::empty()
    } else if adds_text(lines.last()) {
        adding_lines(lines.drop_last()).push(lines.last())
    } else {
        adding_lines(lines.drop_last())
    }
}

/// The lines of a diff that add text, one below the other.
pub fn added_lines(diff: &str) -> (added: String)
    ensures
        added@ == text::joined(adding_lines(text::lines_of(diff@)), "\n"@),
{
    let lines: Vec<String> = text::lines(diff);
    let ghost all = text::views(lines@);
    let mut added: Vec<String> = Vec::new();
    proof {
        assert(text::views(added@) =~= Seq::empty());
    }
    let mut i: usize = 0;
    while i < lines.len()
        invariant
            0 <= i <= lines@.len(),
            all == text::views(lines@),
            text::views(added@) == adding_lines(all.take(i as int)),
        decreases lines.len() - i,
    {
        proof {
            assert(all.take(i + 1).drop_last() =~= all.take(i as int));
            assert(all.take(i + 1).last() == lines@[i as int]@);
        }
        let line: &str = lines[i].as_str();
        if text::starts_with(line, "+") && !text::starts_with(line, "+++") {
            let kept: String = line.to_owned();
            proof {
                text::lemma_views_push(added@, kept);
            }
            added.push(kept);
        }
        i += 1;
    }
    proof {
        assert(all.take(all.len() as int) =~= all);
    }
    text::join(&added, "\n")
}

/// How often a line holds branch keywords and operators.
pub open spec fn branches_in_line(line: Seq<char>) -> nat {
    text::times_in(line, "if"@) + text::times_in(line, "else if"@) + text::times_in(line, "for"@)
        + text::times_in(line, "while"@) + text::times_in(line, "case"@) + text::times_in(
        line,
        "catch"@,
    ) + text::times_in(line, "&&"@) + text::times_in(line, "||"@)
}

/// How often the lines hold branch keywords and operators.
pub open spec fn branches_in(lines: Seq<Seq<char>>) -> nat
    decreases lines.len(),
{
    if lines.len() == 0 {
        0
    } else {
        branches_in(lines.drop_last()) + branches_in_line(lines.last())
    }
}

/// A count, or the largest `u32` where it is larger.
pub open spec fn at_most_u32(n: nat) -> u32 {
    if n <= u32::MAX {
        n as u32
    } else {
        u32::MAX
    }
}

fn plus(total: u32, more: usize) -> (sum: u32)
    ensures
        sum == at_most_u32((total + more) as nat),
{
    let sum: u128 = total as u128 + more as u128;
    if sum > u32::MAX as u128 {
        u32::MAX
    } else {
        sum as u32
    }
}

/// How often a text holds branch keywords and operators, counted no further
/// than the largest `u32`.
pub fn count_branch_keywords(added_lines: &str) -> (count: u32)
    ensures
        count == at_most_u32(branches_in(text::lines_of(added_lines@))),
{
    let lines: Vec<String> = text::lines(added_lines);
    let ghost all = text::views(lines@);
    let mut count: u32 = 0;
    let mut i: usize = 0;
    while i < lines.len()
        invariant
            0 <= i <= lines@.len(),
            all == text::views(lines@),
            count == at_most_u32(branches_in(all.take(i as int))),
        decreases lines.len() - i,
    {
        proof {
            assert(all.take(i + 1).drop_last() =~= all.take(i as int));
            assert(all.take(i + 1).last() == lines@[i as int]@);
        }
        let line: &str = lines[i].as_str();
        count = plus(count, text::count_of(line, "if"));
        count = plus(count, text::count_of(line, "else if"));
        count = plus(count, text::count_of(line, "for"));
        count = plus(count, text::count_of(line, "while"));
        count = plus(count, text::count_of(line, "case"));
        count = plus(count, text::count_of(line, "catch"));
        count = plus(count, text::count_of(line, "&&"));
        count = plus(count, text::count_of(line, "||"));
        i += 1;
    }
    proof {
        assert(all.take(all.len() as int) =~= all);
    }
    count
}

/// The paths of the files that one of the globs matches.
pub open spec fn matching_paths(files: Seq<FileChangeView>, globs: Seq<Seq<char>>) -> Seq<Seq<char>>
    decreases files.len(),
{
    if files.len() == 0 {
        Seq::empty()
    } else if globs::any_glob_matches(globs, files.last().path) {
        matching_paths(files.drop_last(), globs).push(files.last().path)
    } else {
        matching_paths(files.drop_last(), globs)
    }
}

fn paths_matching(files: &Vec<FileChange>, globs: &Vec<String>) -> (found: Vec<String>)
    ensures
        text::views(found@) == matching_paths(text::views(files@), text::views(globs@)),
{
    let ghost all = text::views(files@);
    let mut found: Vec<String> = Vec::new();
    proof {
        assert(text::views(found@) =~= Seq::empty());
    }
    let mut i: usize = 0;
    while i < files.len()
        invariant
            0 <= i <= files@.len(),
            all == text::views(files@),
            text::views(found@) == matching_paths(all.take(i as int), text::views(globs@)),
        decreases files.len() - i,
    {
        proof {
            assert(all.take(i + 1).drop_last() =~= all.take(i as int));
            assert(all.take(i + 1).last() == files@[i as int]@);
        }
        if globs::any_match(globs, files[i].path.as_str()) {
            let path: String = files[i].path.clone();
            proof {
                text::lemma_views_push(found@, path);
            }
            found.push(path);
        }
        i += 1;
    }
    proof {
        assert(all.take(all.len() as int) =~= all);
    }
    found
}

/// One of the files keeps dependencies.
pub open spec fn some_manifest(files: Seq<FileChangeView>) -> bool {
    exists|i: int| 0 <= i < files.len() && names_manifest((#[trigger] files[i]).path)
}

/// One of the files is that of a test.
pub open spec fn some_test(files: Seq<FileChangeView>) -> bool {
    exists|i: int|
        0 <= i < files.len() && test_path((#[trigger] files[i]).path, text::lowercase(files[i].path))
}

/// One of the files is not that of a test.
pub open spec fn some_source(files: Seq<FileChangeView>) -> bool {
    exists|i: int|
        0 <= i < files.len() && !test_path(
            (#[trigger] files[i]).path,
            text::lowercase(files[i].path),
        )
}

fn any_manifest(files: &Vec<FileChange>) -> (r: bool)
    ensures
        r == some_manifest(text::views(files@)),
{
    let ghost all = text::views(files@);
    let mut i: usize = 0;
    while i < files.len()
        invariant
            0 <= i <= files@.len(),
            all == text::views(files@),
            forall|j: int| 0 <= j < i ==> !names_manifest((#[trigger] all[j]).path),
        decreases files.len() - i,
    {
        let hit: bool = match paths::file_name(files[i].path.as_str()) {
            Some(name) => is_dependency_manifest(name),
            None => false,
        };
        if hit {
            proof {
                assert(names_manifest(all[i as int].path));
            }
            return true;
        }
        i += 1;
    }
    false
}

fn any_test(files: &Vec<FileChange>, wanted: bool) -> (r: bool)
    ensures
        r == if wanted {
            some_test(text::views(files@))
        } else {
            some_source(text::views(files@))
        },
{
    let ghost all = text::views(files@);
    let mut i: usize = 0;
    while i < files.len()
        invariant
            0 <= i <= files@.len(),
            all == text::views(files@),
            forall|j: int|
                0 <= j < i ==> test_path((#[trigger] all[j]).path, text::lowercase(all[j].path))
                    != wanted,
        decreases files.len() - i,
    {
        if is_test_path(files[i].path.as_str()) == wanted {
            proof {
                assert(test_path(all[i as int].path, text::lowercase(all[i as int].path))
                    == wanted);
            }
            return true;
        }
        i += 1;
    }
    false
}

/// What triage knows of a diff between two references, given what
/// `git diff --numstat` and `git diff --unified=0` printed for it.
pub open spec fn facts_of(
    repo_root: Seq<char>,
    base_ref: Seq<char>,
    head_ref: Seq<char>,
    numstat: Seq<char>,
    diff: Seq<char>,
    sensitive_globs: Seq<Seq<char>>,
) -> DiffFactsView {
    let files = numstat_rows(text::lines_of(numstat));
    let sensitive = matching_paths(files, sensitive_globs);
    let added = text::joined(adding_lines(text::lines_of(diff)), "\n"@);
    DiffFactsView {
        repo_root,
        base_ref,
        head_ref,
        files,
        languages: languages_of(files),
        sensitive_path_hit: sensitive.len() > 0,
        sensitive_paths: sensitive,
        dependency_change: some_manifest(files),
        ci_or_infra_change: matching_paths(files, ci_infra_globs()).len() > 0,
        tests_touched: some_test(files),
        source_touched_without_tests: some_source(files) && !some_test(files),
        added_branch_keywords: at_most_u32(branches_in(text::lines_of(added))),
    }
}

/// What triage knows of a diff between two references, given what
/// `git diff --numstat` and `git diff --unified=0` printed for it.
pub fn collect_diff_facts(
    repo_root: &str,
    base_ref: &str,
    head_ref: &str,
    numstat: &str,
    diff: &str,
    sensitive_path_globs: &Vec<String>,
) -> (facts: DiffFacts)
    ensures
        facts@ == facts_of(
            repo_root@,
            base_ref@,
            head_ref@,
            numstat@,
            diff@,
            text::views(sensitive_path_globs@),
        ),
{
    let files: Vec<FileChange> = parse_numstat(numstat);
    let added: String = added_lines(diff);
    let languages: Vec<LanguageCount> = count_languages(&files);
    let sensitive_paths: Vec<String> = paths_matching(&files, sensitive_path_globs);
    let ci_paths: Vec<String> = paths_matching(&files, &ci_infra_patterns());
    let dependency_change: bool = any_manifest(&files);
    let tests_touched: bool = any_test(&files, true);
    let source_touched: bool = any_test(&files, false);
    DiffFacts {
        repo_root: repo_root.to_owned(),
        base_ref: base_ref.to_owned(),
        head_ref: head_ref.to_owned(),
        sensitive_path_hit: sensitive_paths.len() > 0,
        sensitive_paths,
        dependency_change,
        ci_or_infra_change: ci_paths.len() > 0,
        tests_touched,
        source_touched_without_tests: source_touched && !tests_touched,
        added_branch_keywords: count_branch_keywords(added.as_str()),
        files,
        languages,
    }
}

/// A row of a numeric summary is two counts and a path with tabs between them; a
/// count that is no number counts nothing.
pub proof fn rows_have_two_counts_and_a_path(added: Seq<char>, deleted: Seq<char>, path: Seq<char>)
    requires
        !added.contains('\t'),
        !deleted.contains('\t'),
    ensures
        ({
            let line = added + seq!['\t'] + deleted + seq!['\t'] + path;
            numstat_row(line) matches Some(row) && {
                &&& row.path == path
                &&& text::parsed_unsigned(added, u32::MAX as nat) matches Some(n) ==> row.additions
                    == n
                &&& text::parsed_unsigned(added, u32::MAX as nat) is None ==> row.additions == 0
                &&& text::parsed_unsigned(deleted, u32::MAX as nat) matches Some(n)
                    ==> row.deletions == n
                &&& text::parsed_unsigned(deleted, u32::MAX as nat) is None ==> row.deletions == 0
            }
        }),
        numstat_row(added) is None,
        numstat_row(added + seq!['\t'] + deleted) is None,
{
    let line = added + seq!['\t'] + deleted + seq!['\t'] + path;
    let rest = deleted + seq!['\t'] + path;
    let short = added + seq!['\t'] + deleted;
    assert forall|j: int| 0 <= j < added.len() implies added[j] != '\t' by {
        if added[j] == '\t' {
            assert(added.contains('\t'));
        }
    }
    assert forall|j: int| 0 <= j < deleted.len() implies deleted[j] != '\t' by {
        if deleted[j] == '\t' {
            assert(deleted.contains('\t'));
        }
    }
    text::lemma_first_at(line, '\t', added.len() as int);
    text::lemma_first_at(short, '\t', added.len() as int);
    text::lemma_first_at(rest, '\t', deleted.len() as int);
    text::lemma_first_at(added, '\t', added.len() as int);
    text::lemma_first_at(deleted, '\t', deleted.len() as int);
    assert(line.take(added.len() as int) =~= added);
    assert(line.skip(added.len() as int + 1) =~= rest);
    assert(rest.take(deleted.len() as int) =~= deleted);
    assert(rest.skip(deleted.len() as int + 1) =~= path);
    assert(short.skip(added.len() as int + 1) =~= deleted);
}

/// The files of a summary are its rows, in order; other lines are left out.
pub proof fn rows_are_files(lines: Seq<Seq<char>>, line: Seq<char>)
    ensures
        numstat_row(line) matches Some(row) ==> numstat_rows(lines.push(line)) == numstat_rows(
            lines,
        ).push(row),
        numstat_row(line) is None ==> numstat_rows(lines.push(line)) == numstat_rows(lines),
        numstat_rows(Seq::empty()).len() == 0,
{
    assert(lines.push(line).drop_last() =~= lines);
}

/// The lines that a diff adds begin with one plus sign, and not with three.
pub proof fn added_lines_begin_with_a_plus(lines: Seq<Seq<char>>)
    ensures
        adding_lines(lines) == lines.filter(
            |l: Seq<char>|
                l.len() > 0 && l[0] == '+' && !(l.len() > 2 && l[1] == '+' && l[2] == '+'),
        ),
    decreases lines.len(),
{
    reveal(Seq::filter);
    if lines.len() > 0 {
        let l = lines.last();
        added_lines_begin_with_a_plus(lines.drop_last());
        reveal_strlit("+");
        reveal_strlit("+++");
        if l.len() > 0 {
            assert(l.subrange(0, 1) =~= seq![l[0]]);
            assert("+"@ =~= seq!['+']);
            assert(text::begins(l, "+"@) <==> l[0] == '+') by {
                assert(l.subrange(0, 1)[0] == l[0]);
                assert(l[0] == '+' ==> l.subrange(0, 1) =~= "+"@);
            }
        }
        if l.len() > 2 {
            assert(text::begins(l, "+++"@) <==> l[0] == '+' && l[1] == '+' && l[2] == '+') by {
                let s = l.subrange(0, 3);
                assert(s[0] == l[0] && s[1] == l[1] && s[2] == l[2]);
                if l[0] == '+' && l[1] == '+' && l[2] == '+' {
                    assert(s =~= "+++"@);
                }
            }
        }
    }
}

/// The words and signs that make a branch; a line counts each as often as it holds
/// it, and lines add up.
pub proof fn branches_are_counted_by_their_words(lines: Seq<Seq<char>>, line: Seq<char>)
    ensures
        branches_in(lines.push(line)) == branches_in(lines) + text::times_in(line, "if"@)
            + text::times_in(line, "else if"@) + text::times_in(line, "for"@) + text::times_in(
            line,
            "while"@,
        ) + text::times_in(line, "case"@) + text::times_in(line, "catch"@) + text::times_in(
            line,
            "&&"@,
        ) + text::times_in(line, "||"@),
        branches_in(Seq::empty()) == 0,
{
    assert(lines.push(line).drop_last() =~= lines);
}

/// The extension of a file tells its language.
pub proof fn extensions_tell_the_language(path: Seq<char>, ext: Seq<char>)
    requires
        paths::extension_of(path) == Some(ext),
    ensures
        ext == "java"@ ==> language_by_extension(path) == Some("java"@),
        ext == "kt"@ || ext == "kts"@ ==> language_by_extension(path) == Some("kotlin"@),
        ext == "go"@ ==> language_by_extension(path) == Some("go"@),
        ext == "rs"@ ==> language_by_extension(path) == Some("rust"@),
        ext == "ts"@ || ext == "tsx"@ ==> language_by_extension(path) == Some("typescript"@),
        ext == "js"@ || ext == "jsx"@ ==> language_by_extension(path) == Some("javascript"@),
        ext == "py"@ ==> language_by_extension(path) == Some("python"@),
        !(seq![
            "java"@,
            "kt"@,
            "kts"@,
            "go"@,
            "rs"@,
            "ts"@,
            "tsx"@,
            "js"@,
            "jsx"@,
            "py"@,
        ].contains(ext)) ==> language_by_extension(path) is None,
{
    reveal_strlit("java");
    reveal_strlit("kt");
    reveal_strlit("kts");
    reveal_strlit("go");
    reveal_strlit("rs");
    reveal_strlit("ts");
    reveal_strlit("tsx");
    reveal_strlit("js");
    reveal_strlit("jsx");
    reveal_strlit("py");
    let all = seq!["java"@, "kt"@, "kts"@, "go"@, "rs"@, "ts"@, "tsx"@, "js"@, "jsx"@, "py"@];
    assert(all[0] == "java"@ && all[1] == "kt"@ && all[2] == "kts"@ && all[3] == "go"@);
    assert(all[4] == "rs"@ && all[5] == "ts"@ && all[6] == "tsx"@ && all[7] == "js"@);
    assert(all[8] == "jsx"@ && all[9] == "py"@);
    assert("kt"@[0] != "go"@[0] && "kt"@[0] != "rs"@[0] && "kt"@[0] != "ts"@[0]);
    assert("go"@[0] != "rs"@[0] && "go"@[0] != "ts"@[0] && "go"@[0] != "js"@[0]);
    assert("rs"@[0] != "ts"@[0] && "rs"@[0] != "js"@[0] && "rs"@[0] != "py"@[0]);
    assert("ts"@[0] != "js"@[0] && "ts"@[0] != "py"@[0] && "js"@[0] != "py"@[0]);
    assert("kt"@[0] != "js"@[0] && "kt"@[0] != "py"@[0] && "go"@[0] != "py"@[0]);
    assert("kts"@[0] != "tsx"@[0] && "kts"@[0] != "jsx"@[0] && "tsx"@[0] != "jsx"@[0]);
}

/// A file is a test where it stands in a directory for tests or is named as one.
pub proof fn tests_are_told_by_their_path(path: Seq<char>, lower: Seq<char>)
    ensures
        test_path(path, lower) <==> (text::has(lower, "/test/"@) || text::has(lower, "/tests/"@)
            || text::begins(lower, "test/"@) || text::begins(lower, "tests/"@) || text::ends(
            lower,
            "_test.go"@,
        ) || text::ends(lower, "_test.py"@) || text::ends(lower, ".test.ts"@) || text::ends(
            lower,
            ".test.js"@,
        ) || text::ends(path, "Test.java"@) || text::ends(path, "Test.kt"@)),
{
}

/// The names of the files in which a project lists what it depends on.
pub proof fn manifests_have_these_names(path: Seq<char>)
    ensures
        names_manifest(path) <==> (paths::file_name_of(path) matches Some(name) && seq![
            "package.json"@,
            "package-lock.json"@,
            "pnpm-lock.yaml"@,
            "yarn.lock"@,
            "go.mod"@,
            "go.sum"@,
            "pom.xml"@,
            "build.gradle"@,
            "build.gradle.kts"@,
            "Cargo.toml"@,
            "Cargo.lock"@,
            "requirements.txt"@,
            "pyproject.toml"@,
        ].contains(name)),
{
    let all = seq![
        "package.json"@,
        "package-lock.json"@,
        "pnpm-lock.yaml"@,
        "yarn.lock"@,
        "go.mod"@,
        "go.sum"@,
        "pom.xml"@,
        "build.gradle"@,
        "build.gradle.kts"@,
        "Cargo.toml"@,
        "Cargo.lock"@,
        "requirements.txt"@,
        "pyproject.toml"@,
    ];
    assert(all[0] == "package.json"@ && all[1] == "package-lock.json"@ && all[2]
        == "pnpm-lock.yaml"@);
    assert(all[3] == "yarn.lock"@ && all[4] == "go.mod"@ && all[5] == "go.sum"@ && all[6]
        == "pom.xml"@);
    assert(all[7] == "build.gradle"@ && all[8] == "build.gradle.kts"@ && all[9] == "Cargo.toml"@);
    assert(all[10] == "Cargo.lock"@ && all[11] == "requirements.txt"@ && all[12]
        == "pyproject.toml"@);
}

/// What the facts of a diff say: whether a sensitive path, a list of dependencies, a
/// file of the build or a test was touched, and whether source was without a test.
pub proof fn facts_say_what_was_touched(
    root: Seq<char>,
    base: Seq<char>,
    head: Seq<char>,
    numstat: Seq<char>,
    diff: Seq<char>,
    sensitive: Seq<Seq<char>>,
)
    ensures
        ({
            let facts = facts_of(root, base, head, numstat, diff, sensitive);
            let touches = |p: spec_fn(Seq<char>) -> bool|
                exists|i: int| 0 <= i < facts.files.len() && p((#[trigger] facts.files[i]).path);
            let is_test = |p: Seq<char>| test_path(p, text::lowercase(p));
            &&& facts.repo_root == root && facts.base_ref == base && facts.head_ref == head
            &&& facts.sensitive_path_hit <==> touches(
                |p: Seq<char>| globs::any_glob_matches(sensitive, p),
            )
            &&& facts.ci_or_infra_change <==> touches(
                |p: Seq<char>|
                    globs::any_glob_matches(
                        seq![
                            ".github/workflows/**"@,
                            "**/Dockerfile"@,
                            "**/*.tf"@,
                            ".gitlab-ci.yml"@,
                        ],
                        p,
                    ),
            )
            &&& facts.dependency_change <==> touches(|p: Seq<char>| names_manifest(p))
            &&& facts.tests_touched <==> touches(is_test)
            &&& facts.source_touched_without_tests <==> touches(|p: Seq<char>| !is_test(p))
                && !touches(is_test)
        }),
{
    let facts = facts_of(root, base, head, numstat, diff, sensitive);
    let ci = seq![".github/workflows/**"@, "**/Dockerfile"@, "**/*.tf"@, ".gitlab-ci.yml"@];
    assert(ci_infra_globs() =~= ci);
    lemma_matching_paths(facts.files, sensitive);
    lemma_matching_paths(facts.files, ci);
}

proof fn lemma_matching_paths(files: Seq<FileChangeView>, globs: Seq<Seq<char>>)
    ensures
        matching_paths(files, globs).len() > 0 <==> exists|i: int|
            0 <= i < files.len() && globs::any_glob_matches(globs, (#[trigger] files[i]).path),
    decreases files.len(),
{
    if files.len() > 0 {
        let rest = files.drop_last();
        lemma_matching_paths(rest, globs);
        assert(files[files.len() - 1] == files.last());
        if matching_paths(rest, globs).len() > 0 {
            let i = choose|i: int|
                0 <= i < rest.len() && globs::any_glob_matches(globs, (#[trigger] rest[i]).path);
            assert(files[i] == rest[i]);
        }
        if exists|i: int|
            0 <= i < files.len() && globs::any_glob_matches(globs, (#[trigger] files[i]).path) {
            let i = choose|i: int|
                0 <= i < files.len() && globs::any_glob_matches(globs, (#[trigger] files[i]).path);
            if i < rest.len() {
                assert(rest[i] == files[i]);
            }
        }
    }
}

/// One more file of a language counts one more for that language and none for any
/// other; the others keep their places.
pub proof fn languages_count_their_files(
    files: Seq<FileChangeView>,
    file: FileChangeView,
    language: Seq<char>,
)
    ensures
        ({
            let (was, is) = (languages_of(files), languages_of(files.push(file)));
            &&& files_in(is, language) == files_in(was, language) + if language_by_extension(
                file.path,
            ) == Some(language) {
                1nat
            } else {
                0
            }
            &&& was.len() <= is.len() <= was.len() + 1
            &&& forall|i: int|
                0 <= i < was.len() ==> (#[trigger] is[i]).language == was[i].language
        }),
{
    assert(files.push(file).drop_last() =~= files);
    let was = languages_of(files);
    if let Some(l) = language_by_extension(file.path) {
        lemma_language_at_here(was, l);
        let i = language_at(was, l);
        if i < was.len() {
            lemma_files_updated(
                was,
                i,
                LanguageCountView { language: l, files: was[i].files + 1 },
                language,
            );
        } else {
            let more = was.push(LanguageCountView { language: l, files: 1 });
            assert(more.drop_last() =~= was);
        }
    }
}

/// How many files are counted for a language.
pub open spec fn files_in(counts: Seq<LanguageCountView>, language: Seq<char>) -> nat
    decreases counts.len(),
{
    if counts.len() == 0 {
        0
    } else {
        files_in(counts.drop_last(), language) + if counts.last().language == language {
            counts.last().files
        } else {
            0
        }
    }
}

proof fn lemma_language_at_here(counts: Seq<LanguageCountView>, language: Seq<char>)
    ensures
        0 <= language_at(counts, language) <= counts.len(),
        language_at(counts, language) < counts.len() ==> counts[language_at(
            counts,
            language,
        )].language == language,
    decreases counts.len(),
{
    if counts.len() > 0 && counts[0].language != language {
        lemma_language_at_here(counts.drop_first(), language);
    }
}

proof fn lemma_files_updated(
    counts: Seq<LanguageCountView>,
    i: int,
    c: LanguageCountView,
    language: Seq<char>,
)
    requires
        0 <= i < counts.len(),
        c.language == counts[i].language,
        c.files == counts[i].files + 1,
    ensures
        files_in(counts.update(i, c), language) == files_in(counts, language) + if c.language
            == language {
            1nat
        } else {
            0
        },
    decreases counts.len(),
{
    let new = counts.update(i, c);
    if i < counts.len() - 1 {
        assert(new.drop_last() =~= counts.drop_last().update(i, c));
        lemma_files_updated(counts.drop_last(), i, c, language);
    } else {
        assert(new.drop_last() =~= counts.drop_last());
    }
}

} // verus!
