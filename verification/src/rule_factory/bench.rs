//! The bench: what a drafted rule has to show before a human sees it. It has to
//! match its own positive fixtures and none of the negative ones, and hardly any
//! file of the repository.

use vstd::prelude::*;

use crate::text;

verus! {

/// How many files of a repository are sampled at most.
pub const FP_SAMPLE_CAP: usize = 40;

/// In how many of a thousand sampled files a rule may match.
pub const MAX_FP_MATCHES_PER_THOUSAND: usize = 5;

/// Why historical precision is not measured.
pub const HISTORICAL_PRECISION_SKIPPED: &'static str = "history store does not retain original source snippets — needs a schema change to compute this check";

/// How a rule does on its own fixtures.
#[derive(Debug, Clone, Copy, PartialEq, Eq, Structural)]
pub struct SelfTestResult {
    pub positive_total: usize,
    pub positive_matched: usize,
    pub negative_total: usize,
    pub negative_matched: usize,
}

impl SelfTestResult {
    /// Every positive fixture matches, of which there are some, and no negative
    /// one does.
    pub open spec fn is_passed(self) -> bool {
        self.positive_total > 0 && self.positive_matched == self.positive_total
            && self.negative_matched == 0
    }

    /// Whether every positive fixture matches and no negative one does.
    pub fn passed(&self) -> (r: bool)
        ensures
            r == self.is_passed(),
    {
        self.positive_total > 0 && self.positive_matched == self.positive_total
            && self.negative_matched == 0
    }
}

/// How a rule does on files of a repository.
#[derive(Debug, Clone, Copy, PartialEq, Eq, Structural)]
pub struct FpSmokeResult {
    pub sampled_files: usize,
    pub matched_files: usize,
}

impl FpSmokeResult {
    /// Hardly any sampled file matches.
    pub open spec fn is_passed(self) -> bool {
        self.matched_files * 1000 <= MAX_FP_MATCHES_PER_THOUSAND * self.sampled_files
            || self.sampled_files == 0
    }

    /// Whether hardly any sampled file matches.
    pub fn passed(&self) -> (r: bool)
        ensures
            r == self.is_passed(),
    {
        let allowed: u128 = MAX_FP_MATCHES_PER_THOUSAND as u128;
        assert(allowed * self.sampled_files == 5 * self.sampled_files);
        self.sampled_files == 0 || self.matched_files as u128 * 1000 <= allowed
            * self.sampled_files as u128
    }
}

/// What the bench says of a rule.
#[derive(Debug, Clone, Copy, PartialEq, Eq, Structural)]
pub enum BenchVerdict {
    /// Every check passed.
    Candidate,
    /// There are no fixtures.
    NeedsFixtures,
    SelfTestFailed,
    FailedFpSmoke,
}

/// What the bench found out about a rule.
#[derive(Debug, Clone)]
pub struct BenchReport {
    pub cluster_id: String,
    pub self_test: Option<SelfTestResult>,
    pub fp_smoke: Option<FpSmokeResult>,
    pub historical_precision_skipped_reason: String,
    pub verdict: BenchVerdict,
}

/// Why a rule is not benched.
#[derive(Debug, Clone)]
pub enum BenchError {
    /// No rule was drafted at the path.
    NoDraftedRule { rule_path: String },
    /// The language of the rule is not supported.
    UnsupportedLanguage { language: String },
    /// The matches that were printed cannot be read.
    UnparsableOutput { cause: String, stderr: String },
}

impl BenchError {
    /// The error in words.
    pub open spec fn words(self) -> Seq<char> {
        match self {
            BenchError::NoDraftedRule { rule_path } => "no drafted rule found at "@ + rule_path@
                + " — run `autoreview rules mine` first"@,
            BenchError::UnsupportedLanguage { language } => "unsupported rule language '"@
                + language@ + "'"@,
            BenchError::UnparsableOutput { cause, stderr } => text::glued(
                seq![
                    "ast-grep produced unparsable output: "@,
                    cause@,
                    ". stderr: "@,
                    stderr@,
                ],
            ),
        }
    }

    /// The error in words.
    pub fn message(&self) -> (s: String)
        ensures
            s@ == self.words(),
    {
        match self {
            BenchError::NoDraftedRule { rule_path } => text::concat3(
                "no drafted rule found at ",
                rule_path.as_str(),
                " — run `autoreview rules mine` first",
            ),
            BenchError::UnsupportedLanguage { language } => text::concat3(
                "unsupported rule language '",
                language.as_str(),
                "'",
            ),
            BenchError::UnparsableOutput { cause, stderr } => {
                let parts: [&str; 4] = [
                    "ast-grep produced unparsable output: ",
                    cause.as_str(),
                    ". stderr: ",
                    stderr.as_str(),
                ];
                proof {
                    assert(text::views(parts@) =~= seq![
                        "ast-grep produced unparsable output: "@,
                        cause@,
                        ". stderr: "@,
                        stderr@,
                    ]);
                }
                text::glue(&parts)
            },
        }
    }
}

/// The text under a field of each object of a JSON array, `None` where there is
/// no such text, or why the JSON is no array.
pub uninterp spec fn json_fields(json: Seq<char>, field: Seq<char>) -> Result<
    Seq<Option<Seq<char>>>,
    Seq<char>,
>;

/// The texts that there may be, one by one.
pub open spec fn optional_all(fields: Seq<Option<String>>) -> Seq<Option<Seq<char>>> {
    Seq::new(fields.len(), |i: int| text::optional(fields[i]))
}

/// What fields hold, or why there are none.
pub open spec fn fields_or_cause(fields: Result<Vec<Option<String>>, String>) -> Result<
    Seq<Option<Seq<char>>>,
    Seq<char>,
> {
    match fields {
        Ok(found) => Ok(optional_all(found@)),
        Err(cause) => Err(cause@),
    }
}

/// Calls `serde_json::from_str` for a list of `serde_json::Value`, and of each
/// value `Value::get` with the field and `Value::as_str`: the texts that are
/// found, or the error in words. The result is named `json_fields`.
#[verifier::external_body]
fn json_text_fields(json: &str, field: &str) -> (fields: Result<Vec<Option<String>>, String>)
    ensures
        fields_or_cause(fields) == json_fields(json@, field@),
{
    match serde_json::from_str::<Vec<serde_json::Value>>(json) {
        Ok(values) => Ok(
            values.iter().map(|v| v.get(field).and_then(|t| t.as_str()).map(|t| t.to_string())).collect(),
        ),
        Err(err) => Err(err.to_string()),
    }
}

/// The files that matches name, in order.
pub open spec fn named_files(fields: Seq<Option<Seq<char>>>) -> Seq<Seq<char>>
    decreases fields.len(),
{
    if fields.len() == 0 {
        Seq::empty()
    } else {
        match fields.last() {
            Some(file) => named_files(fields.drop_last()).push(file),
            None => named_files(fields.drop_last()),
        }
    }
}

/// How many different files matches name.
pub fn count_named_files(fields: &Vec<Option<String>>) -> (n: usize)
    ensures
        n == text::distinct_of(named_files(optional_all(fields@))).len(),
{
    let ghost all = optional_all(fields@);
    let mut files: Vec<String> = Vec::new();
    proof {
        assert(text::views(files@) =~= Seq::empty());
    }
    let mut i: usize = 0;
    while i < fields.len()
        invariant
            0 <= i <= fields@.len(),
            all == optional_all(fields@),
            text::views(files@) == named_files(all.take(i as int)),
        decreases fields.len() - i,
    {
        proof {
            assert(all.take(i + 1).drop_last() =~= all.take(i as int));
            assert(all.take(i + 1).last() == text::optional(fields@[i as int]));
        }
        if let Some(file) = &fields[i] {
            let named: String = file.clone();
            proof {
                text::lemma_views_push(files@, named);
            }
            files.push(named);
        }
        i += 1;
    }
    proof {
        assert(all.take(all.len() as int) =~= all);
    }
    let found: Vec<String> = text::distinct(&files);
    proof {
        assert(text::views(found@).len() == found@.len());
    }
    found.len()
}

/// How many files a rule matches, as ast-grep prints its matches: a JSON array
/// of objects with the file under `file`.
pub fn count_matched_files(stdout: &str, stderr: &str) -> (counted: Result<usize, BenchError>)
    ensures
        match json_fields(stdout@, "file"@) {
            Ok(fields) => counted matches Ok(n) && n == text::distinct_of(named_files(fields)).len(),
            Err(why) => counted matches Err(BenchError::UnparsableOutput { cause, stderr: printed })
                && cause@ == why && printed@ == stderr@,
        },
{
    match json_text_fields(stdout, "file") {
        Ok(fields) => Ok(count_named_files(&fields)),
        Err(cause) => Err(BenchError::UnparsableOutput { cause, stderr: stderr.to_owned() }),
    }
}

/// A rule that names the same files in another order, or more than once, counts
/// the same.
pub proof fn every_file_counts_once(
    fields: Seq<Option<Seq<char>>>,
    other: Seq<Option<Seq<char>>>,
)
    requires
        forall|file: Seq<char>| #[trigger]
            fields.contains(Some(file)) <==> other.contains(Some(file)),
    ensures
        text::distinct_of(named_files(fields)).len() == text::distinct_of(
            named_files(other),
        ).len(),
{
    let a = text::distinct_of(named_files(fields));
    let b = text::distinct_of(named_files(other));
    text::distinct_is_the_set(named_files(fields));
    text::distinct_is_the_set(named_files(other));
    assert forall|file: Seq<char>| #[trigger] a.to_set().contains(file) <==> b.to_set().contains(
        file,
    ) by {
        lemma_named_files(fields, file);
        lemma_named_files(other, file);
        assert(a.to_set().contains(file) <==> a.contains(file));
        assert(b.to_set().contains(file) <==> b.contains(file));
        assert(fields.contains(Some(file)) <==> other.contains(Some(file)));
    }
    assert(a.to_set() =~= b.to_set());
    a.unique_seq_to_set();
    b.unique_seq_to_set();
}

proof fn lemma_named_files(fields: Seq<Option<Seq<char>>>, file: Seq<char>)
    ensures
        named_files(fields).contains(file) <==> fields.contains(Some(file)),
    decreases fields.len(),
{
    if fields.len() > 0 {
        let rest = fields.drop_last();
        lemma_named_files(rest, file);
        assert(fields =~= rest.push(fields.last()));
        text::lemma_push_contains(rest, fields.last(), Some(file));
        if let Some(last) = fields.last() {
            text::lemma_push_contains(named_files(rest), last, file);
        }
    } else {
        assert(named_files(fields).len() == 0);
    }
}

/// The extension of the files of a language.
pub open spec fn extension_of(language: Seq<char>) -> Option<Seq<char>> {
    if language == "Go"@ {
        Some("go"@)
    } else if language == "Java"@ {
        Some("java"@)
    } else if language == "Kotlin"@ {
        Some("kt"@)
    } else {
        None
    }
}

/// The extension of the files of a language.
pub fn extension_for_language(language: &str) -> (ext: Option<&'static str>)
    ensures
        match ext {
            Some(e) => extension_of(language@) == Some(e@),
            None => extension_of(language@) is None,
        },
{
    if text::same(language, "Go") {
        Some("go")
    } else if text::same(language, "Java") {
        Some("java")
    } else if text::same(language, "Kotlin") {
        Some("kt")
    } else {
        None
    }
}

/// A directory that is not sampled.
pub open spec fn is_skipped_directory(name: Seq<char>) -> bool {
    name == ".git"@ || name == "vendor"@ || name == "node_modules"@ || name == "target"@ || name
        == ".autoreview"@
}

/// Whether the directory is not sampled.
pub fn skips_directory(name: &str) -> (r: bool)
    ensures
        r == is_skipped_directory(name@),
{
    text::same(name, ".git") || text::same(name, "vendor") || text::same(name, "node_modules")
        || text::same(name, "target") || text::same(name, ".autoreview")
}

/// An entry of a directory.
#[derive(Debug, Clone)]
pub struct DirEntry {
    pub path: String,
    pub name: String,
    pub is_dir: bool,
    pub extension: Option<String>,
}

/// What a sampling walk has found, and the directories it still has to read.
pub struct Sampling {
    pub found: Vec<String>,
    pub stack: Vec<String>,
}

/// What a sampling walk has after the entries of a directory: the files with the
/// extension, until the cap is reached, and the directories to read.
pub open spec fn sampled(
    found: Seq<Seq<char>>,
    stack: Seq<Seq<char>>,
    entries: Seq<DirEntry>,
    extension: Seq<char>,
) -> (Seq<Seq<char>>, Seq<Seq<char>>)
    decreases entries.len(),
{
    if entries.len() == 0 || found.len() >= FP_SAMPLE_CAP {
        (found, stack)
    } else {
        let first = entries[0];
        let rest = entries.drop_first();
        if first.is_dir {
            if is_skipped_directory(first.name@) {
                sampled(found, stack, rest, extension)
            } else {
                sampled(found, stack.push(first.path@), rest, extension)
            }
        } else if text::optional(first.extension) == Some(extension) {
            sampled(found.push(first.path@), stack, rest, extension)
        } else {
            sampled(found, stack, rest, extension)
        }
    }
}

fn has_extension(entry: &DirEntry, extension: &str) -> (r: bool)
    ensures
        r == (text::optional(entry.extension) == Some(extension@)),
{
    match &entry.extension {
        Some(ext) => text::same(ext.as_str(), extension),
        None => false,
    }
}

/// Takes the entries of one directory into a sampling walk.
pub fn sample_entries(walk: &mut Sampling, entries: &Vec<DirEntry>, extension: &str)
    ensures
        (text::views(final(walk).found@), text::views(final(walk).stack@)) == sampled(
            text::views(old(walk).found@),
            text::views(old(walk).stack@),
            entries@,
            extension@,
        ),
{
    let ghost goal = sampled(
        text::views(walk.found@),
        text::views(walk.stack@),
        entries@,
        extension@,
    );
    let mut i: usize = 0;
    proof {
        assert(entries@.skip(0) =~= entries@);
    }
    while i < entries.len() && walk.found.len() < FP_SAMPLE_CAP
        invariant
            0 <= i <= entries@.len(),
            sampled(
                text::views(walk.found@),
                text::views(walk.stack@),
                entries@.skip(i as int),
                extension@,
            ) == goal,
        decreases entries.len() - i,
    {
        proof {
            assert(entries@.skip(i as int)[0] == entries@[i as int]);
            assert(entries@.skip(i as int).drop_first() =~= entries@.skip(i + 1));
            assert(text::views(walk.found@).len() == walk.found@.len());
        }
        let entry: &DirEntry = &entries[i];
        if entry.is_dir {
            if !skips_directory(entry.name.as_str()) {
                let path: String = entry.path.clone();
                proof {
                    text::lemma_views_push(walk.stack@, path);
                }
                walk.stack.push(path);
            }
        } else if has_extension(entry, extension) {
            let path: String = entry.path.clone();
            proof {
                text::lemma_views_push(walk.found@, path);
            }
            walk.found.push(path);
        }
        i += 1;
    }
    proof {
        assert(text::views(walk.found@).len() == walk.found@.len());
    }
}

/// Starts a sampling walk at a directory.
pub fn start_sampling(root: &str) -> (walk: Sampling)
    ensures
        walk.found@.len() == 0,
        text::views(walk.stack@) == seq![root@],
{
    let mut stack: Vec<String> = Vec::new();
    stack.push(root.to_owned());
    proof {
        assert(text::views(stack@) =~= seq![root@]);
    }
    Sampling { found: Vec::new(), stack }
}

/// The directory that a sampling walk reads next: the one that came up last,
/// until the cap is reached.
pub fn next_directory(walk: &mut Sampling) -> (dir: Option<String>)
    ensures
        final(walk).found == old(walk).found,
        match dir {
            Some(d) => {
                &&& old(walk).found@.len() < FP_SAMPLE_CAP
                &&& old(walk).stack@.len() > 0
                &&& d == old(walk).stack@.last()
                &&& final(walk).stack@ == old(walk).stack@.drop_last()
            },
            None => {
                &&& old(walk).found@.len() >= FP_SAMPLE_CAP || old(walk).stack@.len() == 0
                &&& final(walk).stack == old(walk).stack
            },
        },
{
    if walk.found.len() < FP_SAMPLE_CAP && walk.stack.len() > 0 {
        walk.stack.pop()
    } else {
        None
    }
}

/// A sampling walk never finds more files than the cap.
pub proof fn samples_stay_within_the_cap(
    found: Seq<Seq<char>>,
    stack: Seq<Seq<char>>,
    entries: Seq<DirEntry>,
    extension: Seq<char>,
)
    requires
        found.len() <= FP_SAMPLE_CAP,
    ensures
        sampled(found, stack, entries, extension).0.len() <= FP_SAMPLE_CAP,
    decreases entries.len(),
{
    if entries.len() > 0 && found.len() < FP_SAMPLE_CAP {
        let first = entries[0];
        let rest = entries.drop_first();
        samples_stay_within_the_cap(found, stack, rest, extension);
        samples_stay_within_the_cap(found, stack.push(first.path@), rest, extension);
        samples_stay_within_the_cap(found.push(first.path@), stack, rest, extension);
    }
}

/// What the bench counted of a rule: its fixtures and the sampled files, and how
/// many of them it matches.
#[derive(Debug, Clone, Copy)]
pub struct BenchCounts {
    pub positive_total: usize,
    pub positive_matched: usize,
    pub negative_total: usize,
    pub negative_matched: usize,
    pub sampled_files: usize,
    pub sampled_matched: usize,
}

/// How a rule does on its fixtures, if there are any.
pub open spec fn self_test_of(counts: BenchCounts) -> Option<SelfTestResult> {
    if counts.positive_total == 0 && counts.negative_total == 0 {
        None
    } else {
        Some(
            SelfTestResult {
                positive_total: counts.positive_total,
                positive_matched: counts.positive_matched,
                negative_total: counts.negative_total,
                negative_matched: counts.negative_matched,
            },
        )
    }
}

/// How a rule does on the sampled files, if there are any.
pub open spec fn fp_smoke_of(counts: BenchCounts) -> Option<FpSmokeResult> {
    if counts.sampled_files == 0 {
        None
    } else {
        Some(
            FpSmokeResult {
                sampled_files: counts.sampled_files,
                matched_files: counts.sampled_matched,
            },
        )
    }
}

/// What the bench says: without fixtures it needs some; a rule that fails on
/// them failed its self-test; one that matches too many sampled files failed
/// that; any other is a candidate.
pub open spec fn verdict_of(
    self_test: Option<SelfTestResult>,
    fp_smoke: Option<FpSmokeResult>,
) -> BenchVerdict {
    match self_test {
        None => BenchVerdict::NeedsFixtures,
        Some(result) => if !result.is_passed() {
            BenchVerdict::SelfTestFailed
        } else if fp_smoke is Some && !fp_smoke->Some_0.is_passed() {
            BenchVerdict::FailedFpSmoke
        } else {
            BenchVerdict::Candidate
        },
    }
}

/// What the bench says of a rule.
pub fn bench_verdict(self_test: &Option<SelfTestResult>, fp_smoke: &Option<FpSmokeResult>) -> (verdict:
    BenchVerdict)
    ensures
        verdict == verdict_of(*self_test, *fp_smoke),
{
    match self_test {
        None => BenchVerdict::NeedsFixtures,
        Some(result) => if !result.passed() {
            BenchVerdict::SelfTestFailed
        } else {
            match fp_smoke {
                Some(smoke) => if smoke.passed() {
                    BenchVerdict::Candidate
                } else {
                    BenchVerdict::FailedFpSmoke
                },
                None => BenchVerdict::Candidate,
            }
        },
    }
}

/// The report on a rule, given what the bench counted.
pub fn run_bench(cluster_id: &str, counts: BenchCounts) -> (report: BenchReport)
    ensures
        report.cluster_id@ == cluster_id@,
        report.self_test == self_test_of(counts),
        report.fp_smoke == fp_smoke_of(counts),
        report.historical_precision_skipped_reason@ == HISTORICAL_PRECISION_SKIPPED@,
        report.verdict == verdict_of(self_test_of(counts), fp_smoke_of(counts)),
{
    let self_test: Option<SelfTestResult> = if counts.positive_total == 0 && counts.negative_total
        == 0 {
        None
    } else {
        Some(
            SelfTestResult {
                positive_total: counts.positive_total,
                positive_matched: counts.positive_matched,
                negative_total: counts.negative_total,
                negative_matched: counts.negative_matched,
            },
        )
    };
    let fp_smoke: Option<FpSmokeResult> = if counts.sampled_files == 0 {
        None
    } else {
        Some(
            FpSmokeResult {
                sampled_files: counts.sampled_files,
                matched_files: counts.sampled_matched,
            },
        )
    };
    let verdict: BenchVerdict = bench_verdict(&self_test, &fp_smoke);
    BenchReport {
        cluster_id: cluster_id.to_owned(),
        self_test,
        fp_smoke,
        historical_precision_skipped_reason: HISTORICAL_PRECISION_SKIPPED.to_owned(),
        verdict,
    }
}

/// What can be benched: the extension of the files that a rule applies to, given
/// whether it was drafted and in which language.
pub fn benchable(rule_path: &str, drafted: bool, language: &str) -> (ext: Result<
    &'static str,
    BenchError,
>)
    ensures
        match ext {
            Ok(e) => drafted && extension_of(language@) == Some(e@),
            Err(BenchError::NoDraftedRule { rule_path: p }) => !drafted && p@ == rule_path@,
            Err(BenchError::UnsupportedLanguage { language: l }) => drafted && extension_of(
                language@,
            ) is None && l@ == language@,
            Err(BenchError::UnparsableOutput { .. }) => false,
        },
{
    if !drafted {
        return Err(BenchError::NoDraftedRule { rule_path: rule_path.to_owned() });
    }
    match extension_for_language(language) {
        Some(ext) => Ok(ext),
        None => Err(BenchError::UnsupportedLanguage { language: language.to_owned() }),
    }
}

/// Only a rule that passes its own fixtures becomes a candidate.
pub proof fn candidates_pass_their_fixtures(counts: BenchCounts)
    requires
        verdict_of(self_test_of(counts), fp_smoke_of(counts)) == BenchVerdict::Candidate,
    ensures
        counts.positive_total > 0,
        counts.positive_matched == counts.positive_total,
        counts.negative_matched == 0,
        counts.sampled_matched * 1000 <= MAX_FP_MATCHES_PER_THOUSAND * counts.sampled_files
            || counts.sampled_files == 0,
{
}

/// The verdict on a drafted rule: without a fixture it needs one; it fails its own
/// fixtures where it misses a positive one, has none, or matches a negative one; it
/// fails on the repository where it matches more than five in a thousand of the
/// files that were sampled; and otherwise it is a candidate.
pub proof fn verdicts_go_by_the_counts(c: BenchCounts)
    ensures
        ({
            let verdict = verdict_of(self_test_of(c), fp_smoke_of(c));
            let fixtures = c.positive_total > 0 || c.negative_total > 0;
            let passed = c.positive_total > 0 && c.positive_matched == c.positive_total
                && c.negative_matched == 0;
            let quiet = c.sampled_files == 0 || 1000 * c.sampled_matched <= 5 * c.sampled_files;
            &&& !fixtures ==> verdict == BenchVerdict::NeedsFixtures
            &&& fixtures && !passed ==> verdict == BenchVerdict::SelfTestFailed
            &&& passed && !quiet ==> verdict == BenchVerdict::FailedFpSmoke
            &&& passed && quiet ==> verdict == BenchVerdict::Candidate
        }),
{
}

/// The results of a bench are its counts.
pub proof fn results_are_the_counts(c: BenchCounts)
    ensures
        self_test_of(c) is None <==> c.positive_total == 0 && c.negative_total == 0,
        self_test_of(c) matches Some(r) ==> r.positive_total == c.positive_total
            && r.positive_matched == c.positive_matched && r.negative_total == c.negative_total
            && r.negative_matched == c.negative_matched,
        fp_smoke_of(c) is None <==> c.sampled_files == 0,
        fp_smoke_of(c) matches Some(r) ==> r.sampled_files == c.sampled_files && r.matched_files
            == c.sampled_matched,
{
}

/// How an entry of a directory is sampled while fewer than forty files are found: a
/// directory is to be walked, unless it is one of those that are passed over; a file
/// of the language is taken; and nothing else is.
pub proof fn entries_are_sampled_by_their_kind(
    found: Seq<Seq<char>>,
    stack: Seq<Seq<char>>,
    entry: DirEntry,
    rest: Seq<DirEntry>,
    ext: Seq<char>,
)
    ensures
        ({
            let all = seq![entry] + rest;
            let passed_over = seq![
                ".git"@,
                "vendor"@,
                "node_modules"@,
                "target"@,
                ".autoreview"@,
            ].contains(entry.name@);
            let fits = entry.extension matches Some(e) && e@ == ext;
            &&& found.len() >= 40 ==> sampled(found, stack, all, ext) == (found, stack)
            &&& found.len() < 40 && entry.is_dir && passed_over ==> sampled(found, stack, all, ext)
                == sampled(found, stack, rest, ext)
            &&& found.len() < 40 && entry.is_dir && !passed_over ==> sampled(
                found,
                stack,
                all,
                ext,
            ) == sampled(found, stack.push(entry.path@), rest, ext)
            &&& found.len() < 40 && !entry.is_dir && fits ==> sampled(found, stack, all, ext)
                == sampled(found.push(entry.path@), stack, rest, ext)
            &&& found.len() < 40 && !entry.is_dir && !fits ==> sampled(found, stack, all, ext)
                == sampled(found, stack, rest, ext)
        }),
        sampled(found, stack, Seq::empty(), ext) == (found, stack),
{
    let all = seq![entry] + rest;
    assert(all[0] == entry);
    assert(all.drop_first() =~= rest);
    let dirs = seq![".git"@, "vendor"@, "node_modules"@, "target"@, ".autoreview"@];
    assert(dirs[0] == ".git"@ && dirs[1] == "vendor"@ && dirs[2] == "node_modules"@ && dirs[3]
        == "target"@ && dirs[4] == ".autoreview"@);
}

/// The files that are named are the fields that hold something, in order.
pub proof fn fields_name_files(fields: Seq<Option<Seq<char>>>)
    ensures
        named_files(fields) == fields.filter(|f: Option<Seq<char>>| f is Some).map_values(
            |f: Option<Seq<char>>| f->0,
        ),
    decreases fields.len(),
{
    reveal(Seq::filter);
    let some = |f: Option<Seq<char>>| f is Some;
    let inner = |f: Option<Seq<char>>| f->0;
    if fields.len() == 0 {
        assert(named_files(fields) =~= fields.filter(some).map_values(inner));
    } else {
        let rest = fields.drop_last();
        fields_name_files(rest);
        if some(fields.last()) {
            assert(fields.filter(some).map_values(inner) =~= rest.filter(some).map_values(
                inner,
            ).push(fields.last()->0));
        }
    }
}

/// The languages that a rule can be tried on, with the extensions of their files.
pub proof fn rules_are_tried_on_these_languages(language: Seq<char>)
    ensures
        language == "Go"@ ==> extension_of(language) == Some("go"@),
        language == "Java"@ ==> extension_of(language) == Some("java"@),
        language == "Kotlin"@ ==> extension_of(language) == Some("kt"@),
        language != "Go"@ && language != "Java"@ && language != "Kotlin"@ ==> extension_of(language)
            is None,
{
    reveal_strlit("Go");
    reveal_strlit("Java");
    reveal_strlit("Kotlin");
    assert("Go"@.len() != "Java"@.len());
    assert("Go"@.len() != "Kotlin"@.len());
    assert("Java"@.len() != "Kotlin"@.len());
}

} // verus!
