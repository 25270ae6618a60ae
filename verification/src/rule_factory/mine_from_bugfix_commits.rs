//! Mines commits that fix bugs: every file that such a commit changes becomes a
//! row for rule mining, with the commit as its run.

use vstd::prelude::*;

use crate::rule_factory::category_heuristics;
use crate::storage::history_store::{MinedFindingRow, MinedRowView};
use crate::text;

verus! {

/// How many characters of a diff a row holds at most.
pub const MAX_DIFF_CHARS: usize = 1500;

/// How many commits are scanned unless told otherwise.
pub const DEFAULT_MAX_COMMITS_SCANNED: usize = 200;

/// A subject that speaks of a bug fix: one of its words says so, whatever its
/// case.
pub open spec fn fixes_bug(subject: Seq<char>) -> bool {
    ||| text::has_word(subject, "fix"@)
    ||| text::has_word(subject, "fixed"@)
    ||| text::has_word(subject, "fixes"@)
    ||| text::has_word(subject, "bug"@)
    ||| text::has_word(subject, "bugfix"@)
    ||| text::has_word(subject, "patch"@)
    ||| text::has_word(subject, "patched"@)
}

/// Whether the subject of a commit speaks of a bug fix.
pub fn is_bugfix_subject(subject: &str) -> (r: bool)
    ensures
        r == fixes_bug(subject@),
{
    text::contains_word(subject, "fix") || text::contains_word(subject, "fixed")
        || text::contains_word(subject, "fixes") || text::contains_word(subject, "bug")
        || text::contains_word(subject, "bugfix") || text::contains_word(subject, "patch")
        || text::contains_word(subject, "patched")
}

/// A commit: its hash and its subject.
#[derive(Debug, Clone, PartialEq, Eq)]
pub struct Commit {
    pub sha: String,
    pub subject: String,
}

/// What a `Commit` says.
pub struct CommitView {
    pub sha: Seq<char>,
    pub subject: Seq<char>,
}

impl View for Commit {
    type V = CommitView;

    open spec fn view(&self) -> CommitView {
        CommitView { sha: self.sha@, subject: self.subject@ }
    }
}

/// The commits of the lines that hold a hash and a subject with a unit separator
/// between them.
pub open spec fn commits_of(lines: Seq<Seq<char>>) -> Seq<CommitView>
    decreases lines.len(),
{
    if lines.len() == 0 {
        Seq::empty()
    } else {
        let rest = commits_of(lines.drop_last());
        match text::split_first(lines.last(), '\u{1f}') {
            Some((sha, subject)) => rest.push(CommitView { sha, subject }),
            None => rest,
        }
    }
}

/// The commits that `git log` printed, with a unit separator between hash and
/// subject.
pub fn parse_commit_log(stdout: &str) -> (commits: Vec<Commit>)
    ensures
        text::views(commits@) == commits_of(text::lines_of(stdout@)),
{
    let lines: Vec<String> = text::lines(stdout);
    let ghost all = text::views(lines@);
    let mut commits: Vec<Commit> = Vec::new();
    proof {
        assert(text::views(commits@) =~= Seq::empty());
    }
    let mut i: usize = 0;
    while i < lines.len()
        invariant
            0 <= i <= lines@.len(),
            all == text::views(lines@),
            text::views(commits@) == commits_of(all.take(i as int)),
        decreases lines.len() - i,
    {
        proof {
            assert(all.take(i + 1).drop_last() =~= all.take(i as int));
            assert(all.take(i + 1).last() == lines@[i as int]@);
        }
        if let Some((sha, subject)) = text::split_once(lines[i].as_str(), '\u{1f}') {
            let commit = Commit { sha: sha.to_owned(), subject: subject.to_owned() };
            proof {
                text::lemma_views_push(commits@, commit);
            }
            commits.push(commit);
        }
        i += 1;
    }
    proof {
        assert(all.take(all.len() as int) =~= all);
    }
    commits
}

/// The row of a file that a commit changes, in a given category.
pub open spec fn row_in(
    sha: Seq<char>,
    subject: Seq<char>,
    path: Seq<char>,
    diff: Seq<char>,
    category: Seq<char>,
) -> MinedRowView {
    MinedRowView {
        fingerprint: text::glued(seq!["bugfix-"@, sha, "-"@, path]),
        category,
        rule_id_or_aspect: "bugfix-commit"@,
        title: subject,
        message: diff,
        run_id: sha,
    }
}

/// The category of a subject, whatever its case.
pub open spec fn guessed(subject: Seq<char>) -> Seq<char> {
    category_heuristics::category_of(text::lowercase(subject))
}

/// The row of a file that a commit changes.
pub fn diff_text_to_mined_row(sha: &str, subject: &str, path: &str, diff: &str) -> (row:
    MinedFindingRow)
    ensures
        row@ == row_in(sha@, subject@, path@, diff@, guessed(subject@)),
{
    let parts: [&str; 4] = ["bugfix-", sha, "-", path];
    proof {
        assert(text::views(parts@) =~= seq!["bugfix-"@, sha@, "-"@, path@]);
    }
    MinedFindingRow {
        fingerprint: text::glue(&parts),
        category: category_heuristics::guess_category(subject),
        rule_id_or_aspect: "bugfix-commit".to_owned(),
        title: subject.to_owned(),
        message: diff.to_owned(),
        run_id: sha.to_owned(),
    }
}

/// A file that a commit changes, with its diff where it could be read.
#[derive(Debug, Clone)]
pub struct FileDiff {
    pub path: String,
    pub diff: Option<String>,
}

/// A commit with the files that it changes.
#[derive(Debug, Clone)]
pub struct CommitDiffs {
    pub commit: Commit,
    pub files: Vec<FileDiff>,
}

/// The rows of the files that a commit changes. One whose diff could not be read
/// or is blank has none.
pub open spec fn rows_of(commit: CommitView, files: Seq<FileDiff>) -> Seq<MinedRowView>
    decreases files.len(),
{
    if files.len() == 0 {
        Seq::empty()
    } else {
        let rest = rows_of(commit, files.drop_last());
        match files.last().diff {
            Some(diff) => {
                let shown = text::head_of(diff@, MAX_DIFF_CHARS as nat);
                if text::trimmed(shown).len() == 0 {
                    rest
                } else {
                    rest.push(
                        row_in(
                            commit.sha,
                            commit.subject,
                            files.last().path@,
                            shown,
                            guessed(commit.subject),
                        ),
                    )
                }
            },
            None => rest,
        }
    }
}

/// The rows of the commits that fix bugs.
pub open spec fn rows_over(commits: Seq<CommitDiffs>) -> Seq<MinedRowView>
    decreases commits.len(),
{
    if commits.len() == 0 {
        Seq::empty()
    } else {
        let rest = rows_over(commits.drop_last());
        let last = commits.last();
        if fixes_bug(last.commit.subject@) {
            rest + rows_of(last.commit@, last.files@)
        } else {
            rest
        }
    }
}

fn push_rows(commit: &Commit, files: &Vec<FileDiff>, rows: &mut Vec<MinedFindingRow>)
    ensures
        text::views(final(rows)@) == text::views(old(rows)@) + rows_of(commit@, files@),
{
    let ghost before = text::views(rows@);
    proof {
        assert(before + Seq::<MinedRowView>::empty() =~= before);
    }
    let mut i: usize = 0;
    while i < files.len()
        invariant
            0 <= i <= files@.len(),
            text::views(rows@) == before + rows_of(commit@, files@.take(i as int)),
        decreases files.len() - i,
    {
        let ghost so_far = rows_of(commit@, files@.take(i as int));
        proof {
            assert(files@.take(i + 1).drop_last() =~= files@.take(i as int));
            assert(files@.take(i + 1).last() == files@[i as int]);
        }
        if let Some(diff) = &files[i].diff {
            let shown: &str = text::head(diff.as_str(), MAX_DIFF_CHARS);
            if text::trim(shown).unicode_len() > 0 {
                let row: MinedFindingRow = diff_text_to_mined_row(
                    commit.sha.as_str(),
                    commit.subject.as_str(),
                    files[i].path.as_str(),
                    shown,
                );
                proof {
                    text::lemma_views_push(rows@, row);
                    assert((before + so_far).push(row@) =~= before + so_far.push(row@));
                }
                rows.push(row);
            }
        }
        i += 1;
    }
    proof {
        assert(files@.take(files@.len() as int) =~= files@);
    }
}

/// Mines the commits that fix bugs.
pub fn mine_from_bugfix_commits(commits: &Vec<CommitDiffs>) -> (rows: Vec<MinedFindingRow>)
    ensures
        text::views(rows@) == rows_over(commits@),
{
    let mut rows: Vec<MinedFindingRow> = Vec::new();
    proof {
        assert(text::views(rows@) =~= Seq::empty());
    }
    let mut i: usize = 0;
    while i < commits.len()
        invariant
            0 <= i <= commits@.len(),
            text::views(rows@) == rows_over(commits@.take(i as int)),
        decreases commits.len() - i,
    {
        proof {
            assert(commits@.take(i + 1).drop_last() =~= commits@.take(i as int));
            assert(commits@.take(i + 1).last() == commits@[i as int]);
        }
        if is_bugfix_subject(commits[i].commit.subject.as_str()) {
            push_rows(&commits[i].commit, &commits[i].files, &mut rows);
        }
        i += 1;
    }
    proof {
        assert(commits@.take(commits@.len() as int) =~= commits@);
    }
    rows
}

/// A commit that does not speak of a bug fix adds nothing.
pub proof fn other_commits_add_nothing(commits: Seq<CommitDiffs>, other: CommitDiffs)
    requires
        !fixes_bug(other.commit.subject@),
    ensures
        rows_over(commits.push(other)) == rows_over(commits),
{
    assert(commits.push(other).drop_last() =~= commits);
}

/// The words that tell of a fix.
pub open spec fn words_of_fixes() -> Seq<Seq<char>> {
    seq!["fix"@, "fixed"@, "fixes"@, "bug"@, "bugfix"@, "patch"@, "patched"@]
}

/// A commit fixes a bug where its subject holds one of these words.
pub proof fn bugfixes_are_told_by_these_words(subject: Seq<char>)
    ensures
        fixes_bug(subject) <==> exists|i: int|
            0 <= i < 7 && text::has_word(
                subject,
                #[trigger] words_of_fixes()[i],
            ),
{
    let all = words_of_fixes();
    assert(all[0] == "fix"@ && all[1] == "fixed"@ && all[2] == "fixes"@ && all[3] == "bug"@);
    assert(all[4] == "bugfix"@ && all[5] == "patch"@ && all[6] == "patched"@);
    if fixes_bug(subject) {
        assert(text::has_word(subject, all[0]) || text::has_word(subject, all[1]) || text::has_word(
            subject,
            all[2],
        ) || text::has_word(subject, all[3]) || text::has_word(subject, all[4]) || text::has_word(
            subject,
            all[5],
        ) || text::has_word(subject, all[6]));
    }
}

/// A line of the log is a commit where a separator stands in it: its hash in front,
/// its subject behind.
pub proof fn log_lines_are_commits(lines: Seq<Seq<char>>, sha: Seq<char>, subject: Seq<char>)
    requires
        !sha.contains('\u{1f}'),
    ensures
        commits_of(lines.push(sha + seq!['\u{1f}'] + subject)) == commits_of(lines).push(
            CommitView { sha, subject },
        ),
        commits_of(lines.push(sha)) == commits_of(lines),
        commits_of(Seq::empty()).len() == 0,
{
    let line = sha + seq!['\u{1f}'] + subject;
    assert(lines.push(line).drop_last() =~= lines);
    assert(lines.push(sha).drop_last() =~= lines);
    assert forall|j: int| 0 <= j < sha.len() implies sha[j] != '\u{1f}' by {
        if sha[j] == '\u{1f}' {
            assert(sha.contains('\u{1f}'));
        }
    }
    text::lemma_first_at(line, '\u{1f}', sha.len() as int);
    text::lemma_first_at(sha, '\u{1f}', sha.len() as int);
    assert(line.take(sha.len() as int) =~= sha);
    assert(line.skip(sha.len() as int + 1) =~= subject);
}

/// A file of a fix becomes a row of its own, under the commit: its diff, cut to 1500
/// characters, is the message. A diff that is not known or blank adds nothing.
pub proof fn changed_files_become_rows(commit: CommitView, files: Seq<FileDiff>, file: FileDiff)
    ensures
        ({
            let (was, is) = (rows_of(commit, files), rows_of(commit, files.push(file)));
            &&& file.diff is None ==> is == was
            &&& file.diff matches Some(d) ==> {
                let shown = if d@.len() > 1500 {
                    d@.take(1500)
                } else {
                    d@
                };
                &&& text::trimmed(shown).len() == 0 ==> is == was
                &&& text::trimmed(shown).len() > 0 ==> is.len() == was.len() + 1 && is.drop_last()
                    == was && is.last().message == shown && is.last().title == commit.subject
                    && is.last().run_id == commit.sha && is.last().rule_id_or_aspect
                    == "bugfix-commit"@
            }
        }),
        rows_of(commit, Seq::empty()).len() == 0,
{
    assert(files.push(file).drop_last() =~= files);
    let was = rows_of(commit, files);
    let is = rows_of(commit, files.push(file));
    if is.len() == was.len() + 1 {
        assert(is.drop_last() =~= was);
    }
}

/// The files of a commit that fixes a bug are mined, behind those of the commits
/// before it.
pub proof fn fixes_are_mined_in_order(commits: Seq<CommitDiffs>, commit: CommitDiffs)
    requires
        fixes_bug(commit.commit.subject@),
    ensures
        rows_over(commits.push(commit)) == rows_over(commits) + rows_of(
            CommitView { sha: commit.commit.sha@, subject: commit.commit.subject@ },
            commit.files@,
        ),
        rows_over(Seq::empty()).len() == 0,
{
    assert(commits.push(commit).drop_last() =~= commits);
}

} // verus!
