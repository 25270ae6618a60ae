//! Mines comments that suppress a linter: every line with such a comment becomes
//! a row for rule mining, with the file as its run.

use vstd::prelude::*;

use crate::rule_factory::category_heuristics;
use crate::rule_factory::mine_from_code::{SourceFile, SourceView};
use crate::storage::history_store::{MinedFindingRow, MinedRowView};
use crate::text;

verus! {

/// What a line holds that suppresses a linter: the first of the known markers.
pub open spec fn marker_in(line: Seq<char>) -> Option<Seq<char>> {
    if text::has(line, "// nolint"@) {
        Some("// nolint"@)
    } else if text::has(line, "//nolint"@) {
        Some("//nolint"@)
    } else if text::has(line, "@SuppressWarnings"@) {
        Some("@SuppressWarnings"@)
    } else if text::has(line, "// eslint-disable"@) {
        Some("// eslint-disable"@)
    } else if text::has(line, "/* eslint-disable"@) {
        Some("/* eslint-disable"@)
    } else if text::has(line, "# noqa"@) {
        Some("# noqa"@)
    } else {
        None
    }
}

/// What a line holds that suppresses a linter.
pub fn suppression_marker_in_line(line: &str) -> (marker: Option<&'static str>)
    ensures
        match marker {
            Some(m) => marker_in(line@) == Some(m@),
            None => marker_in(line@) is None,
        },
{
    if text::contains(line, "// nolint") {
        Some("// nolint")
    } else if text::contains(line, "//nolint") {
        Some("//nolint")
    } else if text::contains(line, "@SuppressWarnings") {
        Some("@SuppressWarnings")
    } else if text::contains(line, "// eslint-disable") {
        Some("// eslint-disable")
    } else if text::contains(line, "/* eslint-disable") {
        Some("/* eslint-disable")
    } else if text::contains(line, "# noqa") {
        Some("# noqa")
    } else {
        None
    }
}

/// A directory that is not scanned.
pub open spec fn is_skipped_directory(name: Seq<char>) -> bool {
    ||| name == ".git"@
    ||| name == "vendor"@
    ||| name == "node_modules"@
    ||| name == "dist"@
    ||| name == "build"@
    ||| name == "target"@
    ||| name == ".autoreview"@
}

/// Whether the directory is not scanned.
pub fn skips_directory(name: &str) -> (r: bool)
    ensures
        r == is_skipped_directory(name@),
{
    text::same(name, ".git") || text::same(name, "vendor") || text::same(name, "node_modules")
        || text::same(name, "dist") || text::same(name, "build") || text::same(name, "target")
        || text::same(name, ".autoreview")
}

/// The extension of a file that is scanned.
pub open spec fn is_source_extension(ext: Seq<char>) -> bool {
    ||| ext == "go"@
    ||| ext == "java"@
    ||| ext == "kt"@
    ||| ext == "kts"@
    ||| ext == "js"@
    ||| ext == "jsx"@
    ||| ext == "ts"@
    ||| ext == "tsx"@
    ||| ext == "py"@
}

/// Whether files with the extension are scanned.
pub fn scans_extension(ext: &str) -> (r: bool)
    ensures
        r == is_source_extension(ext@),
{
    text::same(ext, "go") || text::same(ext, "java") || text::same(ext, "kt") || text::same(
        ext,
        "kts",
    ) || text::same(ext, "js") || text::same(ext, "jsx") || text::same(ext, "ts") || text::same(
        ext,
        "tsx",
    ) || text::same(ext, "py")
}

/// A line and the line before it, trimmed, with a space between them where both
/// hold something.
pub open spec fn context_of(lines: Seq<Seq<char>>, idx: int) -> Seq<char> {
    let this = text::trimmed(lines[idx]);
    let above = if idx > 0 {
        text::trimmed(lines[idx - 1])
    } else {
        Seq::empty()
    };
    if above.len() == 0 {
        this
    } else if this.len() == 0 {
        above
    } else {
        above + " "@ + this
    }
}

/// A line and the line before it, trimmed, with a space between them where both
/// hold something.
pub fn extract_context(lines: &Vec<String>, idx: usize) -> (context: String)
    requires
        idx < lines@.len(),
    ensures
        context@ == context_of(text::views(lines@), idx as int),
{
    let this: &str = text::trim(lines[idx].as_str());
    if idx == 0 {
        return this.to_owned();
    }
    let above: &str = text::trim(lines[idx - 1].as_str());
    if above.unicode_len() == 0 {
        this.to_owned()
    } else if this.unicode_len() == 0 {
        above.to_owned()
    } else {
        text::concat3(above, " ", this)
    }
}

/// The row of a line with a marker, in a given category.
pub open spec fn row_in(
    path: Seq<char>,
    number: nat,
    marker: Seq<char>,
    context: Seq<char>,
    category: Seq<char>,
) -> MinedRowView {
    MinedRowView {
        fingerprint: text::glued(seq!["suppression-"@, path, "-"@, text::decimal_of(number)]),
        category,
        rule_id_or_aspect: "lint-suppression"@,
        title: text::glued(
            seq![marker, " suppression in "@, path, ":"@, text::decimal_of(number)],
        ),
        message: context,
        run_id: path,
    }
}

/// The rows of the first `n` lines of a file.
pub open spec fn rows_in(path: Seq<char>, lines: Seq<Seq<char>>, n: nat) -> Seq<MinedRowView>
    decreases n,
{
    if n == 0 {
        Seq::empty()
    } else {
        let rest = rows_in(path, lines, (n - 1) as nat);
        match marker_in(lines[n - 1]) {
            Some(marker) => {
                let context = context_of(lines, n - 1);
                rest.push(
                    row_in(
                        path,
                        n,
                        marker,
                        context,
                        category_heuristics::category_of(text::lowercase(context)),
                    ),
                )
            },
            None => rest,
        }
    }
}

/// The rows of a file.
pub open spec fn rows_of(path: Seq<char>, content: Seq<char>) -> Seq<MinedRowView> {
    let lines = text::lines_of(content);
    rows_in(path, lines, lines.len())
}

fn row_for(path: &str, number: usize, marker: &str, context: String) -> (row: MinedFindingRow)
    ensures
        row@ == row_in(
            path@,
            number as nat,
            marker@,
            context@,
            category_heuristics::category_of(text::lowercase(context@)),
        ),
{
    let shown: String = text::decimal(number as u64);
    let mark: [&str; 4] = ["suppression-", path, "-", shown.as_str()];
    let heading: [&str; 5] = [marker, " suppression in ", path, ":", shown.as_str()];
    proof {
        assert(text::views(mark@) =~= seq!["suppression-"@, path@, "-"@, shown@]);
        assert(text::views(heading@) =~= seq![marker@, " suppression in "@, path@, ":"@, shown@]);
    }
    MinedFindingRow {
        fingerprint: text::glue(&mark),
        category: category_heuristics::guess_category(context.as_str()),
        rule_id_or_aspect: "lint-suppression".to_owned(),
        title: text::glue(&heading),
        message: context,
        run_id: path.to_owned(),
    }
}

/// The rows of a file: one for each line with a marker.
pub fn suppressions_in_file(rel_path: &str, content: &str) -> (rows: Vec<MinedFindingRow>)
    ensures
        text::views(rows@) == rows_of(rel_path@, content@),
{
    let lines: Vec<String> = text::lines(content);
    let ghost all = text::views(lines@);
    let mut rows: Vec<MinedFindingRow> = Vec::new();
    proof {
        assert(text::views(rows@) =~= Seq::empty());
    }
    let mut i: usize = 0;
    while i < lines.len()
        invariant
            0 <= i <= lines@.len(),
            all == text::views(lines@),
            text::views(rows@) == rows_in(rel_path@, all, i as nat),
        decreases lines.len() - i,
    {
        if let Some(marker) = suppression_marker_in_line(lines[i].as_str()) {
            let context: String = extract_context(&lines, i);
            let row: MinedFindingRow = row_for(rel_path, i + 1, marker, context);
            proof {
                text::lemma_views_push(rows@, row);
            }
            rows.push(row);
        }
        i += 1;
    }
    rows
}

/// The rows of files.
pub open spec fn rows_over(files: Seq<SourceView>) -> Seq<MinedRowView>
    decreases files.len(),
{
    if files.len() == 0 {
        Seq::empty()
    } else {
        rows_over(files.drop_last()) + rows_of(files.last().path, files.last().content)
    }
}

/// Mines the comments in files that suppress a linter.
pub fn mine_from_suppressions(files: &Vec<SourceFile>) -> (rows: Vec<MinedFindingRow>)
    ensures
        text::views(rows@) == rows_over(text::views(files@)),
{
    let ghost all = text::views(files@);
    let mut rows: Vec<MinedFindingRow> = Vec::new();
    proof {
        assert(text::views(rows@) =~= Seq::empty());
    }
    let mut i: usize = 0;
    while i < files.len()
        invariant
            0 <= i <= files@.len(),
            all == text::views(files@),
            text::views(rows@) == rows_over(all.take(i as int)),
        decreases files.len() - i,
    {
        proof {
            assert(all.take(i + 1).drop_last() =~= all.take(i as int));
            assert(all.take(i + 1).last() == files@[i as int]@);
        }
        let mut more: Vec<MinedFindingRow> = suppressions_in_file(
            files[i].path.as_str(),
            files[i].content.as_str(),
        );
        let ghost before = rows@;
        let ghost added = more@;
        rows.append(&mut more);
        proof {
            assert(text::views(rows@) =~= text::views(before) + text::views(added));
        }
        i += 1;
    }
    proof {
        assert(all.take(all.len() as int) =~= all);
    }
    rows
}

/// Every row of a file has the file as its run, so that suppressions in one file
/// alone never count as recurring.
pub proof fn a_file_is_one_run(path: Seq<char>, lines: Seq<Seq<char>>, n: nat, k: int)
    requires
        0 <= k < rows_in(path, lines, n).len(),
    ensures
        rows_in(path, lines, n)[k].run_id == path,
    decreases n,
{
    let rest = rows_in(path, lines, (n - 1) as nat);
    if k < rest.len() {
        a_file_is_one_run(path, lines, (n - 1) as nat, k);
    }
}

/// The marks that suppress a warning.
pub open spec fn marks_of_suppressions() -> Seq<Seq<char>> {
    seq![
        "// nolint"@,
        "//nolint"@,
        "@SuppressWarnings"@,
        "// eslint-disable"@,
        "/* eslint-disable"@,
        "# noqa"@,
    ]
}

/// A line suppresses a warning where it holds one of these marks; the first of them,
/// in this order, is the one that counts.
pub proof fn suppressions_are_told_by_these_marks(line: Seq<char>, k: int)
    requires
        0 <= k < 6,
        forall|j: int|
            0 <= j < k ==> !text::has(
                line,
                #[trigger] marks_of_suppressions()[j],
            ),
    ensures
        ({
            let marks = marks_of_suppressions();
            &&& text::has(line, marks[k]) ==> marker_in(line) == Some(marks[k])
            &&& k == 5 && !text::has(line, marks[5]) ==> marker_in(line) is None
        }),
{
    let marks = marks_of_suppressions();
    assert(k > 0 ==> !text::has(line, marks[0]));
    assert(k > 1 ==> !text::has(line, marks[1]));
    assert(k > 2 ==> !text::has(line, marks[2]));
    assert(k > 3 ==> !text::has(line, marks[3]));
    assert(k > 4 ==> !text::has(line, marks[4]));
}

/// The context of a line is the line above it and the line itself, trimmed and with
/// a space between them; one that is blank is left out.
pub proof fn contexts_are_two_lines(lines: Seq<Seq<char>>, i: int)
    requires
        0 <= i < lines.len(),
    ensures
        ({
            let this = text::trimmed(lines[i]);
            let above = text::trimmed(lines[i - 1]);
            &&& i == 0 ==> context_of(lines, i) == this
            &&& i > 0 && above.len() == 0 ==> context_of(lines, i) == this
            &&& i > 0 && above.len() > 0 && this.len() == 0 ==> context_of(lines, i) == above
            &&& i > 0 && above.len() > 0 && this.len() > 0 ==> context_of(lines, i) == above + " "@
                + this
        }),
{
}

/// Every line with a mark becomes a row, and no other does: its number is counted
/// from one, its file is its run and its context is its message.
pub proof fn marked_lines_become_rows(path: Seq<char>, lines: Seq<Seq<char>>, n: nat)
    requires
        n < lines.len(),
    ensures
        ({
            let (was, is) = (rows_in(path, lines, n), rows_in(path, lines, n + 1));
            &&& marker_in(lines[n as int]) is None ==> is == was
            &&& marker_in(lines[n as int]) matches Some(mark) ==> is.len() == was.len() + 1
                && is.drop_last() == was && is.last().message == context_of(lines, n as int)
                && is.last().run_id == path && is.last().rule_id_or_aspect == "lint-suppression"@
                && is.last().fingerprint == text::glued(
                seq!["suppression-"@, path, "-"@, text::decimal_of(n + 1)],
            ) && is.last().title == text::glued(
                seq![mark, " suppression in "@, path, ":"@, text::decimal_of(n + 1)],
            )
        }),
        rows_in(path, lines, 0).len() == 0,
{
    let (was, is) = (rows_in(path, lines, n), rows_in(path, lines, n + 1));
    if is.len() == was.len() + 1 {
        assert(is.drop_last() =~= was);
    }
}

/// The whole of every file is read, in order.
pub proof fn files_are_read_whole(files: Seq<SourceView>, file: SourceView)
    ensures
        rows_over(files.push(file)) == rows_over(files) + rows_in(
            file.path,
            text::lines_of(file.content),
            text::lines_of(file.content).len(),
        ),
        rows_over(Seq::empty()).len() == 0,
{
    assert(files.push(file).drop_last() =~= files);
}

/// The directories that are passed over, and the extensions that are read.
pub proof fn these_places_are_read(name: Seq<char>)
    ensures
        is_skipped_directory(name) <==> seq![
            ".git"@,
            "vendor"@,
            "node_modules"@,
            "dist"@,
            "build"@,
            "target"@,
            ".autoreview"@,
        ].contains(name),
        is_source_extension(name) <==> seq![
            "go"@,
            "java"@,
            "kt"@,
            "kts"@,
            "js"@,
            "jsx"@,
            "ts"@,
            "tsx"@,
            "py"@,
        ].contains(name),
{
    let dirs = seq![
        ".git"@,
        "vendor"@,
        "node_modules"@,
        "dist"@,
        "build"@,
        "target"@,
        ".autoreview"@,
    ];
    let exts = seq!["go"@, "java"@, "kt"@, "kts"@, "js"@, "jsx"@, "ts"@, "tsx"@, "py"@];
    assert(dirs[0] == ".git"@ && dirs[1] == "vendor"@ && dirs[2] == "node_modules"@ && dirs[3]
        == "dist"@);
    assert(dirs[4] == "build"@ && dirs[5] == "target"@ && dirs[6] == ".autoreview"@);
    assert(exts[0] == "go"@ && exts[1] == "java"@ && exts[2] == "kt"@ && exts[3] == "kts"@);
    assert(exts[4] == "js"@ && exts[5] == "jsx"@ && exts[6] == "ts"@ && exts[7] == "tsx"@);
    assert(exts[8] == "py"@);
}

} // verus!
