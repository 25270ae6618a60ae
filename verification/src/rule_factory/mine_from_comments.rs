//! Mines review comments on merged pull requests: every comment of some length
//! becomes a row for rule mining, with the pull request as its run.

use vstd::prelude::*;

use crate::rule_factory::category_heuristics;
use crate::storage::history_store::{MinedFindingRow, MinedRowView};
use crate::text;

verus! {

/// How many characters a comment has at least to be mined.
pub const MIN_COMMENT_LEN: usize = 25;

/// How many characters of a comment its title holds at most.
pub const TITLE_PREFIX_CHARS: usize = 80;

/// A review comment.
#[derive(Debug, Clone)]
pub struct GhReviewComment {
    pub id: u64,
    pub body: String,
    pub path: Option<String>,
}

/// A merged pull request, with its comments where they could be fetched.
#[derive(Debug, Clone)]
pub struct PrComments {
    pub number: u64,
    pub comments: Option<Vec<GhReviewComment>>,
}

/// What a title says of the file of a comment.
pub open spec fn path_suffix(path: Option<Seq<char>>) -> Seq<char> {
    match path {
        Some(p) => " (in "@ + p + ")"@,
        None => Seq::empty(),
    }
}

/// The row of a comment, unless the comment is too short. The category is given.
pub open spec fn row_in(
    comment: GhReviewComment,
    pr_number: u64,
    category: Seq<char>,
) -> Option<MinedRowView> {
    let body = text::trimmed(comment.body@);
    if body.len() < MIN_COMMENT_LEN {
        None
    } else {
        Some(
            MinedRowView {
                fingerprint: "gh-comment-"@ + text::decimal_of(comment.id as nat),
                category,
                rule_id_or_aspect: "pr-review-comment"@,
                title: text::head_of(body, TITLE_PREFIX_CHARS as nat) + path_suffix(
                    text::optional(comment.path),
                ),
                message: body,
                run_id: "pr-"@ + text::decimal_of(pr_number as nat),
            },
        )
    }
}

/// The category of a text, whatever its case.
pub open spec fn guessed(body: Seq<char>) -> Seq<char> {
    category_heuristics::category_of(text::lowercase(body))
}

/// The row of a comment, unless the comment is too short.
pub open spec fn row_of(comment: GhReviewComment, pr_number: u64) -> Option<MinedRowView> {
    row_in(comment, pr_number, guessed(text::trimmed(comment.body@)))
}

/// The row of a comment in a given category, unless the comment is too short.
pub fn comment_in_category(comment: &GhReviewComment, pr_number: u64, category: String) -> (row: Option<
    MinedFindingRow,
>)
    ensures
        match row {
            Some(r) => row_in(*comment, pr_number, category@) == Some(r@),
            None => row_in(*comment, pr_number, category@) is None,
        },
{
    let body: &str = text::trim(comment.body.as_str());
    if body.unicode_len() < MIN_COMMENT_LEN {
        return None;
    }
    let suffix: String = match &comment.path {
        Some(path) => text::concat3(" (in ", path.as_str(), ")"),
        None => String::new(),
    };
    let id: String = text::decimal(comment.id);
    let number: String = text::decimal(pr_number);
    proof {
        assert(suffix@ =~= path_suffix(text::optional(comment.path)));
    }
    Some(
        MinedFindingRow {
            fingerprint: text::concat2("gh-comment-", id.as_str()),
            category,
            rule_id_or_aspect: "pr-review-comment".to_owned(),
            title: text::concat2(text::head(body, TITLE_PREFIX_CHARS), suffix.as_str()),
            message: body.to_owned(),
            run_id: text::concat2("pr-", number.as_str()),
        },
    )
}

/// The row of a comment, unless the comment is too short.
pub fn comment_to_mined_row(comment: &GhReviewComment, pr_number: u64) -> (row: Option<
    MinedFindingRow,
>)
    ensures
        match row {
            Some(r) => row_of(*comment, pr_number) == Some(r@),
            None => row_of(*comment, pr_number) is None,
        },
{
    let category: String = category_heuristics::guess_category(text::trim(comment.body.as_str()));
    comment_in_category(comment, pr_number, category)
}

/// The rows of the comments on one pull request.
pub open spec fn rows_of(comments: Seq<GhReviewComment>, pr_number: u64) -> Seq<MinedRowView>
    decreases comments.len(),
{
    if comments.len() == 0 {
        Seq::empty()
    } else {
        let rest = rows_of(comments.drop_last(), pr_number);
        match row_of(comments.last(), pr_number) {
            Some(row) => rest.push(row),
            None => rest,
        }
    }
}

/// The rows of pull requests. One whose comments could not be fetched has none.
pub open spec fn rows_over(prs: Seq<PrComments>) -> Seq<MinedRowView>
    decreases prs.len(),
{
    if prs.len() == 0 {
        Seq::empty()
    } else {
        let rest = rows_over(prs.drop_last());
        match prs.last().comments {
            Some(comments) => rest + rows_of(comments@, prs.last().number),
            None => rest,
        }
    }
}

fn push_rows(comments: &Vec<GhReviewComment>, pr_number: u64, rows: &mut Vec<MinedFindingRow>)
    ensures
        text::views(final(rows)@) == text::views(old(rows)@) + rows_of(comments@, pr_number),
{
    let ghost before = text::views(rows@);
    proof {
        assert(before + Seq::<MinedRowView>::empty() =~= before);
    }
    let mut i: usize = 0;
    while i < comments.len()
        invariant
            0 <= i <= comments@.len(),
            text::views(rows@) == before + rows_of(comments@.take(i as int), pr_number),
        decreases comments.len() - i,
    {
        let ghost so_far = rows_of(comments@.take(i as int), pr_number);
        proof {
            assert(comments@.take(i + 1).drop_last() =~= comments@.take(i as int));
            assert(comments@.take(i + 1).last() == comments@[i as int]);
        }
        match comment_to_mined_row(&comments[i], pr_number) {
            Some(row) => {
                proof {
                    text::lemma_views_push(rows@, row);
                    assert((before + so_far).push(row@) =~= before + so_far.push(row@));
                }
                rows.push(row);
            },
            None => {},
        }
        i += 1;
    }
    proof {
        assert(comments@.take(comments@.len() as int) =~= comments@);
    }
}

/// Mines the comments on merged pull requests.
pub fn mine_from_pr_comments(prs: &Vec<PrComments>) -> (rows: Vec<MinedFindingRow>)
    ensures
        text::views(rows@) == rows_over(prs@),
{
    let mut rows: Vec<MinedFindingRow> = Vec::new();
    proof {
        assert(text::views(rows@) =~= Seq::empty());
    }
    let mut i: usize = 0;
    while i < prs.len()
        invariant
            0 <= i <= prs@.len(),
            text::views(rows@) == rows_over(prs@.take(i as int)),
        decreases prs.len() - i,
    {
        proof {
            assert(prs@.take(i + 1).drop_last() =~= prs@.take(i as int));
            assert(prs@.take(i + 1).last() == prs@[i as int]);
        }
        match &prs[i].comments {
            Some(comments) => {
                push_rows(comments, prs[i].number, &mut rows);
            },
            None => {},
        }
        i += 1;
    }
    proof {
        assert(prs@.take(prs@.len() as int) =~= prs@);
    }
    rows
}

/// Comments on one pull request share its run, and a mined comment is never
/// shorter than the minimum.
pub proof fn mined_comments_have_substance(comment: GhReviewComment, pr_number: u64)
    ensures
        row_of(comment, pr_number) matches Some(row) ==> {
            &&& row.message.len() >= MIN_COMMENT_LEN
            &&& row.run_id == "pr-"@ + text::decimal_of(pr_number as nat)
        },
{
}

/// A comment is mined where it has at least 25 characters, white space at its ends
/// aside. Its title is its first 80 characters, with the file that it stands in; its
/// run is its pull request.
pub proof fn comments_become_rows(comment: GhReviewComment, pr_number: u64, category: Seq<char>)
    ensures
        ({
            let body = text::trimmed(comment.body@);
            let row = row_in(comment, pr_number, category);
            &&& body.len() < 25 ==> row is None
            &&& body.len() >= 25 ==> (row matches Some(r) && {
                &&& r.message == body && r.category == category
                &&& r.rule_id_or_aspect == "pr-review-comment"@
                &&& r.fingerprint == "gh-comment-"@ + text::decimal_of(comment.id as nat)
                &&& r.run_id == "pr-"@ + text::decimal_of(pr_number as nat)
                &&& comment.path is None && body.len() <= 80 ==> r.title == body
                &&& comment.path is None && body.len() > 80 ==> r.title == body.take(80)
                &&& comment.path matches Some(p) ==> text::begins(
                    r.title,
                    body.take(
                        if body.len() <= 80 {
                            body.len() as int
                        } else {
                            80
                        },
                    ),
                ) && text::ends(r.title, " (in "@ + p@ + ")"@)
            })
        }),
{
    let body = text::trimmed(comment.body@);
    if body.len() >= 25 {
        let title = row_in(comment, pr_number, category)->0.title;
        let n = if body.len() <= 80 {
            body.len() as int
        } else {
            80
        };
        let head = text::head_of(body, 80);
        assert(head =~= body.take(n));
        if let Some(p) = comment.path {
            let tail = " (in "@ + p@ + ")"@;
            assert(title.subrange(0, n) =~= body.take(n));
            assert(title.subrange(title.len() - tail.len(), title.len() as int) =~= tail);
        } else {
            assert(title =~= head);
        }
    }
}

/// Comments are mined one by one, and pull requests too; one whose comments are not
/// known adds nothing.
pub proof fn pull_requests_are_mined_in_order(prs: Seq<PrComments>, pr: PrComments)
    ensures
        pr.comments is None ==> rows_over(prs.push(pr)) == rows_over(prs),
        pr.comments matches Some(c) ==> rows_over(prs.push(pr)) == rows_over(prs) + rows_of(
            c@,
            pr.number,
        ),
        rows_over(Seq::empty()).len() == 0,
{
    assert(prs.push(pr).drop_last() =~= prs);
}

/// One more comment adds its own row, if it has one.
pub proof fn comments_are_mined_in_order(
    comments: Seq<GhReviewComment>,
    comment: GhReviewComment,
    n: u64,
)
    ensures
        text::trimmed(comment.body@).len() < 25 ==> rows_of(comments.push(comment), n) == rows_of(
            comments,
            n,
        ),
        text::trimmed(comment.body@).len() >= 25 ==> rows_of(comments.push(comment), n).len()
            == rows_of(comments, n).len() + 1 && rows_of(comments.push(comment), n).drop_last()
            == rows_of(comments, n) && rows_of(comments.push(comment), n).last().message
            == text::trimmed(comment.body@),
        rows_of(Seq::empty(), n).len() == 0,
{
    assert(comments.push(comment).drop_last() =~= comments);
    let was = rows_of(comments, n);
    if let Some(row) = row_of(comment, n) {
        assert(was.push(row).drop_last() =~= was);
    }
}

} // verus!
