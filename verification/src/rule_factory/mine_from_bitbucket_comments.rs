//! Mines comments on merged Bitbucket pull requests: which pages to fetch, what
//! a response holds, and the row of a comment.

use vstd::prelude::*;

use crate::rule_factory::category_heuristics;
use crate::storage::history_store::{MinedFindingRow, MinedRowView};
use crate::text;

verus! {

/// How many characters a comment has at least to be mined.
pub const MIN_COMMENT_LEN: usize = 25;

/// How many characters of a comment its title holds at most.
pub const TITLE_PREFIX_CHARS: usize = 80;

/// How many pages of a list are fetched at most.
pub const MAX_PAGES: usize = 10;

/// A comment.
#[derive(Debug, Clone)]
pub struct BbComment {
    pub id: u64,
    pub raw: String,
    pub deleted: bool,
}

/// A merged pull request, with its comments where they could be fetched.
#[derive(Debug, Clone)]
pub struct BbPrComments {
    pub id: u64,
    pub comments: Option<Vec<BbComment>>,
}

/// One page of the list of pull requests.
#[derive(Debug, Clone)]
pub struct BbPrPage {
    pub ids: Vec<u64>,
    pub next: Option<String>,
}

/// A character between quotes in a curl configuration.
pub open spec fn quoted_char(c: char) -> Seq<char> {
    if c == '\\' || c == '"' {
        seq!['\\', c]
    } else {
        seq![c]
    }
}

/// A text between quotes in a curl configuration: backslashes and quotes stand
/// behind a backslash.
pub open spec fn quoted(s: Seq<char>) -> Seq<char>
    decreases s.len(),
{
    if s.len() == 0 {
        Seq::empty()
    } else {
        quoted(s.drop_last()) + quoted_char(s.last())
    }
}

fn quote(s: &str) -> (q: String)
    ensures
        q@ == quoted(s@),
{
    let chars: Vec<char> = text::chars_of(s);
    let mut q: String = String::new();
    let mut i: usize = 0;
    while i < chars.len()
        invariant
            0 <= i <= chars@.len(),
            chars@ == s@,
            q@ == quoted(s@.take(i as int)),
        decreases chars.len() - i,
    {
        proof {
            assert(s@.take(i + 1).drop_last() =~= s@.take(i as int));
            assert(s@.take(i + 1).last() == chars@[i as int]);
        }
        let ghost before = q@;
        if chars[i] == '\\' || chars[i] == '"' {
            q.push('\\');
        }
        q.push(chars[i]);
        proof {
            assert(q@ =~= before + quoted_char(chars@[i as int]));
        }
        i += 1;
    }
    proof {
        assert(s@.take(s@.len() as int) =~= s@);
    }
    q
}

/// What a curl configuration says to send a credential. Without an address and a
/// token none is sent, which is not the same as an empty one.
pub fn curl_credential(email: &str, token: &str) -> (config: Option<String>)
    ensures
        text::optional(config) == if email@.len() == 0 && token@.len() == 0 {
            None
        } else {
            Some("user = \""@ + quoted(email@ + ":"@ + token@) + "\"\n"@)
        },
{
    if email.is_empty() && token.is_empty() {
        return None;
    }
    let user: String = text::concat3(email, ":", token);
    let inner: String = quote(user.as_str());
    Some(text::concat3("user = \"", inner.as_str(), "\"\n"))
}

/// The row of a comment, unless the comment is deleted or too short. The
/// category is given.
pub open spec fn row_in(comment: BbComment, pr_id: u64, category: Seq<char>) -> Option<MinedRowView> {
    let body = text::trimmed(comment.raw@);
    if comment.deleted || body.len() < MIN_COMMENT_LEN {
        None
    } else {
        Some(
            MinedRowView {
                fingerprint: "bb-comment-"@ + text::decimal_of(comment.id as nat),
                category,
                rule_id_or_aspect: "pr-review-comment"@,
                title: text::head_of(body, TITLE_PREFIX_CHARS as nat),
                message: body,
                run_id: "bb-pr-"@ + text::decimal_of(pr_id as nat),
            },
        )
    }
}

/// The row of a comment, unless the comment is deleted or too short.
pub open spec fn row_of(comment: BbComment, pr_id: u64) -> Option<MinedRowView> {
    row_in(
        comment,
        pr_id,
        category_heuristics::category_of(text::lowercase(text::trimmed(comment.raw@))),
    )
}

/// The row of a comment in a given category, unless the comment is deleted or
/// too short.
pub fn comment_in_category(comment: &BbComment, pr_id: u64, category: String) -> (row: Option<
    MinedFindingRow,
>)
    ensures
        match row {
            Some(r) => row_in(*comment, pr_id, category@) == Some(r@),
            None => row_in(*comment, pr_id, category@) is None,
        },
{
    if comment.deleted {
        return None;
    }
    let body: &str = text::trim(comment.raw.as_str());
    if body.unicode_len() < MIN_COMMENT_LEN {
        return None;
    }
    let id: String = text::decimal(comment.id);
    let number: String = text::decimal(pr_id);
    Some(
        MinedFindingRow {
            fingerprint: text::concat2("bb-comment-", id.as_str()),
            category,
            rule_id_or_aspect: "pr-review-comment".to_owned(),
            title: text::head(body, TITLE_PREFIX_CHARS).to_owned(),
            message: body.to_owned(),
            run_id: text::concat2("bb-pr-", number.as_str()),
        },
    )
}

/// The row of a comment, unless the comment is deleted or too short.
pub fn comment_to_mined_row(comment: &BbComment, pr_id: u64) -> (row: Option<MinedFindingRow>)
    ensures
        match row {
            Some(r) => row_of(*comment, pr_id) == Some(r@),
            None => row_of(*comment, pr_id) is None,
        },
{
    let category: String = category_heuristics::guess_category(text::trim(comment.raw.as_str()));
    comment_in_category(comment, pr_id, category)
}

/// The rows of the comments on one pull request.
pub open spec fn rows_of(comments: Seq<BbComment>, pr_id: u64) -> Seq<MinedRowView>
    decreases comments.len(),
{
    if comments.len() == 0 {
        Seq::empty()
    } else {
        let rest = rows_of(comments.drop_last(), pr_id);
        match row_of(comments.last(), pr_id) {
            Some(row) => rest.push(row),
            None => rest,
        }
    }
}

/// The rows of pull requests. One whose comments could not be fetched has none.
pub open spec fn rows_over(prs: Seq<BbPrComments>) -> Seq<MinedRowView>
    decreases prs.len(),
{
    if prs.len() == 0 {
        Seq::empty()
    } else {
        let rest = rows_over(prs.drop_last());
        match prs.last().comments {
            Some(comments) => rest + rows_of(comments@, prs.last().id),
            None => rest,
        }
    }
}

fn push_rows(comments: &Vec<BbComment>, pr_id: u64, rows: &mut Vec<MinedFindingRow>)
    ensures
        text::views(final(rows)@) == text::views(old(rows)@) + rows_of(comments@, pr_id),
{
    let ghost before = text::views(rows@);
    proof {
        assert(before + Seq::<MinedRowView>::empty() =~= before);
    }
    let mut i: usize = 0;
    while i < comments.len()
        invariant
            0 <= i <= comments@.len(),
            text::views(rows@) == before + rows_of(comments@.take(i as int), pr_id),
        decreases comments.len() - i,
    {
        let ghost so_far = rows_of(comments@.take(i as int), pr_id);
        proof {
            assert(comments@.take(i + 1).drop_last() =~= comments@.take(i as int));
            assert(comments@.take(i + 1).last() == comments@[i as int]);
        }
        match comment_to_mined_row(&comments[i], pr_id) {
            Some(row) => {
                proof {
                    text::lemma_views_push(rows@, row);
                    assert((before + so_far).push(row@) =~= before + so_far.push(row@));
                }
                rows.push(row);
            },
            None => {},
        }
        i += 1;
    }
    proof {
        assert(comments@.take(comments@.len() as int) =~= comments@);
    }
}

/// Mines the comments on merged pull requests.
pub fn mine_from_bitbucket_pr_comments(prs: &Vec<BbPrComments>) -> (rows: Vec<MinedFindingRow>)
    ensures
        text::views(rows@) == rows_over(prs@),
{
    let mut rows: Vec<MinedFindingRow> = Vec::new();
    proof {
        assert(text::views(rows@) =~= Seq::empty());
    }
    let mut i: usize = 0;
    while i < prs.len()
        invariant
            0 <= i <= prs@.len(),
            text::views(rows@) == rows_over(prs@.take(i as int)),
        decreases prs.len() - i,
    {
        proof {
            assert(prs@.take(i + 1).drop_last() =~= prs@.take(i as int));
            assert(prs@.take(i + 1).last() == prs@[i as int]);
        }
        match &prs[i].comments {
            Some(comments) => {
                push_rows(comments, prs[i].id, &mut rows);
            },
            None => {},
        }
        i += 1;
    }
    proof {
        assert(prs@.take(prs@.len() as int) =~= prs@);
    }
    rows
}

/// How many pull requests a page of the list holds.
pub open spec fn page_length(limit: usize) -> nat {
    if limit < 1 {
        1
    } else if limit > 50 {
        50
    } else {
        limit as nat
    }
}

/// The first page of the list of merged pull requests, the newest first.
pub open spec fn pr_list_url(workspace: Seq<char>, repo_slug: Seq<char>, limit: usize) -> Seq<char> {
    text::glued(
        seq![
            "https://api.bitbucket.org/2.0/repositories/"@,
            workspace,
            "/"@,
            repo_slug,
            "/pullrequests?state=MERGED&sort=-created_on&pagelen="@,
            text::decimal_of(page_length(limit)),
        ],
    )
}

/// The first page of the list of merged pull requests, the newest first.
pub fn merged_prs_url(workspace: &str, repo_slug: &str, limit: usize) -> (url: String)
    ensures
        url@ == pr_list_url(workspace@, repo_slug@, limit),
{
    let length: u64 = if limit < 1 {
        1
    } else if limit > 50 {
        50
    } else {
        limit as u64
    };
    let number: String = text::decimal(length);
    let parts: [&str; 6] = [
        "https://api.bitbucket.org/2.0/repositories/",
        workspace,
        "/",
        repo_slug,
        "/pullrequests?state=MERGED&sort=-created_on&pagelen=",
        number.as_str(),
    ];
    proof {
        assert(text::views(parts@) =~= seq![
            "https://api.bitbucket.org/2.0/repositories/"@,
            workspace@,
            "/"@,
            repo_slug@,
            "/pullrequests?state=MERGED&sort=-created_on&pagelen="@,
            number@,
        ]);
    }
    text::glue(&parts)
}

/// The first page of the comments on a pull request.
pub open spec fn comment_list_url(workspace: Seq<char>, repo_slug: Seq<char>, pr_id: u64) -> Seq<char> {
    text::glued(
        seq![
            "https://api.bitbucket.org/2.0/repositories/"@,
            workspace,
            "/"@,
            repo_slug,
            "/pullrequests/"@,
            text::decimal_of(pr_id as nat),
            "/comments?pagelen=50"@,
        ],
    )
}

/// The first page of the comments on a pull request.
pub fn comments_url(workspace: &str, repo_slug: &str, pr_id: u64) -> (url: String)
    ensures
        url@ == comment_list_url(workspace@, repo_slug@, pr_id),
{
    let number: String = text::decimal(pr_id);
    let parts: [&str; 7] = [
        "https://api.bitbucket.org/2.0/repositories/",
        workspace,
        "/",
        repo_slug,
        "/pullrequests/",
        number.as_str(),
        "/comments?pagelen=50",
    ];
    proof {
        assert(text::views(parts@) =~= seq![
            "https://api.bitbucket.org/2.0/repositories/"@,
            workspace@,
            "/"@,
            repo_slug@,
            "/pullrequests/"@,
            number@,
            "/comments?pagelen=50"@,
        ]);
    }
    text::glue(&parts)
}

/// How far the list of pull requests has been fetched.
pub struct PrListing {
    pub ids: Vec<u64>,
    pub pages: usize,
    pub next: Option<String>,
}

impl PrListing {
    /// The page to fetch next, if any: there is one, not too many pages were
    /// fetched, and not enough pull requests found.
    pub open spec fn wanted(self, limit: usize) -> Option<Seq<char>> {
        if self.pages >= MAX_PAGES || self.ids@.len() >= limit {
            None
        } else {
            text::optional(self.next)
        }
    }

    /// A listing that starts with a page.
    pub fn start(url: String) -> (listing: Self)
        ensures
            listing.ids@ == Seq::<u64>::empty(),
            listing.pages == 0,
            listing.next == Some(url),
    {
        PrListing { ids: Vec::new(), pages: 0, next: Some(url) }
    }

    /// The page to fetch next, if any.
    pub fn next_page(&self, limit: usize) -> (url: Option<&str>)
        ensures
            match url {
                Some(u) => self.wanted(limit) == Some(u@),
                None => self.wanted(limit) is None,
            },
    {
        if self.pages >= MAX_PAGES || self.ids.len() >= limit {
            return None;
        }
        match &self.next {
            Some(url) => Some(url.as_str()),
            None => None,
        }
    }

    /// Takes in a page that was fetched.
    pub fn take_page(&mut self, page: BbPrPage)
        requires
            old(self).pages < MAX_PAGES,
        ensures
            final(self).ids@ == old(self).ids@ + page.ids@,
            final(self).pages == old(self).pages + 1,
            final(self).next == page.next,
    {
        let mut page = page;
        self.ids.append(&mut page.ids);
        self.pages = self.pages + 1;
        self.next = page.next;
    }

    /// The pull requests that were found, `limit` at most.
    pub fn finish(self, limit: usize) -> (ids: Vec<u64>)
        ensures
            ids@ == if limit < self.ids@.len() {
                self.ids@.take(limit as int)
            } else {
                self.ids@
            },
    {
        let mut ids: Vec<u64> = self.ids;
        if limit < ids.len() {
            ids.truncate(limit);
        }
        ids
    }
}

/// Whether another page of comments is fetched, after so many.
pub fn wants_more_comments(pages: usize) -> (r: bool)
    ensures
        r == (pages < MAX_PAGES),
{
    pages < MAX_PAGES
}

/// Why a response is not used.
#[derive(Debug, Clone)]
pub struct HttpError {
    pub status: u32,
    pub url: String,
}

impl HttpError {
    /// The error in words.
    pub open spec fn words(self) -> Seq<char> {
        text::glued(
            seq![
                "Bitbucket returned HTTP "@,
                text::decimal_of(self.status as nat),
                " for "@,
                self.url@,
            ],
        )
    }

    /// The error in words.
    pub fn message(&self) -> (s: String)
        ensures
            s@ == self.words(),
    {
        let status: String = text::decimal(self.status as u64);
        let parts: [&str; 4] = [
            "Bitbucket returned HTTP ",
            status.as_str(),
            " for ",
            self.url.as_str(),
        ];
        proof {
            assert(text::views(parts@) =~= seq![
                "Bitbucket returned HTTP "@,
                status@,
                " for "@,
                self.url@,
            ]);
        }
        text::glue(&parts)
    }
}

/// The status on the last line of what was printed, or 0 without a number there.
pub open spec fn status_of(lines: Seq<Seq<char>>) -> nat {
    if lines.len() == 0 {
        0
    } else {
        match text::parsed_unsigned(text::trimmed(lines.last()), u32::MAX as nat) {
            Some(status) => status,
            None => 0,
        }
    }
}

/// What was printed before the last line.
pub open spec fn body_of(lines: Seq<Seq<char>>) -> Seq<char> {
    if lines.len() == 0 {
        Seq::empty()
    } else {
        text::joined(lines.drop_last(), "\n"@)
    }
}

/// The body of a response that was printed with its status on the last line. The
/// status has to be 200.
pub fn response_body(url: &str, stdout: &str) -> (body: Result<String, HttpError>)
    ensures
        ({
            let lines = text::lines_of(stdout@);
            match body {
                Ok(b) => status_of(lines) == 200 && b@ == body_of(lines),
                Err(e) => status_of(lines) != 200 && e.status == status_of(lines) && e.url@
                    == url@,
            }
        }),
{
    let mut lines: Vec<String> = text::lines(stdout);
    let ghost all = text::views(lines@);
    let mut status: u32 = 0;
    match lines.pop() {
        Some(last) => {
            proof {
                assert(all.last() == last@);
                assert(text::views(lines@) =~= all.drop_last());
            }
            if let Some(n) = text::parse_unsigned(text::trim(last.as_str()), u32::MAX as u64) {
                status = n as u32;
            }
        },
        None => {
            proof {
                assert(text::views(lines@) =~= Seq::empty());
            }
        },
    }
    if status != 200 {
        return Err(HttpError { status, url: url.to_owned() });
    }
    Ok(text::join(&lines, "\n"))
}

/// The workspace and the repository that the address of a remote names.
pub open spec fn slug_of(remote: Seq<char>) -> Option<(Seq<char>, Seq<char>)> {
    let found = if text::begins(remote, "git@bitbucket.org:"@) {
        Some(remote.skip("git@bitbucket.org:"@.len() as int))
    } else {
        text::behind_first(remote, "bitbucket.org/"@)
    };
    match found {
        Some(path) => {
            let plain = text::strip_trailing(text::strip_trailing(path, ".git"@), "/"@);
            match text::split_first(plain, '/') {
                Some((workspace, repo)) => if workspace.len() > 0 && repo.len() > 0 {
                    Some((workspace, repo))
                } else {
                    None
                },
                None => None,
            }
        },
        None => None,
    }
}

/// The workspace and the repository that the address of a remote names, if it is
/// one of Bitbucket.
pub fn parse_bitbucket_workspace_and_slug(remote_url: &str) -> (slug: Option<(String, String)>)
    ensures
        match slug {
            Some((w, r)) => slug_of(remote_url@) == Some((w@, r@)),
            None => slug_of(remote_url@) is None,
        },
{
    let found: Option<&str> = if text::starts_with(remote_url, "git@bitbucket.org:") {
        let n: usize = "git@bitbucket.org:".unicode_len();
        let rest: &str = remote_url.substring_char(n, remote_url.unicode_len());
        proof {
            assert(rest@ =~= remote_url@.skip("git@bitbucket.org:"@.len() as int));
        }
        Some(rest)
    } else {
        text::after_first(remote_url, "bitbucket.org/")
    };
    match found {
        Some(path) => {
            let plain: &str = text::trim_trailing(text::trim_trailing(path, ".git"), "/");
            match text::split_once(plain, '/') {
                Some((workspace, repo)) => if workspace.unicode_len() > 0 && repo.unicode_len()
                    > 0 {
                    Some((workspace.to_owned(), repo.to_owned()))
                } else {
                    None
                },
                None => None,
            }
        },
        None => None,
    }
}

/// A deleted comment is never mined.
pub proof fn deleted_comments_are_left_alone(comment: BbComment, pr_id: u64)
    requires
        comment.deleted,
    ensures
        row_of(comment, pr_id) is None,
{
}

/// A comment is mined where it was not deleted and has at least 25 characters, white
/// space at its ends aside. Its title is its first 80 characters; its run is its
/// pull request.
pub proof fn comments_become_rows(comment: BbComment, pr_id: u64, category: Seq<char>)
    ensures
        ({
            let body = text::trimmed(comment.raw@);
            let row = row_in(comment, pr_id, category);
            &&& row is Some <==> !comment.deleted && body.len() >= 25
            &&& row matches Some(r) ==> {
                &&& r.message == body && r.category == category
                &&& r.rule_id_or_aspect == "pr-review-comment"@
                &&& r.fingerprint == "bb-comment-"@ + text::decimal_of(comment.id as nat)
                &&& r.run_id == "bb-pr-"@ + text::decimal_of(pr_id as nat)
                &&& body.len() <= 80 ==> r.title == body
                &&& body.len() > 80 ==> r.title == body.take(80)
            }
        }),
{
}

/// Comments are mined one by one, and pull requests too; one whose comments are not
/// known adds nothing.
pub proof fn pull_requests_are_mined_in_order(
    prs: Seq<BbPrComments>,
    pr: BbPrComments,
    comments: Seq<BbComment>,
    comment: BbComment,
)
    ensures
        pr.comments is None ==> rows_over(prs.push(pr)) == rows_over(prs),
        pr.comments matches Some(c) ==> rows_over(prs.push(pr)) == rows_over(prs) + rows_of(
            c@,
            pr.id,
        ),
        rows_over(Seq::empty()).len() == 0,
        row_of(comment, pr.id) is None ==> rows_of(comments.push(comment), pr.id) == rows_of(
            comments,
            pr.id,
        ),
        row_of(comment, pr.id) matches Some(r) ==> rows_of(comments.push(comment), pr.id)
            == rows_of(comments, pr.id).push(r),
        rows_of(Seq::empty(), pr.id).len() == 0,
{
    assert(prs.push(pr).drop_last() =~= prs);
    assert(comments.push(comment).drop_last() =~= comments);
}

/// Quotes and backslashes are escaped, and nothing else is.
pub proof fn quotes_and_backslashes_are_escaped(s: Seq<char>, c: char)
    ensures
        c == '"' || c == '\\' ==> quoted(s.push(c)) == quoted(s) + seq!['\\', c],
        c != '"' && c != '\\' ==> quoted(s.push(c)) == quoted(s).push(c),
        quoted(Seq::empty()).len() == 0,
{
    assert(s.push(c).drop_last() =~= s);
    assert(quoted(s) + seq![c] =~= quoted(s).push(c));
}

/// Another page is asked for while there is one, ten at most, and fewer pull
/// requests are known than are wanted; a page lists between one and fifty of them.
pub proof fn pages_are_asked_for_while_more_are_wanted(listing: PrListing, limit: usize)
    ensures
        listing.pages < 10 && listing.ids@.len() < limit ==> (listing.next matches Some(u)
            ==> listing.wanted(limit) == Some(u@)),
        listing.pages >= 10 || listing.ids@.len() >= limit || listing.next is None
            ==> listing.wanted(limit) is None,
        1 <= limit <= 50 ==> page_length(limit) == limit,
        limit == 0 ==> page_length(limit) == 1,
        limit > 50 ==> page_length(limit) == 50,
{
}

/// A response ends with its status on a line of its own; what stands in front of it
/// is the body. Without a status, or with one that is no number, it is 0.
pub proof fn responses_end_with_their_status(lines: Seq<Seq<char>>, last: Seq<char>)
    ensures
        body_of(lines.push(last)) == text::joined(lines, "\n"@),
        text::parsed_unsigned(text::trimmed(last), u32::MAX as nat) matches Some(n) ==> status_of(
            lines.push(last),
        ) == n,
        text::parsed_unsigned(text::trimmed(last), u32::MAX as nat) is None ==> status_of(
            lines.push(last),
        ) == 0,
        status_of(Seq::empty()) == 0,
        body_of(Seq::empty()).len() == 0,
{
    assert(lines.push(last).drop_last() =~= lines);
}

/// A remote names its workspace and its repository behind the host, with a slash
/// between them; the ending of a repository and slashes behind it are left out.
pub proof fn remotes_name_workspace_and_repository(
    prefix: Seq<char>,
    workspace: Seq<char>,
    repo: Seq<char>,
)
    requires
        workspace.len() > 0,
        repo.len() > 0,
        !workspace.contains('/'),
        !text::ends(workspace + "/"@ + repo, ".git"@),
        !text::ends(workspace + "/"@ + repo, "/"@),
    ensures
        slug_of("git@bitbucket.org:"@ + workspace + "/"@ + repo) == Some((workspace, repo)),
        (forall|j: int|
            0 <= j < prefix.len() ==> !#[trigger] text::occurs_at(
                prefix + "bitbucket.org/"@ + workspace + "/"@ + repo,
                "bitbucket.org/"@,
                j,
            )) && !text::begins(
            prefix + "bitbucket.org/"@ + workspace + "/"@ + repo,
            "git@bitbucket.org:"@,
        ) ==> slug_of(prefix + "bitbucket.org/"@ + workspace + "/"@ + repo) == Some(
            (workspace, repo),
        ),
{
    reveal_strlit("/");
    let path = workspace + "/"@ + repo;
    let head = "git@bitbucket.org:"@;
    let remote = head + workspace + "/"@ + repo;
    assert(remote.subrange(0, head.len() as int) =~= head);
    assert(remote.skip(head.len() as int) =~= path);
    assert forall|j: int| 0 <= j < workspace.len() implies path[j] != '/' by {
        if path[j] == '/' {
            assert(workspace[j] == '/');
        }
    }
    assert(path[workspace.len() as int] == '/');
    text::lemma_first_at(path, '/', workspace.len() as int);
    assert(path.take(workspace.len() as int) =~= workspace);
    assert(path.skip(workspace.len() as int + 1) =~= repo);
    let host = "bitbucket.org/"@;
    let other = prefix + host + workspace + "/"@ + repo;
    if (forall|j: int|
        0 <= j < prefix.len() ==> !#[trigger] text::occurs_at(other, host, j)) && !text::begins(
        other,
        head,
    ) {
        assert(other.subrange(prefix.len() as int, (prefix.len() + host.len()) as int) =~= host);
        assert(text::occurs_at(other, host, prefix.len() as int));
        text::what_stands_behind_the_first(other, host, prefix.len() as int);
        assert(other.skip(prefix.len() as int + host.len()) =~= path);
    }
}

/// The lists of merged pull requests and of their comments are asked for by the
/// workspace and the repository, in this order.
pub proof fn lists_are_asked_for_by_repository(
    workspace: Seq<char>,
    slug: Seq<char>,
    limit: usize,
    pr_id: u64,
)
    ensures
        text::begins(
            pr_list_url(workspace, slug, limit),
            "https://api.bitbucket.org/2.0/repositories/"@ + workspace + "/"@ + slug,
        ),
        text::begins(
            comment_list_url(workspace, slug, pr_id),
            "https://api.bitbucket.org/2.0/repositories/"@ + workspace + "/"@ + slug,
        ),
        text::has(
            pr_list_url(workspace, slug, limit),
            "/pullrequests?state=MERGED&sort=-created_on&pagelen="@ + text::decimal_of(
                page_length(limit),
            ),
        ),
        text::has(
            comment_list_url(workspace, slug, pr_id),
            "/pullrequests/"@ + text::decimal_of(pr_id as nat) + "/comments?pagelen=50"@,
        ),
{
    let root = "https://api.bitbucket.org/2.0/repositories/"@;
    let a = seq![
        root,
        workspace,
        "/"@,
        slug,
        "/pullrequests?state=MERGED&sort=-created_on&pagelen="@,
        text::decimal_of(page_length(limit)),
    ];
    let b = seq![
        root,
        workspace,
        "/"@,
        slug,
        "/pullrequests/"@,
        text::decimal_of(pr_id as nat),
        "/comments?pagelen=50"@,
    ];
    text::lemma_glued_begins(a, 4);
    text::lemma_glued_begins(b, 4);
    assert(a.take(4) =~= seq![root, workspace, "/"@, slug]);
    assert(b.take(4) =~= seq![root, workspace, "/"@, slug]);
    text::lemma_glued_few(root, workspace, "/"@, slug);
    text::lemma_glued_has(a, 4, 6);
    assert(a.subrange(4, 6) =~= seq![a[4], a[5]]);
    text::lemma_glued_few(a[4], a[5], root, root);
    text::lemma_glued_has(b, 4, 7);
    assert(b.subrange(4, 7) =~= seq![b[4], b[5], b[6]]);
    text::lemma_glued_few(b[4], b[5], b[6], root);
}

} // verus!
