//! Mining comments on Bitbucket pull requests.

use autoreview::rule_factory::mine_from_bitbucket_comments::{
    comment_to_mined_row, curl_credential, parse_bitbucket_workspace_and_slug, BbComment, BbPrPage,
};
use serde_json::Value;

fn pr_page(body: &str) -> BbPrPage {
    let page: Value = serde_json::from_str(body).unwrap();
    BbPrPage {
        ids: page["values"].as_array().unwrap().iter().map(|pr| pr["id"].as_u64().unwrap()).collect(),
        next: page["next"].as_str().map(str::to_string),
    }
}

fn comment_of(body: &str) -> BbComment {
    let comment: Value = serde_json::from_str(body).unwrap();
    BbComment {
        id: comment["id"].as_u64().unwrap(),
        raw: comment["content"]["raw"].as_str().unwrap().to_string(),
        deleted: comment["deleted"].as_bool().unwrap_or(false),
    }
}

#[test]
fn parses_a_real_shaped_pr_list_page() {
    let body = r#"{"values":[{"id":447,"title":"PLUG-1239: use synchronous Gemini shutdown by default","state":"MERGED"}],"pagelen":1,"size":866,"page":1,"next":"https://api.bitbucket.org/2.0/repositories/atlassian/atlassian-plugins/pullrequests?state=MERGED&page=2"}"#;
    let page = pr_page(body);
    assert_eq!(page.ids[0], 447);
    assert!(page.next.is_some());
}

#[test]
fn parses_a_real_shaped_comment_and_maps_it_to_a_mined_row() {
    let body = r#"{"id":112839025,"created_on":"2019-08-13T00:32:21.802130+00:00","content":{"type":"rendered","raw":"Thanks for the contribution. What do the product teams think about this change? Is there a use case for shutting down asynchronously, given that the speed is about the same and it creates the risk of NPEs?","markup":"markdown","html":"<p>...</p>"},"user":{"display_name":"Andrew S","type":"user"},"deleted":false,"pending":false,"type":"pullrequest_comment"}"#;
    let comment = comment_of(body);
    let row = comment_to_mined_row(&comment, 447).unwrap();
    assert_eq!(row.fingerprint, "bb-comment-112839025");
    assert_eq!(row.run_id, "bb-pr-447");
    assert_eq!(row.rule_id_or_aspect, "pr-review-comment");
    assert!(row.title.starts_with("Thanks for the contribution"), "got: {}", row.title);
}

#[test]
fn filters_out_a_deleted_comment() {
    let comment = BbComment { id: 1, raw: "a".repeat(50), deleted: true };
    assert!(comment_to_mined_row(&comment, 1).is_none());
}

#[test]
fn mine_from_bitbucket_comments_filters_out_short_low_signal_comments() {
    for body in ["done", "nit", "+1", ""] {
        let comment = BbComment { id: 1, raw: body.to_string(), deleted: false };
        assert!(comment_to_mined_row(&comment, 1).is_none(), "expected {body:?} to be filtered");
    }
}

#[test]
fn parses_workspace_and_repo_slug_from_an_https_remote() {
    assert_eq!(parse_bitbucket_workspace_and_slug("https://bitbucket.org/my-team/my-repo.git"), Some(("my-team".to_string(), "my-repo".to_string())));
}

#[test]
fn parses_workspace_and_repo_slug_from_an_ssh_remote() {
    assert_eq!(parse_bitbucket_workspace_and_slug("git@bitbucket.org:my-team/my-repo.git"), Some(("my-team".to_string(), "my-repo".to_string())));
}

#[test]
fn returns_none_for_a_non_bitbucket_remote() {
    assert_eq!(parse_bitbucket_workspace_and_slug("git@github.com:my-team/my-repo.git"), None);
}

#[test]
fn different_prs_yield_distinct_run_ids() {
    let a = comment_to_mined_row(&BbComment { id: 1, raw: "Missing null check before dereferencing this pointer here.".to_string(), deleted: false }, 100).unwrap();
    let b = comment_to_mined_row(&BbComment { id: 2, raw: "Missing null check before dereferencing this pointer here.".to_string(), deleted: false }, 200).unwrap();
    assert_ne!(a.run_id, b.run_id);
}

#[test]
fn credentials_are_quoted_and_an_empty_one_is_not_sent() {
    assert_eq!(curl_credential("", ""), None);
    assert_eq!(curl_credential("a@b.c", "t"), Some("user = \"a@b.c:t\"\n".to_string()));
    assert_eq!(curl_credential("", "q\"\\"), Some("user = \":q\\\"\\\\\"\n".to_string()));
}
