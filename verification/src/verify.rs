//! A judge pass over findings before they are reported. Some findings are put
//! to a skeptical agent one by one; those that it refutes are suppressed. It
//! fails open: a judge that does not answer, or answers in another form than
//! asked, suppresses nothing.

use vstd::prelude::*;

use crate::agents;
use crate::agents::{AgentBackend, AgentError, InvokeRequest, InvokeResult, RequestView, Usage};
use crate::names::NameSet;
use crate::schema::{Finding, FindingSourceKind, Severity, SuppressedFinding, SuppressedReason};
use crate::text;

verus! {

/// What a judge says of a finding.
#[derive(Debug, Clone)]
pub struct Verdict {
    pub keep: bool,
    pub reason: String,
}

/// A finding is put to the judge: one of an agent that is high or a blocker,
/// one of an analyzer in a noisy category, or one of a rule that is semantic.
pub open spec fn is_selected(
    finding: Finding,
    noisy_categories: Seq<Seq<char>>,
    semantic_rule_ids: Set<Seq<char>>,
) -> bool {
    ||| finding.source.kind == FindingSourceKind::Agent && (finding.severity == Severity::Blocker
        || finding.severity == Severity::High)
    ||| finding.source.kind == FindingSourceKind::Analyzer && noisy_categories.contains(
        finding.category@,
    )
    ||| finding.source.rule_id is Some && semantic_rule_ids.contains(
        finding.source.rule_id->Some_0@,
    )
}

/// The findings that are put to the judge.
pub open spec fn selection(
    findings: Seq<Finding>,
    noisy_categories: Seq<Seq<char>>,
    semantic_rule_ids: Set<Seq<char>>,
) -> Seq<Finding>
    decreases findings.len(),
{
    if findings.len() == 0 {
        Seq::empty()
    } else if is_selected(findings.last(), noisy_categories, semantic_rule_ids) {
        selection(findings.drop_last(), noisy_categories, semantic_rule_ids).push(findings.last())
    } else {
        selection(findings.drop_last(), noisy_categories, semantic_rule_ids)
    }
}

/// The findings that are put to the judge.
pub fn select_for_verification<'a>(
    findings: &'a [Finding],
    noisy_categories: &Vec<String>,
    semantic_rule_ids: &NameSet,
) -> (selected: Vec<&'a Finding>)
    ensures
        selected@.len() == selection(
            findings@,
            text::views(noisy_categories@),
            semantic_rule_ids@,
        ).len(),
        forall|i: int|
            0 <= i < selected@.len() ==> *(#[trigger] selected@[i]) == selection(
                findings@,
                text::views(noisy_categories@),
                semantic_rule_ids@,
            )[i],
{
    let ghost noisy = text::views(noisy_categories@);
    let ghost semantic = semantic_rule_ids@;
    let mut selected: Vec<&'a Finding> = Vec::new();
    let mut i: usize = 0;
    while i < findings.len()
        invariant
            0 <= i <= findings@.len(),
            noisy == text::views(noisy_categories@),
            semantic == semantic_rule_ids@,
            selected@.len() == selection(findings@.take(i as int), noisy, semantic).len(),
            forall|j: int|
                0 <= j < selected@.len() ==> *(#[trigger] selected@[j]) == selection(
                    findings@.take(i as int),
                    noisy,
                    semantic,
                )[j],
        decreases findings.len() - i,
    {
        proof {
            assert(findings@.take(i + 1).drop_last() =~= findings@.take(i as int));
            assert(findings@.take(i + 1).last() == findings@[i as int]);
        }
        let finding: &'a Finding = &findings[i];
        let high_agent: bool = finding.source.kind == FindingSourceKind::Agent && (finding.severity
            == Severity::Blocker || finding.severity == Severity::High);
        let noisy_analyzer: bool = finding.source.kind == FindingSourceKind::Analyzer
            && text::contains_text(noisy_categories, finding.category.as_str());
        let semantic_rule: bool = match &finding.source.rule_id {
            Some(id) => semantic_rule_ids.contains(id.as_str()),
            None => false,
        };
        if high_agent || noisy_analyzer || semantic_rule {
            selected.push(finding);
        }
        i += 1;
    }
    proof {
        assert(findings@.take(findings@.len() as int) =~= findings@);
    }
    selected
}

/// Who the judge is, and what it is asked for.
pub const PROMPT_OPENING: &'static str = "You are a skeptical verifier, not the author of the original review. A prior review step flagged the following finding. Your ONLY job is to check whether the flagged code, as it actually appears in the diff below, genuinely has this problem — not to find new issues.\n\nFinding to verify:\n- category: ";

/// In which form the judge answers.
pub const PROMPT_CLOSING: &'static str = "\n```\n\nRespond with ONLY a fenced ```json block of the exact shape {\"keep\": true|false, \"reason\": \"...\"}. Set \"keep\": false ONLY if you are confident the flagged code does not actually have this problem (e.g. the snippet doesn't match, the condition described isn't present, or it's already handled elsewhere in the diff). If you are unsure, default to \"keep\": true — this check exists to catch clear false positives, not to second-guess judgment calls.";

/// Who the judge is asked to be.
pub const SYSTEM_PROMPT: &'static str = "You are a careful, skeptical code-review verifier. You only refute findings you are confident are wrong.";

/// The prompt for a finding.
pub open spec fn verify_prompt(finding: Finding, diff_text: Seq<char>) -> Seq<char> {
    text::glued(
        seq![
            PROMPT_OPENING@,
            finding.category@,
            "\n- severity: "@,
            finding.severity.title(),
            "\n- title: "@,
            finding.title@,
            "\n- message: "@,
            finding.message@,
            "\n- location: "@,
            finding.location.path@,
            ":"@,
            text::decimal_of(finding.location.start_line as nat),
            "\n- snippet:\n"@,
            finding.location.snippet@,
            "\n\nThe diff:\n```diff\n"@,
            diff_text,
            PROMPT_CLOSING@,
        ],
    )
}

/// What is the same in all requests of a pass.
pub struct JudgeSettings {
    pub diff_text: Seq<char>,
    pub model: Seq<char>,
    pub max_turns: u32,
    pub cwd: Seq<char>,
}

/// The request for a finding.
pub open spec fn verify_request(finding: Finding, settings: JudgeSettings) -> RequestView {
    RequestView {
        prompt: verify_prompt(finding, settings.diff_text),
        system_prompt: SYSTEM_PROMPT@,
        allowed_tools: seq!["Read"@, "Grep"@],
        max_turns: settings.max_turns,
        model: settings.model,
        cwd: settings.cwd,
    }
}

fn build_verify_prompt(finding: &Finding, diff_text: &str) -> (prompt: String)
    ensures
        prompt@ == verify_prompt(*finding, diff_text@),
{
    let line: String = text::decimal(finding.location.start_line as u64);
    let parts: [&str; 17] = [
        PROMPT_OPENING,
        finding.category.as_str(),
        "\n- severity: ",
        finding.severity.as_title(),
        "\n- title: ",
        finding.title.as_str(),
        "\n- message: ",
        finding.message.as_str(),
        "\n- location: ",
        finding.location.path.as_str(),
        ":",
        line.as_str(),
        "\n- snippet:\n",
        finding.location.snippet.as_str(),
        "\n\nThe diff:\n```diff\n",
        diff_text,
        PROMPT_CLOSING,
    ];
    proof {
        assert(text::views(parts@) =~= seq![
            PROMPT_OPENING@,
            finding.category@,
            "\n- severity: "@,
            finding.severity.title(),
            "\n- title: "@,
            finding.title@,
            "\n- message: "@,
            finding.message@,
            "\n- location: "@,
            finding.location.path@,
            ":"@,
            text::decimal_of(finding.location.start_line as nat),
            "\n- snippet:\n"@,
            finding.location.snippet@,
            "\n\nThe diff:\n```diff\n"@,
            diff_text@,
            PROMPT_CLOSING@,
        ]);
    }
    text::glue(&parts)
}

/// What came of putting a finding to the judge.
pub struct VerifyResult {
    pub keep: bool,
    pub reason: String,
    pub usage: Usage,
    pub wall_ms: u64,
}

/// What a `VerifyResult` says.
pub struct VerifyView {
    pub keep: bool,
    pub reason: Seq<char>,
    pub usage: Usage,
    pub wall_ms: u64,
}

impl View for VerifyResult {
    type V = VerifyView;

    open spec fn view(&self) -> VerifyView {
        VerifyView {
            keep: self.keep,
            reason: self.reason@,
            usage: self.usage,
            wall_ms: self.wall_ms,
        }
    }
}

/// Why a finding is kept on which the judge answered in another form.
pub const NOT_READABLE: &'static str = "verify pass response did not match the verdict contract — keeping finding (fail-open)";

/// What comes of a reply and of the verdict in it, if there is one.
pub open spec fn outcome_of(
    reply: Result<InvokeResult, AgentError>,
    verdict: Option<Verdict>,
) -> VerifyView {
    match reply {
        Err(err) => VerifyView {
            keep: true,
            reason: "verify pass failed to invoke ("@ + err.message@
                + ") — keeping finding (fail-open)"@,
            usage: Usage::none(),
            wall_ms: 0,
        },
        Ok(result) => match verdict {
            Some(v) => VerifyView {
                keep: v.keep,
                reason: v.reason@,
                usage: result.usage,
                wall_ms: result.wall_ms,
            },
            None => VerifyView {
                keep: true,
                reason: NOT_READABLE@,
                usage: result.usage,
                wall_ms: result.wall_ms,
            },
        },
    }
}

/// What comes of a reply and of the verdict in it, if there is one.
pub fn judge(reply: Result<InvokeResult, AgentError>, verdict: Option<Verdict>) -> (result:
    VerifyResult)
    ensures
        result@ == outcome_of(reply, verdict),
{
    match reply {
        Err(err) => VerifyResult {
            keep: true,
            reason: text::concat3(
                "verify pass failed to invoke (",
                err.message.as_str(),
                ") — keeping finding (fail-open)",
            ),
            usage: Usage::default(),
            wall_ms: 0,
        },
        Ok(result) => match verdict {
            Some(v) => VerifyResult {
                keep: v.keep,
                reason: v.reason,
                usage: result.usage,
                wall_ms: result.wall_ms,
            },
            None => VerifyResult {
                keep: true,
                reason: NOT_READABLE.to_owned(),
                usage: result.usage,
                wall_ms: result.wall_ms,
            },
        },
    }
}

/// The reader makes this verdict of the fenced block of a reply. There is none
/// without a reply or a block.
pub open spec fn verdict_read<P: Fn(&str) -> Option<Verdict>>(
    read: &P,
    reply: Result<InvokeResult, AgentError>,
    verdict: Option<Verdict>,
) -> bool {
    agents::read_by(read, agents::block_of(reply), verdict)
}

/// Something that can come of putting a finding to the judge.
pub open spec fn can_come_of<B: AgentBackend, P: Fn(&str) -> Option<Verdict>>(
    backend: &B,
    read: &P,
    finding: Finding,
    settings: JudgeSettings,
    outcome: VerifyView,
) -> bool {
    exists|reply: Result<InvokeResult, AgentError>, verdict: Option<Verdict>| #[trigger]
        agents::answered(backend, verify_request(finding, settings), reply)
            && #[trigger] verdict_read(read, reply, verdict) && outcome == outcome_of(
            reply,
            verdict,
        )
}

/// Puts a finding to the judge. `read` reads the verdict out of the judge's
/// fenced block, if it holds one.
pub fn verify_finding<B: AgentBackend, P: Fn(&str) -> Option<Verdict>>(
    backend: &B,
    read: &P,
    finding: &Finding,
    diff_text: &str,
    model: &str,
    max_turns: u32,
    cwd: &str,
) -> (result: VerifyResult)
    requires
        forall|block: &str| call_requires(read, (block,)),
    ensures
        can_come_of(
            backend,
            read,
            *finding,
            (JudgeSettings { diff_text: diff_text@, model: model@, max_turns, cwd: cwd@ }),
            result@,
        ),
{
    let ghost settings = JudgeSettings { diff_text: diff_text@, model: model@, max_turns, cwd: cwd@ };
    let mut tools: Vec<String> = Vec::new();
    tools.push("Read".to_owned());
    tools.push("Grep".to_owned());
    let request = InvokeRequest {
        prompt: build_verify_prompt(finding, diff_text),
        system_prompt: SYSTEM_PROMPT.to_owned(),
        allowed_tools: tools,
        max_turns,
        model: model.to_owned(),
        cwd: cwd.to_owned(),
    };
    proof {
        assert(text::views(tools@) =~= seq!["Read"@, "Grep"@]);
        assert(request@ == verify_request(*finding, settings));
    }
    let reply: Result<InvokeResult, AgentError> = agents::ask(backend, &request);
    let verdict: Option<Verdict> = agents::read_reply(read, &reply);
    let ghost said = reply;
    let ghost judged = verdict;
    proof {
        assert(agents::answered(backend, verify_request(*finding, settings), said));
        assert(verdict_read(read, said, judged));
    }
    judge(reply, verdict)
}

/// The identifiers of the findings that are put to the judge.
pub open spec fn selected_ids(selected: Seq<Finding>) -> Set<Seq<char>>
    decreases selected.len(),
{
    if selected.len() == 0 {
        Set::empty()
    } else {
        selected_ids(selected.drop_last()).insert(selected.last().id@)
    }
}

/// The findings that are kept: those that are not put to the judge, and those
/// that the judge keeps.
pub open spec fn kept_of(
    findings: Seq<Finding>,
    ids: Set<Seq<char>>,
    outcomes: Seq<VerifyView>,
) -> Seq<Finding>
    decreases findings.len(),
{
    if findings.len() == 0 {
        Seq::empty()
    } else {
        let n = findings.len() - 1;
        let rest = kept_of(findings.drop_last(), ids, outcomes);
        if !ids.contains(findings[n].id@) || outcomes[n].keep {
            rest.push(findings[n])
        } else {
            rest
        }
    }
}

/// The findings that are suppressed: those that are put to the judge and that
/// it refutes.
pub open spec fn suppressed_of(
    findings: Seq<Finding>,
    ids: Set<Seq<char>>,
    outcomes: Seq<VerifyView>,
) -> Seq<SuppressedFinding>
    decreases findings.len(),
{
    if findings.len() == 0 {
        Seq::empty()
    } else {
        let n = findings.len() - 1;
        let rest = suppressed_of(findings.drop_last(), ids, outcomes);
        if !ids.contains(findings[n].id@) || outcomes[n].keep {
            rest
        } else {
            rest.push(
                SuppressedFinding { finding: findings[n], reason: SuppressedReason::Refuted },
            )
        }
    }
}

/// How many findings are put to the judge.
pub open spec fn checked_of(findings: Seq<Finding>, ids: Set<Seq<char>>) -> nat
    decreases findings.len(),
{
    if findings.len() == 0 {
        0
    } else {
        checked_of(findings.drop_last(), ids) + if ids.contains(findings.last().id@) {
            1nat
        } else {
            0
        }
    }
}

/// What the judge used for all findings together.
pub open spec fn usage_of(
    findings: Seq<Finding>,
    ids: Set<Seq<char>>,
    outcomes: Seq<VerifyView>,
) -> Usage
    decreases findings.len(),
{
    if findings.len() == 0 {
        Usage::none()
    } else {
        let n = findings.len() - 1;
        let rest = usage_of(findings.drop_last(), ids, outcomes);
        if ids.contains(findings[n].id@) {
            rest.plus(outcomes[n].usage)
        } else {
            rest
        }
    }
}

/// How long the judge took for all findings together, counted no further than
/// the largest `u64`.
pub open spec fn wall_of(
    findings: Seq<Finding>,
    ids: Set<Seq<char>>,
    outcomes: Seq<VerifyView>,
) -> u64
    decreases findings.len(),
{
    if findings.len() == 0 {
        0
    } else {
        let n = findings.len() - 1;
        let rest = wall_of(findings.drop_last(), ids, outcomes);
        if ids.contains(findings[n].id@) {
            agents::sum_u64(rest, outcomes[n].wall_ms)
        } else {
            rest
        }
    }
}

/// The outcomes, position by position, can come of putting the findings with
/// these identifiers to the judge.
pub open spec fn all_can_come_of<B: AgentBackend, P: Fn(&str) -> Option<Verdict>>(
    backend: &B,
    read: &P,
    findings: Seq<Finding>,
    ids: Set<Seq<char>>,
    settings: JudgeSettings,
    outcomes: Seq<VerifyView>,
) -> bool {
    &&& outcomes.len() == findings.len()
    &&& forall|i: int|
        0 <= i < findings.len() && ids.contains(findings[i].id@) ==> can_come_of(
            backend,
            read,
            findings[i],
            settings,
            #[trigger] outcomes[i],
        )
}

/// What a pass gives for these outcomes.
pub open spec fn pass_gives(
    pass: VerifyPassResult,
    findings: Seq<Finding>,
    ids: Set<Seq<char>>,
    outcomes: Seq<VerifyView>,
) -> bool {
    &&& pass.kept@ == kept_of(findings, ids, outcomes)
    &&& pass.suppressed@ == suppressed_of(findings, ids, outcomes)
    &&& pass.usage == usage_of(findings, ids, outcomes)
    &&& pass.wall_ms == wall_of(findings, ids, outcomes)
    &&& pass.checked == checked_of(findings, ids)
}

/// What came of a pass over findings.
pub struct VerifyPassResult {
    pub kept: Vec<Finding>,
    pub suppressed: Vec<SuppressedFinding>,
    pub usage: Usage,
    pub wall_ms: u64,
    pub checked: usize,
}

fn ids_of(selected: &Vec<&Finding>, Ghost(all): Ghost<Seq<Finding>>) -> (ids: NameSet)
    requires
        selected@.len() == all.len(),
        forall|i: int| 0 <= i < selected@.len() ==> *(#[trigger] selected@[i]) == all[i],
    ensures
        ids@ == selected_ids(all),
{
    let mut ids: NameSet = NameSet::new();
    let mut i: usize = 0;
    while i < selected.len()
        invariant
            0 <= i <= selected@.len(),
            selected@.len() == all.len(),
            forall|j: int| 0 <= j < selected@.len() ==> *(#[trigger] selected@[j]) == all[j],
            ids@ == selected_ids(all.take(i as int)),
        decreases selected.len() - i,
    {
        proof {
            assert(all.take(i + 1).drop_last() =~= all.take(i as int));
            assert(all.take(i + 1).last() == *selected@[i as int]);
        }
        ids.insert(selected[i].id.as_str());
        i += 1;
    }
    proof {
        assert(all.take(all.len() as int) =~= all);
    }
    ids
}

proof fn lemma_pass_prefix(
    findings: Seq<Finding>,
    ids: Set<Seq<char>>,
    outcomes: Seq<VerifyView>,
    more: VerifyView,
)
    requires
        outcomes.len() >= findings.len(),
    ensures
        kept_of(findings, ids, outcomes.push(more)) == kept_of(findings, ids, outcomes),
        suppressed_of(findings, ids, outcomes.push(more)) == suppressed_of(findings, ids, outcomes),
        usage_of(findings, ids, outcomes.push(more)) == usage_of(findings, ids, outcomes),
        wall_of(findings, ids, outcomes.push(more)) == wall_of(findings, ids, outcomes),
    decreases findings.len(),
{
    if findings.len() > 0 {
        lemma_pass_prefix(findings.drop_last(), ids, outcomes, more);
    }
}

/// Puts the selected findings to the judge one by one. Every other finding is
/// kept unseen. Which findings are put to the judge goes by their identifiers.
pub fn run_verify_pass<B: AgentBackend, P: Fn(&str) -> Option<Verdict>>(
    backend: &B,
    read: &P,
    findings: Vec<Finding>,
    diff_text: &str,
    model: &str,
    max_turns: u32,
    cwd: &str,
    noisy_categories: &Vec<String>,
    semantic_rule_ids: &NameSet,
) -> (pass: VerifyPassResult)
    requires
        forall|block: &str| call_requires(read, (block,)),
    ensures
        exists|outcomes: Seq<VerifyView>| #[trigger]
            all_can_come_of(
                backend,
                read,
                findings@,
                selected_ids(
                    selection(findings@, text::views(noisy_categories@), semantic_rule_ids@),
                ),
                (JudgeSettings { diff_text: diff_text@, model: model@, max_turns, cwd: cwd@ }),
                outcomes,
            ) && pass_gives(
                pass,
                findings@,
                selected_ids(
                    selection(findings@, text::views(noisy_categories@), semantic_rule_ids@),
                ),
                outcomes,
            ),
{
    let ghost settings = JudgeSettings { diff_text: diff_text@, model: model@, max_turns, cwd: cwd@ };
    let ghost all = findings@;
    let ids: NameSet = {
        let selected: Vec<&Finding> = select_for_verification(
            findings.as_slice(),
            noisy_categories,
            semantic_rule_ids,
        );
        ids_of(
            &selected,
            Ghost(selection(findings@, text::views(noisy_categories@), semantic_rule_ids@)),
        )
    };
    let total: usize = findings.len();
    let mut rest: Vec<Finding> = findings;
    let mut kept: Vec<Finding> = Vec::new();
    let mut suppressed: Vec<SuppressedFinding> = Vec::new();
    let mut usage: Usage = Usage::default();
    let mut wall_ms: u64 = 0;
    let mut checked: usize = 0;
    let ghost mut outcomes: Seq<VerifyView> = Seq::empty();
    let ghost mut done: int = 0;
    while rest.len() > 0
        invariant
            0 <= done <= all.len(),
            rest@ == all.skip(done),
            all.len() == total,
            forall|block: &str| call_requires(read, (block,)),
            settings == (JudgeSettings {
                diff_text: diff_text@,
                model: model@,
                max_turns,
                cwd: cwd@,
            }),
            all_can_come_of(backend, read, all.take(done), ids@, settings, outcomes),
            kept@ == kept_of(all.take(done), ids@, outcomes),
            suppressed@ == suppressed_of(all.take(done), ids@, outcomes),
            usage == usage_of(all.take(done), ids@, outcomes),
            wall_ms == wall_of(all.take(done), ids@, outcomes),
            checked == checked_of(all.take(done), ids@),
            checked <= done,
        decreases rest.len(),
    {
        let finding: Finding = rest.remove(0);
        let ghost head = all.take(done);
        let ghost next = all.take(done + 1);
        proof {
            assert(finding == all[done]);
            assert(rest@ =~= all.skip(done + 1));
            assert(next.drop_last() =~= head);
            assert(next[done] == finding);
        }
        if !ids.contains(finding.id.as_str()) {
            let ghost unseen = VerifyView {
                keep: true,
                reason: Seq::empty(),
                usage: Usage::none(),
                wall_ms: 0,
            };
            proof {
                lemma_pass_prefix(head, ids@, outcomes, unseen);
                outcomes = outcomes.push(unseen);
            }
            kept.push(finding);
        } else {
            checked += 1;
            let result: VerifyResult = verify_finding(
                backend,
                read,
                &finding,
                diff_text,
                model,
                max_turns,
                cwd,
            );
            proof {
                lemma_pass_prefix(head, ids@, outcomes, result@);
                outcomes = outcomes.push(result@);
            }
            usage.add(&result.usage);
            wall_ms = agents::add_u64(wall_ms, result.wall_ms);
            if result.keep {
                kept.push(finding);
            } else {
                suppressed.push(SuppressedFinding { finding, reason: SuppressedReason::Refuted });
            }
        }
        proof {
            assert forall|i: int| 0 <= i < next.len() && ids@.contains(next[i].id@) implies can_come_of(
                backend,
                read,
                next[i],
                settings,
                #[trigger] outcomes[i],
            ) by {
                if i < head.len() {
                    assert(next[i] == head[i]);
                }
            }
            done = done + 1;
        }
    }
    proof {
        assert(all.take(done) =~= all);
    }
    VerifyPassResult { kept, suppressed, usage, wall_ms, checked }
}

/// A judge that does not answer, or whose answer holds no verdict, never
/// suppresses a finding.
pub proof fn the_judge_fails_open(
    reply: Result<InvokeResult, AgentError>,
    verdict: Option<Verdict>,
)
    requires
        reply is Err || verdict is None,
    ensures
        outcome_of(reply, verdict).keep,
{
}

/// Every finding is either kept or suppressed, whatever the judge says.
pub proof fn no_finding_is_dropped(
    findings: Seq<Finding>,
    ids: Set<Seq<char>>,
    outcomes: Seq<VerifyView>,
)
    ensures
        kept_of(findings, ids, outcomes).len() + suppressed_of(findings, ids, outcomes).len()
            == findings.len(),
        forall|i: int|
            0 <= i < findings.len() ==> {
                ||| kept_of(findings, ids, outcomes).contains(#[trigger] findings[i])
                ||| suppressed_of(findings, ids, outcomes).contains(
                    SuppressedFinding { finding: findings[i], reason: SuppressedReason::Refuted },
                )
            },
    decreases findings.len(),
{
    if findings.len() > 0 {
        let n = findings.len() - 1;
        let head = findings.drop_last();
        no_finding_is_dropped(head, ids, outcomes);
        let kept = kept_of(head, ids, outcomes);
        let gone = suppressed_of(head, ids, outcomes);
        let last = SuppressedFinding { finding: findings[n], reason: SuppressedReason::Refuted };
        assert forall|i: int| 0 <= i < findings.len() implies {
            ||| kept_of(findings, ids, outcomes).contains(#[trigger] findings[i])
            ||| suppressed_of(findings, ids, outcomes).contains(
                SuppressedFinding { finding: findings[i], reason: SuppressedReason::Refuted },
            )
        } by {
            let this = SuppressedFinding { finding: findings[i], reason: SuppressedReason::Refuted };
            text::lemma_push_contains(kept, findings[n], findings[i]);
            text::lemma_push_contains(gone, last, this);
            if i < n {
                assert(head[i] == findings[i]);
            }
        }
    }
}

/// Only findings that were put to the judge, and that it refuted, are
/// suppressed.
pub proof fn only_refuted_findings_are_suppressed(
    findings: Seq<Finding>,
    ids: Set<Seq<char>>,
    outcomes: Seq<VerifyView>,
    k: int,
)
    requires
        0 <= k < suppressed_of(findings, ids, outcomes).len(),
    ensures
        exists|i: int|
            0 <= i < findings.len() && suppressed_of(findings, ids, outcomes)[k].finding
                == #[trigger] findings[i] && ids.contains(findings[i].id@) && !outcomes[i].keep,
    decreases findings.len(),
{
    let n = findings.len() - 1;
    let rest = suppressed_of(findings.drop_last(), ids, outcomes);
    if k < rest.len() {
        only_refuted_findings_are_suppressed(findings.drop_last(), ids, outcomes, k);
        let i = choose|i: int|
            0 <= i < findings.drop_last().len() && rest[k].finding
                == #[trigger] findings.drop_last()[i] && ids.contains(
                findings.drop_last()[i].id@,
            ) && !outcomes[i].keep;
        assert(findings[i] == findings.drop_last()[i]);
    } else {
        assert(suppressed_of(findings, ids, outcomes)[k].finding == findings[n]);
    }
}

/// What is checked: what an agent found that is a blocker or high, what an analyzer
/// found in a noisy category, and what a semantic rule found; in order.
pub proof fn these_are_selected(
    findings: Seq<Finding>,
    noisy: Seq<Seq<char>>,
    semantic: Set<Seq<char>>,
)
    ensures
        selection(findings, noisy, semantic) == findings.filter(
            |f: Finding|
                (f.source.kind == FindingSourceKind::Agent && (f.severity == Severity::Blocker
                    || f.severity == Severity::High)) || (f.source.kind
                    == FindingSourceKind::Analyzer && noisy.contains(f.category@)) || (
                f.source.rule_id matches Some(id) && semantic.contains(id@)),
        ),
    decreases findings.len(),
{
    reveal(Seq::filter);
    if findings.len() > 0 {
        these_are_selected(findings.drop_last(), noisy, semantic);
    }
}

/// The identities of a selection are those of its findings.
pub proof fn selected_identities_are_those_of_findings(selected: Seq<Finding>, id: Seq<char>)
    ensures
        selected_ids(selected).contains(id) <==> exists|i: int|
            0 <= i < selected.len() && (#[trigger] selected[i]).id@ == id,
    decreases selected.len(),
{
    if selected.len() > 0 {
        let rest = selected.drop_last();
        selected_identities_are_those_of_findings(rest, id);
        if selected_ids(rest).contains(id) {
            let i = choose|i: int| 0 <= i < rest.len() && (#[trigger] rest[i]).id@ == id;
            assert(selected[i].id@ == id);
        }
        if selected.last().id@ == id {
            assert(selected[selected.len() - 1].id@ == id);
        }
        if exists|i: int| 0 <= i < selected.len() && (#[trigger] selected[i]).id@ == id {
            let i = choose|i: int| 0 <= i < selected.len() && (#[trigger] selected[i]).id@ == id;
            if i < rest.len() {
                assert(rest[i].id@ == id);
            }
        }
    }
}

/// A finding is kept unless it was checked and refuted; one that was checked and
/// refuted is suppressed. What is kept stays in order, so that where nothing is
/// refuted everything is left as it was.
pub proof fn refuted_findings_are_suppressed(
    findings: Seq<Finding>,
    ids: Set<Seq<char>>,
    outcomes: Seq<VerifyView>,
    i: int,
)
    requires
        0 <= i < findings.len(),
    ensures
        !ids.contains(findings[i].id@) || outcomes[i].keep ==> kept_of(
            findings,
            ids,
            outcomes,
        ).contains(findings[i]),
        ids.contains(findings[i].id@) && !outcomes[i].keep ==> suppressed_of(
            findings,
            ids,
            outcomes,
        ).contains(SuppressedFinding { finding: findings[i], reason: SuppressedReason::Refuted }),
        (forall|j: int|
            0 <= j < findings.len() ==> !ids.contains((#[trigger] findings[j]).id@)
                || outcomes[j].keep) ==> kept_of(findings, ids, outcomes) == findings,
    decreases findings.len(),
{
    let rest = findings.drop_last();
    let n = findings.len() - 1;
    let f = findings[i];
    let sup = SuppressedFinding { finding: f, reason: SuppressedReason::Refuted };
    let kept = kept_of(rest, ids, outcomes);
    let gone = suppressed_of(rest, ids, outcomes);
    if n == 0 {
        assert(kept.push(findings[0])[0] == f);
        assert(kept.push(findings[0]) =~= findings);
        assert(gone.push(sup)[0] == sup);
    } else {
        let k = if i < n {
            i
        } else {
            0
        };
        refuted_findings_are_suppressed(rest, ids, outcomes, k);
        if forall|j: int|
            0 <= j < findings.len() ==> !ids.contains((#[trigger] findings[j]).id@)
                || outcomes[j].keep {
            assert forall|j: int| 0 <= j < rest.len() implies !ids.contains(
                (#[trigger] rest[j]).id@,
            ) || outcomes[j].keep by {
                assert(rest[j] == findings[j]);
            }
            assert(!ids.contains(findings[n].id@) || outcomes[n].keep);
            assert(rest.push(findings[n]) =~= findings);
        }
        let last = SuppressedFinding { finding: findings[n], reason: SuppressedReason::Refuted };
        if i == n {
            assert(kept.push(f)[kept.len() as int] == f);
            assert(gone.push(sup)[gone.len() as int] == sup);
        } else {
            assert(rest[i] == f);
            if kept.contains(f) {
                let a = choose|a: int| 0 <= a < kept.len() && kept[a] == f;
                assert(kept.push(findings[n])[a] == f);
            }
            if gone.contains(sup) {
                let a = choose|a: int| 0 <= a < gone.len() && gone[a] == sup;
                assert(gone.push(last)[a] == sup);
            }
        }
    }
}

/// What a pass costs is what its checks cost, and it counts its checks: one more
/// finding adds its own tokens and time where it is checked, and nothing where it
/// is not.
pub proof fn only_checks_cost(
    findings: Seq<Finding>,
    ids: Set<Seq<char>>,
    outcomes: Seq<VerifyView>,
    f: Finding,
    o: VerifyView,
)
    requires
        outcomes.len() == findings.len(),
    ensures
        ({
            let (more, out) = (findings.push(f), outcomes.push(o));
            let (was, is) = (usage_of(findings, ids, outcomes), usage_of(more, ids, out));
            &&& ids.contains(f.id@) ==> {
                &&& was.input_tokens + o.usage.input_tokens <= u64::MAX ==> is.input_tokens
                    == was.input_tokens + o.usage.input_tokens
                &&& was.output_tokens + o.usage.output_tokens <= u64::MAX ==> is.output_tokens
                    == was.output_tokens + o.usage.output_tokens
                &&& wall_of(findings, ids, outcomes) + o.wall_ms <= u64::MAX ==> wall_of(
                    more,
                    ids,
                    out,
                ) == wall_of(findings, ids, outcomes) + o.wall_ms
                &&& checked_of(more, ids) == checked_of(findings, ids) + 1
            }
            &&& !ids.contains(f.id@) ==> is == was && wall_of(more, ids, out) == wall_of(
                findings,
                ids,
                outcomes,
            ) && checked_of(more, ids) == checked_of(findings, ids)
        }),
        usage_of(Seq::empty(), ids, outcomes) == (Usage { input_tokens: 0, output_tokens: 0 }),
        wall_of(Seq::empty(), ids, outcomes) == 0,
        checked_of(Seq::empty(), ids) == 0,
{
    let (more, out) = (findings.push(f), outcomes.push(o));
    assert(more.drop_last() =~= findings);
    lemma_cost_stays(findings, ids, outcomes, out);
}

proof fn lemma_cost_stays(
    findings: Seq<Finding>,
    ids: Set<Seq<char>>,
    a: Seq<VerifyView>,
    b: Seq<VerifyView>,
)
    requires
        forall|i: int| 0 <= i < findings.len() ==> #[trigger] a[i] == b[i],
    ensures
        usage_of(findings, ids, a) == usage_of(findings, ids, b),
        wall_of(findings, ids, a) == wall_of(findings, ids, b),
    decreases findings.len(),
{
    if findings.len() > 0 {
        lemma_cost_stays(findings.drop_last(), ids, a, b);
        assert(a[findings.len() - 1] == b[findings.len() - 1]);
    }
}

/// A verdict that could be read is what is done, at the price of the call; a call
/// that failed costs nothing and says why.
pub proof fn verdicts_are_followed(reply: Result<InvokeResult, AgentError>, verdict: Option<Verdict>)
    ensures
        reply matches Ok(r) ==> outcome_of(reply, verdict).usage == r.usage && outcome_of(
            reply,
            verdict,
        ).wall_ms == r.wall_ms && (verdict matches Some(v) ==> outcome_of(reply, verdict).keep
            == v.keep && outcome_of(reply, verdict).reason == v.reason@),
        reply matches Err(e) ==> outcome_of(reply, verdict).usage.input_tokens == 0 && outcome_of(
            reply,
            verdict,
        ).usage.output_tokens == 0 && outcome_of(reply, verdict).wall_ms == 0 && text::has(
            outcome_of(reply, verdict).reason,
            e.message@,
        ),
{
    if let Err(e) = reply {
        let head = "verify pass failed to invoke ("@;
        let whole = outcome_of(reply, verdict).reason;
        assert(text::occurs_at(whole, e.message@, head.len() as int)) by {
            assert(whole.subrange(head.len() as int, (head.len() + e.message@.len()) as int)
                =~= e.message@);
        }
    }
}

/// A check is told what was found, each part under its own name, and the diff; it is
/// asked of the model, in the turns and in the place that were given, and may read
/// and search.
pub proof fn checks_are_told_what_was_found(finding: Finding, settings: JudgeSettings)
    ensures
        ({
            let r = verify_request(finding, settings);
            &&& text::has(r.prompt, "\n- severity: "@ + finding.severity.title())
            &&& text::has(r.prompt, "\n- title: "@ + finding.title@)
            &&& text::has(r.prompt, "\n- message: "@ + finding.message@)
            &&& text::has(
                r.prompt,
                finding.location.path@ + ":"@ + text::decimal_of(
                    finding.location.start_line as nat,
                ),
            )
            &&& text::has(r.prompt, "\n- snippet:\n"@ + finding.location.snippet@)
            &&& text::has(r.prompt, "\n\nThe diff:\n```diff\n"@ + settings.diff_text)
            &&& text::has(r.prompt, finding.category@ + "\n- severity: "@)
            &&& r.allowed_tools == seq!["Read"@, "Grep"@]
            &&& r.max_turns == settings.max_turns && r.model == settings.model && r.cwd
                == settings.cwd
        }),
{
    let diff = settings.diff_text;
    let parts = seq![
        PROMPT_OPENING@,
        finding.category@,
        "\n- severity: "@,
        finding.severity.title(),
        "\n- title: "@,
        finding.title@,
        "\n- message: "@,
        finding.message@,
        "\n- location: "@,
        finding.location.path@,
        ":"@,
        text::decimal_of(finding.location.start_line as nat),
        "\n- snippet:\n"@,
        finding.location.snippet@,
        "\n\nThe diff:\n```diff\n"@,
        diff,
        PROMPT_CLOSING@,
    ];
    text::lemma_glued_has(parts, 2, 4);
    assert(parts.subrange(2, 4) =~= seq!["\n- severity: "@, finding.severity.title()]);
    text::lemma_glued_few("\n- severity: "@, finding.severity.title(), Seq::empty(), Seq::empty());
    text::lemma_glued_has(parts, 4, 6);
    assert(parts.subrange(4, 6) =~= seq!["\n- title: "@, finding.title@]);
    text::lemma_glued_few("\n- title: "@, finding.title@, Seq::empty(), Seq::empty());
    text::lemma_glued_has(parts, 6, 8);
    assert(parts.subrange(6, 8) =~= seq!["\n- message: "@, finding.message@]);
    text::lemma_glued_few("\n- message: "@, finding.message@, Seq::empty(), Seq::empty());
    text::lemma_glued_has(parts, 9, 12);
    assert(parts.subrange(9, 12) =~= seq![finding.location.path@, ":"@, text::decimal_of(finding.location.start_line as nat)]);
    text::lemma_glued_few(finding.location.path@, ":"@, text::decimal_of(finding.location.start_line as nat), Seq::empty());
    text::lemma_glued_has(parts, 12, 14);
    assert(parts.subrange(12, 14) =~= seq!["\n- snippet:\n"@, finding.location.snippet@]);
    text::lemma_glued_few("\n- snippet:\n"@, finding.location.snippet@, Seq::empty(), Seq::empty());
    text::lemma_glued_has(parts, 14, 16);
    assert(parts.subrange(14, 16) =~= seq!["\n\nThe diff:\n```diff\n"@, diff]);
    text::lemma_glued_few("\n\nThe diff:\n```diff\n"@, diff, Seq::empty(), Seq::empty());
    text::lemma_glued_has(parts, 1, 3);
    assert(parts.subrange(1, 3) =~= seq![finding.category@, "\n- severity: "@]);
    text::lemma_glued_few(finding.category@, "\n- severity: "@, Seq::empty(), Seq::empty());
}

} // verus!
