//! Checks acceptance criteria against a diff, all in one question to an agent.
//! Where the agent does not answer, or answers in another form than asked, every
//! criterion is uncertain.

use vstd::prelude::*;

use crate::agents;
use crate::agents::{AgentBackend, AgentError, InvokeRequest, InvokeResult, RequestView, Usage};
use crate::schema::{
    AcceptanceSpec, AcceptanceView, CriterionResult, CriterionVerdict, CriterionView,
};
use crate::text;

verus! {

/// What the prompt says before the intent.
pub const PROMPT_OPENING: &'static str = "You are verifying whether a code change satisfies a set of stated acceptance criteria — this is a factual check against the diff, not a general code review.\n\nChange intent: ";

/// What the prompt asks for.
pub const PROMPT_QUESTION: &'static str = "\n```\n\nFor EACH criterion above, decide: \"satisfied\" (the diff clearly does this), \"not-satisfied\" (the diff clearly does NOT do this), or \"uncertain\" (the diff/surrounding code doesn't settle it either way — prefer this over guessing). Respond with ONLY a fenced ```json block containing a JSON array with exactly ";

/// In which form the agent answers.
pub const PROMPT_CLOSING: &'static str = " object(s), one per criterion in the same order, of the exact shape [{\"criterion\": \"...\", \"verdict\": \"satisfied\"|\"not-satisfied\"|\"uncertain\", \"evidence\": \"one sentence citing what you saw (or didn't see) in the diff\"}].";

/// Who the agent is asked to be.
pub const SYSTEM_PROMPT: &'static str = "You are a precise, factual verifier checking a code change against explicit acceptance criteria. You only mark a criterion satisfied when the diff clearly shows it, and prefer \"uncertain\" over guessing.";

/// The evidence where the answer has another form than asked.
pub const NO_RESULTS: &'static str = "verification response did not match the expected contract (missing or malformed JSON array)";

/// The criteria, numbered from one.
pub open spec fn numbered(criteria: Seq<Seq<char>>) -> Seq<Seq<char>> {
    Seq::new(criteria.len(), |i: int| text::decimal_of((i + 1) as nat) + ". "@ + criteria[i])
}

/// The prompt for a specification and a diff.
pub open spec fn check_prompt(spec: AcceptanceView, diff_text: Seq<char>) -> Seq<char> {
    text::glued(
        seq![
            PROMPT_OPENING@,
            spec.intent,
            "\n\nAcceptance criteria to check, in order:\n"@,
            text::joined(numbered(spec.criteria), "\n"@),
            "\n\nThe diff:\n```diff\n"@,
            diff_text,
            PROMPT_QUESTION@,
            text::decimal_of(spec.criteria.len()),
            PROMPT_CLOSING@,
        ],
    )
}

/// The request for a specification and a diff.
pub open spec fn check_request(
    spec: AcceptanceView,
    diff_text: Seq<char>,
    model: Seq<char>,
    max_turns: u32,
    cwd: Seq<char>,
) -> RequestView {
    RequestView {
        prompt: check_prompt(spec, diff_text),
        system_prompt: SYSTEM_PROMPT@,
        allowed_tools: seq!["Read"@, "Grep"@],
        max_turns,
        model,
        cwd,
    }
}

fn numbered_list(criteria: &Vec<String>) -> (list: String)
    ensures
        list@ == text::joined(numbered(text::views(criteria@)), "\n"@),
{
    let ghost all = numbered(text::views(criteria@));
    let mut lines: Vec<String> = Vec::new();
    let mut i: usize = 0;
    while i < criteria.len()
        invariant
            0 <= i <= criteria@.len(),
            all == numbered(text::views(criteria@)),
            lines@.len() == i,
            forall|j: int| 0 <= j < i ==> (#[trigger] lines@[j])@ == all[j],
        decreases criteria.len() - i,
    {
        let number: String = text::decimal((i + 1) as u64);
        lines.push(text::concat3(number.as_str(), ". ", criteria[i].as_str()));
        i += 1;
    }
    proof {
        assert(text::views(lines@) =~= all);
    }
    text::join(&lines, "\n")
}

fn build_spec_verify_prompt(spec: &AcceptanceSpec, diff_text: &str) -> (prompt: String)
    ensures
        prompt@ == check_prompt(spec@, diff_text@),
{
    let list: String = numbered_list(&spec.criteria);
    let count: String = text::decimal(spec.criteria.len() as u64);
    let parts: [&str; 9] = [
        PROMPT_OPENING,
        spec.intent.as_str(),
        "\n\nAcceptance criteria to check, in order:\n",
        list.as_str(),
        "\n\nThe diff:\n```diff\n",
        diff_text,
        PROMPT_QUESTION,
        count.as_str(),
        PROMPT_CLOSING,
    ];
    proof {
        assert(text::views(spec.criteria@).len() == spec.criteria@.len());
        assert(text::views(parts@) =~= seq![
            PROMPT_OPENING@,
            spec.intent@,
            "\n\nAcceptance criteria to check, in order:\n"@,
            list@,
            "\n\nThe diff:\n```diff\n"@,
            diff_text@,
            PROMPT_QUESTION@,
            count@,
            PROMPT_CLOSING@,
        ]);
    }
    text::glue(&parts)
}

/// What came of a check.
pub struct SpecVerifyResult {
    pub results: Vec<CriterionResult>,
    pub usage: Usage,
    pub wall_ms: u64,
}

/// What a `SpecVerifyResult` says.
pub struct CheckView {
    pub results: Seq<CriterionView>,
    pub usage: Usage,
    pub wall_ms: u64,
}

impl View for SpecVerifyResult {
    type V = CheckView;

    open spec fn view(&self) -> CheckView {
        CheckView {
            results: text::views(self.results@),
            usage: self.usage,
            wall_ms: self.wall_ms,
        }
    }
}

/// Every criterion is uncertain, for one reason.
pub open spec fn all_uncertain(criteria: Seq<Seq<char>>, reason: Seq<char>) -> Seq<CriterionView> {
    Seq::new(
        criteria.len(),
        |i: int|
            CriterionView {
                criterion: criteria[i],
                verdict: CriterionVerdict::Uncertain,
                evidence: reason,
            },
    )
}

fn uncertain_fallback(spec: &AcceptanceSpec, reason: &str) -> (results: Vec<CriterionResult>)
    ensures
        text::views(results@) == all_uncertain(spec@.criteria, reason@),
{
    let ghost all = all_uncertain(spec@.criteria, reason@);
    let mut results: Vec<CriterionResult> = Vec::new();
    let mut i: usize = 0;
    while i < spec.criteria.len()
        invariant
            0 <= i <= spec.criteria@.len(),
            all == all_uncertain(spec@.criteria, reason@),
            results@.len() == i,
            forall|j: int| 0 <= j < i ==> (#[trigger] results@[j])@ == all[j],
        decreases spec.criteria.len() - i,
    {
        results.push(
            CriterionResult {
                criterion: spec.criteria[i].clone(),
                verdict: CriterionVerdict::Uncertain,
                evidence: reason.to_owned(),
            },
        );
        i += 1;
    }
    proof {
        assert(text::views(results@) =~= all);
    }
    results
}

/// What comes of a reply, and of the results in it if there are any. Results
/// count only if there is one for each criterion.
pub open spec fn outcome_of(
    criteria: Seq<Seq<char>>,
    reply: Result<InvokeResult, AgentError>,
    results: Option<Seq<CriterionView>>,
) -> CheckView {
    match reply {
        Err(err) => CheckView {
            results: all_uncertain(
                criteria,
                "verification call failed to invoke ("@ + err.message@ + ")"@,
            ),
            usage: Usage::none(),
            wall_ms: 0,
        },
        Ok(invoked) => CheckView {
            results: if results is Some && results->Some_0.len() == criteria.len() {
                results->Some_0
            } else {
                all_uncertain(criteria, NO_RESULTS@)
            },
            usage: invoked.usage,
            wall_ms: invoked.wall_ms,
        },
    }
}

/// The results that there may be.
pub open spec fn views_of(results: Option<Vec<CriterionResult>>) -> Option<Seq<CriterionView>> {
    match results {
        Some(r) => Some(text::views(r@)),
        None => None,
    }
}

/// What comes of a reply, and of the results in it if there are any.
pub fn judge(
    spec: &AcceptanceSpec,
    reply: Result<InvokeResult, AgentError>,
    results: Option<Vec<CriterionResult>>,
) -> (checked: SpecVerifyResult)
    ensures
        checked@ == outcome_of(spec@.criteria, reply, views_of(results)),
{
    match reply {
        Err(err) => {
            let reason: String = text::concat3(
                "verification call failed to invoke (",
                err.message.as_str(),
                ")",
            );
            SpecVerifyResult {
                results: uncertain_fallback(spec, reason.as_str()),
                usage: Usage::default(),
                wall_ms: 0,
            }
        },
        Ok(invoked) => {
            let usage: Usage = invoked.usage;
            let wall_ms: u64 = invoked.wall_ms;
            proof {
                assert(spec@.criteria.len() == spec.criteria@.len());
            }
            match results {
                Some(found) => {
                    proof {
                        assert(text::views(found@).len() == found@.len());
                    }
                    if found.len() == spec.criteria.len() {
                        SpecVerifyResult { results: found, usage, wall_ms }
                    } else {
                        SpecVerifyResult {
                            results: uncertain_fallback(spec, NO_RESULTS),
                            usage,
                            wall_ms,
                        }
                    }
                },
                None => SpecVerifyResult {
                    results: uncertain_fallback(spec, NO_RESULTS),
                    usage,
                    wall_ms,
                },
            }
        },
    }
}

/// The reader makes these results of the fenced block of a reply. There are none
/// without a reply or a block.
pub open spec fn results_read<P: Fn(&str) -> Option<Vec<CriterionResult>>>(
    read: &P,
    reply: Result<InvokeResult, AgentError>,
    results: Option<Vec<CriterionResult>>,
) -> bool {
    agents::read_by(read, agents::block_of(reply), results)
}

/// Checks the criteria of a specification against a diff. `read` reads the
/// results out of the agent's fenced block, if it holds them.
pub fn run_spec_verify<B: AgentBackend, P: Fn(&str) -> Option<Vec<CriterionResult>>>(
    backend: &B,
    read: &P,
    spec: &AcceptanceSpec,
    diff_text: &str,
    model: &str,
    max_turns: u32,
    cwd: &str,
) -> (checked: SpecVerifyResult)
    requires
        forall|block: &str| call_requires(read, (block,)),
    ensures
        exists|
            reply: Result<InvokeResult, AgentError>,
            results: Option<Vec<CriterionResult>>,
        | #[trigger]
            agents::answered(
                backend,
                check_request(spec@, diff_text@, model@, max_turns, cwd@),
                reply,
            ) && #[trigger] results_read(read, reply, results) && checked@ == outcome_of(
                spec@.criteria,
                reply,
                views_of(results),
            ),
{
    let mut tools: Vec<String> = Vec::new();
    tools.push("Read".to_owned());
    tools.push("Grep".to_owned());
    let request = InvokeRequest {
        prompt: build_spec_verify_prompt(spec, diff_text),
        system_prompt: SYSTEM_PROMPT.to_owned(),
        allowed_tools: tools,
        max_turns,
        model: model.to_owned(),
        cwd: cwd.to_owned(),
    };
    proof {
        assert(text::views(tools@) =~= seq!["Read"@, "Grep"@]);
        assert(request@ == check_request(spec@, diff_text@, model@, max_turns, cwd@));
    }
    let reply: Result<InvokeResult, AgentError> = agents::ask(backend, &request);
    let results: Option<Vec<CriterionResult>> = agents::read_reply(read, &reply);
    let ghost said = reply;
    let ghost found = results;
    proof {
        assert(agents::answered(
            backend,
            check_request(spec@, diff_text@, model@, max_turns, cwd@),
            said,
        ));
        assert(results_read(read, said, found));
    }
    judge(spec, reply, results)
}

/// A check has one result for each criterion, whatever the agent answers.
pub proof fn every_criterion_gets_a_result(
    criteria: Seq<Seq<char>>,
    reply: Result<InvokeResult, AgentError>,
    results: Option<Seq<CriterionView>>,
)
    ensures
        outcome_of(criteria, reply, results).results.len() == criteria.len(),
{
}

/// Without an answer of the right form, no criterion passes or fails.
pub proof fn silence_settles_nothing(
    criteria: Seq<Seq<char>>,
    reply: Result<InvokeResult, AgentError>,
    results: Option<Seq<CriterionView>>,
    i: int,
)
    requires
        0 <= i < criteria.len(),
        reply is Err || results is None || results->Some_0.len() != criteria.len(),
    ensures
        outcome_of(criteria, reply, results).results[i].verdict == CriterionVerdict::Uncertain,
        outcome_of(criteria, reply, results).results[i].criterion == criteria[i],
{
}

/// Results that could be read, one for each criterion, are given back as they are,
/// at the price of the call; a call that failed costs nothing and its message is
/// the evidence.
pub proof fn results_are_given_back(
    criteria: Seq<Seq<char>>,
    reply: Result<InvokeResult, AgentError>,
    results: Option<Seq<CriterionView>>,
)
    ensures
        reply matches Ok(r) ==> outcome_of(criteria, reply, results).usage == r.usage
            && outcome_of(criteria, reply, results).wall_ms == r.wall_ms && (results matches Some(
            found,
        ) ==> (found.len() == criteria.len() ==> outcome_of(criteria, reply, results).results
            == found)),
        reply matches Err(e) ==> outcome_of(criteria, reply, results).usage.input_tokens == 0
            && outcome_of(criteria, reply, results).usage.output_tokens == 0 && outcome_of(
            criteria,
            reply,
            results,
        ).wall_ms == 0 && forall|i: int|
            0 <= i < criteria.len() ==> text::has(
                (#[trigger] outcome_of(criteria, reply, results).results[i]).evidence,
                e.message@,
            ),
{
    if let Err(e) = reply {
        let head = "verification call failed to invoke ("@;
        let whole = head + e.message@ + ")"@;
        assert(text::occurs_at(whole, e.message@, head.len() as int)) by {
            assert(whole.subrange(head.len() as int, (head.len() + e.message@.len()) as int)
                =~= e.message@);
        }
    }
}

/// The criteria are numbered from one, in order.
pub proof fn criteria_are_numbered_from_one(criteria: Seq<Seq<char>>, i: int)
    requires
        0 <= i < criteria.len(),
    ensures
        numbered(criteria).len() == criteria.len(),
        text::begins(numbered(criteria)[i], text::decimal_of((i + 1) as nat)),
        text::ends(numbered(criteria)[i], criteria[i]),
        numbered(criteria)[i].len() == text::decimal_of((i + 1) as nat).len() + 2
            + criteria[i].len(),
{
    let d = text::decimal_of((i + 1) as nat);
    let item = numbered(criteria)[i];
    reveal_strlit(". ");
    assert(item.subrange(0, d.len() as int) =~= d);
    assert(item.subrange(item.len() - criteria[i].len(), item.len() as int) =~= criteria[i]);
}

/// A check is told the intent of a change, its criteria, numbered and one to a line,
/// how many there are, and the diff; it is asked of the model, in the turns and in
/// the place that were given, and may read and search.
pub proof fn checks_are_told_the_criteria(
    spec: AcceptanceView,
    diff_text: Seq<char>,
    model: Seq<char>,
    max_turns: u32,
    cwd: Seq<char>,
)
    ensures
        ({
            let r = check_request(spec, diff_text, model, max_turns, cwd);
            &&& text::has(r.prompt, PROMPT_OPENING@ + spec.intent)
            &&& text::has(
                r.prompt,
                "\n\nAcceptance criteria to check, in order:\n"@ + text::joined(
                    numbered(spec.criteria),
                    "\n"@,
                ),
            )
            &&& text::has(r.prompt, "\n\nThe diff:\n```diff\n"@ + diff_text)
            &&& text::has(r.prompt, text::decimal_of(spec.criteria.len()) + PROMPT_CLOSING@)
            &&& r.allowed_tools == seq!["Read"@, "Grep"@]
            &&& r.max_turns == max_turns && r.model == model && r.cwd == cwd
        }),
{
    let parts = seq![
        PROMPT_OPENING@,
        spec.intent,
        "\n\nAcceptance criteria to check, in order:\n"@,
        text::joined(numbered(spec.criteria), "\n"@),
        "\n\nThe diff:\n```diff\n"@,
        diff_text,
        PROMPT_QUESTION@,
        text::decimal_of(spec.criteria.len()),
        PROMPT_CLOSING@,
    ];
    text::lemma_glued_has(parts, 0, 2);
    assert(parts.subrange(0, 2) =~= seq![PROMPT_OPENING@, spec.intent]);
    text::lemma_glued_few(PROMPT_OPENING@, spec.intent, Seq::empty(), Seq::empty());
    text::lemma_glued_has(parts, 2, 4);
    assert(parts.subrange(2, 4) =~= seq!["\n\nAcceptance criteria to check, in order:\n"@, text::joined(numbered(spec.criteria), "\n"@)]);
    text::lemma_glued_few("\n\nAcceptance criteria to check, in order:\n"@, text::joined(numbered(spec.criteria), "\n"@), Seq::empty(), Seq::empty());
    text::lemma_glued_has(parts, 4, 6);
    assert(parts.subrange(4, 6) =~= seq!["\n\nThe diff:\n```diff\n"@, diff_text]);
    text::lemma_glued_few("\n\nThe diff:\n```diff\n"@, diff_text, Seq::empty(), Seq::empty());
    text::lemma_glued_has(parts, 7, 9);
    assert(parts.subrange(7, 9) =~= seq![text::decimal_of(spec.criteria.len()), PROMPT_CLOSING@]);
    text::lemma_glued_few(text::decimal_of(spec.criteria.len()), PROMPT_CLOSING@, Seq::empty(), Seq::empty());
}

} // verus!
